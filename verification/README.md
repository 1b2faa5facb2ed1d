# allockator

Fixed-capacity slab allocators whose deallocations can be deferred: while a deferral is open, a slot
that is given back goes to a garbage list and is not handed out again.

The library in `src/` is written in Verus; every function carries a contract, and the modules whose
names end in `laws` state what follows from the contracts together.

| Modules | What they hold |
| --- | --- |
| `list`, `slab`, `slab_laws` | the lists of slots, and a slab with a single owner |
| `protocol`, `shared` | the same operations for a slab that threads share, one atomic access at a time |
| `world`, `world_laws`, `alone` | what holds of the shared slab for every interleaving, and for an operation that nobody interferes with |
| `tag`, `tagged` | a slab whose links carry a tag |
| `stream`, `bytes`, `machine`, `config`, `executor` | machines that input drives, and the decisions about the threads they run on |
| `values`, `fuzz`, `fuzz_laws` | a machine that exercises a slab and checks what its slots hold |

The interleavings of `world` are those of a memory in which all threads see all accesses in one
order.

`app/` is ordinary Rust: the shared slab over raw memory, the threads of a run, and the fuzz target.
