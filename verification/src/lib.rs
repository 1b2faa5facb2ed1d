//! Slab allocators with deferred deallocation.
//!
//! [`slab`] is a slab with a single owner, and [`slab_laws`] says what holds of it. [`protocol`]
//! gives the same operations one memory access at a time, for a slab that threads share;
//! [`shared`] makes the accesses with atomics, and [`shared_laws`] says that their words are the
//! memory of [`world`]; [`world`] and [`world_laws`] show what holds however the accesses are
//! interleaved, and [`alone`] that an operation nobody interferes with does what its
//! namesake on the owned slab does. [`tagged`] is a slab whose links carry tags.
//!
//! The other modules drive slabs with input: [`stream`] and [`bytes`] read it, [`machine`],
//! [`config`] and [`executor`] decide which machines run on which threads, [`executor_laws`] says
//! what each step of a run means, and [`fuzz`] is a machine that exercises a slab, with [`values`]
//! for its bookkeeping and [`fuzz_laws`] for what its operations do and why its checks hold.
pub mod alone;
pub mod bytes;
pub mod config;
pub mod executor;
pub mod executor_laws;
pub mod fuzz;
pub mod fuzz_laws;
pub mod list;
pub mod machine;
pub mod protocol;
pub mod shared;
pub mod shared_laws;
pub mod slab;
pub mod slab_laws;
pub mod stream;
pub mod tag;
pub mod tagged;
pub mod values;
pub mod world;
pub mod world_laws;

pub use tagged::{AllocError, DeallocDeferral, SlabAlloc, SlabPtr};
