//! Machines that input drives, and what makes them.
use vstd::prelude::*;

use crate::stream::InputStream;

verus! {

/// A machine that input drives, one opcode at a time.
pub trait Machine: Send + Sync + 'static {
    /// What a cycle may do: the machine before it, its opcode, the input that is left before it,
    /// the machine after it, and the input that is left then. It is up to the machine;
    /// one that says nothing may do anything.
    open spec fn may_cycle(&self, opcode: u8, input: Seq<u8>, after: &Self, rest: Seq<u8>) -> bool {
        true
    }

    /// Does what the opcode says, reading more input where that needs any.
    fn cycle(&mut self, opcode: u8, stream: &mut InputStream)
        ensures
            old(self).may_cycle(opcode, old(stream)@, final(self), final(stream)@),
    ;
}

/// What makes machines.
pub trait Spawner {
    /// The machines that are made.
    type Machine: Machine;

    /// How a machine may be made: the maker before, the input that is left before, the maker
    /// after, the machine, and the input that is left then. It is up to the maker; one that says
    /// nothing may make any.
    open spec fn may_spawn(
        &self,
        input: Seq<u8>,
        after: &Self,
        machine: &Self::Machine,
        rest: Seq<u8>,
    ) -> bool {
        true
    }

    /// Makes a machine, reading input where that needs any.
    fn spawn(&mut self, stream: &mut InputStream) -> (machine: Self::Machine)
        ensures
            old(self).may_spawn(old(stream)@, final(self), &machine, final(stream)@),
    ;
}

/// The work of one thread: the number the thread goes by, a machine, and the input that drives it.
pub struct Job<M> {
    pub id: u64,
    pub machine: M,
    pub stream: InputStream,
}

impl<M: Machine> Job<M> {
    /// Lets the machine do one cycle with the next opcode; `false` once the input is at its end.
    pub fn step(&mut self) -> (more: bool)
        ensures
            more <==> old(self).stream@.len() > 0,
            more ==> old(self).machine.may_cycle(
                old(self).stream@[0],
                old(self).stream@.skip(1),
                &final(self).machine,
                final(self).stream@,
            ),
            !more ==> final(self).machine == old(self).machine && final(self).stream@ == old(
                self,
            ).stream@,
            final(self).id == old(self).id,
    {
        match self.stream.read_u8() {
            Some(opcode) => {
                self.machine.cycle(opcode, &mut self.stream);
                true
            },
            None => false,
        }
    }
}

} // verus!
