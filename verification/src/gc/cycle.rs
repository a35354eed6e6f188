//! The states that the collector goes through in each cycle.

use vstd::prelude::*;
use crate::gc::allocator::collecting::{next_cycle, Sweep};
use crate::gc::allocator::{GCAllocator, GCAllocatorView};
use crate::gc::collector::Destructor;

verus! {

/// Where the collector is in its cycle.
#[derive(Clone, Copy, Debug, PartialEq, Eq, Structural)]
pub enum CollectorState {
    /// Between two cycles.
    Idle,
    /// The other threads are being stopped.
    StoppingWorld,
    /// The registers, the stacks, the global data and the native heap are
    /// being scanned for candidate roots.
    ScanningRoots,
    /// The live blocks are being traced from the roots.
    Tracing,
    /// The heap has been swept, and the destructors of the swept blocks are
    /// being run.
    Sweeping,
    /// The swept blocks are being given to the allocators.
    Reclaiming,
}

impl CollectorState {
    /// The state that follows this one.
    pub open spec fn successor(self) -> CollectorState {
        match self {
            CollectorState::Idle => CollectorState::StoppingWorld,
            CollectorState::StoppingWorld => CollectorState::ScanningRoots,
            CollectorState::ScanningRoots => CollectorState::Tracing,
            CollectorState::Tracing => CollectorState::Sweeping,
            CollectorState::Sweeping => CollectorState::Reclaiming,
            CollectorState::Reclaiming => CollectorState::Idle,
        }
    }

    /// The state that follows this one.
    pub fn next(self) -> (r: CollectorState)
        ensures
            r == self.successor(),
    {
        match self {
            CollectorState::Idle => CollectorState::StoppingWorld,
            CollectorState::StoppingWorld => CollectorState::ScanningRoots,
            CollectorState::ScanningRoots => CollectorState::Tracing,
            CollectorState::Tracing => CollectorState::Sweeping,
            CollectorState::Sweeping => CollectorState::Reclaiming,
            CollectorState::Reclaiming => CollectorState::Idle,
        }
    }
}

/// The states follow each other in a ring of six.
pub proof fn lemma_cycle_of_states(state: CollectorState)
    ensures
        state.successor().successor().successor().successor().successor().successor() == state,
{
}

/// The collector: the state that it is in, and between the sweep and the end
/// of the cycle, what the sweep found.
pub struct Collector {
    state: CollectorState,
    sweep: Option<Sweep>,
}

impl Collector {
    /// The state that the collector is in.
    pub closed spec fn state_of(&self) -> CollectorState {
        self.state
    }

    /// The sweep that waits for the end of the cycle.
    pub closed spec fn sweep_of(&self) -> Option<Sweep> {
        self.sweep
    }

    /// Whether the collector goes with the allocator `gc`: outside the
    /// sweeping state nothing waits, and in it the sweep that waits is one of
    /// `gc`.
    pub open spec fn goes_with(&self, gc: GCAllocatorView) -> bool {
        if self.state_of() == CollectorState::Sweeping {
            self.sweep_of() matches Some(sweep) && sweep.of(gc)
        } else {
            self.sweep_of() is None
        }
    }

    /// A collector between cycles.
    pub fn new() -> (r: Self)
        ensures
            r.state_of() == CollectorState::Idle,
            r.sweep_of() is None,
    {
        Collector { state: CollectorState::Idle, sweep: None }
    }

    /// The state that the collector is in.
    pub fn state(&self) -> (r: CollectorState)
        ensures
            r == self.state_of(),
    {
        self.state
    }

    /// The time for a cycle has come: the world is to be stopped.
    pub fn timer_fired(&mut self)
        requires
            old(self).state_of() == CollectorState::Idle,
            old(self).sweep_of() is None,
        ensures
            final(self).state_of() == CollectorState::StoppingWorld,
            final(self).sweep_of() is None,
    {
        self.state = self.state.next();
    }

    /// The world is stopped, and the writes of the stopped threads are
    /// visible: the roots are to be scanned.
    pub fn world_stopped(&mut self)
        requires
            old(self).state_of() == CollectorState::StoppingWorld,
            old(self).sweep_of() is None,
        ensures
            final(self).state_of() == CollectorState::ScanningRoots,
            final(self).sweep_of() is None,
    {
        self.state = self.state.next();
    }

    /// The roots are scanned, with `candidates` found: the live blocks are
    /// traced and the heap is swept. Returned are the destructors that are
    /// to be run, while the world is stopped still, before the cycle ends.
    pub fn roots_scanned(&mut self, gc: &mut GCAllocator, candidates: &Vec<usize>) -> (due: Vec<
        Destructor,
    >)
        requires
            old(self).state_of() == CollectorState::ScanningRoots,
            old(self).sweep_of() is None,
            old(gc)@.wf(),
        ensures
            final(self).state_of() == CollectorState::Sweeping,
            final(self).goes_with(final(gc)@),
            final(gc)@.wf(),
            final(self).sweep_of() matches Some(sweep) && sweep.before() == old(gc)@
                && sweep.candidates() == candidates@ && sweep.due() == due@,
            final(gc)@.cycle == old(gc)@.cycle,
    {
        self.state = self.state.next();
        let (sweep, due): (Sweep, Vec<Destructor>) = gc.sweep(candidates);
        self.sweep = Some(sweep);
        self.state = self.state.next();
        due
    }

    /// The destructors are run: the swept blocks are reclaimed. The cycle is
    /// complete but for its being counted. The world is to be resumed.
    pub fn destructors_run(&mut self, gc: &mut GCAllocator)
        requires
            old(self).state_of() == CollectorState::Sweeping,
            old(self).goes_with(old(gc)@),
            old(gc)@.wf(),
        ensures
            final(self).state_of() == CollectorState::Reclaiming,
            final(self).sweep_of() is None,
            final(gc)@.wf(),
            old(self).sweep_of() matches Some(sweep) && sweep.before().collected(
                (GCAllocatorView { cycle: next_cycle(final(gc)@.cycle), ..final(gc)@ }),
                sweep.candidates(),
                sweep.due(),
            ) && final(gc)@.cycle == sweep.before().cycle,
            final(gc)@.cycle == old(gc)@.cycle,
            final(gc)@.pending == old(gc)@.pending,
    {
        match self.sweep.take() {
            Some(sweep) => {
                gc.reclaim(sweep);
            },
            None => {},
        }
        self.state = self.state.next();
    }

    /// The world runs again: the cycle is counted, and those that wait for it
    /// are to be woken.
    pub fn world_resumed(&mut self, gc: &mut GCAllocator)
        requires
            old(self).state_of() == CollectorState::Reclaiming,
            old(self).sweep_of() is None,
            old(gc)@.wf(),
        ensures
            final(self).state_of() == CollectorState::Idle,
            final(self).sweep_of() is None,
            final(gc)@.wf(),
            final(gc)@ == (GCAllocatorView { cycle: next_cycle(old(gc)@.cycle), ..old(gc)@ }),
    {
        gc.count_cycle();
        self.state = self.state.next();
    }
}

} // verus!
