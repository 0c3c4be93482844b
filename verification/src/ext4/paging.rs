//! Paging the requests of an object in and out.

use vstd::prelude::*;

use crate::ext4::store;

verus! {

/// A step of paging an object.
#[derive(Clone, Copy, Debug, PartialEq, Eq, Structural)]
pub enum PagingStep {
    /// Find the blocks behind the pages of this request.
    Lookup(usize),
    /// Move the pages of this request.
    Transfer(usize),
    /// Flush the file system.
    Flush,
    /// Every request has been carried out.
    Done,
}

/// How the requests of an object are carried out, step by step.
#[derive(Clone, Copy, Debug, PartialEq, Eq, Structural)]
pub struct ObjectPaging {
    /// How many requests there are.
    pub requests: usize,
    /// Whether a flush comes last.
    pub flush: bool,
}

impl ObjectPaging {
    /// The step once every page is moved.
    pub open spec fn last_step(self) -> PagingStep {
        if self.flush {
            PagingStep::Flush
        } else {
            PagingStep::Done
        }
    }

    /// The first step.
    pub open spec fn first_step(self) -> PagingStep {
        if self.requests > 0 {
            PagingStep::Lookup(0)
        } else {
            self.last_step()
        }
    }

    /// The step that follows another one.
    pub open spec fn following(self, step: PagingStep) -> PagingStep {
        match step {
            PagingStep::Lookup(i) => if i + 1 < self.requests {
                PagingStep::Lookup((i + 1) as usize)
            } else {
                PagingStep::Transfer(0)
            },
            PagingStep::Transfer(i) => if i + 1 < self.requests {
                PagingStep::Transfer((i + 1) as usize)
            } else {
                self.last_step()
            },
            PagingStep::Flush => PagingStep::Done,
            PagingStep::Done => PagingStep::Done,
        }
    }

    /// The steps, but for the end: the blocks of every request are found before any page is moved.
    pub open spec fn steps(self) -> Seq<PagingStep> {
        Seq::new(
            2 * self.requests as nat + if self.flush {
                1nat
            } else {
                0
            },
            |i: int|
                if i < self.requests {
                    PagingStep::Lookup(i as usize)
                } else if i < 2 * self.requests {
                    PagingStep::Transfer((i - self.requests) as usize)
                } else {
                    PagingStep::Flush
                },
        )
    }

    /// Paging requests in.
    pub fn paging_in(requests: usize) -> (paging: ObjectPaging)
        ensures
            paging == (ObjectPaging { requests, flush: false }),
    {
        ObjectPaging { requests, flush: false }
    }

    /// Paging requests out. A file that was made longer for them is flushed.
    pub fn paging_out(requests: usize, extended: bool) -> (paging: ObjectPaging)
        ensures
            paging == (ObjectPaging { requests, flush: extended }),
    {
        ObjectPaging { requests, flush: store::page_out_flushes(extended) }
    }

    fn ending(&self) -> (step: PagingStep)
        ensures
            step == self.last_step(),
    {
        if self.flush {
            PagingStep::Flush
        } else {
            PagingStep::Done
        }
    }

    /// The first step.
    pub fn first(&self) -> (step: PagingStep)
        ensures
            step == self.first_step(),
    {
        if self.requests > 0 {
            PagingStep::Lookup(0)
        } else {
            self.ending()
        }
    }

    /// The step that follows another one.
    pub fn after(&self, step: PagingStep) -> (next: PagingStep)
        ensures
            next == self.following(step),
    {
        match step {
            PagingStep::Lookup(i) => {
                if i < self.requests && i + 1 < self.requests {
                    PagingStep::Lookup(i + 1)
                } else {
                    PagingStep::Transfer(0)
                }
            },
            PagingStep::Transfer(i) => {
                if i < self.requests && i + 1 < self.requests {
                    PagingStep::Transfer(i + 1)
                } else {
                    self.ending()
                }
            },
            PagingStep::Flush => PagingStep::Done,
            PagingStep::Done => PagingStep::Done,
        }
    }
}

/// Every request is carried out once and in order, all of them looked up before the first one is
/// moved, so that a request whose blocks cannot be found leaves all of them unmoved; and a flush
/// comes last where there is one.
pub proof fn lemma_paging_steps_follow(paging: ObjectPaging)
    ensures
        ({
            let steps = paging.steps();
            &&& steps.len() > 0 ==> steps[0] == paging.first_step()
            &&& steps.len() == 0 ==> paging.first_step() == PagingStep::Done
            &&& forall|i: int|
                0 < i < steps.len() ==> #[trigger] steps[i] == paging.following(steps[i - 1])
            &&& steps.len() > 0 ==> paging.following(steps.last()) == PagingStep::Done
        }),
{
}

/// Each request is looked up once and moved once, in the order of the requests. Every lookup comes
/// before every move, and a flush, if there is to be one, after all of them.
pub proof fn lemma_lookups_come_first(paging: ObjectPaging, i: int, j: int)
    requires
        0 <= i < paging.requests,
        0 <= j < paging.requests,
    ensures
        ({
            let steps = paging.steps();
            let n = paging.requests as int;
            &&& steps[i] == PagingStep::Lookup(i as usize)
            &&& steps[n + j] == PagingStep::Transfer(j as usize)
            &&& paging.flush ==> steps.len() == 2 * n + 1 && steps[2 * n] is Flush
            &&& !paging.flush ==> steps.len() == 2 * n
        }),
{
}

/// Where there is nothing to move, all that is left is a flush, if there is to be one.
pub proof fn lemma_nothing_to_page(paging: ObjectPaging)
    requires
        paging.requests == 0,
    ensures
        paging.flush ==> paging.first_step() is Flush && paging.steps() == seq![PagingStep::Flush],
        !paging.flush ==> paging.first_step() is Done && paging.steps().len() == 0,
{
    if paging.flush {
        assert(paging.steps() =~= seq![PagingStep::Flush]);
    }
}

} // verus!
