//! A limit on how many large documents are read at a time.

use vstd::prelude::*;

verus! {

/// The size from which a file counts as large: 4 MB.
pub const HEAVY_FILE_SIZE_THRESHOLD: u64 = 4_194_304;

/// The number of large documents that are read at a time.
pub const MAX_CONCURRENT_HEAVY_EXTRACTIONS: usize = 2;

/// The right to read a large document.
#[derive(Debug)]
pub struct HeavyTaskPermit {
    _private: (),
}

/// What comes of asking for a permit.
#[derive(Debug)]
pub enum Acquisition {
    /// The search was cancelled.
    Cancelled,
    /// The permit is granted.
    Granted(HeavyTaskPermit),
    /// All permits are given out: ask again later.
    Wait,
}

/// Permits, and how many of them are free.
#[derive(Debug)]
pub struct HeavyTaskSemaphore {
    free: usize,
    max: usize,
}

impl HeavyTaskSemaphore {
    /// The number of free permits.
    pub closed spec fn available(&self) -> nat {
        self.free as nat
    }

    /// The number of permits in all.
    pub closed spec fn limit(&self) -> nat {
        self.max as nat
    }

    /// The number of permits that are given out.
    pub open spec fn given_out(&self) -> int {
        self.limit() - self.available()
    }

    /// No more permits are free than there are.
    pub open spec fn wf(&self) -> bool {
        self.available() <= self.limit()
    }

    /// A number of permits, all of them free.
    pub fn new(permits: usize) -> (r: HeavyTaskSemaphore)
        ensures
            r.wf(),
            r.available() == permits,
            r.limit() == permits,
    {
        HeavyTaskSemaphore { free: permits, max: permits }
    }

    /// Asks for a permit. A cancelled search gets none, even if one is free.
    pub fn acquire_cancellable(&mut self, cancelled: bool) -> (r: Acquisition)
        requires
            old(self).wf(),
        ensures
            final(self).wf(),
            final(self).limit() == old(self).limit(),
            r is Cancelled <==> cancelled,
            r is Granted <==> is_granted(old(self).available(), cancelled),
            r is Wait <==> !cancelled && old(self).available() == 0,
            final(self).available() == available_after(
                old(self).available(),
                PermitStep::Acquire { cancelled },
            ),
    {
        if cancelled {
            return Acquisition::Cancelled;
        }
        if self.free > 0 {
            self.free = self.free - 1;
            Acquisition::Granted(HeavyTaskPermit { _private: () })
        } else {
            Acquisition::Wait
        }
    }

    /// Gives a permit back.
    pub fn release(&mut self, permit: HeavyTaskPermit)
        requires
            old(self).wf(),
            old(self).given_out() > 0,
        ensures
            final(self).wf(),
            final(self).limit() == old(self).limit(),
            final(self).available() == available_after(
                old(self).available(),
                PermitStep::Release,
            ),
    {
        self.free = self.free + 1;
    }

    /// The number of free permits.
    pub fn available_permits(&self) -> (r: usize)
        ensures
            r == self.available(),
    {
        self.free
    }
}

/// What is done with permits.
pub enum PermitStep {
    /// A permit is asked for.
    Acquire {
        cancelled: bool,
    },
    /// A permit is given back.
    Release,
}

/// Whether a permit is granted, where so many are free.
pub open spec fn is_granted(available: nat, cancelled: bool) -> bool {
    !cancelled && available > 0
}

/// The number of free permits after a step.
pub open spec fn available_after(available: nat, step: PermitStep) -> nat {
    match step {
        PermitStep::Acquire { cancelled } => if is_granted(available, cancelled) {
            (available - 1) as nat
        } else {
            available
        },
        PermitStep::Release => available + 1,
    }
}

/// The number of free permits after some steps, where all were free before.
pub open spec fn available_after_all(limit: nat, steps: Seq<PermitStep>) -> nat
    decreases steps.len(),
{
    if steps.len() == 0 {
        limit
    } else {
        available_after(available_after_all(limit, steps.drop_last()), steps.last())
    }
}

/// The number of permits that were granted in some steps and not given back.
pub open spec fn held_after_all(limit: nat, steps: Seq<PermitStep>) -> int
    decreases steps.len(),
{
    if steps.len() == 0 {
        0
    } else {
        let held = held_after_all(limit, steps.drop_last());
        match steps.last() {
            PermitStep::Acquire { cancelled } => if is_granted(
                available_after_all(limit, steps.drop_last()),
                cancelled,
            ) {
                held + 1
            } else {
                held
            },
            PermitStep::Release => held - 1,
        }
    }
}

/// No permit is given back that is not held.
pub open spec fn gives_back_what_is_held(limit: nat, steps: Seq<PermitStep>) -> bool {
    forall|k: int|
        0 <= k < steps.len() && #[trigger] steps[k] is Release ==> held_after_all(
            limit,
            steps.take(k),
        ) > 0
}

/// Whatever is asked for and given back, never more permits are held than there are, and those
/// that are not held are free.
pub proof fn permits_are_limited(limit: nat, steps: Seq<PermitStep>)
    requires
        gives_back_what_is_held(limit, steps),
    ensures
        0 <= held_after_all(limit, steps) <= limit,
        held_after_all(limit, steps) + available_after_all(limit, steps) == limit,
    decreases steps.len(),
{
    if steps.len() > 0 {
        let front = steps.drop_last();
        assert forall|k: int| 0 <= k < front.len() && #[trigger] front[k] is Release implies
            held_after_all(limit, front.take(k)) > 0 by {
            assert(steps[k] is Release);
            assert(front.take(k) =~= steps.take(k));
        }
        permits_are_limited(limit, front);
        assert(steps.take(steps.len() - 1) =~= front);
    }
}

/// A permit that is granted is one less that is free, and one that is given back is one more;
/// who must wait, or was cancelled, takes none. Two large documents are read at a time.
pub proof fn permits_are_counted(available: nat)
    ensures
        available > 0 ==> is_granted(available, false) && available_after(
            available,
            PermitStep::Acquire { cancelled: false },
        ) == available - 1,
        available == 0 ==> !is_granted(available, false) && available_after(
            available,
            PermitStep::Acquire { cancelled: false },
        ) == 0,
        !is_granted(available, true),
        available_after(available, PermitStep::Acquire { cancelled: true }) == available,
        available_after(available, PermitStep::Release) == available + 1,
        available > 0 ==> available_after(
            available_after(available, PermitStep::Acquire { cancelled: false }),
            PermitStep::Release,
        ) == available,
        MAX_CONCURRENT_HEAVY_EXTRACTIONS == 2,
        HEAVY_FILE_SIZE_THRESHOLD == 4 * 1024 * 1024,
{
}

} // verus!
