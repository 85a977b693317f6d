use vstd::prelude::*;

verus! {

/// The state that lets idle workers park without missing a wake-up: an
/// epoch that every wake-up advances.
#[derive(Copy, Clone, Debug, PartialEq, Eq, Structural)]
pub struct ParkState {
    pub epoch: u64,
}

/// What a worker saw when it prepared to park, before its last look for work.
#[derive(Copy, Clone, Debug, PartialEq, Eq, Structural)]
pub struct ParkToken {
    pub seen: u64,
}

impl ParkState {
    pub fn new() -> (r: Self)
        ensures
            r.epoch == 0,
    {
        ParkState { epoch: 0 }
    }

    /// Taken before the worker's last look for work.
    pub fn prepare_park(&self) -> (t: ParkToken)
        ensures
            t.seen == self.epoch,
    {
        ParkToken { seen: self.epoch }
    }

    /// Records a wake-up; one parked worker is then to be woken.
    pub fn unpark_one(&mut self)
        ensures
            final(self).epoch == (if old(self).epoch == u64::MAX {
                0
            } else {
                (old(self).epoch + 1) as u64
            }),
    {
        self.epoch = self.epoch.wrapping_add(1);
    }

    /// Whether a worker holding `token` is to keep waiting: only while no
    /// wake-up happened since it took the token.
    pub fn must_wait(&self, token: &ParkToken) -> (r: bool)
        ensures
            r == (self.epoch == token.seen),
    {
        self.epoch == token.seen
    }
}

/// No missed wake-up: a wake-up recorded after a worker prepared to park,
/// even one that came before it actually parks, lets that worker through.
pub proof fn lemma_no_missed_wakeup(before: ParkState, token: ParkToken, after: ParkState)
    requires
        token.seen == before.epoch,
        after.epoch == (if before.epoch == u64::MAX {
            0
        } else {
            (before.epoch + 1) as u64
        }),
    ensures
        after.epoch != token.seen,
{
}

} // verus!
