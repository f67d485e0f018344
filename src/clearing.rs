use vstd::prelude::*;
use crate::camera::{asks, list_url, read_list, remove_url, Camera};
use crate::codec::{decoded, lists, Car, Plate};
use crate::protocol::{
    reply_outcome, write_outcome, write_status, CameraError, Fault, Reply, Request,
};
use vstd::string::*;

verus! {

/// The pause between two removals, in milliseconds, that spares the
/// camera's small HTTP server.
pub const PAUSE_MS: u64 = 500;

/// Where a clearing stands.
#[derive(Debug, PartialEq, Eq)]
pub enum Stage {
    /// The plate list was asked for.
    Listing,
    /// The removal of `pending[removed]` was asked for.
    Removing,
    /// The clearing has ended.
    Done,
}

/// What the caller does next for a clearing.
#[derive(Debug, PartialEq, Eq)]
pub enum Action {
    /// Wait `delay_ms` milliseconds, send `request`, and hand the reply to `step`.
    Send { request: Request, delay_ms: u64 },
    /// The clearing has ended: the number of plates removed, or the first failure.
    Finish(Result<usize, CameraError>),
}

/// The removal of every entry whose last day is a given date: the plate
/// list is read, then the matching plates are removed one at a time, with a
/// pause between two removals. The first failure ends it, a removal that
/// the camera answers with another text than `OK` included.
pub struct Clearing {
    pub end_date: String,
    pub pending: Vec<Car>,
    pub removed: usize,
    pub stage: Stage,
}

/// The entries of `v` whose last day is `date`, in the order of `v`.
pub open spec fn matching(v: Seq<(usize, Car)>, date: Seq<char>) -> Seq<Plate>
    decreases v.len(),
{
    if v.len() == 0 {
        Seq::empty()
    } else if v.last().1.end_date@ == date {
        matching(v.drop_last(), date).push(v.last().1@)
    } else {
        matching(v.drop_last(), date)
    }
}

/// The views of the entries of `cars`.
pub open spec fn plates(cars: Seq<Car>) -> Seq<Plate> {
    cars.map_values(|c: Car| c@)
}

/// What follows the removal of `pending[k]` where `k` is the next to go:
/// its request, after `delay` milliseconds.
pub open spec fn sends_removal(a: Action, cam: Camera, c: Clearing, k: int, delay: u64) -> bool {
    &&& a is Send
    &&& asks(a->Send_request, cam, remove_url(cam.ip@, c.pending@[k].number@))
    &&& a->Send_delay_ms == delay
}

impl Clearing {
    /// The state is consistent with its stage.
    pub open spec fn wf(&self) -> bool {
        match self.stage {
            Stage::Removing => self.removed < self.pending@.len(),
            _ => self.removed <= self.pending@.len(),
        }
    }

    /// A clearing of the entries whose last day is `end_date`, and the
    /// request for the plate list with which it begins.
    pub fn new(camera: &Camera, end_date: String) -> (r: (Clearing, Request))
        ensures
            r.0.wf(),
            r.0.end_date == end_date,
            r.0.pending@.len() == 0,
            r.0.removed == 0,
            r.0.stage is Listing,
            asks(r.1, *camera, list_url(camera.ip@)),
    {
        let c = Clearing { end_date, pending: Vec::new(), removed: 0, stage: Stage::Listing };
        (c, camera.list_numbers())
    }

    /// Takes the reply to the last request and says what to do next. A
    /// clearing that has ended stays as it is and repeats its count.
    pub fn step(&mut self, camera: &Camera, reply: Reply) -> (a: Action)
        requires
            old(self).wf(),
        ensures
            final(self).wf(),
            final(self).end_date == old(self).end_date,
            old(self).stage is Listing ==> match reply_outcome(reply) {
                Err(f) => a is Finish && a->Finish_0 is Err && a->Finish_0->Err_0@ == f
                    && final(self).stage is Done,
                Ok(body) => match decoded(body) {
                    None => a is Finish && a->Finish_0 is Err && a->Finish_0->Err_0@
                        == Fault::MalformedResponse && final(self).stage is Done,
                    Some(m) => {
                        &&& exists|v: Seq<(usize, Car)>|
                            lists(v, m) && #[trigger] matching(v, old(self).end_date@) == plates(
                                final(self).pending@,
                            )
                        &&& final(self).removed == 0
                        &&& final(self).pending@.len() == 0 ==> a == Action::Finish(Ok(0))
                            && final(self).stage is Done
                        &&& final(self).pending@.len() > 0 ==> sends_removal(
                            a,
                            *camera,
                            *final(self),
                            0,
                            0,
                        ) && final(self).stage is Removing
                    },
                },
            },
            old(self).stage is Removing ==> {
                &&& final(self).pending == old(self).pending
                &&& match write_outcome(reply) {
                    Err(f) => a is Finish && a->Finish_0 is Err && a->Finish_0->Err_0@ == f
                        && final(self).stage is Done && final(self).removed == old(self).removed,
                    Ok(text) => if text != "OK"@ {
                        a is Finish && a->Finish_0 is Err && a->Finish_0->Err_0@ == Fault::Device(text)
                            && final(self).stage is Done && final(self).removed == old(self).removed
                    } else {
                        &&& final(self).removed == old(self).removed + 1
                        &&& final(self).removed == final(self).pending@.len() ==> a
                            == Action::Finish(Ok(final(self).removed)) && final(self).stage is Done
                        &&& final(self).removed < final(self).pending@.len() ==> sends_removal(
                            a,
                            *camera,
                            *final(self),
                            final(self).removed as int,
                            PAUSE_MS,
                        ) && final(self).stage is Removing
                    },
                }
            },
            old(self).stage is Done ==> a == Action::Finish(Ok(old(self).removed)) && *final(self)
                == *old(self),
    {
        match self.stage {
            Stage::Listing => {
                match read_list(reply) {
                    Err(e) => {
                        self.stage = Stage::Done;
                        Action::Finish(Err(e))
                    },
                    Ok(v) => {
                        let pending = self.select(&v);
                        self.pending = pending;
                        self.removed = 0;
                        if self.pending.len() == 0 {
                            self.stage = Stage::Done;
                            Action::Finish(Ok(0))
                        } else {
                            self.stage = Stage::Removing;
                            let request = camera.remove(&self.pending[0]);
                            Action::Send { request, delay_ms: 0 }
                        }
                    },
                }
            },
            Stage::Removing => {
                match write_status(reply) {
                    Err(e) => {
                        self.stage = Stage::Done;
                        Action::Finish(Err(e))
                    },
                    Ok(text) => {
                        if !(text == String::from_str("OK")) {
                            self.stage = Stage::Done;
                            return Action::Finish(Err(CameraError::Device(text)));
                        }
                        let n = self.pending.len();
                        self.removed = self.removed + 1;
                        if self.removed == n {
                            self.stage = Stage::Done;
                            Action::Finish(Ok(self.removed))
                        } else {
                            let request = camera.remove(&self.pending[self.removed]);
                            Action::Send { request, delay_ms: PAUSE_MS }
                        }
                    },
                }
            },
            Stage::Done => Action::Finish(Ok(self.removed)),
        }
    }

    /// The cars of `v` whose last day is this clearing's date, in order.
    fn select(&self, v: &Vec<(usize, Car)>) -> (r: Vec<Car>)
        ensures
            plates(r@) == matching(v@, self.end_date@),
    {
        let mut r: Vec<Car> = Vec::new();
        let mut i: usize = 0;
        while i < v.len()
            invariant
                i <= v@.len(),
                plates(r@) == matching(v@.subrange(0, i as int), self.end_date@),
            decreases v@.len() - i,
        {
            let ghost before = r@;
            assert(v@.subrange(0, i + 1).drop_last() =~= v@.subrange(0, i as int));
            if v[i].1.end_date == self.end_date {
                let car = Car {
                    number: v[i].1.number.clone(),
                    begin_date: v[i].1.begin_date.clone(),
                    end_date: v[i].1.end_date.clone(),
                };
                r.push(car);
                assert(plates(r@) =~= plates(before).push(v@[i as int].1@));
            }
            i = i + 1;
        }
        assert(v@.subrange(0, v@.len() as int) =~= v@);
        r
    }
}

} // verus!
