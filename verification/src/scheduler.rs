//! The bookkeeping of snapshot requests: which builds are under way, and to
//! which request a finished tree belongs.
//!
//! A request passes from idle to building when it is made, and from building
//! to delivered when its tree comes back. The scheduler runs nothing itself:
//! it says what is to be built and what is to be handed to the sink, and
//! whoever drives it does both.

use crate::node::TreeNode;
use crate::snapshot::Snapshot;
use crate::snapshot::SnapshotView;
use vstd::prelude::*;

verus! {

/// Where a request stands.
#[derive(Clone, Copy, Debug, PartialEq, Eq, Structural)]
pub enum Phase {
    /// The ticket was not given out yet.
    Idle,
    /// The build of the request is under way.
    Building,
    /// The request is over: its snapshot was handed out.
    Delivered,
}

/// A request whose build is under way.
pub struct Request {
    ticket: u64,
    root: String,
}

/// The requests that are under way, each under the ticket it was given.
pub struct SnapshotScheduler {
    issued: u64,
    building: Vec<Request>,
}

/// What the scheduler knows: how many tickets it gave out, and the requests
/// under way, oldest first, each as its ticket and its root path.
pub ghost struct SchedulerView {
    pub issued: nat,
    pub building: Seq<(nat, Seq<char>)>,
}

/// The place of a ticket among the requests under way, if it is there.
pub open spec fn is_building_at(view: SchedulerView, ticket: nat, at: int) -> bool {
    0 <= at < view.building.len() && view.building[at].0 == ticket
}

/// Where the request of a ticket stands.
pub open spec fn phase_of(view: SchedulerView, ticket: nat) -> Phase {
    if exists|at: int| is_building_at(view, ticket, at) {
        Phase::Building
    } else if ticket < view.issued {
        Phase::Delivered
    } else {
        Phase::Idle
    }
}

impl View for SnapshotScheduler {
    type V = SchedulerView;

    closed spec fn view(&self) -> SchedulerView {
        SchedulerView {
            issued: self.issued as nat,
            building: Seq::new(
                self.building@.len(),
                |i: int| (self.building@[i].ticket as nat, self.building@[i].root@),
            ),
        }
    }
}

impl SnapshotScheduler {
    /// The tickets of the requests under way rise from the oldest to the
    /// newest, and all of them were given out.
    pub open spec fn wf(&self) -> bool {
        &&& forall|i: int, j: int|
            0 <= i < j < self@.building.len() ==> self@.building[i].0 < self@.building[j].0
        &&& forall|i: int| 0 <= i < self@.building.len() ==> self@.building[i].0 < self@.issued
    }

    /// A scheduler without requests.
    pub fn new() -> (scheduler: SnapshotScheduler)
        ensures
            scheduler.wf(),
            scheduler@ == (SchedulerView { issued: 0, building: Seq::empty() }),
    {
        let scheduler = SnapshotScheduler { issued: 0, building: Vec::new() };
        assert(scheduler@.building =~= Seq::empty());
        scheduler
    }

    /// Takes a request for a snapshot of `root`. The request gets the next
    /// ticket and its build is under way from now on: the caller starts it.
    /// Once every ticket is given out no request is taken, and nothing will
    /// be delivered for it.
    pub fn request_snapshot(&mut self, root: String) -> (ticket: Option<u64>)
        requires
            old(self).wf(),
        ensures
            final(self).wf(),
            old(self)@.issued < u64::MAX ==> ticket == Some(old(self)@.issued as u64)
                && final(self)@ == (SchedulerView {
                issued: old(self)@.issued + 1,
                building: old(self)@.building.push((old(self)@.issued, root@)),
            }),
            old(self)@.issued >= u64::MAX ==> ticket is None && final(self)@ == old(self)@,
            ticket matches Some(given) ==> phase_of(old(self)@, given as nat) == Phase::Idle
                && phase_of(final(self)@, given as nat) == Phase::Building,
            forall|other: nat|
                (ticket matches Some(given) ==> other != given) ==> phase_of(final(self)@, other)
                    == phase_of(old(self)@, other),
    {
        if self.issued == u64::MAX {
            return None;
        }
        let ticket = self.issued;
        self.issued = ticket + 1;
        self.building.push(Request { ticket, root });
        proof {
            let before = old(self)@;
            let after = self@;
            assert(after.building =~= before.building.push((ticket as nat, root@)));
            assert(is_building_at(after, ticket as nat, before.building.len() as int));
            assert forall|other: nat| other != ticket implies phase_of(after, other) == phase_of(
                before,
                other,
            ) by {
                if exists|at: int| is_building_at(before, other, at) {
                    let at = choose|at: int| is_building_at(before, other, at);
                    assert(is_building_at(after, other, at));
                } else if exists|at: int| is_building_at(after, other, at) {
                    let at = choose|at: int| is_building_at(after, other, at);
                    assert(is_building_at(before, other, at));
                }
            }
        }
        Some(ticket)
    }

    /// Where the request of a ticket stands.
    pub fn phase(&self, ticket: u64) -> (phase: Phase)
        requires
            self.wf(),
        ensures
            phase == phase_of(self@, ticket as nat),
    {
        match self.find(ticket) {
            Some(_) => Phase::Building,
            None => if ticket < self.issued {
                Phase::Delivered
            } else {
                Phase::Idle
            },
        }
    }

    /// How many requests are under way.
    pub fn in_flight(&self) -> (count: usize)
        ensures
            count == self@.building.len(),
    {
        self.building.len()
    }

    /// The place of a ticket among the requests under way.
    fn find(&self, ticket: u64) -> (place: Option<usize>)
        ensures
            match place {
                Some(at) => is_building_at(self@, ticket as nat, at as int),
                None => forall|at: int| !is_building_at(self@, ticket as nat, at),
            },
    {
        let mut i: usize = 0;
        while i < self.building.len()
            invariant
                0 <= i <= self.building.len(),
                forall|at: int| 0 <= at < i ==> !is_building_at(self@, ticket as nat, at),
            decreases self.building.len() - i,
        {
            if self.building[i].ticket == ticket {
                return Some(i);
            }
            i += 1;
        }
        None
    }

    /// Takes the finished tree of a request. Where the build of the ticket
    /// is under way, the request is over: the snapshot of its root path and
    /// the tree is handed back for the sink, and the scheduler forgets the
    /// request. Any other ticket changes nothing and gets nothing, so no
    /// request is delivered twice.
    pub fn complete(&mut self, ticket: u64, tree: TreeNode) -> (delivery: Option<Snapshot>)
        requires
            old(self).wf(),
        ensures
            final(self).wf(),
            final(self)@.issued == old(self)@.issued,
            match delivery {
                Some(snapshot) => exists|at: int|
                    is_building_at(old(self)@, ticket as nat, at) && snapshot@ == (SnapshotView {
                        root_path: old(self)@.building[at].1,
                        tree: tree@,
                    }) && final(self)@.building == old(self)@.building.remove(at),
                None => phase_of(old(self)@, ticket as nat) != Phase::Building && final(self)@
                    == old(self)@,
            },
            delivery is Some ==> phase_of(old(self)@, ticket as nat) == Phase::Building
                && phase_of(final(self)@, ticket as nat) == Phase::Delivered,
            forall|other: nat|
                other != ticket ==> phase_of(final(self)@, other) == phase_of(old(self)@, other),
    {
        match self.find(ticket) {
            Some(at) => {
                let request = self.building.remove(at);
                proof {
                    let before = old(self)@;
                    let after = self@;
                    assert(after.building =~= before.building.remove(at as int));
                    assert(is_building_at(before, ticket as nat, at as int));
                    assert forall|k: int| !is_building_at(after, ticket as nat, k) by {
                        if 0 <= k < after.building.len() {
                            if k < at {
                                assert(before.building[k].0 < before.building[at as int].0);
                            } else {
                                assert(before.building[at as int].0 < before.building[k + 1].0);
                            }
                        }
                    }
                    assert forall|other: nat| other != ticket implies phase_of(after, other)
                        == phase_of(before, other) by {
                        if exists|k: int| is_building_at(before, other, k) {
                            let k = choose|k: int| is_building_at(before, other, k);
                            if k < at {
                                assert(is_building_at(after, other, k));
                            } else {
                                assert(is_building_at(after, other, k - 1));
                            }
                        } else if exists|k: int| is_building_at(after, other, k) {
                            let k = choose|k: int| is_building_at(after, other, k);
                            if k < at {
                                assert(is_building_at(before, other, k));
                            } else {
                                assert(is_building_at(before, other, k + 1));
                            }
                        }
                    }
                }
                Some(Snapshot::new(request.root, tree))
            },
            None => None,
        }
    }
}

} // verus!
