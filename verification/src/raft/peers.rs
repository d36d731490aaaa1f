//! Small tables keyed by cluster member: one number per member, and sets of
//! members.

use vstd::prelude::*;

use super::types::NodeId;

verus! {

/// How long ago `at` was, at time `now`.
pub open spec fn elapsed(now: u64, at: u64) -> int {
    if now >= at {
        now - at
    } else {
        0
    }
}

/// One number per member.
#[derive(Debug)]
pub struct PeerTable {
    rows: Vec<(NodeId, u64)>,
}

/// Whether a row for `id` is among `rows`.
pub closed spec fn listed(rows: Seq<(NodeId, u64)>, id: NodeId) -> bool {
    exists|i: int| 0 <= i < rows.len() && (#[trigger] rows[i]).0 == id
}

/// The number in the row for `id`.
pub closed spec fn listed_value(rows: Seq<(NodeId, u64)>, id: NodeId) -> u64 {
    rows[choose|i: int| 0 <= i < rows.len() && (#[trigger] rows[i]).0 == id].1
}

impl View for PeerTable {
    type V = Map<NodeId, u64>;

    closed spec fn view(&self) -> Map<NodeId, u64> {
        Map::new(|id: NodeId| listed(self.rows@, id), |id: NodeId| listed_value(self.rows@, id))
    }
}

impl PeerTable {
    /// No member has two rows.
    pub closed spec fn wf(&self) -> bool {
        forall|i: int, j: int|
            #![trigger self.rows[i], self.rows[j]]
            0 <= i < j < self.rows.len() ==> self.rows[i].0 != self.rows[j].0
    }

    /// A table without members.
    pub fn new() -> (table: Self)
        ensures
            table.wf(),
            table@ == Map::<NodeId, u64>::empty(),
    {
        let table = PeerTable { rows: Vec::new() };
        assert(table@ =~= Map::<NodeId, u64>::empty());
        table
    }

    /// The same number for each of `peers`.
    pub fn filled(peers: &Vec<NodeId>, value: u64) -> (table: Self)
        ensures
            table.wf(),
            table@ == Map::new(|id: NodeId| peers@.contains(id), |id: NodeId| value),
    {
        let mut table = PeerTable::new();
        let mut i: usize = 0;
        assert(table@ =~= Map::new(|id: NodeId| peers@.take(0).contains(id), |id: NodeId| value));
        while i < peers.len()
            invariant
                i <= peers.len(),
                table.wf(),
                table@ == Map::new(
                    |id: NodeId| peers@.take(i as int).contains(id),
                    |id: NodeId| value,
                ),
            decreases peers.len() - i,
        {
            table.set(peers[i], value);
            proof {
                let next = peers@.take(i + 1);
                assert(next.drop_last() =~= peers@.take(i as int));
                assert forall|id: NodeId| next.contains(id) <==> (peers@.take(i as int).contains(
                    id,
                ) || id == peers[i as int]) by {
                    if peers@.take(i as int).contains(id) {
                        let k = choose|k: int|
                            0 <= k < i && #[trigger] peers@.take(i as int)[k] == id;
                        assert(next[k] == id);
                    }
                    assert(next[i as int] == peers[i as int]);
                    if next.contains(id) && id != peers[i as int] {
                        let k = choose|k: int| 0 <= k < next.len() && #[trigger] next[k] == id;
                        assert(peers@.take(i as int)[k] == id);
                    }
                }
                assert(table@ =~= Map::new(|id: NodeId| next.contains(id), |id: NodeId| value));
            }
            i += 1;
        }
        assert(peers@.take(peers.len() as int) =~= peers@);
        table
    }

    /// Where the row for `id` stands.
    fn find(&self, id: NodeId) -> (found: Option<usize>)
        requires
            self.wf(),
        ensures
            match found {
                Some(i) => {
                    &&& i < self.rows.len()
                    &&& self.rows[i as int].0 == id
                    &&& self@.contains_key(id)
                    &&& self@[id] == self.rows[i as int].1
                },
                None => {
                    &&& !self@.contains_key(id)
                    &&& forall|i: int|
                        #![trigger self.rows[i]]
                        0 <= i < self.rows.len() ==> self.rows[i].0 != id
                },
            },
    {
        let mut i: usize = 0;
        while i < self.rows.len()
            invariant
                i <= self.rows.len(),
                self.wf(),
                forall|j: int| #![trigger self.rows[j]] 0 <= j < i ==> self.rows[j].0 != id,
            decreases self.rows.len() - i,
        {
            if self.rows[i].0 == id {
                assert(self.rows@[i as int].0 == id);
                return Some(i);
            }
            i += 1;
        }
        None
    }

    /// The number of `id`, if it has one.
    pub fn get(&self, id: NodeId) -> (value: Option<u64>)
        requires
            self.wf(),
        ensures
            value == if self@.contains_key(id) {
                Some(self@[id])
            } else {
                None
            },
    {
        match self.find(id) {
            Some(i) => Some(self.rows[i].1),
            None => None,
        }
    }

    /// Sets the number of `id`.
    pub fn set(&mut self, id: NodeId, value: u64)
        requires
            old(self).wf(),
        ensures
            final(self).wf(),
            final(self)@ == old(self)@.insert(id, value),
    {
        match self.find(id) {
            Some(i) => {
                self.rows.set(i, (id, value));
                proof {
                    let before = old(self).rows@;
                    let after = self.rows@;
                    assert(after[i as int] == (id, value));
                    assert forall|k: NodeId| listed(after, k) == listed(before, k) by {
                        if listed(before, k) {
                            let j = choose|j: int|
                                0 <= j < before.len() && (#[trigger] before[j]).0 == k;
                            assert(after[j].0 == k);
                        }
                        if listed(after, k) {
                            let j = choose|j: int|
                                0 <= j < after.len() && (#[trigger] after[j]).0 == k;
                            assert(before[j].0 == k);
                        }
                    }
                    assert forall|k: NodeId| listed(after, k) implies listed_value(after, k)
                        == old(self)@.insert(id, value)[k] by {
                        let j = choose|j: int| 0 <= j < after.len() && (#[trigger] after[j]).0 == k;
                        if k == id {
                            if j != i {
                                assert(before[j].0 == before[i as int].0);
                            }
                        } else {
                            let b = choose|b: int|
                                0 <= b < before.len() && (#[trigger] before[b]).0 == k;
                            assert(before[j].0 == k);
                            assert(before[b].0 == k);
                            assert(b == j);
                        }
                    }
                    assert(self@ =~= old(self)@.insert(id, value));
                }
            },
            None => {
                self.rows.push((id, value));
                proof {
                    let before = old(self).rows@;
                    let after = self.rows@;
                    assert(after[before.len() as int] == (id, value));
                    assert forall|k: NodeId| listed(after, k) == (listed(before, k) || k == id) by {
                        if listed(before, k) {
                            let j = choose|j: int|
                                0 <= j < before.len() && (#[trigger] before[j]).0 == k;
                            assert(after[j].0 == k);
                        }
                        if listed(after, k) && k != id {
                            let j = choose|j: int|
                                0 <= j < after.len() && (#[trigger] after[j]).0 == k;
                            assert(before[j].0 == k);
                        }
                    }
                    assert forall|k: NodeId| listed(after, k) implies listed_value(after, k)
                        == old(self)@.insert(id, value)[k] by {
                        let j = choose|j: int| 0 <= j < after.len() && (#[trigger] after[j]).0 == k;
                        if k == id {
                            if j != before.len() {
                                assert(before[j].0 == id);
                            }
                        } else {
                            assert(before[j].0 == k);
                            let b = choose|b: int|
                                0 <= b < before.len() && (#[trigger] before[b]).0 == k;
                            assert(before[b].0 == k);
                            assert(b == j);
                        }
                    }
                    assert(self@ =~= old(self)@.insert(id, value));
                }
            },
        }
    }
}

/// A set of members.
#[derive(Debug)]
pub struct VoteSet {
    ids: Vec<NodeId>,
}

impl View for VoteSet {
    type V = Set<NodeId>;

    closed spec fn view(&self) -> Set<NodeId> {
        self.ids@.to_set()
    }
}

impl VoteSet {
    /// No member is listed twice.
    pub closed spec fn wf(&self) -> bool {
        self.ids@.no_duplicates()
    }

    /// No member.
    pub fn new() -> (votes: Self)
        ensures
            votes.wf(),
            votes@ == Set::<NodeId>::empty(),
    {
        let votes = VoteSet { ids: Vec::new() };
        assert(votes@ =~= Set::<NodeId>::empty());
        votes
    }

    /// The set of one member.
    pub fn of(id: NodeId) -> (votes: Self)
        ensures
            votes.wf(),
            votes@ == Set::<NodeId>::empty().insert(id),
    {
        let mut ids: Vec<NodeId> = Vec::new();
        ids.push(id);
        let votes = VoteSet { ids };
        assert(votes@ =~= Set::<NodeId>::empty().insert(id)) by {
            assert(ids@[0] == id);
        }
        votes
    }

    /// Adds a member.
    pub fn insert(&mut self, id: NodeId)
        requires
            old(self).wf(),
        ensures
            final(self).wf(),
            final(self)@ == old(self)@.insert(id),
    {
        let mut i: usize = 0;
        while i < self.ids.len()
            invariant
                i <= self.ids.len(),
                *self == *old(self),
                old(self).wf(),
                forall|j: int| #![trigger self.ids[j]] 0 <= j < i ==> self.ids[j] != id,
            decreases self.ids.len() - i,
        {
            if self.ids[i] == id {
                assert(self@ =~= old(self)@.insert(id)) by {
                    assert(self.ids@.contains(id));
                }
                return;
            }
            i += 1;
        }
        self.ids.push(id);
        proof {
            let before = old(self).ids@;
            assert(self.ids@ == before.push(id));
            assert forall|k: NodeId|
                #[trigger] self.ids@.contains(k) <==> (before.contains(k) || k == id) by {
                if before.contains(k) {
                    let j = choose|j: int| 0 <= j < before.len() && #[trigger] before[j] == k;
                    assert(self.ids@[j] == k);
                }
                assert(self.ids@[before.len() as int] == id);
            }
            assert(self@ =~= old(self)@.insert(id));
        }
    }

    /// Whether `id` is a member.
    pub fn contains(&self, id: NodeId) -> (found: bool)
        ensures
            found == self@.contains(id),
    {
        let mut i: usize = 0;
        while i < self.ids.len()
            invariant
                i <= self.ids.len(),
                forall|j: int| 0 <= j < i ==> self.ids@[j] != id,
            decreases self.ids.len() - i,
        {
            if self.ids[i] == id {
                assert(self.ids@[i as int] == id);
                assert(self.ids@.contains(id));
                return true;
            }
            i += 1;
        }
        false
    }
}

} // verus!
