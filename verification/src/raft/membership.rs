//! Cluster membership: who belongs to the cluster, and where each member can
//! be reached.

use std::collections::HashMap;
use std::sync::Arc;

use vstd::prelude::*;

use super::types::{share, Command, LogEntry, NodeId};
use crate::config::texts;
use crate::text::same_text;

verus! {

/// Where a member can be reached.
#[derive(Debug, PartialEq, Eq)]
pub struct MemberAddr {
    /// Raft address (`host:port`).
    pub raft: String,
    /// Client base URL.
    pub client: String,
}

/// A member's addresses, as texts.
#[verifier::ext_equal]
pub struct AddrModel {
    pub raft: Seq<char>,
    pub client: Seq<char>,
}

impl View for MemberAddr {
    type V = AddrModel;

    open spec fn view(&self) -> AddrModel {
        AddrModel { raft: self.raft@, client: self.client@ }
    }
}

impl Clone for MemberAddr {
    fn clone(&self) -> (copy: Self)
        ensures
            copy == *self,
    {
        MemberAddr { raft: self.raft.clone(), client: self.client.clone() }
    }
}

/// The complete configuration of a cluster: its members in ascending order,
/// with their addresses.
#[derive(Debug, PartialEq, Eq)]
pub struct Membership {
    rows: Vec<(NodeId, MemberAddr)>,
}

impl Membership {
    /// The members' ids, in order.
    pub closed spec fn ids(&self) -> Seq<NodeId> {
        self.rows@.map_values(|row: (NodeId, MemberAddr)| row.0)
    }

    /// Each member's addresses.
    pub closed spec fn addrs(&self) -> Map<NodeId, AddrModel> {
        Map::new(
            |id: NodeId| self.ids().contains(id),
            |id: NodeId| self.rows[self.ids().index_of(id)].1@,
        )
    }

    /// The members are listed in ascending order.
    #[verifier::type_invariant]
    closed spec fn in_order(self) -> bool {
        ascending(self.ids())
    }

    /// No member.
    pub fn new() -> (members: Self)
        ensures
            members.ids() == Seq::<NodeId>::empty(),
            ascending(members.ids()),
            members.addrs() == Map::<NodeId, AddrModel>::empty(),
    {
        let rows: Vec<(NodeId, MemberAddr)> = Vec::new();
        let members = Membership { rows };
        assert(members.ids() =~= Seq::<NodeId>::empty());
        assert(members.addrs() =~= Map::<NodeId, AddrModel>::empty());
        members
    }

    /// How many members there are.
    pub fn len(&self) -> (len: usize)
        ensures
            len == self.ids().len(),
    {
        self.rows.len()
    }

    /// The id of the member at position `i`.
    pub fn id_at(&self, i: usize) -> (id: NodeId)
        requires
            i < self.ids().len(),
        ensures
            id == self.ids()[i as int],
    {
        self.rows[i].0
    }

    /// The addresses of the member at position `i`.
    pub fn addr_at(&self, i: usize) -> (addr: &MemberAddr)
        requires
            i < self.ids().len(),
        ensures
            self.addrs().contains_key(self.ids()[i as int]),
            addr@ == self.addrs()[self.ids()[i as int]],
    {
        proof {
            use_type_invariant(self);
            lemma_place(self.ids(), i as int);
        }
        &self.rows[i].1
    }

    /// A copy of the members' ids, in order.
    pub fn to_ids(&self) -> (ids: Vec<NodeId>)
        ensures
            ids@ == self.ids(),
            ascending(ids@),
    {
        proof {
            use_type_invariant(self);
        }
        let mut ids: Vec<NodeId> = Vec::with_capacity(self.rows.len());
        let mut i: usize = 0;
        while i < self.rows.len()
            invariant
                i <= self.rows.len(),
                ids@ == self.ids().take(i as int),
            decreases self.rows.len() - i,
        {
            ids.push(self.rows[i].0);
            i += 1;
            assert(ids@ =~= self.ids().take(i as int));
        }
        assert(self.ids().take(self.rows.len() as int) =~= self.ids());
        ids
    }

    /// Where `id` stands, or where it would have to.
    fn place(&self, id: NodeId) -> (place: (usize, bool))
        ensures
            place.0 <= self.rows.len(),
            forall|j: int| #![trigger self.ids()[j]] 0 <= j < place.0 ==> self.ids()[j] < id,
            forall|j: int|
                #![trigger self.ids()[j]]
                place.0 <= j < self.ids().len() ==> self.ids()[j] >= id,
            place.1 == self.ids().contains(id),
            place.1 ==> place.0 < self.rows.len() && self.ids()[place.0 as int] == id,
    {
        proof {
            use_type_invariant(self);
        }
        let mut i: usize = 0;
        while i < self.rows.len() && self.rows[i].0 < id
            invariant
                i <= self.rows.len(),
                forall|j: int| #![trigger self.ids()[j]] 0 <= j < i ==> self.ids()[j] < id,
            decreases self.rows.len() - i,
        {
            i += 1;
        }
        let found = i < self.rows.len() && self.rows[i].0 == id;
        proof {
            let ids = self.ids();
            assert forall|j: int| #![trigger ids[j]] i <= j < ids.len() implies ids[j] >= id by {
                if j > i {
                    assert(ids[i as int] < ids[j]);
                }
            }
            if found {
                assert(ids[i as int] == id);
            } else if ids.contains(id) {
                let j = choose|j: int| 0 <= j < ids.len() && ids[j] == id;
                if j > i {
                    assert(ids[i as int] < ids[j]);
                }
            }
        }
        (i, found)
    }

    /// Whether `id` is a member.
    pub fn contains_key(&self, id: NodeId) -> (found: bool)
        ensures
            found == self.addrs().contains_key(id),
            found == self.ids().contains(id),
    {
        self.place(id).1
    }

    /// The addresses of `id`, if it is a member.
    pub fn get(&self, id: NodeId) -> (addr: Option<&MemberAddr>)
        ensures
            match addr {
                Some(a) => self.addrs().contains_key(id) && a@ == self.addrs()[id],
                None => !self.addrs().contains_key(id),
            },
    {
        let (i, found) = self.place(id);
        if found {
            proof {
                use_type_invariant(self);
                lemma_place(self.ids(), i as int);
            }
            Some(&self.rows[i].1)
        } else {
            None
        }
    }

    /// Adds a member, or gives it new addresses.
    pub fn insert(&mut self, id: NodeId, addr: MemberAddr)
        ensures
            ascending(final(self).ids()),
            final(self).addrs() == old(self).addrs().insert(id, addr@),
            forall|k: NodeId| #[trigger]
                final(self).ids().contains(k) <==> old(self).ids().contains(k) || k == id,
    {
        let (i, found) = self.place(id);
        let ghost was = self.ids();
        proof {
            use_type_invariant(&*self);
        }
        let mut rows: Vec<(NodeId, MemberAddr)> = Vec::new();
        std::mem::swap(&mut self.rows, &mut rows);
        if found {
            rows.set(i, (id, addr));
        } else {
            rows.insert(i, (id, addr));
        }
        let ghost now = rows@.map_values(|row: (NodeId, MemberAddr)| row.0);
        proof {
            if found {
                assert(now =~= was);
            } else {
                assert(now =~= was.insert(i as int, id));
                assert(ascending(now)) by {
                    assert forall|a: int, b: int|
                        #![trigger now[a], now[b]]
                        0 <= a < b < now.len() implies now[a] < now[b] by {
                        let x = if a < i {
                            a
                        } else {
                            a - 1
                        };
                        let y = if b < i {
                            b
                        } else {
                            b - 1
                        };
                        if a != i && b != i {
                            assert(was[x] < was[y]);
                        } else if a == i {
                            assert(was[y] >= id && now[b] == was[y]);
                            assert(!was.contains(id));
                        } else {
                            assert(was[x] < id && now[a] == was[x]);
                        }
                    }
                }
            }
            assert forall|k: NodeId| #[trigger] now.contains(k) <==> was.contains(k) || k == id by {
                if was.contains(k) {
                    let j = choose|j: int| 0 <= j < was.len() && was[j] == k;
                    if !found && j >= i {
                        assert(now[j + 1] == k);
                    } else {
                        assert(now[j] == k);
                    }
                }
                assert(now[i as int] == id);
                if now.contains(k) && k != id {
                    let j = choose|j: int| 0 <= j < now.len() && now[j] == k;
                    if !found && j > i {
                        assert(was[j - 1] == k);
                    } else {
                        assert(was[j] == k);
                    }
                }
            }
            assert forall|k: NodeId| now.contains(k) implies rows[now.index_of(k)].1@
                == old(self).addrs().insert(id, addr@)[k] by {
                let j = now.index_of(k);
                assert(now[j] == k);
                lemma_place(now, j);
                if k == id {
                    lemma_place(now, i as int);
                } else {
                    let x = if !found && j > i {
                        j - 1
                    } else {
                        j
                    };
                    assert(was[x] == k);
                    lemma_place(was, x);
                }
            }
        }
        *self = Membership { rows };
        assert(self.ids() =~= now);
        assert(self.addrs() =~= old(self).addrs().insert(id, addr@));
    }

    /// Removes a member. Returns whether it was one.
    pub fn remove(&mut self, id: NodeId) -> (existed: bool)
        ensures
            existed == old(self).addrs().contains_key(id),
            ascending(final(self).ids()),
            final(self).addrs() == old(self).addrs().remove(id),
            forall|k: NodeId| #[trigger]
                final(self).ids().contains(k) <==> old(self).ids().contains(k) && k != id,
    {
        let (i, found) = self.place(id);
        if !found {
            proof {
                use_type_invariant(&*self);
            }
            assert(self.addrs() =~= old(self).addrs().remove(id));
            return false;
        }
        let ghost was = self.ids();
        proof {
            use_type_invariant(&*self);
        }
        let mut rows: Vec<(NodeId, MemberAddr)> = Vec::new();
        std::mem::swap(&mut self.rows, &mut rows);
        rows.remove(i);
        let ghost now = rows@.map_values(|row: (NodeId, MemberAddr)| row.0);
        proof {
            assert(now =~= was.remove(i as int));
            assert(ascending(now)) by {
                assert forall|a: int, b: int|
                    #![trigger now[a], now[b]]
                    0 <= a < b < now.len() implies now[a] < now[b] by {
                    let x = if a < i {
                        a
                    } else {
                        a + 1
                    };
                    let y = if b < i {
                        b
                    } else {
                        b + 1
                    };
                    assert(was[x] < was[y]);
                }
            }
            assert forall|k: NodeId| #[trigger] now.contains(k) <==> was.contains(k) && k != id by {
                if now.contains(k) {
                    let j = choose|j: int| 0 <= j < now.len() && now[j] == k;
                    let x = if j < i {
                        j
                    } else {
                        j + 1
                    };
                    assert(was[x] == k);
                    lemma_place(was, x);
                    lemma_place(was, i as int);
                }
                if was.contains(k) && k != id {
                    let j = choose|j: int| 0 <= j < was.len() && was[j] == k;
                    if j < i {
                        assert(now[j] == k);
                    } else {
                        assert(now[j - 1] == k);
                    }
                }
            }
            assert forall|k: NodeId| now.contains(k) implies rows[now.index_of(k)].1@
                == old(self).addrs()[k] by {
                let j = now.index_of(k);
                assert(now[j] == k);
                let x = if j < i {
                    j
                } else {
                    j + 1
                };
                assert(was[x] == k);
                lemma_place(was, x);
            }
        }
        *self = Membership { rows };
        assert(self.ids() =~= now);
        assert(self.addrs() =~= old(self).addrs().remove(id));
        true
    }
}

impl Membership {
    /// The address book that the members' raft addresses make for the node
    /// `own`: everyone else that has one.
    pub fn raft_addrs(&self, own: NodeId) -> (book: HashMap<NodeId, String>)
        ensures
            texts(book@) == Map::new(
                |id: NodeId|
                    self.addrs().contains_key(id) && id != own && self.addrs()[id].raft.len() > 0,
                |id: NodeId| self.addrs()[id].raft,
            ),
    {
        let mut book: HashMap<NodeId, String> = HashMap::new();
        let mut i: usize = 0;
        proof {
            use_type_invariant(self);
        }
        while i < self.rows.len()
            invariant
                i <= self.rows.len(),
                ascending(self.ids()),
                forall|k: NodeId| #[trigger]
                    book@.contains_key(k) <==> self.ids().take(i as int).contains(k) && k != own
                        && self.addrs()[k].raft.len() > 0,
                forall|k: NodeId| #[trigger]
                    book@.contains_key(k) ==> book@[k]@ == self.addrs()[k].raft,
            decreases self.rows.len() - i,
        {
            let id: u64 = self.rows[i].0;
            let addr = &self.rows[i].1;
            proof {
                lemma_place(self.ids(), i as int);
                lemma_one_more_id(self.ids(), i as int);
                reveal_strlit("");
                assert(addr.raft@ =~= ""@ <==> addr.raft@.len() == 0);
            }
            if id != own && !same_text(addr.raft.as_str(), "") {
                book.insert(id, addr.raft.clone());
            }
            i += 1;
        }
        assert(self.ids().take(i as int) =~= self.ids());
        assert(texts(book@) =~= Map::new(
            |id: NodeId|
                self.addrs().contains_key(id) && id != own && self.addrs()[id].raft.len() > 0,
            |id: NodeId| self.addrs()[id].raft,
        ));
        book
    }

    /// The redirect map that the members' client URLs make for the node `own`:
    /// everyone else that has one.
    pub fn client_urls(&self, own: NodeId) -> (book: HashMap<NodeId, String>)
        ensures
            texts(book@) == Map::new(
                |id: NodeId|
                    self.addrs().contains_key(id) && id != own && self.addrs()[id].client.len() > 0,
                |id: NodeId| self.addrs()[id].client,
            ),
    {
        let mut book: HashMap<NodeId, String> = HashMap::new();
        let mut i: usize = 0;
        proof {
            use_type_invariant(self);
        }
        while i < self.rows.len()
            invariant
                i <= self.rows.len(),
                ascending(self.ids()),
                forall|k: NodeId| #[trigger]
                    book@.contains_key(k) <==> self.ids().take(i as int).contains(k) && k != own
                        && self.addrs()[k].client.len() > 0,
                forall|k: NodeId| #[trigger]
                    book@.contains_key(k) ==> book@[k]@ == self.addrs()[k].client,
            decreases self.rows.len() - i,
        {
            let id: u64 = self.rows[i].0;
            let addr = &self.rows[i].1;
            proof {
                lemma_place(self.ids(), i as int);
                lemma_one_more_id(self.ids(), i as int);
                reveal_strlit("");
                assert(addr.client@ =~= ""@ <==> addr.client@.len() == 0);
            }
            if id != own && !same_text(addr.client.as_str(), "") {
                book.insert(id, addr.client.clone());
            }
            i += 1;
        }
        assert(self.ids().take(i as int) =~= self.ids());
        assert(texts(book@) =~= Map::new(
            |id: NodeId|
                self.addrs().contains_key(id) && id != own && self.addrs()[id].client.len() > 0,
            |id: NodeId| self.addrs()[id].client,
        ));
        book
    }
}

/// What one more id adds.
proof fn lemma_one_more_id(ids: Seq<NodeId>, i: int)
    requires
        0 <= i < ids.len(),
    ensures
        forall|k: NodeId| #[trigger]
            ids.take(i + 1).contains(k) <==> ids.take(i).contains(k) || k == ids[i],
{
    let next = ids.take(i + 1);
    let before = ids.take(i);
    assert forall|k: NodeId| #[trigger] next.contains(k) <==> before.contains(k) || k == ids[i] by {
        if before.contains(k) {
            let j = choose|j: int| 0 <= j < before.len() && before[j] == k;
            assert(next[j] == k);
        }
        assert(next[i] == ids[i]);
        if next.contains(k) && k != ids[i] {
            let j = choose|j: int| 0 <= j < next.len() && next[j] == k;
            assert(before[j] == k);
        }
    }
}

impl Clone for Membership {
    fn clone(&self) -> (copy: Self)
        ensures
            copy.ids() == self.ids(),
            ascending(copy.ids()),
            copy.addrs() == self.addrs(),
    {
        let mut rows: Vec<(NodeId, MemberAddr)> = Vec::with_capacity(self.rows.len());
        let mut i: usize = 0;
        while i < self.rows.len()
            invariant
                i <= self.rows.len(),
                rows@ == self.rows@.take(i as int),
            decreases self.rows.len() - i,
        {
            rows.push((self.rows[i].0, self.rows[i].1.clone()));
            i += 1;
            assert(rows@ =~= self.rows@.take(i as int));
        }
        assert(rows@ =~= self.rows@);
        proof {
            use_type_invariant(self);
            assert(rows@.map_values(|row: (NodeId, MemberAddr)| row.0) =~= self.ids());
        }
        let copy = Membership { rows };
        assert(copy.ids() =~= self.ids());
        assert(copy.addrs() =~= self.addrs());
        copy
    }
}

/// Whether ids are listed in strictly ascending order.
pub open spec fn ascending(ids: Seq<NodeId>) -> bool {
    forall|i: int, j: int| #![trigger ids[i], ids[j]] 0 <= i < j < ids.len() ==> ids[i] < ids[j]
}

proof fn lemma_place(ids: Seq<NodeId>, i: int)
    requires
        ascending(ids),
        0 <= i < ids.len(),
    ensures
        ids.contains(ids[i]),
        ids.index_of(ids[i]) == i,
{
    let k = ids.index_of(ids[i]);
    assert(ids[k] == ids[i]);
    if k < i {
        assert(ids[k] < ids[i]);
    } else if i < k {
        assert(ids[i] < ids[k]);
    }
}

// ---- configurations in the log ----

/// The configuration that an entry sets, if it sets one.
pub open spec fn config_of(entry: LogEntry) -> Option<Arc<Membership>> {
    match entry.command {
        Command::ConfigChange { members } => Some(members),
        _ => None,
    }
}

/// The last configuration that a run of entries sets.
pub open spec fn last_config(log: Seq<LogEntry>) -> Option<Arc<Membership>>
    decreases log.len(),
{
    if log.len() == 0 {
        None
    } else {
        match config_of(log.last()) {
            Some(members) => Some(members),
            None => last_config(log.drop_last()),
        }
    }
}

/// The last configuration of two runs is that of the second, if it sets one.
pub proof fn last_config_of_parts(first: Seq<LogEntry>, second: Seq<LogEntry>)
    ensures
        last_config(first + second) == match last_config(second) {
            Some(members) => Some(members),
            None => last_config(first),
        },
    decreases second.len(),
{
    if second.len() == 0 {
        assert(first + second =~= first);
    } else {
        assert((first + second).drop_last() =~= first + second.drop_last());
        last_config_of_parts(first, second.drop_last());
    }
}

/// The last configuration that the first `upto` entries set.
pub fn find_last_config(log: &[LogEntry], upto: usize) -> (found: Option<Arc<Membership>>)
    requires
        upto <= log.len(),
    ensures
        found == last_config(log@.take(upto as int)),
{
    let mut i: usize = upto;
    while i > 0
        invariant
            i <= upto <= log.len(),
            last_config(log@.take(upto as int)) == last_config(log@.take(i as int)),
        decreases i,
    {
        assert(log@.take(i as int).drop_last() =~= log@.take(i - 1));
        if let Command::ConfigChange { members } = &log[i - 1].command {
            return Some(share(members));
        }
        i -= 1;
    }
    None
}

// ---- single-server changes ----

/// Whether `new` is `old` with one member more or one member fewer, everyone
/// else's addresses unchanged.
pub open spec fn single_change(old_addrs: Map<NodeId, AddrModel>, new_addrs: Map<NodeId, AddrModel>) -> bool {
    ||| exists|id: NodeId|
        !old_addrs.contains_key(id) && new_addrs.contains_key(id) && #[trigger] new_addrs.remove(id)
            == old_addrs
    ||| exists|id: NodeId|
        old_addrs.contains_key(id) && #[trigger] old_addrs.remove(id) == new_addrs
}

/// Whether two addresses are the same.
fn same_addr(a: &MemberAddr, b: &MemberAddr) -> (same: bool)
    ensures
        same == (a@ == b@),
{
    same_text(a.raft.as_str(), b.raft.as_str()) && same_text(a.client.as_str(), b.client.as_str())
}

impl Membership {
    /// Whether every member is a member of `other` too, with the same
    /// addresses.
    fn within(&self, other: &Membership) -> (within: bool)
        ensures
            within == self.addrs().submap_of(other.addrs()),
    {
        proof {
            use_type_invariant(self);
        }
        let mut i: usize = 0;
        while i < self.rows.len()
            invariant
                i <= self.rows.len(),
                ascending(self.ids()),
                forall|j: int|
                    #![trigger self.ids()[j]]
                    0 <= j < i ==> {
                        &&& other.addrs().contains_key(self.ids()[j])
                        &&& other.addrs()[self.ids()[j]] == self.addrs()[self.ids()[j]]
                    },
            decreases self.rows.len() - i,
        {
            let id: u64 = self.rows[i].0;
            proof {
                assert(self.ids()[i as int] == id);
                lemma_place(self.ids(), i as int);
            }
            match other.get(id) {
                None => {
                    assert(self.addrs().contains_key(id));
                    return false;
                },
                Some(addr) => {
                    if !same_addr(&self.rows[i].1, addr) {
                        assert(self.addrs().contains_key(id));
                        return false;
                    }
                },
            }
            i += 1;
        }
        proof {
            assert forall|id: NodeId| self.addrs().contains_key(id) implies #[trigger]
                other.addrs().dom().contains(id) && self.addrs()[id] == other.addrs()[id] by {
                let j = choose|j: int| 0 <= j < self.ids().len() && self.ids()[j] == id;
                assert(self.ids()[j] == id);
            }
        }
        true
    }

    /// Whether two configurations are the same.
    pub fn same_as(&self, other: &Membership) -> (same: bool)
        ensures
            same == (self.addrs() == other.addrs()),
    {
        let there = self.within(other);
        let back = other.within(self);
        proof {
            if there && back {
                assert(self.addrs() =~= other.addrs());
            }
        }
        there && back
    }

    /// Whether `proposed` is this configuration with one member more or one
    /// member fewer, everyone else's addresses unchanged.
    pub fn is_single_change(&self, proposed: &Membership) -> (single: bool)
        ensures
            single == single_change(self.addrs(), proposed.addrs()),
    {
        proof {
            use_type_invariant(self);
            use_type_invariant(proposed);
            lemma_size(self);
            lemma_size(proposed);
            lemma_single_change(self.addrs(), proposed.addrs());
        }
        if proposed.rows.len() > self.rows.len() {
            proposed.rows.len() - self.rows.len() == 1 && self.within(proposed)
        } else {
            self.rows.len() - proposed.rows.len() == 1 && proposed.within(self)
        }
    }
}

/// A configuration has the addresses of its members.
pub proof fn addrs_of_members(members: &Membership)
    ensures
        members.addrs().dom() == members.ids().to_set(),
{
    assert(members.addrs().dom() =~= members.ids().to_set());
}

/// A configuration has as many addresses as members.
proof fn lemma_size(members: &Membership)
    requires
        ascending(members.ids()),
    ensures
        members.addrs().dom().finite(),
        members.addrs().dom().len() == members.ids().len(),
{
    let ids = members.ids();
    assert(ids.no_duplicates());
    ids.unique_seq_to_set();
    assert(members.addrs().dom() =~= ids.to_set());
}

/// One more member: the larger map is the smaller one with one key added.
proof fn lemma_one_more(small: Map<NodeId, AddrModel>, large: Map<NodeId, AddrModel>)
    requires
        large.dom().finite(),
        small.dom().finite(),
        small.submap_of(large),
        large.dom().len() == small.dom().len() + 1,
    ensures
        exists|id: NodeId|
            !small.contains_key(id) && large.contains_key(id) && #[trigger] large.remove(id)
                == small,
{
    let extra = large.dom().difference(small.dom());
    assert(small.dom().subset_of(large.dom()));
    vstd::set_lib::lemma_len_difference(large.dom(), small.dom());
    assert(large.dom() =~= small.dom().union(extra));
    vstd::set_lib::lemma_set_disjoint_lens(small.dom(), extra);
    assert(extra.len() == 1);
    let id = extra.choose();
    assert(extra.contains(id));
    assert(extra.remove(id).len() == 0);
    assert(extra.remove(id) =~= Set::empty());
    assert forall|k: NodeId| large.contains_key(k) && k != id implies small.contains_key(k) by {
        if !small.contains_key(k) {
            assert(extra.remove(id).contains(k));
        }
    }
    assert(large.remove(id) =~= small);
}

/// A single change is told by sizes and inclusion.
proof fn lemma_single_change(a: Map<NodeId, AddrModel>, b: Map<NodeId, AddrModel>)
    requires
        a.dom().finite(),
        b.dom().finite(),
    ensures
        single_change(a, b) <==> {
            ||| b.dom().len() == a.dom().len() + 1 && a.submap_of(b)
            ||| a.dom().len() == b.dom().len() + 1 && b.submap_of(a)
        },
{
    if b.dom().len() == a.dom().len() + 1 && a.submap_of(b) {
        lemma_one_more(a, b);
    }
    if a.dom().len() == b.dom().len() + 1 && b.submap_of(a) {
        lemma_one_more(b, a);
        let id = choose|id: NodeId|
            !b.contains_key(id) && a.contains_key(id) && #[trigger] a.remove(id) == b;
        assert(a.contains_key(id) && a.remove(id) == b);
    }
    if exists|id: NodeId|
        !a.contains_key(id) && b.contains_key(id) && #[trigger] b.remove(id) == a {
        let id = choose|id: NodeId|
            !a.contains_key(id) && b.contains_key(id) && #[trigger] b.remove(id) == a;
        assert(b.remove(id).dom() =~= b.dom().remove(id));
        assert forall|k: NodeId| #[trigger] a.dom().contains(k) implies b.dom().contains(k) && a[k]
            == b[k] by {
            assert(b.remove(id).contains_key(k));
        }
        assert(a.submap_of(b));
    }
    if exists|id: NodeId| a.contains_key(id) && #[trigger] a.remove(id) == b {
        let id = choose|id: NodeId| a.contains_key(id) && #[trigger] a.remove(id) == b;
        assert(a.remove(id).dom() =~= a.dom().remove(id));
        assert forall|k: NodeId| #[trigger] b.dom().contains(k) implies a.dom().contains(k) && b[k]
            == a[k] by {
            assert(a.remove(id).contains_key(k));
        }
        assert(b.submap_of(a));
    }
}

} // verus!
