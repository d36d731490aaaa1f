//! Majorities: the highest index that enough members reach, and why two
//! majorities of one cluster always share a member.

use vstd::prelude::*;

use super::types::NodeId;

verus! {

/// How many of `values` are at least `bound`.
pub open spec fn reaching(values: Seq<u64>, bound: u64) -> nat {
    values.filter(|v: u64| v >= bound).len()
}

/// Whether `index` is the greatest that at least `needed` of `values` reach.
pub open spec fn is_quorum_index(values: Seq<u64>, needed: nat, index: u64) -> bool {
    &&& reaching(values, index) >= needed
    &&& forall|higher: u64| higher > index ==> #[trigger] reaching(values, higher) < needed
}

/// The greatest index that at least `needed` of `values` reach.
pub open spec fn quorum_value(values: Seq<u64>, needed: nat) -> u64 {
    choose|index: u64| is_quorum_index(values, needed, index)
}

/// How many of `values` are at least `bound`.
fn count_reaching(values: &Vec<u64>, bound: u64) -> (count: usize)
    ensures
        count == reaching(values@, bound),
{
    let mut count: usize = 0;
    let mut i: usize = 0;
    proof {
        reveal(Seq::filter);
    }
    while i < values.len()
        invariant
            i <= values.len(),
            count <= i,
            count == reaching(values@.take(i as int), bound),
        decreases values.len() - i,
    {
        proof {
            reveal(Seq::filter);
            assert(values@.take(i + 1).drop_last() =~= values@.take(i as int));
        }
        if values[i] >= bound {
            count += 1;
        }
        i += 1;
    }
    assert(values@.take(values.len() as int) =~= values@);
    count
}

/// The greatest index that at least `needed` of `values` reach.
pub fn quorum_index(values: &Vec<u64>, needed: usize) -> (index: u64)
    requires
        1 <= needed <= values.len(),
    ensures
        index == quorum_value(values@, needed as nat),
        is_quorum_index(values@, needed as nat, index),
{
    let mut best: u64 = 0;
    let mut i: usize = 0;
    proof {
        lemma_all_reach_zero(values@);
    }
    while i < values.len()
        invariant
            i <= values.len(),
            1 <= needed <= values.len(),
            reaching(values@, best) >= needed,
            forall|j: int|
                #![trigger values[j]]
                0 <= j < i && values[j] > best ==> reaching(values@, values[j]) < needed,
        decreases values.len() - i,
    {
        if values[i] > best && count_reaching(values, values[i]) >= needed {
            best = values[i];
        }
        i += 1;
    }
    proof {
        assert forall|higher: u64| higher > best implies #[trigger] reaching(values@, higher)
            < needed by {
            if reaching(values@, higher) >= needed {
                lemma_attained(values@, higher);
            }
        }
        lemma_quorum_unique(values@, needed as nat, best);
    }
    best
}

/// There is always a greatest index that enough values reach.
pub proof fn quorum_exists(values: Seq<u64>, needed: nat)
    requires
        1 <= needed <= values.len(),
    ensures
        is_quorum_index(values, needed, quorum_value(values, needed)),
{
    lemma_all_reach_zero(values);
    let best = lemma_greatest(values, needed, 0, values.len() as int);
    assert(is_quorum_index(values, needed, best));
}

/// The greatest value reached often enough, at least `best`, when the values
/// from `upto` on bring nothing greater.
proof fn lemma_greatest(values: Seq<u64>, needed: nat, best: u64, upto: int) -> (greatest: u64)
    requires
        1 <= needed <= values.len(),
        0 <= upto <= values.len(),
        reaching(values, best) >= needed,
        forall|j: int|
            #![trigger values[j]]
            upto <= j < values.len() && values[j] > best ==> reaching(values, values[j]) < needed,
    ensures
        is_quorum_index(values, needed, greatest),
    decreases upto,
{
    if upto == 0 {
        assert forall|higher: u64| higher > best implies #[trigger] reaching(values, higher)
            < needed by {
            if reaching(values, higher) >= needed {
                lemma_attained(values, higher);
            }
        }
        best
    } else {
        let v = values[upto - 1];
        if v > best && reaching(values, v) >= needed {
            assert forall|j: int|
                #![trigger values[j]]
                upto - 1 <= j < values.len() && values[j] > v implies reaching(values, values[j])
                < needed by {
            }
            lemma_greatest(values, needed, v, upto - 1)
        } else {
            lemma_greatest(values, needed, best, upto - 1)
        }
    }
}

proof fn lemma_quorum_unique(values: Seq<u64>, needed: nat, index: u64)
    requires
        is_quorum_index(values, needed, index),
    ensures
        index == quorum_value(values, needed),
{
    let other = quorum_value(values, needed);
    assert(is_quorum_index(values, needed, other));
    if other > index {
        assert(reaching(values, other) < needed);
    } else if other < index {
        assert(reaching(values, index) < needed);
    }
}

proof fn lemma_all_reach_zero(values: Seq<u64>)
    ensures
        reaching(values, 0) == values.len(),
    decreases values.len(),
{
    reveal(Seq::filter);
    if values.len() > 0 {
        lemma_all_reach_zero(values.drop_last());
    }
}

/// Predicates that agree on a sequence filter it alike.
proof fn lemma_same_filter(values: Seq<u64>, p: spec_fn(u64) -> bool, q: spec_fn(u64) -> bool)
    requires
        forall|i: int| #![trigger values[i]] 0 <= i < values.len() ==> p(values[i]) == q(values[i]),
    ensures
        values.filter(p) == values.filter(q),
    decreases values.len(),
{
    reveal(Seq::filter);
    if values.len() > 0 {
        let init = values.drop_last();
        assert forall|i: int| 0 <= i < init.len() implies p(#[trigger] init[i]) == q(init[i]) by {
            assert(init[i] == values[i]);
        }
        lemma_same_filter(init, p, q);
        assert(values.last() == values[values.len() - 1]);
    }
}

/// The least of the values that reach a bound that some value reaches.
proof fn lemma_least_reaching(values: Seq<u64>, bound: u64) -> (least: int)
    requires
        reaching(values, bound) >= 1,
    ensures
        0 <= least < values.len(),
        values[least] >= bound,
        forall|j: int|
            #![trigger values[j]]
            0 <= j < values.len() && values[j] >= bound ==> values[j] >= values[least],
    decreases values.len(),
{
    reveal(Seq::filter);
    let init = values.drop_last();
    let last = values.last();
    if reaching(init, bound) >= 1 {
        let i = lemma_least_reaching(init, bound);
        assert(init[i] == values[i]);
        assert forall|j: int|
            #![trigger values[j]]
            0 <= j < init.len() && values[j] >= bound implies values[j] >= values[i] by {
            assert(init[j] == values[j]);
        }
        if last >= bound && last < values[i] {
            values.len() - 1
        } else {
            i
        }
    } else {
        assert forall|j: int| #![trigger values[j]] 0 <= j < init.len() implies values[j] < bound by {
            assert(init[j] == values[j]);
            if values[j] >= bound {
                lemma_counts_one(init, bound, j);
            }
        }
        values.len() - 1
    }
}

proof fn lemma_counts_one(values: Seq<u64>, bound: u64, i: int)
    requires
        0 <= i < values.len(),
        values[i] >= bound,
    ensures
        reaching(values, bound) >= 1,
    decreases values.len(),
{
    reveal(Seq::filter);
    if i < values.len() - 1 {
        lemma_counts_one(values.drop_last(), bound, i);
    }
}

/// A bound that some value reaches is reached as often as one of the values.
proof fn lemma_attained(values: Seq<u64>, bound: u64)
    requires
        reaching(values, bound) >= 1,
    ensures
        exists|i: int|
            #![trigger values[i]]
            0 <= i < values.len() && values[i] >= bound && reaching(values, values[i])
                == reaching(values, bound),
{
    let least = lemma_least_reaching(values, bound);
    lemma_same_filter(values, |v: u64| v >= bound, |v: u64| v >= values[least]);
    assert(reaching(values, values[least]) == reaching(values, bound));
}

/// Two majorities of one cluster share a member.
pub proof fn majorities_meet(cluster: Set<NodeId>, a: Set<NodeId>, b: Set<NodeId>)
    requires
        cluster.finite(),
        a.subset_of(cluster),
        b.subset_of(cluster),
        2 * a.len() > cluster.len(),
        2 * b.len() > cluster.len(),
    ensures
        exists|id: NodeId| a.contains(id) && b.contains(id),
{
    vstd::set_lib::lemma_len_subset(a, cluster);
    vstd::set_lib::lemma_len_subset(b, cluster);
    if a.disjoint(b) {
        assert((a + b).subset_of(cluster));
        vstd::set_lib::lemma_len_subset(a + b, cluster);
        vstd::set_lib::lemma_set_disjoint_lens(a, b);
        assert(false);
    }
}

} // verus!
