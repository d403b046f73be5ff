//! Aggregation of classified records for the two output modes.
//!
//! Detail mode keeps every record and sorts by (classification, process
//! id). Histogram mode groups records by classification and orders the
//! groups by size, smallest first, ties broken by classification order.
//! Both are pure transforms: every record of the input reappears exactly
//! once in the output.

use vstd::prelude::*;
use vstd::multiset::Multiset;
use crate::classify::{EnvVal, EnvClass, class_lt, lemma_class_lt_properties};

verus! {

broadcast use vstd::seq_lib::group_to_multiset_ensures, vstd::multiset::group_multiset_axioms;

/// One classified process: classification, id, command line if read.
pub type Record = (EnvVal, u32, Option<String>);

/// The pair that aggregation cares about: classification and process id.
pub open spec fn rec_pair(r: Record) -> (EnvClass, u32) {
    (r.0@, r.1)
}

/// Record order for the detail listing: classification first, then id.
pub open spec fn rec_le(a: Record, b: Record) -> bool {
    class_lt(a.0@, b.0@) || (a.0@ == b.0@ && a.1 <= b.1)
}

/// The records stand in non-decreasing detail order.
pub open spec fn sorted_recs(s: Seq<Record>) -> bool {
    forall|i: int, j: int| 0 <= i < j < s.len() ==> rec_le(s[i], s[j])
}

/// `rec_le` is a total order on records (up to equal keys).
pub proof fn lemma_rec_le_props(a: Record, b: Record, c: Record)
    ensures
        rec_le(a, b) || rec_le(b, a),
        rec_le(a, b) && rec_le(b, c) ==> rec_le(a, c),
{
    lemma_class_lt_properties(a.0@, b.0@, c.0@);
    lemma_class_lt_properties(b.0@, c.0@, a.0@);
}

/// Whether `a` may stand before `b` in the detail listing.
fn rec_le_exec(a: &Record, b: &Record) -> (r: bool)
    ensures
        r == rec_le(*a, *b),
{
    if a.0.lt(&b.0) {
        true
    } else if b.0.lt(&a.0) {
        proof {
            lemma_class_lt_properties(b.0@, a.0@, a.0@);
        }
        false
    } else {
        proof {
            lemma_class_lt_properties(a.0@, b.0@, a.0@);
        }
        a.1 <= b.1
    }
}

/// Sort the records by (classification, process id), non-decreasing.
/// Every input record appears exactly once in the output, and an input
/// that is already sorted comes back unchanged.
pub fn sort_records(records: Vec<Record>) -> (r: Vec<Record>)
    ensures
        r@.to_multiset() == records@.to_multiset(),
        sorted_recs(r@),
        sorted_recs(records@) ==> r@ == records@,
{
    let mut v = records;
    let ghost orig = v@;
    if v.len() == 0 {
        return v;
    }
    let mut i: usize = 1;
    while i < v.len()
        invariant
            1 <= i <= v@.len(),
            v@.len() == orig.len(),
            v@.to_multiset() == orig.to_multiset(),
            sorted_recs(v@.take(i as int)),
            sorted_recs(orig) ==> v@ == orig,
        decreases v@.len() - i,
    {
        let ghost s = v@;
        let x = v.remove(i);
        let ghost sr = v@;
        let mut j: usize = i;
        while j > 0 && !rec_le_exec(&v[j - 1], &x)
            invariant
                j <= i,
                i < s.len(),
                v@ == sr,
                sr == s.remove(i as int),
                x == s[i as int],
                sorted_recs(s.take(i as int)),
                forall|k: int| j <= k < i ==> !rec_le(#[trigger] s[k], x),
                sorted_recs(orig) && s == orig ==> j == i,
            decreases j,
        {
            proof {
                assert(sr[j - 1] == s[j - 1]);
                if sorted_recs(orig) && s == orig {
                    assert(rec_le(s[j - 1], s[i as int]));
                }
            }
            j = j - 1;
        }
        proof {
            assert(j > 0 ==> rec_le(s[j - 1], x)) by {
                if j > 0 {
                    assert(sr[j - 1] == s[j - 1]);
                }
            }
        }
        v.insert(j, x);
        proof {
            let t = v@;
            assert(t == sr.insert(j as int, x));
            assert forall|p: int, q: int| 0 <= p < q < i implies rec_le(s[p], s[q]) by {
                assert(rec_le(s.take(i as int)[p], s.take(i as int)[q]));
            }
            // every index of the reordered prefix maps back into s
            assert forall|k: int| 0 <= k <= i implies t[k] == (if k < j {
                s[k]
            } else if k == j {
                s[i as int]
            } else {
                s[k - 1]
            }) by {
                if k < j {
                    assert(sr[k] == s[k]);
                } else if k > j {
                    assert(sr[k - 1] == s[k - 1]);
                }
            }
            assert forall|a: int, b: int| 0 <= a < b <= i implies rec_le(t[a], t[b]) by {
                if b < j {
                    assert(rec_le(s[a], s[b]));
                } else if b == j {
                    // t[b] == x and everything before j precedes x
                    if a < j {
                        if a < j - 1 {
                            lemma_rec_le_props(s[a], s[j - 1], x);
                        }
                    }
                } else if a == j {
                    assert(!rec_le(s[b - 1], x));
                    lemma_rec_le_props(s[b - 1], x, x);
                } else if a < j {
                    assert(!rec_le(s[b - 1], x));
                    lemma_rec_le_props(s[b - 1], x, x);
                    if a < j - 1 {
                        lemma_rec_le_props(s[a], s[j - 1], x);
                    }
                    assert(rec_le(s[a], x));
                    lemma_rec_le_props(s[a], x, s[b - 1]);
                } else {
                    assert(rec_le(s[a - 1], s[b - 1]));
                }
            }
            assert(sorted_recs(t.take(i as int + 1)));
            // the multiset is unchanged by remove plus insert
            assert(s.to_multiset().contains(x)) by {
                assert(s[i as int] == x);
            }
            assert(t.to_multiset() =~= s.to_multiset());
            // a sorted input is left in place
            if sorted_recs(orig) && s == orig {
                assert(t =~= s);
            }
        }
        i = i + 1;
    }
    proof {
        assert(v@.take(v@.len() as int) =~= v@);
    }
    v
}

/// One histogram group: a classification and the ids that carry it.
pub type Group = (EnvVal, Vec<u32>);

/// The (classification, id) pairs formed by one classification and a run
/// of process ids.
pub open spec fn pid_pairs(c: EnvClass, pids: Seq<u32>) -> Multiset<(EnvClass, u32)>
    decreases pids.len(),
{
    if pids.len() == 0 {
        Multiset::empty()
    } else {
        pid_pairs(c, pids.drop_last()).insert((c, pids.last()))
    }
}

/// The (classification, id) pairs of one group.
pub open spec fn group_pairs(g: Group) -> Multiset<(EnvClass, u32)> {
    pid_pairs(g.0@, g.1@)
}

/// The (classification, id) pairs of a whole group list.
pub open spec fn pairs_multiset(gs: Seq<Group>) -> Multiset<(EnvClass, u32)>
    decreases gs.len(),
{
    if gs.len() == 0 {
        Multiset::empty()
    } else {
        group_pairs(gs.first()).add(pairs_multiset(gs.drop_first()))
    }
}

/// The (classification, id) pairs of a record list.
pub open spec fn rec_pairs(s: Seq<Record>) -> Multiset<(EnvClass, u32)>
    decreases s.len(),
{
    if s.len() == 0 {
        Multiset::empty()
    } else {
        rec_pairs(s.drop_last()).insert(rec_pair(s.last()))
    }
}

/// Total number of process ids across the groups.
pub open spec fn sum_sizes(gs: Seq<Group>) -> nat
    decreases gs.len(),
{
    if gs.len() == 0 {
        0
    } else {
        gs.first().1@.len() + sum_sizes(gs.drop_first())
    }
}

proof fn lemma_pid_pairs_len(c: EnvClass, pids: Seq<u32>)
    ensures
        pid_pairs(c, pids).len() == pids.len(),
    decreases pids.len(),
{
    if pids.len() > 0 {
        lemma_pid_pairs_len(c, pids.drop_last());
    }
}

proof fn lemma_rec_pairs_len(s: Seq<Record>)
    ensures
        rec_pairs(s).len() == s.len(),
    decreases s.len(),
{
    if s.len() > 0 {
        lemma_rec_pairs_len(s.drop_last());
    }
}

/// Group sizes sum to the number of pairs the groups hold.
pub proof fn lemma_pairs_multiset_len(gs: Seq<Group>)
    ensures
        pairs_multiset(gs).len() == sum_sizes(gs),
    decreases gs.len(),
{
    if gs.len() > 0 {
        lemma_pairs_multiset_len(gs.drop_first());
        lemma_pid_pairs_len(gs.first().0@, gs.first().1@);
    }
}

proof fn lemma_pairs_multiset_insert(gs: Seq<Group>, k: int, g: Group)
    requires
        0 <= k <= gs.len(),
    ensures
        pairs_multiset(gs.insert(k, g)) =~= pairs_multiset(gs).add(group_pairs(g)),
    decreases gs.len(),
{
    let t = gs.insert(k, g);
    if k == 0 {
        assert(t.first() == g);
        assert(t.drop_first() =~= gs);
        assert(group_pairs(g).add(pairs_multiset(gs)) =~= pairs_multiset(gs).add(group_pairs(g)));
    } else {
        assert(t.first() == gs.first());
        assert(t.drop_first() =~= gs.drop_first().insert(k - 1, g));
        lemma_pairs_multiset_insert(gs.drop_first(), k - 1, g);
        assert(group_pairs(gs.first()).add(pairs_multiset(gs.drop_first()).add(group_pairs(g)))
            =~= group_pairs(gs.first()).add(pairs_multiset(gs.drop_first())).add(group_pairs(g)));
    }
}

proof fn lemma_pairs_multiset_remove(gs: Seq<Group>, k: int)
    requires
        0 <= k < gs.len(),
    ensures
        pairs_multiset(gs) =~= pairs_multiset(gs.remove(k)).add(group_pairs(gs[k])),
    decreases gs.len(),
{
    if k == 0 {
        assert(gs.remove(0) =~= gs.drop_first());
        assert(gs[0] == gs.first());
        assert(group_pairs(gs.first()).add(pairs_multiset(gs.drop_first()))
            =~= pairs_multiset(gs.drop_first()).add(group_pairs(gs.first())));
    } else {
        lemma_pairs_multiset_remove(gs.drop_first(), k - 1);
        assert(gs.remove(k).first() == gs.first());
        assert(gs.remove(k).drop_first() =~= gs.drop_first().remove(k - 1));
        assert(gs.drop_first()[k - 1] == gs[k]);
        assert(group_pairs(gs.first()).add(pairs_multiset(gs.drop_first().remove(k - 1)).add(group_pairs(gs[k])))
            =~= group_pairs(gs.first()).add(pairs_multiset(gs.drop_first().remove(k - 1))).add(group_pairs(gs[k])));
    }
}

proof fn lemma_pairs_multiset_push(gs: Seq<Group>, g: Group)
    ensures
        pairs_multiset(gs.push(g)) =~= pairs_multiset(gs).add(group_pairs(g)),
{
    assert(gs.push(g) =~= gs.insert(gs.len() as int, g));
    lemma_pairs_multiset_insert(gs, gs.len() as int, g);
}

/// Group order for the histogram: smaller groups first, ties broken by
/// classification order.
pub open spec fn group_le(a: Group, b: Group) -> bool {
    a.1@.len() < b.1@.len() || (a.1@.len() == b.1@.len() && (class_lt(a.0@, b.0@) || a.0@
        == b.0@))
}

/// The groups stand in non-decreasing histogram order.
pub open spec fn sorted_groups(s: Seq<Group>) -> bool {
    forall|i: int, j: int| 0 <= i < j < s.len() ==> group_le(s[i], s[j])
}

/// `group_le` is a total order on groups (up to equal keys).
pub proof fn lemma_group_le_props(a: Group, b: Group, c: Group)
    ensures
        group_le(a, b) || group_le(b, a),
        group_le(a, b) && group_le(b, c) ==> group_le(a, c),
{
    lemma_class_lt_properties(a.0@, b.0@, c.0@);
    lemma_class_lt_properties(b.0@, c.0@, a.0@);
}

/// Whether `a` may stand before `b` in the histogram listing.
fn group_le_exec(a: &Group, b: &Group) -> (r: bool)
    ensures
        r == group_le(*a, *b),
{
    if a.1.len() < b.1.len() {
        true
    } else if b.1.len() < a.1.len() {
        false
    } else if a.0.lt(&b.0) {
        true
    } else if b.0.lt(&a.0) {
        proof {
            lemma_class_lt_properties(b.0@, a.0@, a.0@);
        }
        false
    } else {
        proof {
            lemma_class_lt_properties(a.0@, b.0@, a.0@);
        }
        true
    }
}

/// The index of the group that carries `val`, if one exists.
fn find_group(groups: &Vec<Group>, val: &EnvVal) -> (r: Option<usize>)
    ensures
        r matches Some(g) ==> g < groups@.len() && groups@[g as int].0@ == val@,
        r is None ==> forall|g: int| 0 <= g < groups@.len() ==> groups@[g].0@ != val@,
{
    let mut gi: usize = 0;
    while gi < groups.len()
        invariant
            gi <= groups@.len(),
            forall|g: int| 0 <= g < gi ==> groups@[g].0@ != val@,
        decreases groups@.len() - gi,
    {
        if groups[gi].0.same_class(val) {
            return Some(gi);
        }
        gi = gi + 1;
    }
    None
}

/// Group the records by classification for the histogram: one group per
/// distinct classification, holding exactly the ids classified so, the
/// groups ordered by size ascending with ties broken by classification
/// order. The group sizes sum to the number of records.
pub fn group_results(records: Vec<Record>) -> (r: Vec<Group>)
    ensures
        pairs_multiset(r@) == rec_pairs(records@),
        forall|i: int, j: int| 0 <= i < j < r@.len() ==> r@[i].0@ != r@[j].0@,
        forall|i: int| 0 <= i < r@.len() ==> r@[i].1@.len() > 0,
        sorted_groups(r@),
        sum_sizes(r@) == records@.len(),
{
    let n = records.len();
    let mut groups: Vec<Group> = Vec::new();
    let mut k: usize = 0;
    proof {
        assert(records@.take(0) =~= Seq::<Record>::empty());
    }
    while k < n
        invariant
            k <= n,
            n == records@.len(),
            pairs_multiset(groups@) == rec_pairs(records@.take(k as int)),
            forall|i: int, j: int| 0 <= i < j < groups@.len() ==> groups@[i].0@ != groups@[j].0@,
            forall|i: int| 0 <= i < groups@.len() ==> groups@[i].1@.len() > 0,
        decreases n - k,
    {
        let ghost s = groups@;
        let p = records[k].1;
        let ghost pr = rec_pair(records@[k as int]);
        proof {
            assert(records@.take(k as int + 1).drop_last() =~= records@.take(k as int));
            assert(records@.take(k as int + 1).last() == records@[k as int]);
        }
        match find_group(&groups, &records[k].0) {
            Some(gi) => {
                let (gkey, mut gpids) = groups.remove(gi);
                let ghost g0 = s[gi as int];
                gpids.push(p);
                let g1 = (gkey, gpids);
                groups.insert(gi, g1);
                proof {
                    assert(g1.1@ == g0.1@.push(p));
                    assert(g1.1@.drop_last() =~= g0.1@);
                    assert(group_pairs(g1) =~= group_pairs(g0).insert(pr));
                    lemma_pairs_multiset_remove(s, gi as int);
                    lemma_pairs_multiset_insert(s.remove(gi as int), gi as int, g1);
                    assert(pairs_multiset(s.remove(gi as int)).add(group_pairs(g0).insert(pr))
                        =~= pairs_multiset(s.remove(gi as int)).add(group_pairs(g0)).insert(pr));
                    assert(pairs_multiset(groups@) =~= rec_pairs(records@.take(k as int + 1)));
                    let t = groups@;
                    assert forall|i: int| 0 <= i < t.len() implies t[i].0@ == s[i].0@
                        && t[i].1@.len() > 0 by {
                        if i < gi {
                            assert(t[i] == s[i]);
                        } else if i > gi {
                            assert(t[i] == s.remove(gi as int)[i - 1]);
                            assert(s.remove(gi as int)[i - 1] == s[i]);
                        }
                    }
                }
            },
            None => {
                let mut np: Vec<u32> = Vec::new();
                np.push(p);
                let gv = records[k].0.clone();
                let g1 = (gv, np);
                groups.push(g1);
                proof {
                    assert(g1.1@.drop_last() =~= Seq::<u32>::empty());
                    assert(pid_pairs(g1.0@, Seq::<u32>::empty()) =~= Multiset::empty());
                    assert(g1.1@.last() == p);
                    assert(group_pairs(g1) =~= Multiset::empty().insert(pr));
                    lemma_pairs_multiset_push(s, g1);
                    assert(pairs_multiset(s).add(Multiset::empty().insert(pr))
                        =~= pairs_multiset(s).insert(pr));
                    assert(pairs_multiset(groups@) =~= rec_pairs(records@.take(k as int + 1)));
                    let t = groups@;
                    assert forall|i: int, j: int| 0 <= i < j < t.len() implies t[i].0@
                        != t[j].0@ by {
                        if j < t.len() - 1 {
                            assert(t[i] == s[i] && t[j] == s[j]);
                        } else {
                            assert(t[i] == s[i] && t[j] == g1);
                        }
                    }
                }
            },
        }
        k = k + 1;
    }
    proof {
        assert(records@.take(n as int) =~= records@);
    }
    // order the groups by size, smallest first, ties by classification
    let mut i: usize = 1;
    if groups.len() == 0 {
        proof {
            lemma_pairs_multiset_len(groups@);
            lemma_rec_pairs_len(records@);
        }
        return groups;
    }
    let ghost mid = groups@;
    while i < groups.len()
        invariant
            1 <= i <= groups@.len(),
            groups@.len() == mid.len(),
            pairs_multiset(groups@) == pairs_multiset(mid),
            forall|a: int, b: int| 0 <= a < b < groups@.len() ==> groups@[a].0@ != groups@[b].0@,
            forall|a: int| 0 <= a < groups@.len() ==> groups@[a].1@.len() > 0,
            sorted_groups(groups@.take(i as int)),
        decreases groups@.len() - i,
    {
        let ghost s = groups@;
        let x = groups.remove(i);
        let ghost sr = groups@;
        let mut j: usize = i;
        while j > 0 && !group_le_exec(&groups[j - 1], &x)
            invariant
                j <= i,
                i < s.len(),
                groups@ == sr,
                sr == s.remove(i as int),
                x == s[i as int],
                sorted_groups(s.take(i as int)),
                forall|c: int| j <= c < i ==> !group_le(#[trigger] s[c], x),
            decreases j,
        {
            proof {
                assert(sr[j - 1] == s[j - 1]);
            }
            j = j - 1;
        }
        proof {
            assert(j > 0 ==> group_le(s[j - 1], x)) by {
                if j > 0 {
                    assert(sr[j - 1] == s[j - 1]);
                }
            }
        }
        groups.insert(j, x);
        proof {
            let t = groups@;
            assert(t == sr.insert(j as int, x));
            assert forall|p: int, q: int| 0 <= p < q < i implies group_le(s[p], s[q]) by {
                assert(group_le(s.take(i as int)[p], s.take(i as int)[q]));
            }
            assert forall|c: int| 0 <= c <= i implies t[c] == (if c < j {
                s[c]
            } else if c == j {
                s[i as int]
            } else {
                s[c - 1]
            }) by {
                if c < j {
                    assert(sr[c] == s[c]);
                } else if c > j {
                    assert(sr[c - 1] == s[c - 1]);
                }
            }
            assert forall|a: int, b: int| 0 <= a < b <= i implies group_le(t[a], t[b]) by {
                if b < j {
                    assert(group_le(s[a], s[b]));
                } else if b == j {
                    if a < j - 1 {
                        lemma_group_le_props(s[a], s[j - 1], x);
                    }
                } else if a == j {
                    assert(!group_le(s[b - 1], x));
                    lemma_group_le_props(s[b - 1], x, x);
                } else if a < j {
                    assert(!group_le(s[b - 1], x));
                    lemma_group_le_props(s[b - 1], x, x);
                    if a < j - 1 {
                        lemma_group_le_props(s[a], s[j - 1], x);
                    }
                    assert(group_le(s[a], x));
                    lemma_group_le_props(s[a], x, s[b - 1]);
                } else {
                    assert(group_le(s[a - 1], s[b - 1]));
                }
            }
            assert(sorted_groups(t.take(i as int + 1)));
            lemma_pairs_multiset_remove(s, i as int);
            lemma_pairs_multiset_insert(sr, j as int, x);
            // key distinctness and sizes survive the move
            assert forall|a: int, b: int| 0 <= a < b < t.len() implies t[a].0@ != t[b].0@ by {
                assert(t[a] == (if a < j { s[a] } else if a == j { s[i as int] } else {
                    sr[a - 1]
                }));
                assert(t[b] == (if b < j { s[b] } else if b == j { s[i as int] } else {
                    sr[b - 1]
                }));
                assert(a > j ==> sr[a - 1] == (if a - 1 < i { s[a - 1] } else { s[a] }));
                assert(b > j ==> sr[b - 1] == (if b - 1 < i { s[b - 1] } else { s[b] }));
            }
            assert forall|a: int| 0 <= a < t.len() implies t[a].1@.len() > 0 by {
                assert(t[a] == (if a < j { s[a] } else if a == j { s[i as int] } else {
                    sr[a - 1]
                }));
                assert(a > j ==> sr[a - 1] == (if a - 1 < i { s[a - 1] } else { s[a] }));
            }
        }
        i = i + 1;
    }
    proof {
        assert(groups@.take(groups@.len() as int) =~= groups@);
        lemma_pairs_multiset_len(groups@);
        lemma_rec_pairs_len(records@);
    }
    groups
}

} // verus!
