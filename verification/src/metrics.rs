use vstd::prelude::*;

use crate::data::ByteSpan;

verus! {

/// Counts of the four outcomes of binary predictions against labels.
#[derive(Clone, Copy, Debug, Default, PartialEq, Eq, Structural)]
pub struct ConfusionCounts {
    pub true_positives: usize,
    pub false_positives: usize,
    pub false_negatives: usize,
    pub true_negatives: usize,
}

/// Rows `k < n` whose prediction is `predicted` and whose label is (or is
/// not, when `positive` is false) the positive label 1.
pub open spec fn outcome_count(pred: Seq<bool>, labels: Seq<u8>, predicted: bool, positive: bool, n: int) -> nat
    decreases n,
{
    if n <= 0 {
        0
    } else {
        outcome_count(pred, labels, predicted, positive, n - 1) + if pred[n - 1] == predicted && (
        labels[n - 1] == 1) == positive {
            1nat
        } else {
            0nat
        }
    }
}

/// The four outcome counts of `predicted` against `labels` (1 is positive,
/// any other label negative).
pub fn confusion_counts(predicted: &[bool], labels: &[u8]) -> (counts: ConfusionCounts)
    requires
        predicted@.len() == labels@.len(),
    ensures
        counts.true_positives == outcome_count(predicted@, labels@, true, true, labels@.len() as int),
        counts.false_positives == outcome_count(predicted@, labels@, true, false, labels@.len() as int),
        counts.false_negatives == outcome_count(predicted@, labels@, false, true, labels@.len() as int),
        counts.true_negatives == outcome_count(predicted@, labels@, false, false, labels@.len() as int),
        counts.true_positives + counts.false_positives + counts.false_negatives + counts.true_negatives
            == labels@.len(),
{
    let n = labels.len();
    let mut counts = ConfusionCounts {
        true_positives: 0,
        false_positives: 0,
        false_negatives: 0,
        true_negatives: 0,
    };
    let mut i: usize = 0;
    while i < n
        invariant
            i <= n == labels@.len() == predicted@.len(),
            counts.true_positives == outcome_count(predicted@, labels@, true, true, i as int),
            counts.false_positives == outcome_count(predicted@, labels@, true, false, i as int),
            counts.false_negatives == outcome_count(predicted@, labels@, false, true, i as int),
            counts.true_negatives == outcome_count(predicted@, labels@, false, false, i as int),
            counts.true_positives + counts.false_positives + counts.false_negatives
                + counts.true_negatives == i,
        decreases n - i,
    {
        let p = predicted[i];
        let positive = labels[i] == 1;
        if p && positive {
            counts.true_positives = counts.true_positives + 1;
        } else if p {
            counts.false_positives = counts.false_positives + 1;
        } else if positive {
            counts.false_negatives = counts.false_negatives + 1;
        } else {
            counts.true_negatives = counts.true_negatives + 1;
        }
        i = i + 1;
    }
    counts
}

/// The offsets where the spans of `spans` start or end.
pub open spec fn boundary_set(spans: Seq<ByteSpan>) -> Set<u32> {
    Set::new(
        |x: u32|
            exists|k: int|
                0 <= k < spans.len() && (x == (#[trigger] spans[k]).start.0 || x == spans[k].end.0),
    )
}

/// Elements of `s[..n]` that are in `t`.
pub open spec fn members_in(s: Seq<u32>, t: Set<u32>, n: int) -> nat
    decreases n,
{
    if n <= 0 {
        0
    } else {
        members_in(s, t, n - 1) + if t.contains(s[n - 1]) {
            1nat
        } else {
            0nat
        }
    }
}

/// The distinct boundary offsets of `spans`, each once.
fn boundary_list(spans: &[ByteSpan]) -> (list: Vec<u32>)
    ensures
        list@.no_duplicates(),
        list@.to_set() == boundary_set(spans@),
        list@.len() <= 2 * spans@.len(),
{
    let mut list: Vec<u32> = Vec::new();
    let mut i: usize = 0;
    while i < spans.len()
        invariant
            i <= spans@.len(),
            list@.len() <= 2 * i,
            list@.no_duplicates(),
            forall|x: u32|
                #[trigger] list@.contains(x) <==> exists|k: int|
                    0 <= k < i && (x == (#[trigger] spans@[k]).start.0 || x == spans@[k].end.0),
        decreases spans@.len() - i,
    {
        let s = spans[i];
        let ghost before = list@;
        push_unique(&mut list, s.start.0);
        push_unique(&mut list, s.end.0);
        proof {
            assert forall|x: u32|
                #[trigger] list@.contains(x) <==> exists|k: int|
                    0 <= k < i + 1 && (x == (#[trigger] spans@[k]).start.0 || x == spans@[k].end.0) by {
                if exists|k: int| 0 <= k < i + 1 && (x == (#[trigger] spans@[k]).start.0 || x == spans@[k].end.0) {
                    let k = choose|k: int| 0 <= k < i + 1 && (x == (#[trigger] spans@[k]).start.0 || x == spans@[k].end.0);
                    if k < i {
                        assert(before.contains(x));
                    }
                }
            }
        }
        i = i + 1;
    }
    proof {
        assert(list@.to_set() =~= boundary_set(spans@));
    }
    list
}

/// Appends `x` unless it is already listed.
fn push_unique(list: &mut Vec<u32>, x: u32)
    requires
        old(list)@.no_duplicates(),
    ensures
        final(list)@.no_duplicates(),
        forall|z: u32|
            #[trigger] final(list)@.contains(z) <==> (old(list)@.contains(z) || z == x),
        final(list)@.len() <= old(list)@.len() + 1,
{
    let ghost before = list@;
    let mut k: usize = 0;
    while k < list.len()
        invariant
            k <= list@.len(),
            list@ == before,
            before.no_duplicates(),
            forall|j: int| 0 <= j < k ==> list@[j] != x,
        decreases list@.len() - k,
    {
        if list[k] == x {
            proof {
                assert(before[k as int] == x);
                assert forall|z: u32| #[trigger] before.contains(z) <==> (before.contains(z) || z == x) by {
                    if z == x {
                        assert(before.contains(z));
                    }
                }
            }
            return;
        }
        k = k + 1;
    }
    list.push(x);
    proof {
        let after = list@;
        assert(after =~= before.push(x));
        assert(!before.contains(x)) by {
            if before.contains(x) {
                let j = choose|j: int| 0 <= j < before.len() && before[j] == x;
                assert(list@[j] == x);
            }
        }
        assert forall|a: int, b: int| 0 <= a < b < after.len() implies after[a] != after[b] by {
            if b == after.len() - 1 {
                assert(after[a] == before[a]);
            }
        }
        assert forall|z: u32| #[trigger] after.contains(z) <==> (before.contains(z) || z == x) by {
            if z == x {
                assert(after[after.len() - 1] == x);
            }
            if before.contains(z) {
                let j = choose|j: int| 0 <= j < before.len() && before[j] == z;
                assert(after[j] == z);
            }
            if after.contains(z) && z != x {
                let j = choose|j: int| 0 <= j < after.len() && after[j] == z;
                assert(before[j] == z);
            }
        }
    }
}

/// Elements of a duplicate-free list that lie in `t`, counted two ways.
proof fn lemma_members_in(s: Seq<u32>, t: Set<u32>)
    requires
        s.no_duplicates(),
    ensures
        members_in(s, t, s.len() as int) == s.to_set().intersect(t).len(),
        s.to_set().finite(),
    decreases s.len(),
{
    if s.len() == 0 {
        assert(s.to_set().intersect(t) =~= Set::empty());
        assert(s.to_set() =~= Set::empty());
    } else {
        let r = s.drop_last();
        let x = s.last();
        assert forall|a: int, b: int| 0 <= a < b < r.len() implies r[a] != r[b] by {
            assert(r[a] == s[a] && r[b] == s[b]);
        }
        lemma_members_in(r, t);
        assert(s.to_set() =~= r.to_set().insert(x)) by {
            assert forall|z: u32| s.to_set().contains(z) <==> r.to_set().insert(x).contains(z) by {
                if s.to_set().contains(z) {
                    let j = choose|j: int| 0 <= j < s.len() && s[j] == z;
                    if j < r.len() {
                        assert(r[j] == z);
                    }
                }
                if r.to_set().contains(z) {
                    let j = choose|j: int| 0 <= j < r.len() && r[j] == z;
                    assert(s[j] == z);
                }
                if z == x {
                    assert(s[s.len() - 1] == x);
                }
            }
        }
        assert(!r.to_set().contains(x)) by {
            if r.to_set().contains(x) {
                let j = choose|j: int| 0 <= j < r.len() && r[j] == x;
                assert(s[j] == s[s.len() - 1]);
            }
        }
        assert(members_in(s, t, s.len() as int) == members_in(r, t, r.len() as int) + if t.contains(x) {
            1nat
        } else {
            0nat
        }) by {
            assert forall|n: int| 0 <= n <= r.len() implies members_in(s, t, n) == members_in(r, t, n) by {
                lemma_members_prefix(s, r, t, n);
            }
        }
        if t.contains(x) {
            assert(s.to_set().intersect(t) =~= r.to_set().intersect(t).insert(x));
        } else {
            assert(s.to_set().intersect(t) =~= r.to_set().intersect(t));
        }
    }
}

proof fn lemma_members_prefix(s: Seq<u32>, r: Seq<u32>, t: Set<u32>, n: int)
    requires
        0 <= n <= r.len(),
        r.len() <= s.len(),
        forall|j: int| 0 <= j < r.len() ==> r[j] == s[j],
    ensures
        members_in(s, t, n) == members_in(r, t, n),
    decreases n,
{
    if n > 0 {
        lemma_members_prefix(s, r, t, n - 1);
    }
}

/// How many boundaries of `predicted` are also gold ones, how many are not,
/// and how many gold ones were missed.
pub fn boundary_match_counts(gold: &[ByteSpan], predicted: &[ByteSpan]) -> (r: (usize, usize, usize))
    ensures
        r.0 == boundary_set(gold@).intersect(boundary_set(predicted@)).len(),
        r.1 == boundary_set(predicted@).difference(boundary_set(gold@)).len(),
        r.2 == boundary_set(gold@).difference(boundary_set(predicted@)).len(),
{
    let g = boundary_list(gold);
    let p = boundary_list(predicted);
    let ghost gs = g@;
    let ghost ps = p@;
    let mut shared: usize = 0;
    let mut i: usize = 0;
    while i < g.len()
        invariant
            i <= g@.len(),
            gs == g@,
            ps == p@,
            shared == members_in(gs, ps.to_set(), i as int),
            shared <= i,
        decreases g@.len() - i,
    {
        let mut found = false;
        let mut k: usize = 0;
        while k < p.len() && !found
            invariant
                k <= p@.len(),
                i < g@.len(),
                ps == p@,
                found == ps.subrange(0, k as int).contains(g@[i as int]),
            decreases p@.len() - k + if found { 0int } else { 1int },
        {
            if p[k] == g[i] {
                found = true;
                assert(ps.subrange(0, k + 1)[k as int] == g@[i as int]);
            } else {
                assert(ps.subrange(0, k + 1) =~= ps.subrange(0, k as int).push(ps[k as int]));
            }
            k = k + 1;
        }
        proof {
            if !found {
                assert(ps.subrange(0, ps.len() as int) =~= ps);
            }
            assert(ps.to_set().contains(gs[i as int]) == found) by {
                if found {
                    let j = choose|j: int| 0 <= j < k && ps.subrange(0, k as int)[j] == g@[i as int] as int;
                    assert(ps[j] == gs[i as int]);
                } else if ps.to_set().contains(gs[i as int]) {
                    let j = choose|j: int| 0 <= j < ps.len() && ps[j] == gs[i as int];
                    assert(ps.subrange(0, ps.len() as int)[j] == gs[i as int]);
                }
            }
        }
        if found {
            shared = shared + 1;
        }
        i = i + 1;
    }
    proof {
        lemma_members_in(gs, ps.to_set());
        lemma_members_in(ps, gs.to_set());
        let gset = boundary_set(gold@);
        let pset = boundary_set(predicted@);
        assert(gs.to_set() == gset);
        assert(ps.to_set() == pset);
        assert(gset.intersect(pset) =~= pset.intersect(gset));
        gs.unique_seq_to_set();
        ps.unique_seq_to_set();
        vstd::set_lib::lemma_set_difference_len(gset, pset);
        vstd::set_lib::lemma_set_difference_len(pset, gset);
    }
    let missed = g.len() - shared;
    let extra = p.len() - shared;
    (shared, extra, missed)
}

} // verus!
