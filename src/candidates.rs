use vstd::prelude::*;
use crate::docset::{strictly_sorted, intersection, views_of, copy_ids};

verus! {

/// Document `d` is in the set of every token that `alive` keeps.
pub open spec fn in_all_kept(sets: Seq<Seq<u32>>, alive: Seq<bool>, d: u32) -> bool {
    forall|i: int| 0 <= i < sets.len() && i < alive.len() && #[trigger] alive[i] ==> sets[i].contains(d)
}

/// At least two distinct tokens are kept.
pub open spec fn two_kept(alive: Seq<bool>) -> bool {
    exists|i: int, j: int| 0 <= i < alive.len() && 0 <= j < alive.len() && i != j && alive[i] && alive[j]
}

/// Every one of `n` tokens is kept.
pub open spec fn every_token(n: nat) -> Seq<bool> {
    Seq::new(n, |i: int| true)
}

pub open spec fn count_kept(alive: Seq<bool>) -> nat
    decreases alive.len(),
{
    if alive.len() == 0 {
        0
    } else {
        count_kept(alive.drop_last()) + if alive.last() { 1nat } else { 0nat }
    }
}

/// Dropping a kept token lowers the count of kept tokens by one.
pub proof fn lemma_count_drop(alive: Seq<bool>, k: int)
    requires
        0 <= k < alive.len(),
        alive[k],
    ensures
        count_kept(alive.update(k, false)) + 1 == count_kept(alive),
    decreases alive.len(),
{
    if k == alive.len() - 1 {
        assert(alive.update(k, false).drop_last() == alive.drop_last());
    } else {
        assert(alive.update(k, false).drop_last() == alive.drop_last().update(k, false));
        lemma_count_drop(alive.drop_last(), k);
    }
}

/// `t` is the first of the kept tokens whose set is the largest.
pub open spec fn first_largest(sets: Seq<Seq<u32>>, alive: Seq<bool>, t: int) -> bool {
    &&& 0 <= t < alive.len()
    &&& t < sets.len()
    &&& alive[t]
    &&& forall|k: int| 0 <= k < alive.len() && k < sets.len() && alive[k] ==> sets[k].len() <= sets[t].len()
    &&& forall|k: int| 0 <= k < t && alive[k] ==> sets[k].len() < sets[t].len()
}

/// The tokens kept by relaxation from `alive` on: while no document is in
/// the set of every kept token and two or more are kept, the first of the
/// kept tokens with the largest set is dropped.
pub open spec fn relaxed(sets: Seq<Seq<u32>>, alive: Seq<bool>) -> Seq<bool>
    decreases count_kept(alive),
{
    if (exists|d: u32| in_all_kept(sets, alive, d)) || !two_kept(alive) {
        alive
    } else {
        let t = choose|t: int| first_largest(sets, alive, t);
        if first_largest(sets, alive, t) {
            proof {
                lemma_count_drop(alive, t);
            }
            relaxed(sets, alive.update(t, false))
        } else {
            alive
        }
    }
}

proof fn lemma_first_largest_unique(sets: Seq<Seq<u32>>, alive: Seq<bool>, a: int, b: int)
    requires
        first_largest(sets, alive, a),
        first_largest(sets, alive, b),
    ensures
        a == b,
{
    if a < b {
        assert(sets[a].len() < sets[b].len());
    } else if b < a {
        assert(sets[b].len() < sets[a].len());
    }
}

/// The documents that survive query relaxation, and which tokens they match.
pub struct Candidates {
    pub docids: Vec<u32>,
    pub surviving: Vec<bool>,
}

/// Every document id set of `sets` is strictly increasing.
pub open spec fn sets_wf(sets: Seq<Vec<u32>>) -> bool {
    forall|i: int| 0 <= i < sets.len() ==> strictly_sorted(#[trigger] sets[i]@)
}

/// The documents found in the set of every kept token.
pub fn intersect_kept(sets: &Vec<Vec<u32>>, alive: &Vec<bool>) -> (r: Vec<u32>)
    requires
        sets_wf(sets@),
        alive@.len() == sets@.len(),
        exists|k: int| 0 <= k < alive@.len() && alive@[k],
    ensures
        strictly_sorted(r@),
        forall|d: u32| r@.contains(d) <==> in_all_kept(views_of(sets@), alive@, d),
{
    let mut first: usize = 0;
    while !alive[first]
        invariant
            first < alive.len(),
            alive@.len() == sets@.len(),
            exists|k: int| first <= k < alive@.len() && alive@[k],
            forall|k: int| 0 <= k < first ==> !alive@[k],
        decreases alive.len() - first,
    {
        first = first + 1;
    }
    let mut r = copy_ids(&sets[first]);
    assert forall|d: u32| r@.contains(d) <==> in_all_kept(views_of(sets@.subrange(0, first + 1)), alive@, d) by {
        let b = views_of(sets@.subrange(0, first + 1));
        assert(b[first as int] == sets@[first as int]@);
        if r@.contains(d) {
            assert forall|k: int| 0 <= k < b.len() && k < alive@.len() && #[trigger] alive@[k] implies b[k].contains(d) by {
                assert(k == first);
            }
        }
    }
    let mut i: usize = first + 1;
    while i < sets.len()
        invariant
            first < i <= sets.len(),
            alive@.len() == sets@.len(),
            alive@[first as int],
            sets_wf(sets@),
            strictly_sorted(r@),
            forall|d: u32| r@.contains(d) <==> in_all_kept(views_of(sets@.subrange(0, i as int)), alive@, d),
        decreases sets.len() - i,
    {
        let ghost prev = r@;
        if alive[i] {
            r = intersection(&r, &sets[i]);
        }
        assert forall|d: u32| r@.contains(d) <==> in_all_kept(views_of(sets@.subrange(0, i + 1)), alive@, d) by {
            let a = views_of(sets@.subrange(0, i as int));
            let b = views_of(sets@.subrange(0, i + 1));
            assert forall|k: int| 0 <= k < i implies b[k] == a[k] by {}
            assert(b[i as int] == sets@[i as int]@);
            if in_all_kept(b, alive@, d) {
                assert forall|k: int| 0 <= k < a.len() && k < alive@.len() && #[trigger] alive@[k] implies a[k].contains(d) by {
                    assert(b[k].contains(d));
                }
            }
            if r@.contains(d) {
                assert(prev.contains(d));
                assert forall|k: int| 0 <= k < b.len() && k < alive@.len() && #[trigger] alive@[k] implies b[k].contains(d) by {
                    if k < i {
                        assert(a[k].contains(d));
                    }
                }
            }
        }
        i = i + 1;
    }
    assert(sets@.subrange(0, sets.len() as int) == sets@);
    r
}

/// Whether at least two tokens are kept.
pub fn has_two_kept(alive: &Vec<bool>) -> (r: bool)
    ensures
        r == two_kept(alive@),
{
    let mut seen: Option<usize> = None;
    let mut i: usize = 0;
    while i < alive.len()
        invariant
            i <= alive.len(),
            match seen {
                None => forall|k: int| 0 <= k < i ==> !alive@[k],
                Some(f) => f < i && alive@[f as int] && forall|k: int| 0 <= k < i && k != f ==> !alive@[k],
            },
        decreases alive.len() - i,
    {
        if alive[i] {
            match seen {
                None => {
                    seen = Some(i);
                },
                Some(f) => {
                    assert(alive@[f as int] && alive@[i as int]);
                    return true;
                },
            }
        }
        i = i + 1;
    }
    false
}

/// Index of the kept token with the largest set, the first one on ties.
fn largest_kept(sets: &Vec<Vec<u32>>, alive: &Vec<bool>) -> (r: usize)
    requires
        alive@.len() == sets@.len(),
        exists|k: int| 0 <= k < alive@.len() && alive@[k],
    ensures
        r < sets@.len(),
        alive@[r as int],
        forall|k: int| 0 <= k < sets@.len() && alive@[k] ==> sets@[k]@.len() <= sets@[r as int]@.len(),
        forall|k: int| 0 <= k < r && alive@[k] ==> sets@[k]@.len() < sets@[r as int]@.len(),
{
    let mut best: Option<usize> = None;
    let mut i: usize = 0;
    while i < sets.len()
        invariant
            i <= sets.len(),
            alive@.len() == sets@.len(),
            exists|k: int| 0 <= k < alive@.len() && alive@[k],
            match best {
                None => forall|k: int| 0 <= k < i ==> !alive@[k],
                Some(b) => b < i && alive@[b as int] && (forall|k: int|
                    0 <= k < i && alive@[k] ==> sets@[k]@.len() <= sets@[b as int]@.len()) && forall|k: int|
                    0 <= k < b && alive@[k] ==> sets@[k]@.len() < sets@[b as int]@.len(),
            },
        decreases sets.len() - i,
    {
        if alive[i] {
            match best {
                None => {
                    best = Some(i);
                },
                Some(b) => {
                    if sets[i].len() > sets[b].len() {
                        best = Some(i);
                    }
                },
            }
        }
        i = i + 1;
    }
    match best {
        Some(b) => b,
        None => {
            assert(false);
            0
        },
    }
}

/// Builds the candidate documents of a query from the document set of each
/// token: the documents in every set; when there are none and more than one
/// token is kept, the token with the largest set is dropped and the
/// intersection is tried again over the tokens that are left.
pub fn build_candidates(sets: &Vec<Vec<u32>>) -> (r: Candidates)
    requires
        sets_wf(sets@),
    ensures
        strictly_sorted(r.docids@),
        r.surviving@.len() == sets@.len(),
        sets@.len() == 0 ==> r.docids@.len() == 0,
        sets@.len() > 0 ==> exists|k: int| 0 <= k < r.surviving@.len() && r.surviving@[k],
        sets@.len() > 0 ==> r.surviving@ == relaxed(views_of(sets@), every_token(sets@.len())),
        forall|d: u32| r.docids@.contains(d) <==> (sets@.len() > 0 && in_all_kept(views_of(sets@), r.surviving@, d)),
        r.docids@.len() > 0 || !two_kept(r.surviving@),
        (exists|d: u32| #[trigger] in_all_kept(views_of(sets@), every_token(sets@.len()), d))
            ==> forall|k: int| 0 <= k < sets@.len() ==> r.surviving@[k],
        forall|i: int, j: int|
            0 <= i < sets@.len() && 0 <= j < sets@.len() && !r.surviving@[i] && r.surviving@[j]
                ==> sets@[j]@.len() <= sets@[i]@.len(),
{
    let n = sets.len();
    let mut alive: Vec<bool> = Vec::new();
    let mut i: usize = 0;
    while i < n
        invariant
            i <= n,
            n == sets@.len(),
            alive@ == Seq::new(i as nat, |k: int| true),
        decreases n - i,
    {
        alive.push(true);
        i = i + 1;
    }
    if n == 0 {
        return Candidates { docids: Vec::new(), surviving: alive };
    }
    assert(alive@[0]);
    let ghost all = alive@;
    loop
        invariant
            n == sets@.len(),
            n > 0,
            sets_wf(sets@),
            alive@.len() == n,
            all == every_token(n as nat),
            exists|k: int| 0 <= k < alive@.len() && alive@[k],
            alive@ != all ==> forall|d: u32| !in_all_kept(views_of(sets@), all, d),
            relaxed(views_of(sets@), alive@) == relaxed(views_of(sets@), all),
            forall|i: int, j: int|
                0 <= i < n && 0 <= j < n && !alive@[i] && alive@[j] ==> sets@[j]@.len() <= sets@[i]@.len(),
        decreases count_kept(alive@),
    {
        let docids = intersect_kept(sets, &alive);
        if docids.len() > 0 || !has_two_kept(&alive) {
            assert(alive@ != all ==> forall|d: u32| !in_all_kept(views_of(sets@), all, d));
            let ghost k0 = choose|k: int| 0 <= k < alive@.len() && alive@[k];
            proof {
                let sv = views_of(sets@);
                if docids.len() > 0 {
                    assert(docids@.contains(docids@[0]));
                    assert(in_all_kept(sv, alive@, docids@[0]));
                }
                assert(relaxed(sv, alive@) == alive@);
            }
            let r = Candidates { docids, surviving: alive };
            assert(0 <= k0 < r.surviving@.len() && r.surviving@[k0]);
            return r;
        }
        let t = largest_kept(sets, &alive);
        let ghost before = alive@;
        alive.set(t, false);
        proof {
            assert(two_kept(before));
            let (a, b) = choose|a: int, b: int|
                0 <= a < before.len() && 0 <= b < before.len() && a != b && before[a] && before[b];
            assert(alive@[a] || alive@[b]);
            lemma_count_drop(before, t as int);
            let sv = views_of(sets@);
            assert forall|d: u32| !in_all_kept(sv, before, d) by {
                if in_all_kept(sv, before, d) {
                    assert(docids@.contains(d));
                }
            }
            assert forall|k: int| 0 <= k < before.len() && k < sv.len() && before[k] implies sv[k].len() <= sv[t as int].len() by {
                assert(sv[k] == sets@[k]@);
                assert(sv[t as int] == sets@[t as int]@);
            }
            assert forall|k: int| 0 <= k < t && before[k] implies sv[k].len() < sv[t as int].len() by {
                assert(sv[k] == sets@[k]@);
                assert(sv[t as int] == sets@[t as int]@);
            }
            assert(first_largest(sv, before, t as int));
            let c = choose|c: int| first_largest(sv, before, c);
            lemma_first_largest_unique(sv, before, c, t as int);
            assert(relaxed(sv, before) == relaxed(sv, before.update(t as int, false)));
            assert forall|d: u32| !in_all_kept(views_of(sets@), all, d) by {
                if in_all_kept(views_of(sets@), all, d) {
                    assert forall|k: int| 0 <= k < sets@.len() && k < before.len() && #[trigger] before[k] implies views_of(sets@)[k].contains(d) by {
                        assert(all[k]);
                    }
                    assert(docids@.contains(d));
                }
            }
        }
    }
}

/// Dropping tokens never loses a candidate: a document in the set of every
/// token that one choice keeps is in the set of every token that a smaller
/// choice keeps.
pub proof fn lemma_relaxation_monotonic(sets: Seq<Seq<u32>>, kept: Seq<bool>, fewer: Seq<bool>, d: u32)
    requires
        kept.len() == sets.len(),
        fewer.len() == sets.len(),
        forall|i: int| 0 <= i < sets.len() && #[trigger] fewer[i] ==> kept[i],
        in_all_kept(sets, kept, d),
    ensures
        in_all_kept(sets, fewer, d),
{
    assert forall|i: int| 0 <= i < sets.len() && i < fewer.len() && #[trigger] fewer[i] implies sets[i].contains(d) by {
        assert(kept[i]);
    }
}

} // verus!
