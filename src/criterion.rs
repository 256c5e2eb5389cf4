use vstd::prelude::*;
use crate::docset::{strictly_sorted, views_of};

verus! {

/// The documents of `docs` whose score is `v`.
pub open spec fn scored(docs: Seq<u32>, scores: Seq<u32>, v: u32, x: u32) -> bool {
    exists|k: int| 0 <= k < docs.len() && k < scores.len() && docs[k] == x && #[trigger] scores[k] == v
}

/// `buckets` splits `docs` by score: bucket `b` holds the documents whose
/// score is `keys[b]`, the keys increase strictly, and every score has a
/// bucket.
pub open spec fn bucketed(docs: Seq<u32>, scores: Seq<u32>, keys: Seq<u32>, buckets: Seq<Seq<u32>>) -> bool {
    &&& keys.len() == buckets.len()
    &&& forall|a: int, b: int| 0 <= a < b < keys.len() ==> keys[a] < keys[b]
    &&& forall|b: int, x: u32| 0 <= b < buckets.len() ==> (#[trigger] buckets[b].contains(x) <==> scored(docs, scores, keys[b], x))
    &&& forall|k: int| 0 <= k < docs.len() && k < scores.len() ==> exists|b: int| 0 <= b < keys.len() && keys[b] == #[trigger] scores[k]
}

fn above(lo: Option<u32>, v: u32) -> (r: bool)
    ensures
        r == is_above(lo, v),
{
    match lo {
        None => true,
        Some(l) => v > l,
    }
}

pub open spec fn is_above(lo: Option<u32>, v: u32) -> bool {
    match lo {
        None => true,
        Some(l) => v > l,
    }
}

/// The smallest score above `lo`, if any.
fn min_above(scores: &Vec<u32>, lo: Option<u32>) -> (r: Option<u32>)
    ensures
        match r {
            Some(m) => is_above(lo, m) && (exists|k: int| 0 <= k < scores@.len() && scores@[k] == m)
                && forall|k: int| 0 <= k < scores@.len() && is_above(lo, scores@[k]) ==> m <= scores@[k],
            None => forall|k: int| 0 <= k < scores@.len() ==> !is_above(lo, scores@[k]),
        },
{
    let mut best: Option<u32> = None;
    let mut i: usize = 0;
    while i < scores.len()
        invariant
            i <= scores.len(),
            match best {
                Some(m) => is_above(lo, m) && (exists|k: int| 0 <= k < i && scores@[k] == m)
                    && forall|k: int| 0 <= k < i && is_above(lo, scores@[k]) ==> m <= scores@[k],
                None => forall|k: int| 0 <= k < i ==> !is_above(lo, scores@[k]),
            },
        decreases scores.len() - i,
    {
        let s = scores[i];
        if above(lo, s) {
            match best {
                None => {
                    best = Some(s);
                },
                Some(m) => {
                    if s < m {
                        best = Some(s);
                    }
                },
            }
        }
        i = i + 1;
    }
    best
}

/// The documents whose score is `v`, in their order in `docs`.
fn select(docs: &Vec<u32>, scores: &Vec<u32>, v: u32) -> (r: Vec<u32>)
    requires
        strictly_sorted(docs@),
        scores@.len() == docs@.len(),
    ensures
        strictly_sorted(r@),
        r@.len() > 0 || !(exists|k: int| 0 <= k < scores@.len() && scores@[k] == v),
        forall|x: u32| r@.contains(x) <==> scored(docs@, scores@, v, x),
{
    let mut r: Vec<u32> = Vec::new();
    let mut i: usize = 0;
    while i < docs.len()
        invariant
            i <= docs.len(),
            scores@.len() == docs@.len(),
            strictly_sorted(docs@),
            strictly_sorted(r@),
            r@.len() > 0 || forall|k: int| 0 <= k < i ==> scores@[k] != v,
            forall|j: int, m: int| 0 <= j < r.len() && i <= m < docs.len() ==> r@[j] < docs@[m],
            forall|x: u32| r@.contains(x) <==> scored(docs@.subrange(0, i as int), scores@, v, x),
        decreases docs.len() - i,
    {
        let ghost prev = r@;
        if scores[i] == v {
            r.push(docs[i]);
        }
        assert forall|x: u32| r@.contains(x) <==> scored(docs@.subrange(0, i + 1), scores@, v, x) by {
            let s = docs@.subrange(0, i + 1);
            let p = docs@.subrange(0, i as int);
            if scored(s, scores@, v, x) {
                let k = choose|k: int| 0 <= k < s.len() && k < scores@.len() && s[k] == x && #[trigger] scores@[k] == v;
                if k < i {
                    assert(p[k] == x);
                    assert(scored(p, scores@, v, x));
                    assert(prev.contains(x));
                    let j = choose|j: int| 0 <= j < prev.len() && prev[j] == x;
                    assert(r@[j] == x);
                } else {
                    assert(r@[r@.len() - 1] == x);
                }
            }
            if r@.contains(x) {
                let j = choose|j: int| 0 <= j < r@.len() && r@[j] == x;
                if j < prev.len() {
                    assert(prev.contains(x));
                    let k = choose|k: int| 0 <= k < p.len() && k < scores@.len() && p[k] == x && #[trigger] scores@[k] == v;
                    assert(s[k] == x);
                } else {
                    assert(s[i as int] == x);
                }
            }
        }
        i = i + 1;
    }
    assert(docs@.subrange(0, docs.len() as int) == docs@);
    r
}

/// Splits `docs` into buckets of equal score, lowest score first; a bucket
/// keeps the order of `docs`.
pub fn bucket_by_score(docs: &Vec<u32>, scores: &Vec<u32>) -> (r: (Vec<u32>, Vec<Vec<u32>>))
    requires
        strictly_sorted(docs@),
        scores@.len() == docs@.len(),
    ensures
        bucketed(docs@, scores@, r.0@, views_of(r.1@)),
        forall|b: int| 0 <= b < r.1@.len() ==> strictly_sorted(#[trigger] r.1@[b]@) && r.1@[b]@.len() > 0,
{
    let mut keys: Vec<u32> = Vec::new();
    let mut buckets: Vec<Vec<u32>> = Vec::new();
    let mut next = min_above(scores, None);
    proof {
        if let Some(v) = next {
            assert forall|k: int| 0 <= k < scores@.len() implies v <= scores@[k] by {
                assert(is_above(None, scores@[k]));
            }
        } else {
            if scores@.len() > 0 {
                assert(is_above(None, scores@[0]));
            }
        }
    }
    while next.is_some()
        invariant
            strictly_sorted(docs@),
            scores@.len() == docs@.len(),
            keys@.len() == buckets@.len(),
            forall|a: int, b: int| 0 <= a < b < keys@.len() ==> keys@[a] < keys@[b],
            forall|b: int, x: u32| 0 <= b < buckets@.len() ==> (#[trigger] buckets@[b]@.contains(x) <==> scored(docs@, scores@, keys@[b], x)),
            forall|b: int| 0 <= b < buckets@.len() ==> strictly_sorted(#[trigger] buckets@[b]@) && buckets@[b]@.len() > 0,
            next is Some ==> forall|b: int| 0 <= b < keys@.len() ==> keys@[b] < next->0,
            next is Some ==> exists|k: int| 0 <= k < scores@.len() && scores@[k] == next->0,
            next is Some ==> forall|k: int| 0 <= k < scores@.len() && scores@[k] < next->0 ==> exists|b: int| 0 <= b < keys@.len() && keys@[b] == #[trigger] scores@[k],
            next is Some ==> forall|k: int| 0 <= k < scores@.len() && scores@[k] >= next->0 ==> keys@.len() == 0 || keys@.last() < scores@[k],
            next is None ==> forall|k: int| 0 <= k < scores@.len() ==> exists|b: int| 0 <= b < keys@.len() && keys@[b] == #[trigger] scores@[k],
        decreases match next { Some(v) => u32::MAX - v + 1, None => 0 },
    {
        let v = next.unwrap();
        let bucket = select(docs, scores, v);
        let ghost old_keys = keys@;
        let ghost old_buckets = buckets@;
        keys.push(v);
        buckets.push(bucket);
        assert forall|b: int| 0 <= b < old_buckets.len() implies buckets@[b] == old_buckets[b] by {}
        let nx = min_above(scores, Some(v));
        proof {
            assert forall|k: int| 0 <= k < scores@.len() && scores@[k] <= v implies exists|b: int| 0 <= b < keys@.len() && keys@[b] == #[trigger] scores@[k] by {
                if scores@[k] < v {
                    let b = choose|b: int| 0 <= b < old_keys.len() && old_keys[b] == scores@[k];
                    assert(keys@[b] == scores@[k]);
                } else {
                    assert(keys@[keys@.len() - 1] == scores@[k]);
                }
            }
            match nx {
                Some(w) => {
                    assert forall|k: int| 0 <= k < scores@.len() && scores@[k] < w implies exists|b: int| 0 <= b < keys@.len() && keys@[b] == #[trigger] scores@[k] by {
                        if scores@[k] > v {
                            assert(w <= scores@[k]);
                        }
                    }
                },
                None => {
                    assert forall|k: int| 0 <= k < scores@.len() implies exists|b: int| 0 <= b < keys@.len() && keys@[b] == #[trigger] scores@[k] by {
                        assert(!is_above(Some(v), scores@[k]));
                    }
                },
            }
        }
        next = nx;
    }
    let ghost views = views_of(buckets@);
    assert forall|b: int, x: u32| 0 <= b < views.len() implies (#[trigger] views[b].contains(x) <==> scored(docs@, scores@, keys@[b], x)) by {
        assert(views[b] == buckets@[b]@);
    }
    (keys, buckets)
}

/// Each stage's buckets partition the documents they split: every document
/// lands in exactly one bucket and no bucket holds anything else.
pub proof fn lemma_buckets_partition(docs: Seq<u32>, scores: Seq<u32>, keys: Seq<u32>, buckets: Seq<Seq<u32>>)
    requires
        scores.len() == docs.len(),
        bucketed(docs, scores, keys, buckets),
    ensures
        forall|x: u32| docs.contains(x) ==> exists|b: int| 0 <= b < buckets.len() && #[trigger] buckets[b].contains(x),
        forall|b: int, x: u32| 0 <= b < buckets.len() && #[trigger] buckets[b].contains(x) ==> docs.contains(x),
        docs.no_duplicates() ==> forall|a: int, b: int, x: u32|
            0 <= a < buckets.len() && 0 <= b < buckets.len() && #[trigger] buckets[a].contains(x)
                && #[trigger] buckets[b].contains(x) ==> a == b,
{
    assert forall|x: u32| docs.contains(x) implies exists|b: int| 0 <= b < buckets.len() && #[trigger] buckets[b].contains(x) by {
        let k = choose|k: int| 0 <= k < docs.len() && docs[k] == x;
        let b = choose|b: int| 0 <= b < keys.len() && keys[b] == #[trigger] scores[k];
        assert(scored(docs, scores, keys[b], x));
        assert(buckets[b].contains(x));
    }
    assert forall|b: int, x: u32| 0 <= b < buckets.len() && #[trigger] buckets[b].contains(x) implies docs.contains(x) by {
        let k = choose|k: int| 0 <= k < docs.len() && k < scores.len() && docs[k] == x && #[trigger] scores[k] == keys[b];
        assert(docs[k] == x);
    }
    if docs.no_duplicates() {
        assert forall|a: int, b: int, x: u32|
            0 <= a < buckets.len() && 0 <= b < buckets.len() && #[trigger] buckets[a].contains(x)
                && #[trigger] buckets[b].contains(x) implies a == b by {
            let k = choose|k: int| 0 <= k < docs.len() && k < scores.len() && docs[k] == x && #[trigger] scores[k] == keys[a];
            let m = choose|m: int| 0 <= m < docs.len() && m < scores.len() && docs[m] == x && #[trigger] scores[m] == keys[b];
            assert(k == m);
            if a < b {
                assert(keys[a] < keys[b]);
            } else if b < a {
                assert(keys[b] < keys[a]);
            }
        }
    }
}

} // verus!
