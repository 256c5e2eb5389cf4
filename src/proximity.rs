use vstd::prelude::*;
use crate::index::QUANTIZATION;

verus! {

/// Width of the position space given to one attribute: a flattened position
/// `p` lies in attribute `p / ATTRIBUTE_SPAN`.
pub const ATTRIBUTE_SPAN: u32 = 1000;

/// The largest distance one pair of words can contribute; words in different
/// attributes are this far apart.
pub const MAX_DISTANCE: u32 = 8;

pub open spec fn attribute_of(p: u32) -> u32 {
    p / ATTRIBUTE_SPAN
}

/// Distance between two flattened positions, clamped to `MAX_DISTANCE`.
pub open spec fn distance(p: u32, q: u32) -> u32 {
    if attribute_of(p) != attribute_of(q) {
        MAX_DISTANCE
    } else if p >= q {
        if p - q < MAX_DISTANCE { (p - q) as u32 } else { MAX_DISTANCE }
    } else {
        if q - p < MAX_DISTANCE { (q - p) as u32 } else { MAX_DISTANCE }
    }
}

pub open spec fn min_u32(a: u32, b: u32) -> u32 {
    if a <= b { a } else { b }
}

/// Smallest distance from `p` to any position of `qs`.
pub open spec fn distance_to_any(p: u32, qs: Seq<u32>) -> u32
    decreases qs.len(),
{
    if qs.len() == 0 {
        MAX_DISTANCE
    } else {
        min_u32(distance_to_any(p, qs.drop_last()), distance(p, qs.last()))
    }
}

/// Smallest distance between a position of `ps` and a position of `qs`.
pub open spec fn pair_distance(ps: Seq<u32>, qs: Seq<u32>) -> u32
    decreases ps.len(),
{
    if ps.len() == 0 {
        MAX_DISTANCE
    } else {
        min_u32(pair_distance(ps.drop_last(), qs), distance_to_any(ps.last(), qs))
    }
}

/// Distance between two positions.
pub fn position_distance(p: u32, q: u32) -> (r: u32)
    ensures
        r == distance(p, q),
{
    if p / ATTRIBUTE_SPAN != q / ATTRIBUTE_SPAN {
        MAX_DISTANCE
    } else {
        let d = if p >= q { p - q } else { q - p };
        if d < MAX_DISTANCE { d } else { MAX_DISTANCE }
    }
}

/// Smallest clamped distance between a position of `ps` and one of `qs`.
pub fn min_pair_distance(ps: &Vec<u32>, qs: &Vec<u32>) -> (r: u32)
    ensures
        r == pair_distance(ps@, qs@),
{
    let mut best: u32 = MAX_DISTANCE;
    let mut i: usize = 0;
    while i < ps.len()
        invariant
            i <= ps.len(),
            best == pair_distance(ps@.subrange(0, i as int), qs@),
        decreases ps.len() - i,
    {
        let p = ps[i];
        let mut near: u32 = MAX_DISTANCE;
        let mut j: usize = 0;
        while j < qs.len()
            invariant
                j <= qs.len(),
                p == ps@[i as int],
                near == distance_to_any(p, qs@.subrange(0, j as int)),
            decreases qs.len() - j,
        {
            let d = position_distance(p, qs[j]);
            assert(qs@.subrange(0, j + 1).drop_last() == qs@.subrange(0, j as int));
            if d < near {
                near = d;
            }
            j = j + 1;
        }
        assert(qs@.subrange(0, qs.len() as int) == qs@);
        assert(ps@.subrange(0, i + 1).drop_last() == ps@.subrange(0, i as int));
        if near < best {
            best = near;
        }
        i = i + 1;
    }
    assert(ps@.subrange(0, ps.len() as int) == ps@);
    best
}

proof fn lemma_distance_to_any_bounds(p: u32, qs: Seq<u32>)
    ensures
        distance_to_any(p, qs) <= MAX_DISTANCE,
        forall|j: int| 0 <= j < qs.len() ==> distance_to_any(p, qs) <= distance(p, qs[j]),
        distance_to_any(p, qs) == MAX_DISTANCE || exists|j: int|
            0 <= j < qs.len() && distance_to_any(p, qs) == distance(p, qs[j]),
    decreases qs.len(),
{
    if qs.len() > 0 {
        lemma_distance_to_any_bounds(p, qs.drop_last());
        let r = distance_to_any(p, qs.drop_last());
        assert forall|j: int| 0 <= j < qs.len() implies distance_to_any(p, qs) <= distance(
            p,
            qs[j],
        ) by {
            if j < qs.len() - 1 {
                assert(qs.drop_last()[j] == qs[j]);
            }
        }
        if r != MAX_DISTANCE && distance_to_any(p, qs) == r {
            let j = choose|j: int| 0 <= j < qs.drop_last().len() && r == distance(p, qs.drop_last()[j]);
            assert(qs[j] == qs.drop_last()[j]);
        }
        if distance_to_any(p, qs) != r {
            assert(distance_to_any(p, qs) == distance(p, qs[qs.len() - 1]));
        }
    }
}

proof fn lemma_pair_distance_bounds(ps: Seq<u32>, qs: Seq<u32>)
    ensures
        pair_distance(ps, qs) <= MAX_DISTANCE,
        forall|i: int, j: int|
            0 <= i < ps.len() && 0 <= j < qs.len() ==> pair_distance(ps, qs) <= distance(ps[i], qs[j]),
        pair_distance(ps, qs) == MAX_DISTANCE || exists|i: int, j: int|
            0 <= i < ps.len() && 0 <= j < qs.len() && pair_distance(ps, qs) == distance(ps[i], qs[j]),
    decreases ps.len(),
{
    if ps.len() > 0 {
        let init = ps.drop_last();
        let last = ps.last();
        lemma_pair_distance_bounds(init, qs);
        lemma_distance_to_any_bounds(last, qs);
        let r = pair_distance(init, qs);
        assert forall|i: int, j: int| 0 <= i < ps.len() && 0 <= j < qs.len() implies pair_distance(
            ps,
            qs,
        ) <= distance(ps[i], qs[j]) by {
            if i < ps.len() - 1 {
                assert(init[i] == ps[i]);
            }
        }
        if pair_distance(ps, qs) != MAX_DISTANCE {
            if pair_distance(ps, qs) == r {
                let (i, j) = choose|i: int, j: int|
                    0 <= i < init.len() && 0 <= j < qs.len() && r == distance(init[i], qs[j]);
                assert(ps[i] == init[i]);
            } else {
                let j = choose|j: int|
                    0 <= j < qs.len() && distance_to_any(last, qs) == distance(last, qs[j]);
                assert(ps[ps.len() - 1] == last);
            }
        }
    }
}

/// The distance between two lists of positions does not depend on which list
/// comes first, and words that only occur in different attributes are as far
/// apart as two words can be.
pub proof fn lemma_pair_distance_symmetric(ps: Seq<u32>, qs: Seq<u32>)
    ensures
        pair_distance(ps, qs) == pair_distance(qs, ps),
        (forall|i: int, j: int|
            0 <= i < ps.len() && 0 <= j < qs.len() ==> attribute_of(ps[i]) != attribute_of(qs[j]))
            ==> pair_distance(ps, qs) == MAX_DISTANCE,
{
    lemma_pair_distance_bounds(ps, qs);
    lemma_pair_distance_bounds(qs, ps);
    let a = pair_distance(ps, qs);
    let b = pair_distance(qs, ps);
    if a != MAX_DISTANCE {
        let (i, j) = choose|i: int, j: int|
            0 <= i < ps.len() && 0 <= j < qs.len() && a == distance(ps[i], qs[j]);
        assert(b <= distance(qs[j], ps[i]));
    }
    if b != MAX_DISTANCE {
        let (j, i) = choose|j: int, i: int|
            0 <= j < qs.len() && 0 <= i < ps.len() && b == distance(qs[j], ps[i]);
        assert(a <= distance(ps[i], qs[j]));
    }
}

/// Some bucket of `a` is at most two buckets away from some bucket of `b`.
pub open spec fn buckets_near(a: Seq<u32>, b: Seq<u32>) -> bool {
    exists|i: int, j: int| 0 <= i < a.len() && 0 <= j < b.len() && #[trigger] a[i] <= #[trigger] b[j] + 2 && b[j] <= a[i] + 2
}

/// Whether some bucket of `a` is at most two buckets away from some bucket
/// of `b`.
pub fn any_buckets_near(a: &Vec<u32>, b: &Vec<u32>) -> (r: bool)
    ensures
        r == buckets_near(a@, b@),
{
    let mut i: usize = 0;
    while i < a.len()
        invariant
            i <= a.len(),
            forall|x: int, y: int| 0 <= x < i && 0 <= y < b.len() ==> !(#[trigger] a@[x] <= #[trigger] b@[y] + 2 && b@[y] <= a@[x] + 2),
        decreases a.len() - i,
    {
        let mut j: usize = 0;
        while j < b.len()
            invariant
                i < a.len(),
                j <= b.len(),
                forall|x: int, y: int| 0 <= x < i && 0 <= y < b.len() ==> !(#[trigger] a@[x] <= #[trigger] b@[y] + 2 && b@[y] <= a@[x] + 2),
                forall|y: int| 0 <= y < j ==> !(a@[i as int] <= #[trigger] b@[y] + 2 && b@[y] <= a@[i as int] + 2),
            decreases b.len() - j,
        {
            let p = a[i];
            let q = b[j];
            let near = if p >= q { p - q <= 2 } else { q - p <= 2 };
            if near {
                assert(a@[i as int] <= b@[j as int] + 2 && b@[j as int] <= a@[i as int] + 2);
                return true;
            }
            j = j + 1;
        }
        i = i + 1;
    }
    false
}

/// When no bucket of the one word is within two buckets of a bucket of the
/// other, no two of their positions are closer than the clamp.
pub proof fn lemma_far_buckets(ps: Seq<u32>, qs: Seq<u32>, ba: Seq<u32>, bb: Seq<u32>)
    requires
        forall|i: int| 0 <= i < ps.len() ==> ba.contains(#[trigger] ps[i] / QUANTIZATION),
        forall|j: int| 0 <= j < qs.len() ==> bb.contains(#[trigger] qs[j] / QUANTIZATION),
        !buckets_near(ba, bb),
    ensures
        pair_distance(ps, qs) == MAX_DISTANCE,
{
    lemma_pair_distance_bounds(ps, qs);
    if pair_distance(ps, qs) != MAX_DISTANCE {
        let (i, j) = choose|i: int, j: int|
            0 <= i < ps.len() && 0 <= j < qs.len() && pair_distance(ps, qs) == distance(ps[i], qs[j]);
        let p = ps[i];
        let q = qs[j];
        assert(distance(p, q) < MAX_DISTANCE);
        assert(p / 4 <= q / 4 + 2 && q / 4 <= p / 4 + 2);
        assert(ba.contains(p / QUANTIZATION));
        assert(bb.contains(q / QUANTIZATION));
        let x = choose|x: int| 0 <= x < ba.len() && ba[x] == p / QUANTIZATION;
        let y = choose|y: int| 0 <= y < bb.len() && bb[y] == q / QUANTIZATION;
        assert(ba[x] <= bb[y] + 2 && bb[y] <= ba[x] + 2);
    }
}

} // verus!
