use vstd::prelude::*;
use crate::docset::{strictly_sorted, contains, views_of, copy_ids};
use crate::index::{Posting, keys_of, keys_for_document, words_view, quantized_from, lemma_keys_of_contains, QUANTIZATION};
use crate::proximity::{pair_distance, min_pair_distance, any_buckets_near, lemma_far_buckets, MAX_DISTANCE};
use crate::criterion::{bucketed, scored, bucket_by_score};

verus! {

/// The ranking rules, in the order the pipeline applies them.
#[derive(Clone, Copy, Debug, PartialEq, Eq, Structural)]
pub enum Criterion {
    /// Fewer missing query words first.
    Words,
    /// Query words closer to each other first.
    Proximity,
    /// Matches in earlier attributes first.
    Attribute,
    /// Verbatim matches before prefix-only matches.
    Exactness,
}

/// Number of ranking rules.
pub const CRITERIA: usize = 4;

pub open spec fn criterion_at(level: nat) -> Criterion {
    if level == 0 {
        Criterion::Words
    } else if level == 1 {
        Criterion::Proximity
    } else if level == 2 {
        Criterion::Attribute
    } else {
        Criterion::Exactness
    }
}

/// The criterion applied at `level` of the pipeline.
pub fn criterion_for_level(level: usize) -> (r: Criterion)
    ensures
        r == criterion_at(level as nat),
{
    if level == 0 {
        Criterion::Words
    } else if level == 1 {
        Criterion::Proximity
    } else if level == 2 {
        Criterion::Attribute
    } else {
        Criterion::Exactness
    }
}

/// The ranking rules in the order the pipeline applies them.
pub fn default_criteria() -> (r: Vec<Criterion>)
    ensures
        r@.len() == CRITERIA,
        forall|i: int| 0 <= i < CRITERIA ==> r@[i] == criterion_at(i as nat),
{
    let mut r: Vec<Criterion> = Vec::new();
    let mut i: usize = 0;
    while i < CRITERIA
        invariant
            i <= CRITERIA,
            r@.len() == i,
            forall|k: int| 0 <= k < i ==> r@[k] == criterion_at(k as nat),
        decreases CRITERIA - i,
    {
        r.push(criterion_for_level(i));
        i = i + 1;
    }
    r
}

/// A query token that survived relaxation, with what the index holds for it.
pub struct QueryTerm {
    /// The token as typed.
    pub query: Vec<u8>,
    /// The dictionary words it resolved to.
    pub words: Vec<Vec<u8>>,
    /// The documents that hold one of `words`.
    pub docids: Vec<u32>,
    /// The documents that hold `query` itself.
    pub exact_docids: Vec<u32>,
}

pub open spec fn sat_add(a: u32, b: u32) -> u32 {
    if a + b > u32::MAX { u32::MAX } else { (a + b) as u32 }
}

fn saturating(a: u32, b: u32) -> (r: u32)
    ensures
        r == sat_add(a, b),
{
    if a > u32::MAX - b { u32::MAX } else { a + b }
}

/// How many of the terms `d` lacks.
pub open spec fn missing_terms(ts: Seq<QueryTerm>, d: u32) -> u32
    decreases ts.len(),
{
    if ts.len() == 0 {
        0
    } else {
        sat_add(missing_terms(ts.drop_last(), d), if ts.last().docids@.contains(d) { 0 } else { 1 })
    }
}

/// Sum of the distances between the positions of each two consecutive terms.
pub open spec fn proximity_sum(pos: Seq<Posting>, ts: Seq<QueryTerm>, d: u32) -> u32
    decreases ts.len(),
{
    if ts.len() < 2 {
        0
    } else {
        sat_add(
            proximity_sum(pos, ts.drop_last(), d),
            pair_distance(
                keys_of(pos, words_view(ts[ts.len() - 2].words@), d),
                keys_of(pos, words_view(ts[ts.len() - 1].words@), d),
            ),
        )
    }
}

pub open spec fn seq_min(s: Seq<u32>) -> u32
    decreases s.len(),
{
    if s.len() == 0 {
        u32::MAX
    } else {
        let m = seq_min(s.drop_last());
        if s.last() < m { s.last() } else { m }
    }
}

/// The lowest attribute in which one of the terms' words holds `d`.
pub open spec fn first_attribute(attr: Seq<Posting>, ts: Seq<QueryTerm>, d: u32) -> u32
    decreases ts.len(),
{
    if ts.len() == 0 {
        u32::MAX
    } else {
        let m = first_attribute(attr, ts.drop_last(), d);
        let a = seq_min(keys_of(attr, words_view(ts.last().words@), d));
        if a < m { a } else { m }
    }
}

/// Whether `d` holds one of the terms verbatim.
pub open spec fn has_exact(ts: Seq<QueryTerm>, d: u32) -> bool {
    exists|i: int| 0 <= i < ts.len() && #[trigger] ts[i].exact_docids@.contains(d)
}

/// The score of `d` under criterion `c`; lower ranks first.
pub open spec fn score(pos: Seq<Posting>, attr: Seq<Posting>, ts: Seq<QueryTerm>, c: Criterion, d: u32) -> u32 {
    match c {
        Criterion::Words => missing_terms(ts, d),
        Criterion::Proximity => proximity_sum(pos, ts, d),
        Criterion::Attribute => first_attribute(attr, ts, d),
        Criterion::Exactness => if has_exact(ts, d) { 0 } else { 1 },
    }
}

/// `x` ranks before `y` from `level` on: the first criterion that tells
/// them apart gives `x` the lower score, or none does and `x < y`.
pub open spec fn ranks_before(pos: Seq<Posting>, attr: Seq<Posting>, ts: Seq<QueryTerm>, x: u32, y: u32, level: nat) -> bool
    decreases CRITERIA - level,
{
    if level >= CRITERIA {
        x < y
    } else {
        let sx = score(pos, attr, ts, criterion_at(level), x);
        let sy = score(pos, attr, ts, criterion_at(level), y);
        sx < sy || (sx == sy && ranks_before(pos, attr, ts, x, y, level + 1))
    }
}

/// `r` is in strict ranking order from `level` on.
pub open spec fn in_rank_order(pos: Seq<Posting>, attr: Seq<Posting>, ts: Seq<QueryTerm>, r: Seq<u32>, level: nat) -> bool {
    forall|i: int, j: int| 0 <= i < j < r.len() ==> ranks_before(pos, attr, ts, #[trigger] r[i], #[trigger] r[j], level)
}

proof fn lemma_buckets_of_positions(pos: Seq<Posting>, quant: Seq<Posting>, ws: Seq<Seq<u8>>, d: u32)
    requires
        quantized_from(pos, quant),
    ensures
        forall|i: int| 0 <= i < keys_of(pos, ws, d).len() ==> keys_of(quant, ws, d).contains(
            #[trigger] keys_of(pos, ws, d)[i] / QUANTIZATION,
        ),
{
    assert forall|i: int| 0 <= i < keys_of(pos, ws, d).len() implies keys_of(quant, ws, d).contains(
        #[trigger] keys_of(pos, ws, d)[i] / QUANTIZATION,
    ) by {
        let p = keys_of(pos, ws, d)[i];
        assert(keys_of(pos, ws, d).contains(p));
        lemma_keys_of_contains(pos, ws, d, p);
        let w = choose|w: Seq<u8>| ws.contains(w) && #[trigger] crate::index::table_holds(pos, w, p, d);
        assert(crate::index::table_holds(quant, w, p / QUANTIZATION, d));
        lemma_keys_of_contains(quant, ws, d, p / QUANTIZATION);
    }
}

/// Distance between the positions of two terms in `d`: the quantized table
/// is read first, and the exact positions only where two buckets are close
/// enough for a distance under the clamp.
pub fn pair_proximity(pos: &Vec<Posting>, quant: &Vec<Posting>, a: &Vec<Vec<u8>>, b: &Vec<Vec<u8>>, d: u32) -> (r: u32)
    requires
        quantized_from(pos@, quant@),
    ensures
        r == pair_distance(keys_of(pos@, words_view(a@), d), keys_of(pos@, words_view(b@), d)),
{
    let qa = keys_for_document(quant, a, d);
    let qb = keys_for_document(quant, b, d);
    if any_buckets_near(&qa, &qb) {
        let pa = keys_for_document(pos, a, d);
        let pb = keys_for_document(pos, b, d);
        min_pair_distance(&pa, &pb)
    } else {
        proof {
            lemma_buckets_of_positions(pos@, quant@, words_view(a@), d);
            lemma_buckets_of_positions(pos@, quant@, words_view(b@), d);
            lemma_far_buckets(keys_of(pos@, words_view(a@), d), keys_of(pos@, words_view(b@), d), qa@, qb@);
        }
        MAX_DISTANCE
    }
}

/// Score of one document under one criterion.
pub fn score_document(pos: &Vec<Posting>, quant: &Vec<Posting>, attr: &Vec<Posting>, ts: &Vec<QueryTerm>, c: Criterion, d: u32) -> (r: u32)
    requires
        quantized_from(pos@, quant@),
    ensures
        r == score(pos@, attr@, ts@, c, d),
{
    match c {
        Criterion::Words => {
            let mut m: u32 = 0;
            let mut i: usize = 0;
            while i < ts.len()
                invariant
                    i <= ts.len(),
                    m == missing_terms(ts@.subrange(0, i as int), d),
                decreases ts.len() - i,
            {
                assert(ts@.subrange(0, i + 1).drop_last() == ts@.subrange(0, i as int));
                let miss: u32 = if contains(&ts[i].docids, d) { 0 } else { 1 };
                m = saturating(m, miss);
                i = i + 1;
            }
            assert(ts@.subrange(0, ts.len() as int) == ts@);
            m
        },
        Criterion::Proximity => {
            let mut s: u32 = 0;
            if ts.len() < 2 {
                return 0;
            }
            let mut i: usize = 1;
            assert(ts@.subrange(0, 1).len() < 2);
            while i < ts.len()
                invariant
                    1 <= i <= ts.len(),
                    quantized_from(pos@, quant@),
                    s == proximity_sum(pos@, ts@.subrange(0, i as int), d),
                decreases ts.len() - i,
            {
                let ghost sub = ts@.subrange(0, i + 1);
                assert(sub.drop_last() == ts@.subrange(0, i as int));
                assert(sub[sub.len() - 2] == ts@[i - 1]);
                assert(sub[sub.len() - 1] == ts@[i as int]);
                let p = pair_proximity(pos, quant, &ts[i - 1].words, &ts[i].words, d);
                s = saturating(s, p);
                i = i + 1;
            }
            assert(ts@.subrange(0, ts.len() as int) == ts@);
            s
        },
        Criterion::Attribute => {
            let mut m: u32 = u32::MAX;
            let mut i: usize = 0;
            while i < ts.len()
                invariant
                    i <= ts.len(),
                    m == first_attribute(attr@, ts@.subrange(0, i as int), d),
                decreases ts.len() - i,
            {
                assert(ts@.subrange(0, i + 1).drop_last() == ts@.subrange(0, i as int));
                let keys = keys_for_document(attr, &ts[i].words, d);
                let mut a: u32 = u32::MAX;
                let mut j: usize = 0;
                while j < keys.len()
                    invariant
                        j <= keys.len(),
                        a == seq_min(keys@.subrange(0, j as int)),
                    decreases keys.len() - j,
                {
                    assert(keys@.subrange(0, j + 1).drop_last() == keys@.subrange(0, j as int));
                    if keys[j] < a {
                        a = keys[j];
                    }
                    j = j + 1;
                }
                assert(keys@.subrange(0, keys.len() as int) == keys@);
                if a < m {
                    m = a;
                }
                i = i + 1;
            }
            assert(ts@.subrange(0, ts.len() as int) == ts@);
            m
        },
        Criterion::Exactness => {
            let mut i: usize = 0;
            while i < ts.len()
                invariant
                    i <= ts.len(),
                    c == Criterion::Exactness,
                    forall|k: int| 0 <= k < i ==> !(#[trigger] ts@[k]).exact_docids@.contains(d),
                decreases ts.len() - i,
            {
                if contains(&ts[i].exact_docids, d) {
                    assert(ts@[i as int].exact_docids@.contains(d));
                    assert(has_exact(ts@, d));
                    return 0;
                }
                i = i + 1;
            }
            1
        },
    }
}

/// Scores of each of `docs` under one criterion.
pub fn score_documents(pos: &Vec<Posting>, quant: &Vec<Posting>, attr: &Vec<Posting>, ts: &Vec<QueryTerm>, c: Criterion, docs: &Vec<u32>) -> (r: Vec<u32>)
    requires
        quantized_from(pos@, quant@),
    ensures
        r@.len() == docs@.len(),
        forall|k: int| 0 <= k < docs@.len() ==> r@[k] == score(pos@, attr@, ts@, c, #[trigger] docs@[k]),
{
    let mut r: Vec<u32> = Vec::new();
    let mut i: usize = 0;
    while i < docs.len()
        invariant
            i <= docs.len(),
            quantized_from(pos@, quant@),
            r@.len() == i,
            forall|k: int| 0 <= k < i ==> r@[k] == score(pos@, attr@, ts@, c, #[trigger] docs@[k]),
        decreases docs.len() - i,
    {
        let s = score_document(pos, quant, attr, ts, c, docs[i]);
        r.push(s);
        i = i + 1;
    }
    r
}

/// Ranks `docs` by the criteria from `level` on and returns the first `need`
/// of them: the documents are split into buckets by the score of the
/// criterion at `level`, best bucket first, and each bucket is ranked by the
/// criteria after it, the last tie-break being the document id. Buckets past
/// the first `need` documents are left unranked.
pub fn rank(pos: &Vec<Posting>, quant: &Vec<Posting>, attr: &Vec<Posting>, ts: &Vec<QueryTerm>, docs: &Vec<u32>, level: usize, need: usize) -> (r: Vec<u32>)
    requires
        quantized_from(pos@, quant@),
        strictly_sorted(docs@),
        level <= CRITERIA,
    ensures
        r@.len() <= need,
        forall|i: int| 0 <= i < r@.len() ==> docs@.contains(#[trigger] r@[i]),
        in_rank_order(pos@, attr@, ts@, r@, level as nat),
        forall|x: u32| docs@.contains(x) && !r@.contains(x) ==> r@.len() == need && forall|i: int|
            0 <= i < r@.len() ==> ranks_before(pos@, attr@, ts@, #[trigger] r@[i], x, level as nat),
    decreases CRITERIA - level,
{
    if level >= CRITERIA || docs.len() <= 1 {
        let mut r: Vec<u32> = Vec::new();
        let mut i: usize = 0;
        while i < docs.len() && i < need
            invariant
                i <= docs@.len(),
                i <= need,
                r@ == docs@.subrange(0, i as int),
            decreases docs.len() - i,
        {
            r.push(docs[i]);
            i = i + 1;
        }
        proof {
            assert forall|k: int| 0 <= k < r@.len() implies docs@.contains(#[trigger] r@[k]) by {
                assert(docs@[k] == r@[k]);
            }
            assert forall|x: u32| docs@.contains(x) && !r@.contains(x) implies r@.len() == need && forall|j: int|
                0 <= j < r@.len() ==> ranks_before(pos@, attr@, ts@, #[trigger] r@[j], x, level as nat) by {
                let k = choose|k: int| 0 <= k < docs@.len() && docs@[k] == x;
                if k < i {
                    assert(r@[k] == x);
                }
                assert forall|j: int| 0 <= j < r@.len() implies ranks_before(pos@, attr@, ts@, #[trigger] r@[j], x, level as nat) by {
                    assert(r@[j] == docs@[j]);
                }
            }
        }
        return r;
    }
    let c = criterion_for_level(level);
    let scores = score_documents(pos, quant, attr, ts, c, docs);
    let (keys, buckets) = bucket_by_score(docs, &scores);
    let ghost bv = views_of(buckets@);
    assert forall|b: int, x: u32| 0 <= b < buckets@.len() && #[trigger] buckets@[b]@.contains(x)
        implies score(pos@, attr@, ts@, c, x) == keys@[b] && docs@.contains(x) by {
        assert(bv[b] == buckets@[b]@);
        let k = choose|k: int| 0 <= k < docs@.len() && k < scores@.len() && docs@[k] == x && #[trigger] scores@[k] == keys@[b];
    }
    let mut r: Vec<u32> = Vec::new();
    let mut b: usize = 0;
    while b < buckets.len() && r.len() < need
        invariant
            b <= buckets@.len(),
            level < CRITERIA,
            quantized_from(pos@, quant@),
            c == criterion_at(level as nat),
            bucketed(docs@, scores@, keys@, bv),
            bv == views_of(buckets@),
            forall|b: int| 0 <= b < buckets@.len() ==> strictly_sorted(#[trigger] buckets@[b]@) && buckets@[b]@.len() > 0,
            forall|b: int, x: u32| 0 <= b < buckets@.len() && #[trigger] buckets@[b]@.contains(x)
                ==> score(pos@, attr@, ts@, c, x) == keys@[b] && docs@.contains(x),
            r@.len() <= need,
            in_rank_order(pos@, attr@, ts@, r@, level as nat),
            forall|i: int| 0 <= i < r@.len() ==> docs@.contains(#[trigger] r@[i]),
            forall|e: int, x: u32| 0 <= e < b && #[trigger] buckets@[e]@.contains(x) && !r@.contains(x) ==> r@.len() == need,
            forall|e: int, x: u32| 0 <= e < b && #[trigger] buckets@[e]@.contains(x) && !r@.contains(x) ==> forall|i: int|
                0 <= i < r@.len() ==> ranks_before(pos@, attr@, ts@, #[trigger] r@[i], x, level as nat),
            forall|j: int, e: int| 0 <= j < r@.len() && b <= e < buckets@.len()
                ==> score(pos@, attr@, ts@, c, #[trigger] r@[j]) < #[trigger] keys@[e],
        decreases buckets@.len() - b,
    {
        let sub = rank(pos, quant, attr, ts, &buckets[b], level + 1, need - r.len());
        let ghost prev = r@;
        let mut tail = sub;
        let ghost sv = tail@;
        r.append(&mut tail);
        assert(r@ == prev + sv);
        assert forall|j: int| 0 <= j < sv.len() implies score(pos@, attr@, ts@, c, #[trigger] sv[j]) == keys@[b as int]
            && docs@.contains(sv[j]) by {
            assert(buckets@[b as int]@.contains(sv[j]));
        }
        assert forall|i: int, j: int| 0 <= i < j < r@.len() implies ranks_before(pos@, attr@, ts@, #[trigger] r@[i], #[trigger] r@[j], level as nat) by {
            if j < prev.len() {
                assert(r@[i] == prev[i] && r@[j] == prev[j]);
            } else if i < prev.len() {
                assert(r@[i] == prev[i]);
                assert(r@[j] == sv[j - prev.len()]);
                assert(score(pos@, attr@, ts@, c, prev[i]) < keys@[b as int]);
            } else {
                assert(r@[i] == sv[i - prev.len()]);
                assert(r@[j] == sv[j - prev.len()]);
                assert(ranks_before(pos@, attr@, ts@, sv[i - prev.len()], sv[j - prev.len()], (level + 1) as nat));
            }
        }
        assert forall|i: int| 0 <= i < r@.len() implies docs@.contains(#[trigger] r@[i]) by {
            if i < prev.len() {
                assert(r@[i] == prev[i]);
            } else {
                assert(r@[i] == sv[i - prev.len()]);
            }
        }
        assert forall|e: int, x: u32| 0 <= e < b + 1 && #[trigger] buckets@[e]@.contains(x) && !r@.contains(x)
            implies r@.len() == need && forall|i: int| 0 <= i < r@.len() ==> ranks_before(pos@, attr@, ts@, #[trigger] r@[i], x, level as nat) by {
            if e < b {
                if !prev.contains(x) {
                    assert(prev.len() == need);
                }
                let j = choose|j: int| 0 <= j < prev.len() && prev[j] == x;
                assert(r@[j] == x);
            } else {
                if sv.contains(x) {
                    let j = choose|j: int| 0 <= j < sv.len() && sv[j] == x;
                    assert(r@[prev.len() + j] == x);
                }
                assert(score(pos@, attr@, ts@, c, x) == keys@[b as int]);
                assert forall|i: int| 0 <= i < r@.len() implies ranks_before(pos@, attr@, ts@, #[trigger] r@[i], x, level as nat) by {
                    if i < prev.len() {
                        assert(r@[i] == prev[i]);
                        assert(score(pos@, attr@, ts@, c, prev[i]) < keys@[b as int]);
                    } else {
                        assert(r@[i] == sv[i - prev.len()]);
                        assert(ranks_before(pos@, attr@, ts@, sv[i - prev.len()], x, (level + 1) as nat));
                    }
                }
            }
        }
        assert forall|j: int, e: int| 0 <= j < r@.len() && b + 1 <= e < buckets@.len()
            implies score(pos@, attr@, ts@, c, #[trigger] r@[j]) < #[trigger] keys@[e] by {
            assert(keys@[b as int] < keys@[e]);
            if j < prev.len() {
                assert(r@[j] == prev[j]);
            } else {
                assert(r@[j] == sv[j - prev.len()]);
            }
        }
        b = b + 1;
    }
    assert forall|x: u32| docs@.contains(x) && !r@.contains(x) implies r@.len() == need && forall|i: int|
        0 <= i < r@.len() ==> ranks_before(pos@, attr@, ts@, #[trigger] r@[i], x, level as nat) by {
        let k = choose|k: int| 0 <= k < docs@.len() && docs@[k] == x;
        let e = choose|e: int| 0 <= e < keys@.len() && keys@[e] == #[trigger] scores@[k];
        assert(scored(docs@, scores@, keys@[e], x));
        assert(bv[e] == buckets@[e]@);
        assert(buckets@[e]@.contains(x));
        if e >= b {
            assert forall|i: int| 0 <= i < r@.len() implies ranks_before(pos@, attr@, ts@, #[trigger] r@[i], x, level as nat) by {
                assert(score(pos@, attr@, ts@, c, r@[i]) < keys@[e]);
            }
        }
    }
    r
}

} // verus!
