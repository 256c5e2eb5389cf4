use vstd::prelude::*;
use crate::docset::{strictly_sorted, union};
use crate::dictionary::lex_lt;

verus! {

/// The errors of reading what the index stores.
#[derive(Clone, Copy, Debug, PartialEq, Eq, Structural)]
pub enum IndexError {
    /// Stored bytes do not decode to what their table holds.
    CorruptData,
    /// A document id that was asked for is not stored.
    NotFound(u32),
    /// An entry that every built index holds is missing.
    MissingEntry,
}

/// Big-endian bytes of a 32-bit integer.
pub open spec fn be_bytes(v: u32) -> Seq<u8> {
    seq![(v / 16777216) as u8, ((v / 65536) % 256) as u8, ((v / 256) % 256) as u8, (v % 256) as u8]
}

/// The integer that four big-endian bytes stand for.
pub open spec fn be_value(b: Seq<u8>) -> u32 {
    (((b[0] as int * 256 + b[1] as int) * 256 + b[2] as int) * 256 + b[3] as int) as u32
}

/// The strictly increasing list of the ids of `ids`.
pub fn normalize_ids(ids: &Vec<u32>) -> (r: Vec<u32>)
    ensures
        strictly_sorted(r@),
        forall|x: u32| r@.contains(x) <==> ids@.contains(x),
{
    let mut r: Vec<u32> = Vec::new();
    let mut i: usize = 0;
    while i < ids.len()
        invariant
            i <= ids@.len(),
            strictly_sorted(r@),
            forall|x: u32| r@.contains(x) <==> ids@.subrange(0, i as int).contains(x),
        decreases ids@.len() - i,
    {
        let one: Vec<u32> = vec![ids[i]];
        assert(one@ =~= seq![ids@[i as int]]);
        let ghost prev = r@;
        r = union(&r, &one);
        assert forall|x: u32| r@.contains(x) <==> ids@.subrange(0, i + 1).contains(x) by {
            assert(ids@.subrange(0, i + 1) =~= ids@.subrange(0, i as int).push(ids@[i as int]));
            assert(prev.contains(x) <==> ids@.subrange(0, i as int).contains(x));
            if ids@.subrange(0, i + 1).contains(x) {
                let s1 = ids@.subrange(0, i + 1);
                let k = choose|k: int| 0 <= k < s1.len() && s1[k] == x;
                if k < i {
                    assert(ids@.subrange(0, i as int)[k] == x);
                } else {
                    assert(one@[0] == x);
                }
            }
            if ids@.subrange(0, i as int).contains(x) {
                let s0 = ids@.subrange(0, i as int);
                let k = choose|k: int| 0 <= k < s0.len() && s0[k] == x;
                assert(ids@.subrange(0, i + 1)[k] == x);
            }
            if one@.contains(x) {
                assert(ids@.subrange(0, i + 1)[i as int] == x);
            }
        }
        i = i + 1;
    }
    assert(ids@.subrange(0, ids@.len() as int) == ids@);
    r
}

/// The ids that consecutive groups of four bytes stand for.
pub open spec fn ids_of(b: Seq<u8>) -> Seq<u32> {
    Seq::new(b.len() / 4, |i: int| be_value(b.subrange(4 * i, 4 * i + 4)))
}

proof fn lemma_be_round_trip(v: u32)
    ensures
        be_value(be_bytes(v)) == v,
        be_bytes(v).len() == 4,
{
    let a = v / 256;
    let b = a / 256;
    let c = b / 256;
    assert(v / 65536 == b);
    assert(v / 16777216 == c);
    assert(c < 256);
}

proof fn lemma_be_bytes_injective(v: u32, w: u32)
    requires
        be_bytes(v) == be_bytes(w),
    ensures
        v == w,
{
    lemma_be_round_trip(v);
    lemma_be_round_trip(w);
}

fn push_be(r: &mut Vec<u8>, v: u32)
    ensures
        final(r)@ == old(r)@ + be_bytes(v),
{
    r.push((v / 16777216) as u8);
    r.push(((v / 65536) % 256) as u8);
    r.push(((v / 256) % 256) as u8);
    r.push((v % 256) as u8);
    assert(final(r)@ =~= old(r)@ + be_bytes(v));
}

fn read_be(b: &Vec<u8>, at: usize) -> (r: u32)
    requires
        at + 4 <= b@.len(),
    ensures
        r == be_value(b@.subrange(at as int, at + 4)),
{
    let len = b.len();
    assert(at + 4 <= len);
    let b0 = b[at] as u32;
    let b1 = b[at + 1] as u32;
    let b2 = b[at + 2] as u32;
    let b3 = b[at + 3] as u32;
    assert(b0 < 256 && b1 < 256 && b2 < 256 && b3 < 256);
    let x1: u32 = b0 * 256 + b1;
    assert(x1 < 65536);
    let x2: u32 = x1 * 256 + b2;
    assert(x2 < 16777216);
    let x3: u32 = x2 * 256 + b3;
    x3
}

/// The key of a word-keyed table: the word's bytes, then the integer in four
/// big-endian bytes.
pub fn encode_key(word: &Vec<u8>, n: u32) -> (r: Vec<u8>)
    ensures
        r@ == word@ + be_bytes(n),
{
    let mut r: Vec<u8> = Vec::new();
    let mut i: usize = 0;
    while i < word.len()
        invariant
            i <= word.len(),
            r@ == word@.subrange(0, i as int),
        decreases word.len() - i,
    {
        r.push(word[i]);
        i = i + 1;
    }
    assert(word@.subrange(0, word.len() as int) == word@);
    push_be(&mut r, n);
    r
}

/// Splits a key of a word-keyed table into its word and its integer.
pub fn decode_key(bytes: &Vec<u8>) -> (r: Result<(Vec<u8>, u32), IndexError>)
    ensures
        bytes@.len() < 4 <==> r == Err::<(Vec<u8>, u32), IndexError>(IndexError::CorruptData),
        bytes@.len() >= 4 ==> r is Ok,
        r matches Ok((w, n)) ==> bytes@ == w@ + be_bytes(n),
{
    if bytes.len() < 4 {
        return Err(IndexError::CorruptData);
    }
    let split = bytes.len() - 4;
    let mut w: Vec<u8> = Vec::new();
    let mut i: usize = 0;
    while i < split
        invariant
            i <= split,
            split + 4 == bytes@.len(),
            w@ == bytes@.subrange(0, i as int),
        decreases split - i,
    {
        w.push(bytes[i]);
        i = i + 1;
    }
    let n = read_be(bytes, split);
    proof {
        let tail = bytes@.subrange(split as int, split + 4);
        let n0 = n;
        assert(tail.len() == 4);
        lemma_be_round_trip(n0);
        assert(be_bytes(n0) =~= tail) by {
            assert(tail[0] < 256 && tail[1] < 256 && tail[2] < 256 && tail[3] < 256);
        }
        assert(bytes@ =~= w@ + be_bytes(n0));
    }
    Ok((w, n))
}

/// Two keys are equal only if their words and integers are.
pub proof fn lemma_key_injective(w1: Seq<u8>, n1: u32, w2: Seq<u8>, n2: u32)
    requires
        w1 + be_bytes(n1) == w2 + be_bytes(n2),
    ensures
        w1 == w2,
        n1 == n2,
{
    let k = w1 + be_bytes(n1);
    assert(be_bytes(n1).len() == 4 && be_bytes(n2).len() == 4);
    assert(k.len() == w1.len() + 4);
    assert((w2 + be_bytes(n2)).len() == w2.len() + 4);
    assert(w1.len() == w2.len());
    assert(w1 =~= k.subrange(0, w1.len() as int));
    assert(w2 =~= k.subrange(0, w2.len() as int));
    assert(be_bytes(n1) =~= k.subrange(w1.len() as int, k.len() as int));
    assert(be_bytes(n2) =~= k.subrange(w2.len() as int, k.len() as int));
    lemma_be_bytes_injective(n1, n2);
}

/// The stored form of a document id set: each id in four big-endian bytes.
pub fn encode_ids(ids: &Vec<u32>) -> (r: Vec<u8>)
    ensures
        r@.len() == 4 * ids@.len(),
        ids_of(r@) == ids@,
{
    let mut r: Vec<u8> = Vec::new();
    let mut i: usize = 0;
    while i < ids.len()
        invariant
            i <= ids.len(),
            r@.len() == 4 * i,
            forall|k: int| 0 <= k < i ==> #[trigger] r@.subrange(4 * k, 4 * k + 4) == be_bytes(ids@[k]),
        decreases ids.len() - i,
    {
        let ghost before = r@;
        push_be(&mut r, ids[i]);
        assert forall|k: int| 0 <= k < i + 1 implies #[trigger] r@.subrange(4 * k, 4 * k + 4) == be_bytes(ids@[k]) by {
            if k < i {
                assert(r@.subrange(4 * k, 4 * k + 4) =~= before.subrange(4 * k, 4 * k + 4));
            } else {
                assert(r@.subrange(4 * k, 4 * k + 4) =~= be_bytes(ids@[k]));
            }
        }
        i = i + 1;
    }
    assert forall|k: int| 0 <= k < ids@.len() implies ids_of(r@)[k] == ids@[k] by {
        lemma_be_round_trip(ids@[k]);
        assert(r@.subrange(4 * k, 4 * k + 4) == be_bytes(ids@[k]));
    }
    assert(ids_of(r@) =~= ids@);
    r
}

/// Reads a stored document id set; the bytes must be groups of four that
/// stand for strictly increasing ids.
pub fn decode_ids(bytes: &Vec<u8>) -> (r: Result<Vec<u32>, IndexError>)
    ensures
        r is Ok <==> (bytes@.len() % 4 == 0 && strictly_sorted(ids_of(bytes@))),
        r matches Ok(v) ==> v@ == ids_of(bytes@),
        r matches Err(e) ==> e == IndexError::CorruptData,
{
    if bytes.len() % 4 != 0 {
        return Err(IndexError::CorruptData);
    }
    let blen = bytes.len();
    let n = blen / 4;
    let ghost all = ids_of(bytes@);
    let mut r: Vec<u32> = Vec::new();
    let mut i: usize = 0;
    while i < n
        invariant
            i <= n,
            n == blen / 4,
            blen == bytes@.len(),
            bytes@.len() % 4 == 0,
            all == ids_of(bytes@),
            r@ == all.subrange(0, i as int),
            strictly_sorted(r@),
        decreases n - i,
    {
        assert(4 * i + 4 <= blen) by (nonlinear_arith)
            requires
                i < n,
                n == blen / 4,
        ;
        let v = read_be(bytes, 4 * i);
        assert(v == all[i as int]);
        if i > 0 && r[i - 1] >= v {
            assert(!strictly_sorted(all)) by {
                assert(all[i - 1] >= all[i as int]);
            }
            return Err(IndexError::CorruptData);
        }
        r.push(v);
        assert(r@ =~= all.subrange(0, i + 1));
        i = i + 1;
    }
    assert(r@ =~= all);
    Ok(r)
}

proof fn lemma_be_order(n1: u32, n2: u32)
    requires
        n1 < n2,
    ensures
        lex_lt(be_bytes(n1), be_bytes(n2)),
{
    let a = be_bytes(n1);
    let b = be_bytes(n2);
    lemma_be_round_trip(n1);
    lemma_be_round_trip(n2);
    assert(a.drop_first() =~= seq![a[1], a[2], a[3]]);
    assert(b.drop_first() =~= seq![b[1], b[2], b[3]]);
    assert(a.drop_first().drop_first() =~= seq![a[2], a[3]]);
    assert(b.drop_first().drop_first() =~= seq![b[2], b[3]]);
    assert(a.drop_first().drop_first().drop_first() =~= seq![a[3]]);
    assert(b.drop_first().drop_first().drop_first() =~= seq![b[3]]);
    assert(seq![a[3]].drop_first() =~= Seq::<u8>::empty());
    assert(seq![b[3]].drop_first() =~= Seq::<u8>::empty());
    assert(n1 == (((a[0] as int * 256 + a[1] as int) * 256 + a[2] as int) * 256 + a[3] as int));
    assert(n2 == (((b[0] as int * 256 + b[1] as int) * 256 + b[2] as int) * 256 + b[3] as int));
    reveal_with_fuel(lex_lt, 5);
    if a[0] == b[0] && a[1] == b[1] && a[2] == b[2] {
        assert(a[3] < b[3]);
    } else if a[0] == b[0] && a[1] == b[1] {
        assert(a[2] < b[2]);
    } else if a[0] == b[0] {
        assert(a[1] < b[1]);
    } else {
        assert(a[0] < b[0]);
    }
}

/// No byte of the word is zero.
pub open spec fn no_zero_byte(w: Seq<u8>) -> bool {
    forall|i: int| 0 <= i < w.len() ==> w[i] != 0
}

/// Keys order as their (word, integer) pairs do, for words without a zero
/// byte and integers below 2^24 (positions and attributes stay far below).
pub proof fn lemma_key_order(w1: Seq<u8>, n1: u32, w2: Seq<u8>, n2: u32)
    requires
        no_zero_byte(w1),
        no_zero_byte(w2),
        n1 < 16777216,
        n2 < 16777216,
        lex_lt(w1, w2) || (w1 == w2 && n1 < n2),
    ensures
        lex_lt(w1 + be_bytes(n1), w2 + be_bytes(n2)),
    decreases w1.len(),
{
    let k1 = w1 + be_bytes(n1);
    let k2 = w2 + be_bytes(n2);
    if w1.len() == 0 && w2.len() == 0 {
        assert(w1 == w2);
        lemma_be_order(n1, n2);
        assert(k1 =~= be_bytes(n1));
        assert(k2 =~= be_bytes(n2));
    } else if w1.len() == 0 {
        assert(k1[0] == 0);
        assert(k2[0] == w2[0]);
    } else {
        assert(w2.len() > 0);
        assert(k1[0] == w1[0] && k2[0] == w2[0]);
        if w1[0] == w2[0] {
            assert(no_zero_byte(w1.drop_first()));
            assert(no_zero_byte(w2.drop_first()));
            if w1 == w2 {
                assert(w1.drop_first() == w2.drop_first());
            }
            lemma_key_order(w1.drop_first(), n1, w2.drop_first(), n2);
            assert(k1.drop_first() =~= w1.drop_first() + be_bytes(n1));
            assert(k2.drop_first() =~= w2.drop_first() + be_bytes(n2));
        }
    }
}

} // verus!
