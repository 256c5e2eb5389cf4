use vstd::prelude::*;
use crate::docset::{strictly_sorted, union, contains, copy_ids};
use crate::dictionary::bytes_of;

verus! {

/// Width of one bucket of the quantized position table.
pub const QUANTIZATION: u32 = 4;

/// One entry of a word-keyed table: the documents holding `word` under `key`
/// (a flattened position, a quantized position or an attribute).
pub struct Posting {
    pub word: Vec<u8>,
    pub key: u32,
    pub docids: Vec<u32>,
}

/// The byte strings held by a list of words.
pub open spec fn words_view(ws: Seq<Vec<u8>>) -> Seq<Seq<u8>> {
    ws.map_values(|w: Vec<u8>| w@)
}

/// Every entry holds its documents as a strictly increasing id list.
pub open spec fn table_wf(t: Seq<Posting>) -> bool {
    forall|i: int| 0 <= i < t.len() ==> strictly_sorted(#[trigger] t[i].docids@)
}

/// Document `d` is listed under (`w`, `k`) in table `t`.
pub open spec fn table_holds(t: Seq<Posting>, w: Seq<u8>, k: u32, d: u32) -> bool {
    exists|i: int| 0 <= i < t.len() && t[i].word@ == w && t[i].key == k && #[trigger] t[i].docids@.contains(d)
}

/// Document `d` is listed under one of the words `ws`, whatever the key.
pub open spec fn table_holds_any(t: Seq<Posting>, ws: Seq<Seq<u8>>, d: u32) -> bool {
    exists|i: int| 0 <= i < t.len() && ws.contains(t[i].word@) && #[trigger] t[i].docids@.contains(d)
}

/// The keys under which `d` is listed for one of the words `ws`, in table order.
pub open spec fn keys_of(t: Seq<Posting>, ws: Seq<Seq<u8>>, d: u32) -> Seq<u32>
    decreases t.len(),
{
    if t.len() == 0 {
        Seq::empty()
    } else {
        let rest = keys_of(t.drop_last(), ws, d);
        if ws.contains(t.last().word@) && t.last().docids@.contains(d) {
            rest.push(t.last().key)
        } else {
            rest
        }
    }
}

/// Every document listed at an exact position in `pos` is listed in the
/// bucket of that position in `quant`.
pub open spec fn quantized_from(pos: Seq<Posting>, quant: Seq<Posting>) -> bool {
    forall|w: Seq<u8>, p: u32, d: u32| table_holds(pos, w, p, d) ==> table_holds(quant, w, p / QUANTIZATION, d)
}

/// The keys that `keys_of` gives are those of the entries that list `d`
/// under one of the words.
pub proof fn lemma_keys_of_contains(t: Seq<Posting>, ws: Seq<Seq<u8>>, d: u32, k: u32)
    ensures
        keys_of(t, ws, d).contains(k) <==> exists|w: Seq<u8>| ws.contains(w) && #[trigger] table_holds(t, w, k, d),
    decreases t.len(),
{
    if t.len() > 0 {
        let init = t.drop_last();
        lemma_keys_of_contains(init, ws, d, k);
        let rest = keys_of(init, ws, d);
        let e = t.last();
        if keys_of(t, ws, d).contains(k) {
            if rest.contains(k) {
                let w = choose|w: Seq<u8>| ws.contains(w) && #[trigger] table_holds(init, w, k, d);
                let i = choose|i: int| 0 <= i < init.len() && init[i].word@ == w && init[i].key == k && #[trigger] init[i].docids@.contains(d);
                assert(t[i] == init[i]);
                assert(table_holds(t, w, k, d));
            } else {
                assert(ws.contains(e.word@) && e.docids@.contains(d));
                if !(e.key == k) {
                    assert(keys_of(t, ws, d) == rest.push(e.key));
                    let j = choose|j: int| 0 <= j < rest.len() + 1 && rest.push(e.key)[j] == k;
                    assert(rest[j] == k);
                }
                assert(t[t.len() - 1] == e);
                assert(table_holds(t, e.word@, k, d));
            }
        }
        if exists|w: Seq<u8>| ws.contains(w) && #[trigger] table_holds(t, w, k, d) {
            let w = choose|w: Seq<u8>| ws.contains(w) && #[trigger] table_holds(t, w, k, d);
            let i = choose|i: int| 0 <= i < t.len() && t[i].word@ == w && t[i].key == k && #[trigger] t[i].docids@.contains(d);
            if i < t.len() - 1 {
                assert(init[i] == t[i]);
                assert(table_holds(init, w, k, d));
                assert(rest.contains(k));
                let j = choose|j: int| 0 <= j < rest.len() && rest[j] == k;
                if ws.contains(e.word@) && e.docids@.contains(d) {
                    assert(keys_of(t, ws, d)[j] == k);
                }
            } else {
                assert(keys_of(t, ws, d) == rest.push(k));
                assert(keys_of(t, ws, d)[rest.len() as int] == k);
            }
        }
    }
}

/// Whether two byte strings are equal.
pub fn same_bytes(a: &Vec<u8>, b: &Vec<u8>) -> (r: bool)
    ensures
        r == (a@ == b@),
{
    if a.len() != b.len() {
        return false;
    }
    let mut i: usize = 0;
    while i < a.len()
        invariant
            i <= a.len(),
            a.len() == b.len(),
            forall|k: int| 0 <= k < i ==> a@[k] == b@[k],
        decreases a.len() - i,
    {
        if a[i] != b[i] {
            return false;
        }
        i = i + 1;
    }
    assert(a@ == b@);
    true
}

/// Whether `w` is one of the words of `ws`.
pub fn listed(ws: &Vec<Vec<u8>>, w: &Vec<u8>) -> (r: bool)
    ensures
        r == words_view(ws@).contains(w@),
{
    let mut i: usize = 0;
    while i < ws.len()
        invariant
            i <= ws.len(),
            forall|k: int| 0 <= k < i ==> words_view(ws@)[k] != w@,
        decreases ws.len() - i,
    {
        assert(words_view(ws@)[i as int] == ws@[i as int]@);
        if same_bytes(&ws[i], w) {
            return true;
        }
        i = i + 1;
    }
    false
}

/// The documents listed under any of the words `ws`, in increasing order.
pub fn documents_of_words(t: &Vec<Posting>, ws: &Vec<Vec<u8>>) -> (r: Vec<u32>)
    requires
        table_wf(t@),
    ensures
        strictly_sorted(r@),
        forall|d: u32| r@.contains(d) <==> table_holds_any(t@, words_view(ws@), d),
{
    let mut r: Vec<u32> = Vec::new();
    let mut i: usize = 0;
    while i < t.len()
        invariant
            i <= t.len(),
            table_wf(t@),
            strictly_sorted(r@),
            forall|d: u32|
                r@.contains(d) <==> table_holds_any(t@.subrange(0, i as int), words_view(ws@), d),
        decreases t.len() - i,
    {
        let ghost prev = r@;
        let hit = listed(ws, &t[i].word);
        if hit {
            r = union(&r, &t[i].docids);
        }
        assert forall|d: u32|
            r@.contains(d) <==> table_holds_any(t@.subrange(0, i + 1), words_view(ws@), d) by {
            let s = t@.subrange(0, i + 1);
            if table_holds_any(s, words_view(ws@), d) {
                let k = choose|k: int|
                    0 <= k < s.len() && words_view(ws@).contains(s[k].word@) && #[trigger] s[k].docids@.contains(d);
                if k < i {
                    assert(t@.subrange(0, i as int)[k] == s[k]);
                    assert(table_holds_any(t@.subrange(0, i as int), words_view(ws@), d));
                }
            }
            if prev.contains(d) {
                let k = choose|k: int|
                    0 <= k < i && words_view(ws@).contains(t@.subrange(0, i as int)[k].word@)
                        && #[trigger] t@.subrange(0, i as int)[k].docids@.contains(d);
                assert(s[k] == t@.subrange(0, i as int)[k]);
            }
            if hit && t@[i as int].docids@.contains(d) {
                assert(s[i as int] == t@[i as int]);
            }
        }
        i = i + 1;
    }
    assert(t@.subrange(0, t.len() as int) == t@);
    r
}

/// The keys under which `d` is listed for one of the words `ws`, in table order.
pub fn keys_for_document(t: &Vec<Posting>, ws: &Vec<Vec<u8>>, d: u32) -> (r: Vec<u32>)
    ensures
        r@ == keys_of(t@, words_view(ws@), d),
{
    let mut r: Vec<u32> = Vec::new();
    let mut i: usize = 0;
    while i < t.len()
        invariant
            i <= t.len(),
            r@ == keys_of(t@.subrange(0, i as int), words_view(ws@), d),
        decreases t.len() - i,
    {
        assert(t@.subrange(0, i + 1).drop_last() == t@.subrange(0, i as int));
        if listed(ws, &t[i].word) && contains(&t[i].docids, d) {
            r.push(t[i].key);
        }
        i = i + 1;
    }
    assert(t@.subrange(0, t.len() as int) == t@);
    r
}

/// A copy of a byte string.
pub fn copy_bytes(v: &Vec<u8>) -> (r: Vec<u8>)
    ensures
        r@ == v@,
{
    bytes_of(v.as_slice())
}

/// Derives the quantized position table from the exact position table: the
/// entry for (word, bucket) lists every document that holds the word at some
/// position of that bucket. Entries that share a word and a bucket and follow
/// each other are merged.
pub fn quantize_positions(t: &Vec<Posting>) -> (r: Vec<Posting>)
    requires
        table_wf(t@),
    ensures
        table_wf(r@),
        quantized_from(t@, r@),
        forall|w: Seq<u8>, b: u32, d: u32|
            table_holds(r@, w, b, d) ==> exists|p: u32|
                p / QUANTIZATION == b && table_holds(t@, w, p, d),
{
    let mut r: Vec<Posting> = Vec::new();
    let mut i: usize = 0;
    while i < t.len()
        invariant
            i <= t.len(),
            table_wf(t@),
            table_wf(r@),
            forall|w: Seq<u8>, p: u32, d: u32|
                table_holds(t@.subrange(0, i as int), w, p, d) ==> table_holds(r@, w, p / QUANTIZATION, d),
            forall|w: Seq<u8>, b: u32, d: u32|
                table_holds(r@, w, b, d) ==> exists|p: u32|
                    p / QUANTIZATION == b && table_holds(t@.subrange(0, i as int), w, p, d),
        decreases t.len() - i,
    {
        let bucket = t[i].key / QUANTIZATION;
        let n = r.len();
        let merge = n > 0 && r[n - 1].key == bucket && same_bytes(&r[n - 1].word, &t[i].word);
        let ghost prev = r@;
        let ghost e = t@[i as int];
        let ghost s = t@.subrange(0, i + 1);
        assert(s[i as int] == e);
        assert forall|k: int| 0 <= k < i implies s[k] == t@.subrange(0, i as int)[k] by {}
        if merge {
            let last = r.pop().unwrap();
            let merged = union(&last.docids, &t[i].docids);
            r.push(Posting { word: last.word, key: last.key, docids: merged });
            assert(r@.len() == prev.len());
            assert forall|k: int| 0 <= k < n - 1 implies r@[k] == prev[k] by {}
        } else {
            r.push(Posting { word: copy_bytes(&t[i].word), key: bucket, docids: copy_ids(&t[i].docids) });
            assert forall|k: int| 0 <= k < n implies r@[k] == prev[k] by {}
        }
        let ghost m = r@.len() - 1;
        assert(r@[m].word@ == e.word@ && r@[m].key == bucket);
        assert(forall|d: u32| #[trigger] r@[m].docids@.contains(d) <==> (e.docids@.contains(d) || (
            merge && prev[m].docids@.contains(d))));
        assert forall|w: Seq<u8>, p: u32, d: u32|
            table_holds(s, w, p, d) implies table_holds(r@, w, p / QUANTIZATION, d) by {
            let k = choose|k: int| 0 <= k < s.len() && s[k].word@ == w && s[k].key == p && #[trigger] s[k].docids@.contains(d);
            if k == i {
                assert(r@[m].docids@.contains(d));
            } else {
                assert(table_holds(t@.subrange(0, i as int), w, p, d));
                assert(table_holds(prev, w, p / QUANTIZATION, d));
                let j = choose|j: int| 0 <= j < prev.len() && prev[j].word@ == w && prev[j].key == p / QUANTIZATION && #[trigger] prev[j].docids@.contains(d);
                if j == m {
                    assert(r@[m].docids@.contains(d));
                } else {
                    assert(r@[j] == prev[j]);
                }
            }
        }
        assert forall|w: Seq<u8>, b: u32, d: u32|
            table_holds(r@, w, b, d) implies exists|p: u32|
                p / QUANTIZATION == b && table_holds(s, w, p, d) by {
            let j = choose|j: int| 0 <= j < r@.len() && r@[j].word@ == w && r@[j].key == b && #[trigger] r@[j].docids@.contains(d);
            if j == m && e.docids@.contains(d) {
                assert(table_holds(s, w, e.key, d));
            } else {
                assert(prev[j].docids@.contains(d));
                assert(table_holds(prev, w, b, d));
                let p = choose|p: u32| p / QUANTIZATION == b && table_holds(t@.subrange(0, i as int), w, p, d);
                let k = choose|k: int| 0 <= k < i && t@.subrange(0, i as int)[k].word@ == w && t@.subrange(0, i as int)[k].key == p && #[trigger] t@.subrange(0, i as int)[k].docids@.contains(d);
                assert(s[k] == t@.subrange(0, i as int)[k]);
                assert(table_holds(s, w, p, d));
            }
        }
        i = i + 1;
    }
    assert(t@.subrange(0, t.len() as int) == t@);
    r
}

} // verus!
