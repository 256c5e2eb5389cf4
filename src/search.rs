use vstd::prelude::*;
use crate::candidates::{build_candidates, in_all_kept, relaxed, every_token};
use crate::dictionary::{resolve_word, resolved_words, dictionary_built, dictionary_words, build_dictionary, lex_nondecreasing};
use crate::codec::IndexError;
use vstd::utf8::encode_utf8;
use vstd::string::StringSliceAdditionalSpecFns;
use crate::docset::{strictly_sorted, views_of, copy_ids, contains};
use crate::index::{Posting, quantized_from, quantize_positions, table_wf, table_holds_any, words_view, documents_of_words, copy_bytes};
use crate::ranking::{QueryTerm, in_rank_order, ranks_before, rank, CRITERIA, missing_terms, proximity_sum, first_attribute, has_exact};
use crate::dictionary::bytes_of;

verus! {

/// How many dictionary words the last token of a query may stand for,
/// unless a snapshot is given another bound.
pub const PREFIX_LIMIT: usize = 50;

/// The bytes of a query token.
pub open spec fn token_bytes(s: String) -> Seq<u8> {
    encode_utf8(s@)
}

/// What one read snapshot of the index holds.
pub struct Snapshot {
    /// The dictionary of every indexed word.
    pub words: fst::Set<Vec<u8>>,
    /// (word, flattened position) to documents.
    pub word_position_docids: Vec<Posting>,
    /// (word, position / 4) to documents.
    pub word_four_positions_docids: Vec<Posting>,
    /// (word, attribute) to documents.
    pub word_attribute_docids: Vec<Posting>,
    /// Every valid document id.
    pub documents_ids: Vec<u32>,
    /// How many dictionary words the last token of a query may stand for.
    pub prefix_limit: usize,
}

impl Snapshot {
    pub open spec fn wf(&self) -> bool {
        &&& table_wf(self.word_position_docids@)
        &&& table_wf(self.word_four_positions_docids@)
        &&& table_wf(self.word_attribute_docids@)
        &&& quantized_from(self.word_position_docids@, self.word_four_positions_docids@)
        &&& strictly_sorted(self.documents_ids@)
        &&& dictionary_built(self.words)
        &&& forall|i: int, d: u32| 0 <= i < self.word_attribute_docids@.len()
            && #[trigger] self.word_attribute_docids@[i].docids@.contains(d) ==> self.documents_ids@.contains(d)
    }
}

/// The words of the entries of a table, in table order.
pub open spec fn table_words(t: Seq<Posting>) -> Seq<Seq<u8>> {
    t.map_values(|p: Posting| p.word@)
}

/// Every document that an entry of `t` lists is one of `docs`.
pub open spec fn within(t: Seq<Posting>, docs: Seq<u32>) -> bool {
    forall|i: int, d: u32| 0 <= i < t.len() && #[trigger] t[i].docids@.contains(d) ==> docs.contains(d)
}

/// Whether `v` is strictly increasing.
pub fn is_strictly_sorted(v: &Vec<u32>) -> (r: bool)
    ensures
        r == strictly_sorted(v@),
{
    let mut i: usize = 1;
    if v.len() == 0 {
        return true;
    }
    while i < v.len()
        invariant
            1 <= i <= v@.len(),
            strictly_sorted(v@.subrange(0, i as int)),
        decreases v.len() - i,
    {
        if v[i - 1] >= v[i] {
            assert(!strictly_sorted(v@)) by {
                assert(v@[i - 1] >= v@[i as int]);
            }
            return false;
        }
        let ghost nxt = v@.subrange(0, i + 1);
        assert forall|a: int, b: int| 0 <= a < b < i + 1 implies #[trigger] nxt[a] < #[trigger] nxt[b] by {
            assert(v@.subrange(0, i as int)[a] == v@[a]);
            if b < i {
                assert(v@.subrange(0, i as int)[b] == v@[b]);
            } else if a < i - 1 {
                assert(v@.subrange(0, i as int)[i - 1] == v@[i - 1]);
            }
        }
        i = i + 1;
    }
    assert(v@.subrange(0, v@.len() as int) == v@);
    true
}

/// Whether every entry of `t` lists its documents in strictly increasing order.
pub fn table_is_wf(t: &Vec<Posting>) -> (r: bool)
    ensures
        r == table_wf(t@),
{
    let mut i: usize = 0;
    while i < t.len()
        invariant
            i <= t@.len(),
            forall|k: int| 0 <= k < i ==> strictly_sorted(#[trigger] t@[k].docids@),
        decreases t.len() - i,
    {
        if !is_strictly_sorted(&t[i].docids) {
            return false;
        }
        i = i + 1;
    }
    true
}

/// Whether every document that `t` lists is one of `docs`.
pub fn table_within(t: &Vec<Posting>, docs: &Vec<u32>) -> (r: bool)
    ensures
        r == within(t@, docs@),
{
    let mut i: usize = 0;
    while i < t.len()
        invariant
            i <= t@.len(),
            forall|k: int, d: u32| 0 <= k < i && #[trigger] t@[k].docids@.contains(d) ==> docs@.contains(d),
        decreases t.len() - i,
    {
        let ids = &t[i].docids;
        let mut j: usize = 0;
        while j < ids.len()
            invariant
                i < t@.len(),
                ids == &t@[i as int].docids,
                j <= ids@.len(),
                forall|k: int, d: u32| 0 <= k < i && #[trigger] t@[k].docids@.contains(d) ==> docs@.contains(d),
                forall|m: int| 0 <= m < j ==> docs@.contains(#[trigger] ids@[m]),
            decreases ids.len() - j,
        {
            if !contains(docs, ids[j]) {
                assert(t@[i as int].docids@.contains(ids@[j as int]));
                return false;
            }
            j = j + 1;
        }
        assert forall|d: u32| #[trigger] t@[i as int].docids@.contains(d) implies docs@.contains(d) by {
            let m = choose|m: int| 0 <= m < ids@.len() && ids@[m] == d;
        }
        i = i + 1;
    }
    true
}

/// The words of the entries of `t`, in table order.
fn words_of_table(t: &Vec<Posting>) -> (r: Vec<Vec<u8>>)
    ensures
        words_view(r@) == table_words(t@),
{
    let mut r: Vec<Vec<u8>> = Vec::new();
    let mut i: usize = 0;
    while i < t.len()
        invariant
            i <= t@.len(),
            r@.len() == i,
            forall|k: int| 0 <= k < i ==> (#[trigger] r@[k])@ == t@[k].word@,
        decreases t.len() - i,
    {
        r.push(copy_bytes(&t[i].word));
        i = i + 1;
    }
    assert(words_view(r@) =~= table_words(t@));
    r
}

impl Snapshot {
    /// Makes a snapshot from the tables read from the store: checks that each
    /// entry lists its documents in increasing order, that every document the
    /// attribute table lists is a valid one, and that the ids are increasing;
    /// derives the quantized table from the position table and builds the
    /// word dictionary from the words of the attribute table, which must come
    /// in dictionary order (the order of their keys).
    pub fn build(positions: Vec<Posting>, attributes: Vec<Posting>, documents_ids: Vec<u32>, prefix_limit: usize) -> (r: Result<Snapshot, IndexError>)
        ensures
            r is Ok <==> (table_wf(positions@) && table_wf(attributes@) && strictly_sorted(documents_ids@)
                && within(attributes@, documents_ids@) && lex_nondecreasing(table_words(attributes@))),
            r matches Err(e) ==> e == IndexError::CorruptData,
            r matches Ok(s) ==> {
                &&& s.wf()
                &&& s.word_position_docids@ == positions@
                &&& s.word_attribute_docids@ == attributes@
                &&& s.documents_ids@ == documents_ids@
                &&& s.prefix_limit == prefix_limit
                &&& dictionary_words(s.words) == table_words(attributes@).to_set()
            },
    {
        if !table_is_wf(&positions) || !table_is_wf(&attributes) || !is_strictly_sorted(&documents_ids)
            || !table_within(&attributes, &documents_ids) {
            return Err(IndexError::CorruptData);
        }
        let words = words_of_table(&attributes);
        let dict = match build_dictionary(&words) {
            Ok(d) => d,
            Err(_) => {
                return Err(IndexError::CorruptData);
            },
        };
        let quantized = quantize_positions(&positions);
        Ok(Snapshot {
            words: dict,
            word_position_docids: positions,
            word_four_positions_docids: quantized,
            word_attribute_docids: attributes,
            documents_ids,
            prefix_limit,
        })
    }
}

/// One page of ranked documents, and how many documents matched in all.
pub struct SearchResult {
    pub documents_ids: Vec<u32>,
    pub candidates_count: usize,
}

/// The part of `s` that starts at `offset` and holds at most `limit` ids.
pub open spec fn page_of(s: Seq<u32>, offset: nat, limit: nat) -> Seq<u32> {
    if offset >= s.len() {
        Seq::empty()
    } else if offset + limit >= s.len() {
        s.subrange(offset as int, s.len() as int)
    } else {
        s.subrange(offset as int, (offset + limit) as int)
    }
}

/// The page of `ranked` that starts at `offset` and holds at most `limit` ids.
pub fn paginate(ranked: &Vec<u32>, offset: usize, limit: usize) -> (r: Vec<u32>)
    ensures
        r@ == page_of(ranked@, offset as nat, limit as nat),
{
    let mut r: Vec<u32> = Vec::new();
    if offset >= ranked.len() {
        return r;
    }
    let end: usize = if limit >= ranked.len() - offset { ranked.len() } else { offset + limit };
    let mut i: usize = offset;
    while i < end
        invariant
            offset <= i <= end <= ranked@.len(),
            r@ == ranked@.subrange(offset as int, i as int),
        decreases end - i,
    {
        r.push(ranked[i]);
        i = i + 1;
    }
    r
}

/// Two consecutive pages of one ranking hold no id in common and, put
/// together, are the page that spans both.
pub proof fn lemma_pages_consecutive(full: Seq<u32>, first: nat, second: nat)
    requires
        full.no_duplicates(),
    ensures
        page_of(full, 0, first) + page_of(full, first, second) == page_of(full, 0, first + second),
        forall|x: u32| page_of(full, 0, first).contains(x) ==> !page_of(full, first, second).contains(x),
{
    let a = page_of(full, 0, first);
    let b = page_of(full, first, second);
    assert(a + b =~= page_of(full, 0, first + second));
    assert forall|x: u32| a.contains(x) implies !b.contains(x) by {
        let i = choose|i: int| 0 <= i < a.len() && a[i] == x;
        if b.contains(x) {
            let j = choose|j: int| 0 <= j < b.len() && b[j] == x;
            assert(full[i] == full[first + j]);
        }
    }
}

proof fn lemma_ranks_before_asymmetric(pos: Seq<Posting>, attr: Seq<Posting>, ts: Seq<QueryTerm>, x: u32, y: u32, level: nat)
    ensures
        !(ranks_before(pos, attr, ts, x, y, level) && ranks_before(pos, attr, ts, y, x, level)),
    decreases CRITERIA - level,
{
    if level < CRITERIA {
        lemma_ranks_before_asymmetric(pos, attr, ts, x, y, level + 1);
    }
}

/// `top` is the best `n` documents of `docs` in ranking order, or all of
/// them where `docs` holds fewer.
pub open spec fn is_top(pos: Seq<Posting>, attr: Seq<Posting>, ts: Seq<QueryTerm>, docs: Set<u32>, n: nat, top: Seq<u32>) -> bool {
    &&& top.len() <= n
    &&& forall|i: int| 0 <= i < top.len() ==> docs.contains(#[trigger] top[i])
    &&& in_rank_order(pos, attr, ts, top, 0)
    &&& forall|x: u32| docs.contains(x) && !top.contains(x) ==> top.len() == n && forall|i: int|
        0 <= i < top.len() ==> ranks_before(pos, attr, ts, #[trigger] top[i], x, 0)
}

/// The best `n1` documents are the first ones of the best `n2`, for `n1 <= n2`:
/// every page is a slice of one single ranking.
pub proof fn lemma_top_prefix(pos: Seq<Posting>, attr: Seq<Posting>, ts: Seq<QueryTerm>, docs: Set<u32>, n1: nat, n2: nat, t1: Seq<u32>, t2: Seq<u32>)
    requires
        n1 <= n2,
        is_top(pos, attr, ts, docs, n1, t1),
        is_top(pos, attr, ts, docs, n2, t2),
    ensures
        t1.len() <= t2.len(),
        t1 == t2.subrange(0, t1.len() as int),
        t1.len() < n1 ==> t2.len() == t1.len(),
    decreases t1.len(),
{
    if t1.len() == 0 {
        if n1 > 0 && t2.len() > 0 {
            assert(docs.contains(t2[0]));
            assert(!t1.contains(t2[0]));
        }
        assert(t1 =~= t2.subrange(0, 0));
    } else {
        let h1 = t1[0];
        assert(docs.contains(h1));
        if t2.len() == 0 {
            assert(!t2.contains(h1));
        }
        let h2 = t2[0];
        lemma_ranks_before_asymmetric(pos, attr, ts, h1, h2, 0);
        if !t2.contains(h1) {
            assert(ranks_before(pos, attr, ts, t2[0], h1, 0));
            assert(docs.contains(h2));
            if t1.contains(h2) {
                let i = choose|i: int| 0 <= i < t1.len() && t1[i] == h2;
                if i > 0 {
                    assert(ranks_before(pos, attr, ts, t1[0], t1[i], 0));
                }
            } else {
                assert(ranks_before(pos, attr, ts, t1[0], h2, 0));
            }
        }
        let j = choose|j: int| 0 <= j < t2.len() && t2[j] == h1;
        if h1 != h2 {
            assert(j > 0);
            assert(ranks_before(pos, attr, ts, t2[0], t2[j], 0));
            assert(docs.contains(h2));
            if t1.contains(h2) {
                let i = choose|i: int| 0 <= i < t1.len() && t1[i] == h2;
                assert(i > 0);
                assert(ranks_before(pos, attr, ts, t1[0], t1[i], 0));
            } else {
                assert(ranks_before(pos, attr, ts, t1[0], h2, 0));
            }
        }
        assert(h1 == h2);
        let d2 = docs.remove(h1);
        let u1 = t1.drop_first();
        let u2 = t2.drop_first();
        assert forall|i: int| 0 <= i < u1.len() implies d2.contains(#[trigger] u1[i]) by {
            assert(u1[i] == t1[i + 1]);
            assert(ranks_before(pos, attr, ts, t1[0], t1[i + 1], 0));
            lemma_ranks_before_asymmetric(pos, attr, ts, h1, h1, 0);
        }
        assert forall|i: int| 0 <= i < u2.len() implies d2.contains(#[trigger] u2[i]) by {
            assert(u2[i] == t2[i + 1]);
            assert(ranks_before(pos, attr, ts, t2[0], t2[i + 1], 0));
            lemma_ranks_before_asymmetric(pos, attr, ts, h2, h2, 0);
        }
        assert forall|a: int, b: int| 0 <= a < b < u1.len() implies ranks_before(pos, attr, ts, #[trigger] u1[a], #[trigger] u1[b], 0) by {
            assert(u1[a] == t1[a + 1] && u1[b] == t1[b + 1]);
        }
        assert forall|a: int, b: int| 0 <= a < b < u2.len() implies ranks_before(pos, attr, ts, #[trigger] u2[a], #[trigger] u2[b], 0) by {
            assert(u2[a] == t2[a + 1] && u2[b] == t2[b + 1]);
        }
        assert forall|x: u32| d2.contains(x) && !u1.contains(x) implies u1.len() == (n1 - 1) as nat && forall|i: int|
            0 <= i < u1.len() ==> ranks_before(pos, attr, ts, #[trigger] u1[i], x, 0) by {
            if t1.contains(x) {
                let k = choose|k: int| 0 <= k < t1.len() && t1[k] == x;
                assert(k != 0);
                assert(u1[k - 1] == x);
            }
            assert forall|i: int| 0 <= i < u1.len() implies ranks_before(pos, attr, ts, #[trigger] u1[i], x, 0) by {
                assert(u1[i] == t1[i + 1]);
            }
        }
        assert forall|x: u32| d2.contains(x) && !u2.contains(x) implies u2.len() == (n2 - 1) as nat && forall|i: int|
            0 <= i < u2.len() ==> ranks_before(pos, attr, ts, #[trigger] u2[i], x, 0) by {
            if t2.contains(x) {
                let k = choose|k: int| 0 <= k < t2.len() && t2[k] == x;
                assert(k != 0);
                assert(u2[k - 1] == x);
            }
            assert forall|i: int| 0 <= i < u2.len() implies ranks_before(pos, attr, ts, #[trigger] u2[i], x, 0) by {
                assert(u2[i] == t2[i + 1]);
            }
        }
        lemma_top_prefix(pos, attr, ts, d2, (n1 - 1) as nat, (n2 - 1) as nat, u1, u2);
        assert(t1 =~= seq![h1] + u1);
        assert(t2 =~= seq![h2] + u2);
        assert(t1 =~= t2.subrange(0, t1.len() as int));
    }
}

/// Two consecutive pages, the first taken from the best `first` documents
/// and the second from the best `first + second`, hold no document in common
/// and together are the first `first + second` documents of the ranking.
pub proof fn lemma_consecutive_pages(pos: Seq<Posting>, attr: Seq<Posting>, ts: Seq<QueryTerm>, docs: Set<u32>, first: nat, second: nat, t1: Seq<u32>, t2: Seq<u32>)
    requires
        is_top(pos, attr, ts, docs, first, t1),
        is_top(pos, attr, ts, docs, first + second, t2),
    ensures
        page_of(t1, 0, first) + page_of(t2, first, second) == page_of(t2, 0, first + second),
        forall|x: u32| page_of(t1, 0, first).contains(x) ==> !page_of(t2, first, second).contains(x),
{
    lemma_top_prefix(pos, attr, ts, docs, first, first + second, t1, t2);
    assert(page_of(t1, 0, first) =~= t1);
    assert forall|a: int, b: int| 0 <= a < t2.len() && 0 <= b < t2.len() && a != b implies t2[a] != t2[b] by {
        lemma_ranks_before_asymmetric(pos, attr, ts, t2[a], t2[a], 0);
        if a < b {
            assert(ranks_before(pos, attr, ts, t2[a], t2[b], 0));
        } else {
            assert(ranks_before(pos, attr, ts, t2[b], t2[a], 0));
        }
    }
    if t1.len() < first {
        assert(page_of(t2, first, second) =~= Seq::<u32>::empty());
        assert(page_of(t2, 0, first + second) =~= t2);
        assert(t1 + Seq::<u32>::empty() =~= t1);
        assert(t1 =~= t2);
    } else {
        assert(page_of(t2, 0, first) =~= t1);
        lemma_pages_consecutive(t2, first, second);
    }
}

/// What the index tells of one query term: `docids` are the documents that
/// hold one of its words, `exact_docids` those that hold the token itself.
pub open spec fn term_wf(attr: Seq<Posting>, t: QueryTerm) -> bool {
    &&& strictly_sorted(t.docids@)
    &&& strictly_sorted(t.exact_docids@)
    &&& forall|d: u32| t.docids@.contains(d) <==> table_holds_any(attr, words_view(t.words@), d)
    &&& forall|d: u32| t.exact_docids@.contains(d) <==> table_holds_any(attr, seq![t.query@], d)
}

/// The documents that hold every term of `ts`.
pub open spec fn matching(ts: Seq<QueryTerm>) -> Set<u32> {
    Set::new(|x: u32| forall|k: int| 0 <= k < ts.len() ==> (#[trigger] ts[k]).docids@.contains(x))
}

/// How many ranked documents a page that ends at `offset + limit` needs.
pub open spec fn page_end(offset: nat, limit: nat) -> nat {
    if offset + limit > usize::MAX { usize::MAX as nat } else { offset + limit }
}

/// `top` is the best `need` documents among those that hold every term of
/// `ts`, terms that the index describes and that are at least one and at
/// most `n`; `cands` lists all those documents.
pub open spec fn ranked_search(snap: Snapshot, n: nat, ts: Seq<QueryTerm>, cands: Seq<u32>, need: nat, top: Seq<u32>) -> bool {
    &&& 1 <= ts.len() <= n
    &&& forall|k: int| 0 <= k < ts.len() ==> term_wf(snap.word_attribute_docids@, #[trigger] ts[k])
    &&& strictly_sorted(cands)
    &&& forall|x: u32| cands.contains(x) <==> matching(ts).contains(x)
    &&& is_top(snap.word_position_docids@, snap.word_attribute_docids@, ts, matching(ts), need, top)
}

fn copy_words(ws: &Vec<Vec<u8>>) -> (r: Vec<Vec<u8>>)
    ensures
        words_view(r@) == words_view(ws@),
{
    let mut r: Vec<Vec<u8>> = Vec::new();
    let mut i: usize = 0;
    while i < ws.len()
        invariant
            i <= ws.len(),
            r@.len() == i,
            forall|k: int| 0 <= k < i ==> (#[trigger] r@[k])@ == ws@[k]@,
        decreases ws.len() - i,
    {
        r.push(copy_bytes(&ws[i]));
        i = i + 1;
    }
    assert(words_view(r@) =~= words_view(ws@));
    r
}

fn copy_term(t: &QueryTerm) -> (r: QueryTerm)
    ensures
        r.query@ == t.query@,
        words_view(r.words@) == words_view(t.words@),
        r.docids@ == t.docids@,
        r.exact_docids@ == t.exact_docids@,
{
    QueryTerm {
        query: copy_bytes(&t.query),
        words: copy_words(&t.words),
        docids: copy_ids(&t.docids),
        exact_docids: copy_ids(&t.exact_docids),
    }
}

/// `t` is what the index tells of token `k` of `tokens`: the token's bytes,
/// the words it resolves to, and the documents of those words and of itself.
pub open spec fn term_matches(snap: Snapshot, tokens: Seq<String>, k: int, t: QueryTerm) -> bool {
    &&& t.query@ == token_bytes(tokens[k])
    &&& words_view(t.words@) == resolved_words(snap.words, token_bytes(tokens[k]), k == tokens.len() - 1, snap.prefix_limit as nat)
    &&& term_wf(snap.word_attribute_docids@, t)
}

/// The document sets of a list of terms.
pub open spec fn docid_views(ts: Seq<QueryTerm>) -> Seq<Seq<u32>> {
    ts.map_values(|t: QueryTerm| t.docids@)
}

/// The answer to `tokens`: `all` describes each token, `ts` are the terms that
/// relaxation keeps, `cands` the valid documents that hold all of them, and
/// `top` the best `need` of those.
pub open spec fn answered(snap: Snapshot, tokens: Seq<String>, all: Seq<QueryTerm>, ts: Seq<QueryTerm>, cands: Seq<u32>, need: nat, top: Seq<u32>) -> bool {
    &&& all.len() == tokens.len()
    &&& forall|k: int| 0 <= k < all.len() ==> term_matches(snap, tokens, k, #[trigger] all[k])
    &&& kept_from(all, relaxed(docid_views(all), every_token(all.len())), ts)
    &&& ranked_search(snap, tokens.len(), ts, cands, need, top)
    &&& forall|x: u32| cands.contains(x) ==> snap.documents_ids@.contains(x)
}

/// The two terms say the same of the index.
pub open spec fn same_term(a: QueryTerm, b: QueryTerm) -> bool {
    &&& a.query@ == b.query@
    &&& words_view(a.words@) == words_view(b.words@)
    &&& a.docids@ == b.docids@
    &&& a.exact_docids@ == b.exact_docids@
}

/// `src` maps each term of `kept` to the term of `terms` it copies, and
/// every term that `surviving` marks is copied.
pub open spec fn kept_by(terms: Seq<QueryTerm>, surviving: Seq<bool>, kept: Seq<QueryTerm>, src: Seq<int>) -> bool {
    &&& src.len() == kept.len()
    &&& forall|a: int, b: int| 0 <= a < b < src.len() ==> src[a] < src[b]
    &&& forall|k: int| 0 <= k < src.len() ==> 0 <= #[trigger] src[k] < terms.len() && surviving[src[k]] && same_term(kept[k], terms[src[k]])
    &&& forall|j: int| 0 <= j < terms.len() && #[trigger] surviving[j] ==> exists|k: int| 0 <= k < src.len() && src[k] == j
}

/// `kept` holds the terms of `terms` that `surviving` marks.
pub open spec fn kept_from(terms: Seq<QueryTerm>, surviving: Seq<bool>, kept: Seq<QueryTerm>) -> bool {
    exists|src: Seq<int>| #[trigger] kept_by(terms, surviving, kept, src)
}

proof fn lemma_kept_terms(attr: Seq<Posting>, terms: Seq<QueryTerm>, sets: Seq<Vec<u32>>, surviving: Seq<bool>, kept: Seq<QueryTerm>, docids: Seq<u32>)
    requires
        sets.len() == terms.len(),
        surviving.len() == terms.len(),
        forall|k: int| 0 <= k < terms.len() ==> term_wf(attr, #[trigger] terms[k]),
        forall|k: int| 0 <= k < terms.len() ==> (#[trigger] sets[k])@ == terms[k].docids@,
        kept_from(terms, surviving, kept),
        forall|x: u32| docids.contains(x) <==> (sets.len() > 0 && in_all_kept(views_of(sets), surviving, x)),
        terms.len() > 0,
        exists|k: int| 0 <= k < surviving.len() && surviving[k],
    ensures
        kept.len() >= 1,
        forall|k: int| 0 <= k < kept.len() ==> term_wf(attr, #[trigger] kept[k]),
        forall|x: u32| docids.contains(x) <==> forall|k: int| 0 <= k < kept.len() ==> (#[trigger] kept[k]).docids@.contains(x),
{
    let sv = views_of(sets);
    let src = choose|src: Seq<int>| kept_by(terms, surviving, kept, src);
    let w = choose|w: int| 0 <= w < surviving.len() && surviving[w];
    assert(surviving[w] && 0 <= w < terms.len());
    let t = terms[w];
    let k0 = choose|k: int| 0 <= k < src.len() && src[k] == w;
    assert forall|k: int| 0 <= k < kept.len() implies term_wf(attr, #[trigger] kept[k]) by {
        let j = src[k];
        assert(term_wf(attr, terms[j]));
    }
    assert forall|x: u32| docids.contains(x) <==> forall|k: int| 0 <= k < kept.len() ==> (#[trigger] kept[k]).docids@.contains(x) by {
        if docids.contains(x) {
            assert forall|k: int| 0 <= k < kept.len() implies (#[trigger] kept[k]).docids@.contains(x) by {
                let j = src[k];
                assert(sv[j] == sets[j]@);
            }
        }
        if forall|k: int| 0 <= k < kept.len() ==> (#[trigger] kept[k]).docids@.contains(x) {
            assert forall|j: int| 0 <= j < sv.len() && j < surviving.len() && #[trigger] surviving[j] implies sv[j].contains(x) by {
                let k = choose|k: int| 0 <= k < src.len() && src[k] == j;
                assert(kept[k].docids@.contains(x));
            }
        }
    }
}

/// Resolves each token and looks up the documents of its words and of the
/// token itself.
fn gather_terms(snap: &Snapshot, tokens: &Vec<String>) -> (r: Vec<QueryTerm>)
    requires
        snap.wf(),
    ensures
        r@.len() == tokens@.len(),
        forall|k: int| 0 <= k < r@.len() ==> term_matches(*snap, tokens@, k, #[trigger] r@[k]),
{
    let n = tokens.len();
    let attr = &snap.word_attribute_docids;
    let mut terms: Vec<QueryTerm> = Vec::new();
    let mut i: usize = 0;
    while i < n
        invariant
            i <= n,
            n == tokens@.len(),
            snap.wf(),
            attr == &snap.word_attribute_docids,
            terms@.len() == i,
            forall|k: int| 0 <= k < i ==> term_matches(*snap, tokens@, k, #[trigger] terms@[k]),
        decreases n - i,
    {
        let token = tokens[i].as_str();
        assert(token.spec_bytes() == token_bytes(tokens@[i as int]));
        let words = resolve_word(&snap.words, token, i + 1 == n, snap.prefix_limit);
        let docids = documents_of_words(attr, &words);
        let query = bytes_of(token.as_bytes());
        let mut verbatim: Vec<Vec<u8>> = Vec::new();
        verbatim.push(copy_bytes(&query));
        assert(words_view(verbatim@) =~= seq![query@]);
        let exact_docids = documents_of_words(attr, &verbatim);
        let ghost before = terms@;
        terms.push(QueryTerm { query, words, docids, exact_docids });
        assert(term_matches(*snap, tokens@, i as int, terms@[i as int]));
        assert forall|k: int| 0 <= k < i + 1 implies term_matches(*snap, tokens@, k, #[trigger] terms@[k]) by {
            if k < i {
                assert(terms@[k] == before[k]);
            }
        }
        i = i + 1;
    }
    terms
}

/// The terms that `surviving` keeps, in query order.
fn keep_surviving(terms: &Vec<QueryTerm>, surviving: &Vec<bool>) -> (r: Vec<QueryTerm>)
    requires
        surviving@.len() == terms@.len(),
    ensures
        r@.len() <= terms@.len(),
        kept_from(terms@, surviving@, r@),
{
    let n = terms.len();
    let mut kept: Vec<QueryTerm> = Vec::new();
    let ghost mut src: Seq<int> = Seq::empty();
    let mut i: usize = 0;
    while i < n
        invariant
            i <= n,
            n == terms@.len(),
            surviving@.len() == n,
            kept@.len() <= i,
            src.len() == kept@.len(),
            forall|a: int, b: int| 0 <= a < b < src.len() ==> src[a] < src[b],
            forall|k: int| 0 <= k < src.len() ==> #[trigger] src[k] < i,
            forall|k: int| 0 <= k < src.len() ==> 0 <= #[trigger] src[k] < n && surviving@[src[k]] && same_term(kept@[k], terms@[src[k]]),
            forall|j: int| 0 <= j < i && #[trigger] surviving@[j] ==> exists|k: int| 0 <= k < src.len() && src[k] == j,
        decreases n - i,
    {
        if surviving[i] {
            let ghost before = kept@;
            let ghost src0 = src;
            let t = copy_term(&terms[i]);
            kept.push(t);
            proof {
                src = src.push(i as int);
                assert forall|k: int| 0 <= k < src.len() implies 0 <= #[trigger] src[k] < n && surviving@[src[k]] && same_term(kept@[k], terms@[src[k]]) by {
                    if k < before.len() {
                        assert(kept@[k] == before[k]);
                        assert(src[k] == src0[k]);
                    }
                }
                assert forall|j: int| 0 <= j < i + 1 && #[trigger] surviving@[j] implies exists|k: int| 0 <= k < src.len() && src[k] == j by {
                    if j < i {
                        let k = choose|k: int| 0 <= k < src0.len() && src0[k] == j;
                        assert(src[k] == j);
                    } else {
                        assert(src[src.len() - 1] == j);
                    }
                }
            }
        }
        i = i + 1;
    }
    assert(kept_by(terms@, surviving@, kept@, src));
    kept
}

/// Answers a query, given as its normalized tokens: resolves each token
/// against the dictionary (the last one as a prefix), keeps the documents
/// that hold every token, dropping the most common token while none does,
/// ranks them and returns the page that starts at `offset` and holds at most
/// `limit` ids, with the number of documents ranked.
#[verifier::rlimit(40)]
pub fn search(snap: &Snapshot, tokens: &Vec<String>, offset: usize, limit: usize) -> (r: SearchResult)
    requires
        snap.wf(),
    ensures
        tokens@.len() == 0 ==> r.documents_ids@.len() == 0 && r.candidates_count == 0,
        tokens@.len() > 0 ==> exists|all: Seq<QueryTerm>, ts: Seq<QueryTerm>, cands: Seq<u32>, top: Seq<u32>|
            #[trigger] answered(*snap, tokens@, all, ts, cands, page_end(offset as nat, limit as nat), top)
                && r.documents_ids@ == page_of(top, offset as nat, limit as nat)
                && r.candidates_count == cands.len(),
{
    let n = tokens.len();
    if n == 0 {
        return SearchResult { documents_ids: Vec::new(), candidates_count: 0 };
    }
    let attr = &snap.word_attribute_docids;
    let terms = gather_terms(snap, tokens);
    assert forall|k: int| 0 <= k < n implies term_wf(attr@, #[trigger] terms@[k]) by {
        assert(term_matches(*snap, tokens@, k, terms@[k]));
    }
    let mut sets: Vec<Vec<u32>> = Vec::new();
    let mut i: usize = 0;
    while i < n
        invariant
            i <= n,
            n == terms@.len(),
            sets@.len() == i,
            forall|k: int| 0 <= k < n ==> term_wf(attr@, #[trigger] terms@[k]),
            forall|k: int| 0 <= k < i ==> (#[trigger] sets@[k])@ == terms@[k].docids@,
            forall|k: int| 0 <= k < i ==> strictly_sorted(#[trigger] sets@[k]@),
        decreases n - i,
    {
        sets.push(copy_ids(&terms[i].docids));
        assert(term_wf(attr@, terms@[i as int]));
        i = i + 1;
    }
    let cands = build_candidates(&sets);
    let kept = keep_surviving(&terms, &cands.surviving);
    proof {
        lemma_kept_terms(attr@, terms@, sets@, cands.surviving@, kept@, cands.docids@);
    }
    let need: usize = if offset > usize::MAX - limit { usize::MAX } else { offset + limit };
    let ranked = rank(&snap.word_position_docids, &snap.word_four_positions_docids, attr, &kept, &cands.docids, 0, need);
    proof {
        let m = matching(kept@);
        assert forall|x: u32| cands.docids@.contains(x) <==> m.contains(x) by {}
        assert forall|i: int| 0 <= i < ranked@.len() implies m.contains(#[trigger] ranked@[i]) by {
            assert(cands.docids@.contains(ranked@[i]));
        }
        assert(is_top(snap.word_position_docids@, attr@, kept@, m, need as nat, ranked@));
        assert(ranked_search(*snap, n as nat, kept@, cands.docids@, page_end(offset as nat, limit as nat), ranked@));
        assert(views_of(sets@) =~= docid_views(terms@)) by {
            assert forall|k: int| 0 <= k < n implies views_of(sets@)[k] == docid_views(terms@)[k] by {}
        }
        assert(kept_from(terms@, relaxed(docid_views(terms@), every_token(terms@.len())), kept@));
        assert forall|x: u32| cands.docids@.contains(x) implies snap.documents_ids@.contains(x) by {
            assert(kept@[0].docids@.contains(x));
            assert(term_wf(attr@, kept@[0]));
            let ws = words_view(kept@[0].words@);
            assert(table_holds_any(attr@, ws, x));
            let i = choose|i: int| 0 <= i < attr@.len() && ws.contains(attr@[i].word@) && #[trigger] attr@[i].docids@.contains(x);
        }
        assert(answered(*snap, tokens@, terms@, kept@, cands.docids@, page_end(offset as nat, limit as nat), ranked@));
    }
    let page = paginate(&ranked, offset, limit);
    SearchResult { documents_ids: page, candidates_count: cands.docids.len() }
}

/// Two lists of terms that say the same of the index, term by term.
pub open spec fn terms_equiv(ts1: Seq<QueryTerm>, ts2: Seq<QueryTerm>) -> bool {
    &&& ts1.len() == ts2.len()
    &&& forall|k: int| 0 <= k < ts1.len() ==> (#[trigger] ts1[k]).docids@ == ts2[k].docids@
        && words_view(ts1[k].words@) == words_view(ts2[k].words@)
        && ts1[k].exact_docids@ == ts2[k].exact_docids@
}

proof fn lemma_sorted_unique(a: Seq<u32>, b: Seq<u32>)
    requires
        strictly_sorted(a),
        strictly_sorted(b),
        forall|x: u32| a.contains(x) <==> b.contains(x),
    ensures
        a == b,
{
    let ai = a.map_values(|x: u32| x as int);
    let bi = b.map_values(|x: u32| x as int);
    assert forall|x: int| ai.contains(x) <==> bi.contains(x) by {
        if ai.contains(x) {
            let k = choose|k: int| 0 <= k < ai.len() && ai[k] == x;
            assert(a.contains(a[k]));
            let m = choose|m: int| 0 <= m < b.len() && b[m] == a[k];
            assert(bi[m] == x);
        }
        if bi.contains(x) {
            let k = choose|k: int| 0 <= k < bi.len() && bi[k] == x;
            assert(b.contains(b[k]));
            let m = choose|m: int| 0 <= m < a.len() && a[m] == b[k];
            assert(ai[m] == x);
        }
    }
    lemma_increasing_unique(ai, bi);
    assert(ai.len() == a.len() && bi.len() == b.len());
    assert forall|k: int| 0 <= k < a.len() implies a[k] == b[k] by {
        assert(ai[k] == bi[k]);
        assert(ai[k] == a[k] as int && bi[k] == b[k] as int);
    }
    assert(a =~= b);
}

proof fn lemma_increasing_unique(a: Seq<int>, b: Seq<int>)
    requires
        forall|i: int, j: int| 0 <= i < j < a.len() ==> a[i] < a[j],
        forall|i: int, j: int| 0 <= i < j < b.len() ==> b[i] < b[j],
        forall|x: int| a.contains(x) <==> b.contains(x),
    ensures
        a == b,
    decreases a.len(),
{
    if a.len() == 0 {
        if b.len() > 0 {
            assert(b.contains(b[0]));
        }
        assert(a =~= b);
    } else {
        assert(a.contains(a[0]));
        assert(b.contains(b[0]));
        let i = choose|i: int| 0 <= i < a.len() && a[i] == b[0];
        let j = choose|j: int| 0 <= j < b.len() && b[j] == a[0];
        if i > 0 && j > 0 {
            assert(a[0] < a[i]);
            assert(b[0] < b[j]);
        }
        assert(a[0] == b[0]);
        let a1 = a.drop_first();
        let b1 = b.drop_first();
        assert forall|x: int| a1.contains(x) <==> b1.contains(x) by {
            if a1.contains(x) {
                let k = choose|k: int| 0 <= k < a1.len() && a1[k] == x;
                assert(a[k + 1] == x && a[0] < a[k + 1]);
                assert(b.contains(x));
                let m = choose|m: int| 0 <= m < b.len() && b[m] == x;
                assert(b1[m - 1] == x);
            }
            if b1.contains(x) {
                let k = choose|k: int| 0 <= k < b1.len() && b1[k] == x;
                assert(b[k + 1] == x && b[0] < b[k + 1]);
                assert(a.contains(x));
                let m = choose|m: int| 0 <= m < a.len() && a[m] == x;
                assert(a1[m - 1] == x);
            }
        }
        lemma_increasing_unique(a1, b1);
        assert(a =~= seq![a[0]] + a1);
        assert(b =~= seq![b[0]] + b1);
    }
}

proof fn lemma_equiv_drop_last(ts1: Seq<QueryTerm>, ts2: Seq<QueryTerm>)
    requires
        terms_equiv(ts1, ts2),
        ts1.len() > 0,
    ensures
        terms_equiv(ts1.drop_last(), ts2.drop_last()),
{
    assert forall|k: int| 0 <= k < ts1.drop_last().len() implies (#[trigger] ts1.drop_last()[k]).docids@ == ts2.drop_last()[k].docids@
        && words_view(ts1.drop_last()[k].words@) == words_view(ts2.drop_last()[k].words@)
        && ts1.drop_last()[k].exact_docids@ == ts2.drop_last()[k].exact_docids@ by {
        assert(ts1.drop_last()[k] == ts1[k]);
        assert(ts2.drop_last()[k] == ts2[k]);
    }
}

proof fn lemma_scores_agree(pos: Seq<Posting>, attr: Seq<Posting>, ts1: Seq<QueryTerm>, ts2: Seq<QueryTerm>, d: u32)
    requires
        terms_equiv(ts1, ts2),
    ensures
        missing_terms(ts1, d) == missing_terms(ts2, d),
        proximity_sum(pos, ts1, d) == proximity_sum(pos, ts2, d),
        first_attribute(attr, ts1, d) == first_attribute(attr, ts2, d),
        has_exact(ts1, d) == has_exact(ts2, d),
    decreases ts1.len(),
{
    if ts1.len() > 0 {
        lemma_equiv_drop_last(ts1, ts2);
        lemma_scores_agree(pos, attr, ts1.drop_last(), ts2.drop_last(), d);
        assert(ts1[ts1.len() - 1].docids@ == ts2[ts2.len() - 1].docids@);
        assert(words_view(ts1[ts1.len() - 1].words@) == words_view(ts2[ts2.len() - 1].words@));
        if ts1.len() >= 2 {
            assert(words_view(ts1[ts1.len() - 2].words@) == words_view(ts2[ts2.len() - 2].words@));
        }
    }
    if has_exact(ts1, d) {
        let i = choose|i: int| 0 <= i < ts1.len() && #[trigger] ts1[i].exact_docids@.contains(d);
        assert(ts2[i].exact_docids@.contains(d));
    }
    if has_exact(ts2, d) {
        let i = choose|i: int| 0 <= i < ts2.len() && #[trigger] ts2[i].exact_docids@.contains(d);
        assert(ts1[i].exact_docids@ == ts2[i].exact_docids@);
    }
}

proof fn lemma_ranks_agree(pos: Seq<Posting>, attr: Seq<Posting>, ts1: Seq<QueryTerm>, ts2: Seq<QueryTerm>, x: u32, y: u32, level: nat)
    requires
        terms_equiv(ts1, ts2),
    ensures
        ranks_before(pos, attr, ts1, x, y, level) == ranks_before(pos, attr, ts2, x, y, level),
    decreases CRITERIA - level,
{
    lemma_scores_agree(pos, attr, ts1, ts2, x);
    lemma_scores_agree(pos, attr, ts1, ts2, y);
    if level < CRITERIA {
        lemma_ranks_agree(pos, attr, ts1, ts2, x, y, level + 1);
    }
}

/// Two searches for the same tokens on the same snapshot agree: they find the
/// same candidates, and the ranked documents of the one that asks for fewer
/// are the first ones of the other. So pages taken by separate calls are
/// slices of one ranking.
pub proof fn lemma_answers_agree(
    snap: Snapshot,
    tokens: Seq<String>,
    all1: Seq<QueryTerm>, ts1: Seq<QueryTerm>, c1: Seq<u32>, n1: nat, t1: Seq<u32>,
    all2: Seq<QueryTerm>, ts2: Seq<QueryTerm>, c2: Seq<u32>, n2: nat, t2: Seq<u32>,
)
    requires
        n1 <= n2,
        answered(snap, tokens, all1, ts1, c1, n1, t1),
        answered(snap, tokens, all2, ts2, c2, n2, t2),
    ensures
        c1 == c2,
        t1 == t2.subrange(0, t1.len() as int),
        t1.len() < n1 ==> t2.len() == t1.len(),
{
    let attr = snap.word_attribute_docids@;
    let pos = snap.word_position_docids@;
    assert forall|k: int| 0 <= k < all1.len() implies (#[trigger] all1[k]).docids@ == all2[k].docids@
        && words_view(all1[k].words@) == words_view(all2[k].words@)
        && all1[k].exact_docids@ == all2[k].exact_docids@ by {
        assert(term_matches(snap, tokens, k, all1[k]));
        assert(term_matches(snap, tokens, k, all2[k]));
        lemma_sorted_unique(all1[k].docids@, all2[k].docids@);
        lemma_sorted_unique(all1[k].exact_docids@, all2[k].exact_docids@);
    }
    assert(docid_views(all1) =~= docid_views(all2));
    let sv = relaxed(docid_views(all1), every_token(all1.len()));
    let src1 = choose|src: Seq<int>| kept_by(all1, sv, ts1, src);
    let src2 = choose|src: Seq<int>| kept_by(all2, sv, ts2, src);
    assert forall|x: int| src1.contains(x) <==> src2.contains(x) by {
        if src1.contains(x) {
            let k = choose|k: int| 0 <= k < src1.len() && src1[k] == x;
            assert(0 <= src1[k] < all1.len() && sv[src1[k]]);
            let m = choose|m: int| 0 <= m < src2.len() && src2[m] == x;
            assert(src2[m] == x);
        }
        if src2.contains(x) {
            let k = choose|k: int| 0 <= k < src2.len() && src2[k] == x;
            assert(0 <= src2[k] < all2.len() && sv[src2[k]]);
            let m = choose|m: int| 0 <= m < src1.len() && src1[m] == x;
            assert(src1[m] == x);
        }
    }
    lemma_increasing_unique(src1, src2);
    assert forall|k: int| 0 <= k < ts1.len() implies (#[trigger] ts1[k]).docids@ == ts2[k].docids@
        && words_view(ts1[k].words@) == words_view(ts2[k].words@)
        && ts1[k].exact_docids@ == ts2[k].exact_docids@ by {
        assert(same_term(ts1[k], all1[src1[k]]));
        assert(same_term(ts2[k], all2[src2[k]]));
        assert(all1[src1[k]].docids@ == all2[src1[k]].docids@);
    }
    assert(terms_equiv(ts1, ts2));
    assert(matching(ts1) =~= matching(ts2)) by {
        assert forall|x: u32| matching(ts1).contains(x) <==> matching(ts2).contains(x) by {
            if matching(ts1).contains(x) {
                assert forall|k: int| 0 <= k < ts2.len() implies (#[trigger] ts2[k]).docids@.contains(x) by {
                    assert(ts1[k].docids@.contains(x));
                }
            }
            if matching(ts2).contains(x) {
                assert forall|k: int| 0 <= k < ts1.len() implies (#[trigger] ts1[k]).docids@.contains(x) by {
                    assert(ts2[k].docids@.contains(x));
                }
            }
        }
    }
    lemma_sorted_unique(c1, c2);
    assert forall|x: u32, y: u32| ranks_before(pos, attr, ts1, x, y, 0) == ranks_before(pos, attr, ts2, x, y, 0) by {
        lemma_ranks_agree(pos, attr, ts1, ts2, x, y, 0);
    }
    assert(is_top(pos, attr, ts2, matching(ts2), n1, t1));
    lemma_top_prefix(pos, attr, ts2, matching(ts2), n1, n2, t1, t2);
}

} // verus!
