use vstd::prelude::*;
use vstd::string::StringSliceAdditionalSpecFns;
use fst::{Automaton, IntoStreamer};
use crate::index::{words_view, copy_bytes};

verus! {

#[verifier::external_type_specification]
#[verifier::external_body]
#[verifier::reject_recursive_types(D)]
pub struct ExFstSet<D>(fst::Set<D>);

#[verifier::external_type_specification]
#[verifier::external_body]
pub struct ExFstError(fst::Error);

/// The words that a word dictionary holds.
pub uninterp spec fn dictionary_words(d: fst::Set<Vec<u8>>) -> Set<Seq<u8>>;

/// The checksum stored with the dictionary's bytes matches them
/// (`Fst::verify` passes). This says nothing of the rest of the bytes.
pub uninterp spec fn dictionary_checked(d: fst::Set<Vec<u8>>) -> bool;

/// The dictionary was written by fst's own builder, so its bytes are a
/// well-formed FST that lookups can walk.
pub uninterp spec fn dictionary_built(d: fst::Set<Vec<u8>>) -> bool;

/// Byte-wise lexicographic order on words.
pub open spec fn lex_lt(a: Seq<u8>, b: Seq<u8>) -> bool
    decreases a.len(),
{
    if b.len() == 0 {
        false
    } else if a.len() == 0 {
        true
    } else if a[0] != b[0] {
        a[0] < b[0]
    } else {
        lex_lt(a.drop_first(), b.drop_first())
    }
}

/// A word is never smaller than one of its prefixes.
pub proof fn lemma_prefix_not_greater(p: Seq<u8>, w: Seq<u8>)
    requires
        p.is_prefix_of(w),
    ensures
        !lex_lt(w, p),
    decreases p.len(),
{
    if p.len() > 0 {
        assert(w[0] == p[0]);
        assert(p.drop_first().is_prefix_of(w.drop_first())) by {
            assert forall|i: int| 0 <= i < p.drop_first().len() implies p.drop_first()[i] == w.drop_first()[i] by {
                assert(p[i + 1] == w[i + 1]);
            }
        }
        lemma_prefix_not_greater(p.drop_first(), w.drop_first());
    }
}

/// Words in strictly increasing dictionary order.
pub open spec fn lex_sorted(s: Seq<Seq<u8>>) -> bool {
    forall|i: int, j: int| 0 <= i < j < s.len() ==> lex_lt(s[i], s[j])
}

/// No word is smaller than the one before it.
pub open spec fn lex_nondecreasing(s: Seq<Seq<u8>>) -> bool {
    forall|i: int| 0 < i < s.len() ==> !lex_lt(#[trigger] s[i], s[i - 1])
}

/// The dictionary words that start with `p`, in dictionary order.
pub open spec fn prefix_words(d: fst::Set<Vec<u8>>, p: Seq<u8>) -> Seq<Seq<u8>> {
    choose|s: Seq<Seq<u8>>| lex_sorted(s) && forall|w: Seq<u8>| s.contains(w) <==> prefixed_by(d, p, w)
}

/// The words a query token stands for: a token that is not the last one
/// stands for itself if the dictionary holds it, the last one for the first
/// `limit` dictionary words that start with it.
pub open spec fn resolved_words(d: fst::Set<Vec<u8>>, t: Seq<u8>, is_final: bool, limit: nat) -> Seq<Seq<u8>> {
    if !is_final {
        if dictionary_words(d).contains(t) { seq![t] } else { Seq::empty() }
    } else {
        let all = prefix_words(d, t);
        if all.len() <= limit { all } else { all.subrange(0, limit as int) }
    }
}

/// The dictionary words that start with `p`.
pub open spec fn prefixed_by(d: fst::Set<Vec<u8>>, p: Seq<u8>, w: Seq<u8>) -> bool {
    dictionary_words(d).contains(w) && p.is_prefix_of(w)
}

/// Relies on fst::Set::from_iter: it builds the set of the given keys, and
/// fails exactly when a key is smaller than the one before it (a repeated key
/// is accepted).
#[verifier::external_body]
pub fn build_dictionary(words: &Vec<Vec<u8>>) -> (r: Result<fst::Set<Vec<u8>>, fst::Error>)
    ensures
        r is Ok <==> lex_nondecreasing(words_view(words@)),
        r matches Ok(d) ==> dictionary_words(d) == words_view(words@).to_set() && dictionary_checked(d)
            && dictionary_built(d),
{
    fst::Set::from_iter(words.iter())
}

/// Relies on fst::raw::Fst::verify: it succeeds exactly when the checksum
/// stored with the set matches its bytes.
#[verifier::external_body]
pub fn verify_dictionary(d: &fst::Set<Vec<u8>>) -> (r: Result<(), fst::Error>)
    ensures
        r is Ok <==> dictionary_checked(*d),
{
    d.as_fst().verify()
}

/// Relies on fst::Set::contains: membership of one key, on a set that fst's
/// builder wrote (on other bytes the walk may panic).
#[verifier::external_body]
fn dictionary_contains(d: &fst::Set<Vec<u8>>, w: &[u8]) -> (r: bool)
    requires
        dictionary_built(*d),
    ensures
        r == dictionary_words(*d).contains(w@),
{
    d.contains(w)
}

/// Relies on fst::Set::search with the automaton `Str::new(p).starts_with()`
/// and Stream::into_bytes: every key that starts with `p`, each once, in
/// lexicographic order (so the one such sequence), on a set that fst's
/// builder wrote (on other bytes the walk may panic).
#[verifier::external_body]
fn dictionary_prefixed(d: &fst::Set<Vec<u8>>, p: &str) -> (r: Vec<Vec<u8>>)
    requires
        dictionary_built(*d),
    ensures
        words_view(r@) == prefix_words(*d, p.spec_bytes()),
        forall|w: Seq<u8>| words_view(r@).contains(w) <==> prefixed_by(*d, p.spec_bytes(), w),
        lex_sorted(words_view(r@)),
{
    d.search(fst::automaton::Str::new(p).starts_with()).into_stream().into_bytes()
}

/// A copy of a byte slice.
pub fn bytes_of(s: &[u8]) -> (r: Vec<u8>)
    ensures
        r@ == s@,
{
    let mut r: Vec<u8> = Vec::new();
    let mut i: usize = 0;
    while i < s.len()
        invariant
            i <= s.len(),
            r@ == s@.subrange(0, i as int),
        decreases s.len() - i,
    {
        r.push(s[i]);
        i = i + 1;
    }
    assert(s@.subrange(0, s.len() as int) == s@);
    r
}

/// The dictionary words a query token stands for. A token that is not the
/// last of its query stands for itself, if the dictionary holds it, and for
/// nothing otherwise. The last token stands for the first `limit` words, in
/// dictionary order, that start with it.
pub fn resolve_word(dict: &fst::Set<Vec<u8>>, token: &str, is_final: bool, limit: usize) -> (r: Vec<Vec<u8>>)
    requires
        dictionary_built(*dict),
    ensures
        words_view(r@) == resolved_words(*dict, token.spec_bytes(), is_final, limit as nat),
        !is_final ==> words_view(r@) == (if dictionary_words(*dict).contains(token.spec_bytes()) {
            seq![token.spec_bytes()]
        } else {
            Seq::<Seq<u8>>::empty()
        }),
        is_final ==> {
            &&& r@.len() <= limit
            &&& lex_sorted(words_view(r@))
            &&& forall|i: int| 0 <= i < r@.len() ==> prefixed_by(*dict, token.spec_bytes(), #[trigger] words_view(r@)[i])
            &&& forall|w: Seq<u8>| prefixed_by(*dict, token.spec_bytes(), w) && !words_view(r@).contains(w)
                ==> r@.len() == limit && forall|i: int| 0 <= i < r@.len() ==> lex_lt(#[trigger] words_view(r@)[i], w)
            &&& dictionary_words(*dict).contains(token.spec_bytes()) && limit > 0
                ==> words_view(r@).contains(token.spec_bytes())
        },
{
    let bytes = token.as_bytes();
    if !is_final {
        let mut r: Vec<Vec<u8>> = Vec::new();
        if dictionary_contains(dict, bytes) {
            r.push(bytes_of(bytes));
            assert(words_view(r@) == seq![token.spec_bytes()]);
        } else {
            assert(words_view(r@) == Seq::<Seq<u8>>::empty());
        }
        return r;
    }
    let all = dictionary_prefixed(dict, token);
    let ghost av = words_view(all@);
    let mut r: Vec<Vec<u8>> = Vec::new();
    let mut i: usize = 0;
    while i < all.len() && i < limit
        invariant
            i <= all@.len(),
            i <= limit,
            av == words_view(all@),
            r@.len() == i,
            words_view(r@) == av.subrange(0, i as int),
        decreases all.len() - i,
    {
        let ghost before = r@;
        r.push(copy_bytes(&all[i]));
        assert(av[i as int] == all@[i as int]@);
        assert forall|k: int| 0 <= k < i implies words_view(r@)[k] == words_view(before)[k] by {
            assert(r@[k] == before[k]);
        }
        assert(words_view(r@) =~= av.subrange(0, i + 1));
        i = i + 1;
    }
    proof {
        let rv = words_view(r@);
        if av.len() <= limit {
            assert(i == av.len());
            assert(av.subrange(0, i as int) =~= av);
        }
        assert forall|i: int| 0 <= i < r@.len() implies prefixed_by(*dict, token.spec_bytes(), #[trigger] rv[i]) by {
            assert(av.contains(av[i]));
        }
        assert forall|w: Seq<u8>| prefixed_by(*dict, token.spec_bytes(), w) && !rv.contains(w)
            implies r@.len() == limit && forall|k: int| 0 <= k < r@.len() ==> lex_lt(#[trigger] rv[k], w) by {
            assert(av.contains(w));
            let j = choose|j: int| 0 <= j < av.len() && av[j] == w;
            if j < i {
                assert(rv[j] == w);
            }
            assert forall|k: int| 0 <= k < r@.len() implies lex_lt(#[trigger] rv[k], w) by {
                assert(rv[k] == av[k]);
            }
        }
        let t = token.spec_bytes();
        if dictionary_words(*dict).contains(t) && limit > 0 && !rv.contains(t) {
            assert(t.is_prefix_of(t));
            assert(prefixed_by(*dict, t, t));
            assert(lex_lt(rv[0], t));
            assert(prefixed_by(*dict, t, rv[0]));
            lemma_prefix_not_greater(t, rv[0]);
        }
    }
    r
}

} // verus!
