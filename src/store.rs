use vstd::prelude::*;
use crate::codec::{IndexError, decode_ids, ids_of};
use crate::docset::strictly_sorted;
use crate::index::copy_bytes;
use crate::dictionary::{dictionary_words, dictionary_checked, dictionary_built, verify_dictionary, build_dictionary, lex_nondecreasing};
use crate::index::words_view;

verus! {

#[verifier::external_type_specification]
#[verifier::external_body]
pub struct ExCsvError(csv::Error);

/// Number of fields in the header record of CSV bytes.
pub uninterp spec fn csv_header_fields(b: Seq<u8>) -> nat;

/// The header record of CSV bytes parses (read from a byte slice, it fails
/// only where that record is not valid UTF-8).
pub uninterp spec fn csv_header_ok(b: Seq<u8>) -> bool;

/// The words of the set that stored fst bytes hold.
pub uninterp spec fn stored_words(b: Seq<u8>) -> Set<Seq<u8>>;

/// The checksum at the end of stored fst bytes matches the bytes before it.
pub uninterp spec fn fst_checksum_ok(b: Seq<u8>) -> bool;

/// Where the metadata that ends stored fst bytes stops: the last four bytes
/// of version 3 hold the checksum.
pub open spec fn fst_end(b: Seq<u8>) -> int {
    if b[0] <= 2 { b.len() as int } else { b.len() - 4 }
}

/// The bytes pass the format checks of `Fst::new`: at least 36 of them, a
/// version from 1 to 3, and a root address that is not 0 unless the set is
/// empty and the bytes have the length of an empty set.
pub open spec fn fst_accepts(b: Seq<u8>) -> bool {
    &&& b.len() >= 36
    &&& fst_version_ok(b)
    &&& (exists|i: int| fst_end(b) - 8 <= i < fst_end(b) && b[i] != 0)
        || b.len() == (if b[0] <= 2 { 32int } else { 36int })
}

/// The first eight bytes give a format version from 1 to 3, little-endian.
pub open spec fn fst_version_ok(b: Seq<u8>) -> bool {
    &&& 1 <= b[0] <= 3
    &&& forall|i: int| 1 <= i < 8 ==> b[i] == 0
}

/// Relies on csv::Reader::headers and StringRecord::len: the number of fields
/// of the first record of the bytes, when that record parses.
#[verifier::external_body]
fn csv_header_count(b: &Vec<u8>) -> (r: Result<usize, csv::Error>)
    ensures
        r is Ok <==> csv_header_ok(b@),
        r matches Ok(n) ==> n as nat == csv_header_fields(b@),
{
    let mut rdr = csv::Reader::from_reader(b.as_slice());
    rdr.headers().map(|h| h.len())
}

/// Relies on fst::Set::new (raw::Fst::new): it succeeds exactly on bytes that
/// pass its format checks, keeps the bytes as they are (so `verify` checks
/// their own checksum), and reads them as the set they hold. It checks no
/// more than that: the set need not be well formed.
#[verifier::external_body]
fn open_dictionary(bytes: Vec<u8>) -> (r: Result<fst::Set<Vec<u8>>, fst::Error>)
    ensures
        r is Ok <==> fst_accepts(bytes@),
        r matches Ok(s) ==> dictionary_words(s) == stored_words(bytes@),
        r matches Ok(s) ==> (dictionary_checked(s) <==> fst_checksum_ok(bytes@)),
{
    fst::Set::new(bytes)
}

/// Relies on fst::Set::as_fst and Fst::as_bytes: the bytes that fst's
/// builder wrote for the set, which pass `Set::new`'s checks and the
/// checksum, and which `Set::new` reads back as the same keys.
#[verifier::external_body]
fn fst_bytes(d: &fst::Set<Vec<u8>>) -> (r: Vec<u8>)
    requires
        dictionary_built(*d),
    ensures
        stored_words(r@) == dictionary_words(*d),
        fst_accepts(r@),
        fst_checksum_ok(r@),
{
    d.as_fst().as_bytes().to_vec()
}

/// The bytes to store for the word dictionary of `words`, which must come in
/// dictionary order (repeats allowed); `load_dictionary` reads them back as a
/// set of the same words.
pub fn dictionary_bytes(words: &Vec<Vec<u8>>) -> (r: Result<Vec<u8>, IndexError>)
    ensures
        r is Ok <==> lex_nondecreasing(words_view(words@)),
        r matches Err(e) ==> e == IndexError::CorruptData,
        r matches Ok(b) ==> stored_words(b@) == words_view(words@).to_set() && fst_accepts(b@)
            && fst_checksum_ok(b@),
{
    match build_dictionary(words) {
        Ok(d) => Ok(fst_bytes(&d)),
        Err(_) => Err(IndexError::CorruptData),
    }
}

/// Number of attributes that the stored headers declare, if headers are
/// stored.
pub fn number_of_attributes(headers: Option<&Vec<u8>>) -> (r: Result<Option<usize>, IndexError>)
    ensures
        headers is None <==> r == Ok::<Option<usize>, IndexError>(None),
        r matches Ok(Some(n)) ==> (headers is Some && n as nat == csv_header_fields(headers->Some_0@)),
        headers matches Some(h) ==> (r is Ok <==> csv_header_ok(h@)),
        r matches Err(e) ==> e == IndexError::CorruptData,
{
    match headers {
        None => Ok(None),
        Some(h) => match csv_header_count(h) {
            Ok(n) => Ok(Some(n)),
            Err(_) => Err(IndexError::CorruptData),
        },
    }
}

/// Reads the stored word dictionary, if one is stored, and checks its bytes
/// against their checksum. It succeeds exactly on bytes that pass fst's
/// format checks and checksum, as the bytes `dictionary_bytes` gives do. A
/// set read this way is not known to be well formed (fst cannot check that),
/// so it is not one that lookups accept; `Snapshot::build` makes its own.
pub fn load_dictionary(bytes: Option<Vec<u8>>) -> (r: Result<Option<fst::Set<Vec<u8>>>, IndexError>)
    ensures
        bytes is None <==> r matches Ok(None),
        r matches Err(e) ==> e == IndexError::CorruptData,
        bytes matches Some(b) ==> (r is Ok <==> fst_accepts(b@) && fst_checksum_ok(b@)),
        r matches Ok(Some(s)) ==> bytes is Some && dictionary_words(s) == stored_words(bytes->Some_0@)
            && dictionary_checked(s),
{
    match bytes {
        None => Ok(None),
        Some(b) => {
            match open_dictionary(b) {
                Ok(set) => match verify_dictionary(&set) {
                    Ok(()) => Ok(Some(set)),
                    Err(_) => Err(IndexError::CorruptData),
                },
                Err(_) => Err(IndexError::CorruptData),
            }
        },
    }
}

/// Number of documents in the stored set of all document ids.
pub fn number_of_documents(stored: Option<&Vec<u8>>) -> (r: Result<usize, IndexError>)
    ensures
        stored is None ==> r == Err::<usize, IndexError>(IndexError::MissingEntry),
        stored matches Some(b) ==> (r is Ok <==> (b@.len() % 4 == 0 && strictly_sorted(ids_of(b@)))),
        stored matches Some(b) && r is Err ==> r == Err::<usize, IndexError>(IndexError::CorruptData),
        r matches Ok(n) ==> (stored is Some && n == ids_of(stored->Some_0@).len()),
{
    match stored {
        None => Err(IndexError::MissingEntry),
        Some(b) => match decode_ids(b) {
            Ok(ids) => Ok(ids.len()),
            Err(e) => Err(e),
        },
    }
}

/// Pairs each requested id with its fetched payload; fails with the first id
/// whose payload is missing.
pub fn collect_documents(ids: &Vec<u32>, fetched: &Vec<Option<Vec<u8>>>) -> (r: Result<Vec<(u32, Vec<u8>)>, IndexError>)
    requires
        fetched@.len() == ids@.len(),
    ensures
        r is Ok <==> forall|k: int| 0 <= k < fetched@.len() ==> (#[trigger] fetched@[k]) is Some,
        r matches Err(e) ==> exists|k: int| 0 <= k < ids@.len() && fetched@[k] is None
            && e == IndexError::NotFound(ids@[k])
            && forall|m: int| 0 <= m < k ==> (#[trigger] fetched@[m]) is Some,
        r matches Ok(v) ==> v@.len() == ids@.len() && forall|k: int| 0 <= k < v@.len() ==>
            (#[trigger] v@[k]).0 == ids@[k] && fetched@[k] is Some && fetched@[k]->Some_0@ == v@[k].1@,
{
    let mut out: Vec<(u32, Vec<u8>)> = Vec::new();
    let mut i: usize = 0;
    while i < ids.len()
        invariant
            i <= ids@.len(),
            fetched@.len() == ids@.len(),
            out@.len() == i,
            forall|k: int| 0 <= k < i ==> (#[trigger] fetched@[k]) is Some,
            forall|k: int| 0 <= k < i ==> (#[trigger] out@[k]).0 == ids@[k] && fetched@[k] is Some && fetched@[k]->Some_0@ == out@[k].1@,
        decreases ids@.len() - i,
    {
        match &fetched[i] {
            Some(p) => {
                let ghost before = out@;
                out.push((ids[i], copy_bytes(p)));
                assert forall|k: int| 0 <= k < i implies out@[k] == before[k] by {}
            },
            None => {
                assert(fetched@[i as int] is None);
                return Err(IndexError::NotFound(ids[i]));
            },
        }
        i = i + 1;
    }
    Ok(out)
}

} // verus!
