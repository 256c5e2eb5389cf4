use milli::candidates::build_candidates;
use milli::criterion::bucket_by_score;
use milli::dictionary::{build_dictionary, resolve_word};
use milli::index::{quantize_positions, Posting};
use milli::proximity::{min_pair_distance, MAX_DISTANCE};
use milli::ranking::{default_criteria, Criterion};
use milli::search::{paginate, search, Snapshot, PREFIX_LIMIT};
use milli::codec::IndexError;

fn posting(word: &str, key: u32, docids: &[u32]) -> Posting {
    Posting { word: word.as_bytes().to_vec(), key, docids: docids.to_vec() }
}

fn dictionary(words: &[&str]) -> fst::Set<Vec<u8>> {
    let words: Vec<Vec<u8>> = words.iter().map(|w| w.as_bytes().to_vec()).collect();
    build_dictionary(&words).unwrap()
}

fn snapshot(positions: Vec<Posting>, attributes: Vec<Posting>, ids: &[u32]) -> Snapshot {
    Snapshot::build(positions, attributes, ids.to_vec(), PREFIX_LIMIT).unwrap()
}

fn tokens(ts: &[&str]) -> Vec<String> {
    ts.iter().map(|t| t.to_string()).collect()
}

#[test]
fn unknown_word_resolves_to_nothing() {
    let dict = dictionary(&["fox", "foxglove", "quick"]);
    assert!(resolve_word(&dict, "fo", false, PREFIX_LIMIT).is_empty());
    assert!(resolve_word(&dict, "zebra", false, PREFIX_LIMIT).is_empty());
    assert_eq!(resolve_word(&dict, "fox", false, PREFIX_LIMIT), vec![b"fox".to_vec()]);
}

#[test]
fn final_token_expands_to_prefixed_words() {
    let dict = dictionary(&["fox", "foxglove", "quick"]);
    let words = resolve_word(&dict, "fo", true, PREFIX_LIMIT);
    assert_eq!(words, vec![b"fox".to_vec(), b"foxglove".to_vec()]);
}

#[test]
fn prefix_expansion_respects_limit() {
    let dict = dictionary(&["fox", "foxglove", "foxhound", "quick"]);
    let words = resolve_word(&dict, "fox", true, 2);
    assert_eq!(words, vec![b"fox".to_vec(), b"foxglove".to_vec()]);
}

#[test]
fn dictionary_rejects_unsorted_words() {
    let words = vec![b"quick".to_vec(), b"fox".to_vec()];
    assert!(build_dictionary(&words).is_err());
    let dup = vec![b"fox".to_vec(), b"fox".to_vec()];
    let set = build_dictionary(&dup).unwrap();
    assert_eq!(set.len(), 1);
}

#[test]
fn quantized_table_covers_exact_positions() {
    let positions = vec![
        posting("fox", 1, &[2]),
        posting("fox", 3, &[1]),
        posting("fox", 5, &[4]),
        posting("quick", 0, &[1, 2, 3]),
    ];
    let q = quantize_positions(&positions);
    assert_eq!(q.len(), 3);
    assert_eq!((q[0].word.as_slice(), q[0].key, q[0].docids.clone()), (&b"fox"[..], 0, vec![1, 2]));
    assert_eq!((q[1].word.as_slice(), q[1].key, q[1].docids.clone()), (&b"fox"[..], 1, vec![4]));
    assert_eq!((q[2].word.as_slice(), q[2].key, q[2].docids.clone()), (&b"quick"[..], 0, vec![1, 2, 3]));
}

#[test]
fn relaxation_only_grows_the_candidates() {
    let sets = vec![vec![1, 2, 3, 4], vec![5, 6], vec![5, 7]];
    let c = build_candidates(&sets);
    assert_eq!(c.docids, vec![5]);
    assert_eq!(c.surviving, vec![false, true, true]);
    let strict = build_candidates(&vec![vec![1, 2, 3], vec![2, 3], vec![3]]);
    assert_eq!(strict.docids, vec![3]);
    assert_eq!(strict.surviving, vec![true, true, true]);
    let single = build_candidates(&vec![vec![1, 2], vec![3]]);
    assert_eq!(single.surviving.iter().filter(|s| **s).count(), 1);
    assert_eq!(single.surviving, vec![false, true]);
    assert_eq!(single.docids, vec![3]);
}

#[test]
fn proximity_is_symmetric_and_clamped() {
    let a = vec![0, 10];
    let b = vec![3, 1002];
    assert_eq!(min_pair_distance(&a, &b), 3);
    assert_eq!(min_pair_distance(&b, &a), 3);
    assert_eq!(min_pair_distance(&vec![0], &vec![1000]), MAX_DISTANCE);
    assert_eq!(min_pair_distance(&vec![0], &vec![100]), MAX_DISTANCE);
    assert_eq!(min_pair_distance(&vec![], &vec![1]), MAX_DISTANCE);
}

#[test]
fn buckets_partition_their_input() {
    let docs = vec![1, 2, 3, 4, 5];
    let scores = vec![2, 0, 2, 7, 0];
    let (keys, buckets) = bucket_by_score(&docs, &scores);
    assert_eq!(keys, vec![0, 2, 7]);
    assert_eq!(buckets, vec![vec![2, 5], vec![1, 3], vec![4]]);
    let mut all: Vec<u32> = buckets.concat();
    all.sort();
    assert_eq!(all, docs);
}

#[test]
fn pages_are_consecutive_slices_of_one_ranking() {
    let ids: Vec<u32> = (0..25).collect();
    let snap = snapshot(vec![posting("w", 0, &ids)], vec![posting("w", 0, &ids)], &ids);
    let q = tokens(&["w"]);
    let first = search(&snap, &q, 0, 10);
    let second = search(&snap, &q, 10, 10);
    let both = search(&snap, &q, 0, 20);
    assert_eq!(first.candidates_count, 25);
    assert!(first.documents_ids.iter().all(|d| !second.documents_ids.contains(d)));
    let mut joined = first.documents_ids.clone();
    joined.extend(second.documents_ids.iter());
    assert_eq!(joined, both.documents_ids);
    assert_eq!(paginate(&vec![1, 2, 3], 2, 5), vec![3]);
    assert_eq!(paginate(&vec![1, 2, 3], 3, 5), Vec::<u32>::new());
}

#[test]
fn proximity_orders_documents() {
    let positions = vec![
        posting("fox", 1, &[2]),
        posting("fox", 3, &[1]),
        posting("fox", 1000, &[3]),
        posting("quick", 0, &[1, 2, 3]),
    ];
    let attributes = vec![
        posting("fox", 0, &[1, 2]),
        posting("fox", 1, &[3]),
        posting("quick", 0, &[1, 2, 3]),
    ];
    let snap = snapshot(positions, attributes, &[1, 2, 3]);
    let r = search(&snap, &tokens(&["quick", "fox"]), 0, 10);
    assert_eq!(r.documents_ids, vec![2, 1, 3]);
    assert_eq!(r.candidates_count, 3);
    let top = search(&snap, &tokens(&["quick", "fox"]), 0, 2);
    assert_eq!(top.documents_ids, vec![2, 1]);
    assert_eq!(top.candidates_count, 3);
    let last = search(&snap, &tokens(&["quick", "fox"]), 2, usize::MAX);
    assert_eq!(last.documents_ids, vec![3]);
}

#[test]
fn relaxation_drops_the_most_common_token() {
    let positions = vec![
        posting("common", 0, &[1, 2, 3, 4]),
        posting("rare1", 1, &[5, 6]),
        posting("rare2", 2, &[5, 7]),
    ];
    let attributes = vec![
        posting("common", 0, &[1, 2, 3, 4]),
        posting("rare1", 0, &[5, 6]),
        posting("rare2", 0, &[5, 7]),
    ];
    let snap = snapshot(positions, attributes, &[1, 2, 3, 4, 5, 6, 7]);
    let r = search(&snap, &tokens(&["common", "rare1", "rare2"]), 0, 10);
    assert_eq!(r.documents_ids, vec![5]);
    assert_eq!(r.candidates_count, 1);
}

#[test]
fn empty_query_gives_empty_page() {
    let snap = snapshot(vec![posting("fox", 0, &[1])], vec![posting("fox", 0, &[1])], &[1]);
    let r = search(&snap, &Vec::new(), 0, 10);
    assert!(r.documents_ids.is_empty());
    assert_eq!(r.candidates_count, 0);
}

#[test]
fn words_criterion_ranks_fuller_matches_first() {
    let positions = vec![
        posting("brown", 1, &[1]),
        posting("fox", 2, &[1, 2]),
    ];
    let attributes = vec![
        posting("brown", 0, &[1]),
        posting("fox", 0, &[1, 2]),
    ];
    let snap = snapshot(positions, attributes, &[1, 2]);
    let r = search(&snap, &tokens(&["fox"]), 0, 10);
    assert_eq!(r.documents_ids, vec![1, 2]);
    let r = search(&snap, &tokens(&["fox", "br"]), 0, 10);
    assert_eq!(r.documents_ids, vec![1]);
}

#[test]
fn attribute_and_exactness_break_ties() {
    let positions = vec![
        posting("fox", 1001, &[1]),
        posting("fox", 1, &[2]),
        posting("foxes", 2, &[3]),
    ];
    let attributes = vec![
        posting("fox", 0, &[2]),
        posting("fox", 1, &[1]),
        posting("foxes", 0, &[3]),
    ];
    let snap = snapshot(positions, attributes, &[1, 2, 3]);
    let r = search(&snap, &tokens(&["fox"]), 0, 10);
    assert_eq!(r.documents_ids, vec![2, 3, 1]);
}

#[test]
fn pipeline_order() {
    assert_eq!(
        default_criteria(),
        vec![Criterion::Words, Criterion::Proximity, Criterion::Attribute, Criterion::Exactness]
    );
}

#[test]
fn unknown_non_final_token_matches_nothing() {
    let snap = snapshot(vec![posting("fox", 0, &[1])], vec![posting("fox", 0, &[1])], &[1]);
    let r = search(&snap, &tokens(&["zebra", "fox"]), 0, 10);
    assert!(r.documents_ids.is_empty());
    assert_eq!(r.candidates_count, 0);
    let r = search(&snap, &tokens(&["fox"]), 0, 10);
    assert_eq!(r.documents_ids, vec![1]);
}

#[test]
fn snapshot_rejects_inconsistent_tables() {
    let ok = Snapshot::build(vec![posting("fox", 0, &[1])], vec![posting("fox", 0, &[1])], vec![1], PREFIX_LIMIT);
    assert!(ok.is_ok());
    let outside = Snapshot::build(vec![], vec![posting("fox", 0, &[2])], vec![1], PREFIX_LIMIT);
    assert_eq!(outside.err(), Some(IndexError::CorruptData));
    let unsorted = Snapshot::build(vec![posting("fox", 0, &[2, 1])], vec![], vec![1, 2], PREFIX_LIMIT);
    assert_eq!(unsorted.err(), Some(IndexError::CorruptData));
    let disorder = Snapshot::build(vec![], vec![posting("quick", 0, &[1]), posting("fox", 0, &[1])], vec![1], PREFIX_LIMIT);
    assert_eq!(disorder.err(), Some(IndexError::CorruptData));
    let ids = Snapshot::build(vec![], vec![], vec![2, 1], PREFIX_LIMIT);
    assert_eq!(ids.err(), Some(IndexError::CorruptData));
}
