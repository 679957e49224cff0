use inverted_index::builder::{
    build_segment, build_segments, train_inverted_index, Document, InvertedIndexParams,
};
use inverted_index::codec::{decode, encode, encode_segment};
use inverted_index::error::IndexError;
use inverted_index::index::Segment;
use inverted_index::iter::PostingIterator;
use inverted_index::merger::merge_into;
use inverted_index::posting::{is_strictly_increasing, Posting};
use inverted_index::query::{score_row, search, term_postings, ScoredRow};
use inverted_index::scorer::{score_term, Bm25Params};
use inverted_index::tokenizer::{tokenize, TokenizerConfig};

fn b(s: &str) -> Vec<u8> {
    s.as_bytes().to_vec()
}

fn stop_config() -> TokenizerConfig {
    TokenizerConfig::new(true, vec![b("the"), b("and")])
}

fn doc(row: u64, text: &str) -> Document {
    Document::new(row, b(text))
}

fn corpus() -> Vec<Document> {
    vec![doc(1, "the cat sat"), doc(2, "the dog ran"), doc(3, "cat and dog")]
}

fn rows_of(seg: &Segment, term: &str) -> Vec<(u64, u32, Vec<u32>)> {
    match term_postings(seg, &b(term)) {
        Some(ps) => ps.iter().map(|p| (p.row_id, p.freq, p.positions.clone())).collect(),
        None => Vec::new(),
    }
}

#[test]
fn tokenize_folds_case_and_drops_stop_words() {
    let toks = tokenize(&b("The Cat, and the HAT!"), &stop_config());
    let got: Vec<(Vec<u8>, u32)> = toks.iter().map(|t| (t.term.clone(), t.position)).collect();
    assert_eq!(got, vec![(b("cat"), 1), (b("hat"), 4)]);
}

#[test]
fn tokenize_without_folding_keeps_case() {
    let cfg = TokenizerConfig::new(false, vec![]);
    let toks = tokenize(&b("  Ab-c9  "), &cfg);
    let got: Vec<(Vec<u8>, u32)> = toks.iter().map(|t| (t.term.clone(), t.position)).collect();
    assert_eq!(got, vec![(b("Ab"), 0), (b("c9"), 1)]);
}

#[test]
fn tokenize_empty_text() {
    assert!(tokenize(&Vec::new(), &stop_config()).is_empty());
}

#[test]
fn codec_round_trip_with_positions() {
    let ps = vec![
        Posting::new(0, 2, vec![1, 7]),
        Posting::new(5, 1, vec![3]),
        Posting::new(u64::MAX, 0, vec![]),
    ];
    let bytes = encode(&ps);
    assert_eq!(bytes.len(), 8 + (16 + 8) + (16 + 4) + 16);
    let back = decode(&bytes).unwrap();
    assert_eq!(back.len(), 3);
    for (x, y) in back.iter().zip(ps.iter()) {
        assert_eq!((x.row_id, x.freq, &x.positions), (y.row_id, y.freq, &y.positions));
    }
}

#[test]
fn codec_round_trip_empty() {
    let bytes = encode(&Vec::new());
    assert_eq!(bytes, vec![0u8; 8]);
    assert!(decode(&bytes).unwrap().is_empty());
}

#[test]
fn codec_encodes_row_deltas() {
    let ps = vec![Posting::new(10, 1, vec![]), Posting::new(13, 1, vec![])];
    let bytes = encode(&ps);
    assert_eq!(bytes[8], 10);
    assert_eq!(bytes[8 + 16], 3);
}

#[test]
fn codec_rejects_corrupt_bytes() {
    let ps = vec![Posting::new(4, 1, vec![9])];
    let mut bytes = encode(&ps);
    bytes.pop();
    assert!(matches!(decode(&bytes), Err(IndexError::Encoding)));
    assert!(matches!(decode(&vec![1, 2, 3]), Err(IndexError::Encoding)));
    let mut longer = encode(&ps);
    longer.push(0);
    assert!(matches!(decode(&longer), Err(IndexError::Encoding)));
}

#[test]
fn codec_rejects_repeated_row() {
    // count 2, then row 4 and a zero delta
    let mut bytes = vec![2, 0, 0, 0, 0, 0, 0, 0];
    for delta in [4u8, 0u8] {
        bytes.extend_from_slice(&[delta, 0, 0, 0, 0, 0, 0, 0]);
        bytes.extend_from_slice(&[1, 0, 0, 0, 0, 0, 0, 0]);
    }
    assert!(matches!(decode(&bytes), Err(IndexError::Encoding)));
}

#[test]
fn build_gives_increasing_postings() {
    let docs = vec![doc(9, "cat"), doc(2, "cat dog"), doc(5, "dog cat cat")];
    let seg = build_segment(&docs, &stop_config()).unwrap();
    assert_eq!(
        rows_of(&seg, "cat"),
        vec![(2, 1, vec![0]), (5, 2, vec![1, 2]), (9, 1, vec![0])]
    );
    assert_eq!(rows_of(&seg, "dog"), vec![(2, 1, vec![1]), (5, 1, vec![0])]);
    for e in seg.entries.iter() {
        assert!(is_strictly_increasing(&e.postings));
    }
    assert_eq!(seg.num_docs(), 3);
    assert_eq!(seg.total_tokens, 6);
}

#[test]
fn build_rejects_duplicate_row() {
    let docs = vec![doc(1, "a"), doc(1, "b")];
    assert!(matches!(build_segment(&docs, &stop_config()), Err(IndexError::Index)));
}

#[test]
fn reversed_batches_give_same_index() {
    let first = vec![doc(1, "the cat sat"), doc(2, "the dog ran")];
    let second = vec![doc(3, "cat and dog"), doc(4, "a dog")];
    let params = InvertedIndexParams {
        enable_merge: true,
        tokenizer: stop_config(),
        max_rows_per_segment: 3,
    };
    let forward = vec![
        vec![doc(1, "the cat sat"), doc(2, "the dog ran")],
        vec![doc(3, "cat and dog"), doc(4, "a dog")],
    ];
    let reversed = vec![second, first];
    let xs = train_inverted_index(&forward, &params, None, &Vec::new()).unwrap();
    let ys = train_inverted_index(&reversed, &params, None, &Vec::new()).unwrap();
    assert_eq!((xs.len(), ys.len()), (1, 1));
    let (x, y) = (&xs[0], &ys[0]);
    for term in ["cat", "dog", "sat", "ran", "a", "the"] {
        assert_eq!(rows_of(x, term), rows_of(y, term));
    }
    assert_eq!(x.entries.len(), y.entries.len());
    assert_eq!(x.total_tokens, y.total_tokens);
}

#[test]
fn build_without_merge_needs_directory() {
    let params = InvertedIndexParams {
        enable_merge: false,
        tokenizer: stop_config(),
        max_rows_per_segment: 2,
    };
    let batches = vec![corpus()];
    assert!(matches!(
        train_inverted_index(&batches, &params, None, &Vec::new()),
        Err(IndexError::Configuration)
    ));
    let segs = train_inverted_index(&batches, &params, Some("/idx"), &Vec::new()).unwrap();
    assert_eq!(segs.len(), 2);
    assert_eq!((segs[0].num_docs(), segs[1].num_docs()), (2, 1));
}

#[test]
fn build_rejects_zero_row_bound() {
    let params = InvertedIndexParams {
        enable_merge: true,
        tokenizer: stop_config(),
        max_rows_per_segment: 0,
    };
    assert!(matches!(
        train_inverted_index(&vec![corpus()], &params, None, &Vec::new()),
        Err(IndexError::Configuration)
    ));
}

#[test]
fn flushed_segments_partition_rows() {
    let docs = vec![doc(7, "cat"), doc(3, "cat dog"), doc(5, "dog"), doc(1, "cat")];
    let segs = build_segments(&docs, &stop_config(), 1, false).unwrap();
    assert_eq!(segs.len(), 4);
    for s in segs.iter() {
        assert_eq!(s.num_docs(), 1);
    }
    assert_eq!(rows_of(&segs[1], "cat"), vec![(3, 1, vec![0])]);
    let merged = build_segments(&docs, &stop_config(), 1, true).unwrap();
    assert_eq!(merged.len(), 1);
    let whole = build_segment(&docs, &stop_config()).unwrap();
    for term in ["cat", "dog"] {
        assert_eq!(rows_of(&merged[0], term), rows_of(&whole, term));
    }
    assert_eq!(rows_of(&merged[0], "cat"), vec![(1, 1, vec![0]), (3, 1, vec![0]), (7, 1, vec![0])]);
    assert_eq!(merged[0].total_tokens, 5);
}

#[test]
fn flushed_segments_reject_duplicate_across_segments() {
    let docs = vec![doc(1, "cat"), doc(2, "dog"), doc(1, "bird")];
    assert!(matches!(build_segments(&docs, &stop_config(), 1, false), Err(IndexError::Index)));
    assert!(matches!(build_segments(&docs, &stop_config(), 2, true), Err(IndexError::Index)));
}

#[test]
fn merge_with_empty_keeps_content() {
    let seg = build_segment(&corpus(), &stop_config()).unwrap();
    let mut merged = Segment::new();
    merge_into(&mut merged, &seg).unwrap();
    for term in ["cat", "dog", "sat", "ran"] {
        assert_eq!(rows_of(&merged, term), rows_of(&seg, term));
    }
    assert_eq!(merged.entries.len(), seg.entries.len());
    assert_eq!(merged.total_tokens, seg.total_tokens);
    assert_eq!(merged.num_docs(), seg.num_docs());
}

#[test]
fn merge_unions_terms_and_sums_frequencies() {
    let mut a = build_segment(&vec![doc(1, "cat sat"), doc(4, "dog")], &stop_config()).unwrap();
    let b = build_segment(&vec![doc(2, "cat"), doc(3, "bird")], &stop_config()).unwrap();
    merge_into(&mut a, &b).unwrap();
    assert_eq!(rows_of(&a, "cat"), vec![(1, 1, vec![0]), (2, 1, vec![0])]);
    assert_eq!(rows_of(&a, "bird"), vec![(3, 1, vec![0])]);
    assert_eq!(rows_of(&a, "dog"), vec![(4, 1, vec![0])]);
    assert_eq!(a.entries.len(), 4);
    assert_eq!(a.num_docs(), 4);
    assert_eq!(a.total_tokens, 5);
}

#[test]
fn merge_rejects_shared_rows() {
    let mut a = build_segment(&vec![doc(1, "cat")], &stop_config()).unwrap();
    let b = build_segment(&vec![doc(1, "dog")], &stop_config()).unwrap();
    assert!(matches!(merge_into(&mut a, &b), Err(IndexError::Index)));
    assert_eq!(rows_of(&a, "dog"), vec![]);
}

#[test]
fn score_term_exact_value() {
    let p = Bm25Params::standard();
    assert_eq!(score_term(1, 2, 3, 2, 6, &p), 1_333_000);
    assert_eq!(score_term(0, 2, 3, 2, 6, &p), 0);
}

#[test]
fn score_term_grows_with_frequency() {
    let p = Bm25Params::standard();
    let mut last = 0u128;
    for tf in 0..20u32 {
        let s = score_term(tf, 3, 10, 5, 40, &p);
        assert!(s >= last);
        last = s;
    }
}

#[test]
fn end_to_end_cat_dog_query() {
    let seg = build_segment(&corpus(), &stop_config()).unwrap();
    let p = Bm25Params::standard();
    let q = vec![b("cat"), b("dog")];
    let out = search(&seg, &q, 2, &p, &None);
    let rows: Vec<u64> = out.iter().map(|r| r.row_id).collect();
    assert_eq!(rows, vec![3, 1]);
    assert_eq!(out[0].score, score_row(&seg, &q, 3, &p));
    assert_eq!(out[0].score, 2 * 1_333_000);
}

#[test]
fn search_matches_brute_force() {
    let docs = vec![
        doc(1, "a b c"),
        doc(2, "a a"),
        doc(3, "b"),
        doc(4, "c c c a"),
        doc(5, "d"),
        doc(6, "a b"),
    ];
    let seg = build_segment(&docs, &stop_config()).unwrap();
    let p = Bm25Params::standard();
    let q = vec![b("a"), b("c")];
    let mut all: Vec<ScoredRow> = [1u64, 2, 4, 6]
        .iter()
        .map(|&r| ScoredRow { row_id: r, score: score_row(&seg, &q, r, &p) })
        .collect();
    all.sort_by(|x, y| y.score.cmp(&x.score).then(x.row_id.cmp(&y.row_id)));
    for k in 0..6usize {
        let out = search(&seg, &q, k, &p, &None);
        let want: Vec<ScoredRow> = all.iter().take(k).cloned().collect();
        assert_eq!(out, want);
    }
}

#[test]
fn search_respects_filter() {
    let seg = build_segment(&corpus(), &stop_config()).unwrap();
    let p = Bm25Params::standard();
    let q = vec![b("cat"), b("dog")];
    let out = search(&seg, &q, 3, &p, &Some(vec![2, 1]));
    let rows: Vec<u64> = out.iter().map(|r| r.row_id).collect();
    assert_eq!(rows, vec![1, 2]);
}

#[test]
fn search_unknown_term_is_empty() {
    let seg = build_segment(&corpus(), &stop_config()).unwrap();
    let out = search(&seg, &vec![b("fish")], 5, &Bm25Params::standard(), &None);
    assert!(out.is_empty());
}

#[test]
fn iterator_advances_and_seeks() {
    let ps = vec![
        Posting::new(2, 1, vec![]),
        Posting::new(4, 1, vec![]),
        Posting::new(9, 1, vec![]),
        Posting::new(15, 1, vec![]),
    ];
    let mut it = PostingIterator::new(ps);
    assert_eq!(it.current().unwrap().row_id, 2);
    it.advance();
    assert_eq!(it.current().unwrap().row_id, 4);
    it.seek(5);
    assert_eq!(it.current().unwrap().row_id, 9);
    it.seek(9);
    assert_eq!(it.current().unwrap().row_id, 9);
    it.seek(3);
    assert_eq!(it.current().unwrap().row_id, 9);
    it.seek(16);
    assert!(it.current().is_none());
    assert!(it.is_exhausted());
    it.advance();
    assert!(it.is_exhausted());
}

#[test]
fn search_prunes_without_changing_the_result() {
    let mut docs = vec![doc(1, "zebra zebra common")];
    for r in 2..40u64 {
        docs.push(doc(r, "common filler words here"));
    }
    let seg = build_segment(&docs, &stop_config()).unwrap();
    let p = Bm25Params::standard();
    let q = vec![b("zebra"), b("common")];
    let mut all: Vec<ScoredRow> = (1..40u64)
        .map(|r| ScoredRow { row_id: r, score: score_row(&seg, &q, r, &p) })
        .collect();
    all.sort_by(|x, y| y.score.cmp(&x.score).then(x.row_id.cmp(&y.row_id)));
    for k in [1usize, 2, 5, 39, 50] {
        let out = search(&seg, &q, k, &p, &None);
        let want: Vec<ScoredRow> = all.iter().take(k).cloned().collect();
        assert_eq!(out, want);
    }
    assert_eq!(search(&seg, &q, 1, &p, &None)[0].row_id, 1);
}

#[test]
fn dictionary_is_sorted_by_term() {
    let docs = vec![doc(1, "pear apple fig"), doc(2, "banana apple ap")];
    let seg = build_segment(&docs, &stop_config()).unwrap();
    let terms: Vec<Vec<u8>> = seg.entries.iter().map(|e| e.term.clone()).collect();
    assert_eq!(terms, vec![b("ap"), b("apple"), b("banana"), b("fig"), b("pear")]);
}

#[test]
fn segment_entries_encode_and_decode() {
    let seg = build_segment(&corpus(), &stop_config()).unwrap();
    let stored = encode_segment(&seg);
    assert_eq!(stored.len(), seg.entries.len());
    for (s, e) in stored.iter().zip(seg.entries.iter()) {
        assert_eq!(s.term, e.term);
        let back = decode(&s.postings).unwrap();
        let got: Vec<(u64, u32, Vec<u32>)> =
            back.iter().map(|p| (p.row_id, p.freq, p.positions.clone())).collect();
        let want: Vec<(u64, u32, Vec<u32>)> =
            e.postings.iter().map(|p| (p.row_id, p.freq, p.positions.clone())).collect();
        assert_eq!(got, want);
    }
    assert_eq!(stored[0].term, b("cat"));
}

#[test]
fn build_merges_into_existing_segment() {
    let old = build_segment(&corpus(), &stop_config()).unwrap();
    let params = InvertedIndexParams {
        enable_merge: true,
        tokenizer: stop_config(),
        max_rows_per_segment: 2,
    };
    // no new rows: the one existing segment comes back with the same content
    let same = train_inverted_index(&vec![], &params, None, &vec![old]).unwrap();
    let old = build_segment(&corpus(), &stop_config()).unwrap();
    assert_eq!(same.len(), 1);
    for term in ["cat", "dog", "sat", "ran"] {
        assert_eq!(rows_of(&same[0], term), rows_of(&old, term));
    }
    assert_eq!(same[0].entries.len(), old.entries.len());
    assert_eq!(same[0].total_tokens, old.total_tokens);
    assert_eq!(same[0].num_docs(), old.num_docs());
    // new rows are merged with the existing ones
    let other = build_segment(&vec![doc(10, "bird cat")], &stop_config()).unwrap();
    let merged = train_inverted_index(
        &vec![vec![doc(4, "dog dog"), doc(5, "fish")]],
        &params,
        None,
        &vec![old, other],
    )
    .unwrap();
    assert_eq!(merged.len(), 1);
    let m = &merged[0];
    assert_eq!(rows_of(m, "cat"), vec![(1, 1, vec![1]), (3, 1, vec![0]), (10, 1, vec![1])]);
    assert_eq!(rows_of(m, "dog"), vec![(2, 1, vec![1]), (3, 1, vec![2]), (4, 2, vec![0, 1])]);
    assert_eq!(rows_of(m, "fish"), vec![(5, 1, vec![0])]);
    assert_eq!(m.num_docs(), 6);
    assert_eq!(m.total_tokens, 6 + 2 + 2 + 1);
    let p = Bm25Params::standard();
    let out = search(m, &vec![b("cat"), b("dog")], 2, &p, &None);
    assert_eq!(out[0].row_id, 3);
}

#[test]
fn build_rejects_rows_already_indexed() {
    let old = build_segment(&corpus(), &stop_config()).unwrap();
    let params = InvertedIndexParams {
        enable_merge: true,
        tokenizer: stop_config(),
        max_rows_per_segment: 2,
    };
    let res = train_inverted_index(&vec![vec![doc(2, "fish")]], &params, None, &vec![old]);
    assert!(matches!(res, Err(IndexError::Index)));
}

#[test]
fn merged_build_keeps_row_lengths() {
    let params = InvertedIndexParams {
        enable_merge: true,
        tokenizer: stop_config(),
        max_rows_per_segment: 1,
    };
    let segs = train_inverted_index(&vec![corpus()], &params, None, &vec![]).unwrap();
    let seg = &segs[0];
    let mut lens: Vec<(u64, u32)> = seg.docs.iter().map(|d| (d.row_id, d.length)).collect();
    lens.sort();
    assert_eq!(lens, vec![(1, 2), (2, 2), (3, 2)]);
    let out = search(seg, &vec![b("cat"), b("dog")], 2, &Bm25Params::standard(), &None);
    let rows: Vec<u64> = out.iter().map(|r| r.row_id).collect();
    assert_eq!(rows, vec![3, 1]);
}

#[test]
fn short_rows_are_normalized_by_their_length() {
    let p = Bm25Params::standard();
    // a row of length 1 among rows averaging 3 tokens beats one of average length
    let short = score_term(1, 2, 3, 1, 9, &p);
    let average = score_term(1, 2, 3, 3, 9, &p);
    assert!(short > average);
    // norm = 250 + 750 * 1 * 3 / 9 = 500; tf part = 2200 * 10^6 / (10^6 + 1200 * 500) = 1375
    assert_eq!(short, 1333 * 1375);
}
