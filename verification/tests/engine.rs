use searcher::index::Posting;
use searcher::index::Segment;
use searcher::index::Snapshot;
use searcher::index::TermPostings;
use searcher::service::search;
use searcher::store::Document;
use searcher::store::DocumentStore;
use searcher::store::Field;
use searcher::text::parse_u8;
use searcher::text::tokenize;
use searcher::topk::ScoredHit;
use searcher::topk::TopK;

fn doc(id: u64, name: &str) -> Document {
    Document {
        id,
        fields: vec![Field { name: "display_name".to_string(), value: name.to_string() }],
    }
}

fn list(term: &str, postings: Vec<(u64, u64)>) -> TermPostings {
    TermPostings {
        term: term.to_string(),
        postings: postings.into_iter().map(|(doc_id, term_freq)| Posting { doc_id, term_freq }).collect(),
    }
}

/// A corpus where "spring" occurs with varied frequencies in twelve places,
/// split over two segments with disjoint identifier ranges.
fn large_snapshot() -> Snapshot {
    let freqs: Vec<(u64, u64)> = vec![
        (1, 3),
        (2, 1),
        (3, 7),
        (4, 7),
        (5, 2),
        (6, 1),
    ];
    let freqs_hi: Vec<(u64, u64)> = vec![
        (7, 7),
        (8, 4),
        (9, 1),
        (10, 2),
        (11, 5),
        (12, 1),
    ];
    let mut docs = Vec::new();
    for id in 1..=12u64 {
        docs.push(doc(id, &format!("Spring Place {}", id)));
    }
    Snapshot {
        version: 1,
        field: "display_name".to_string(),
        segments: vec![
            Segment { lists: vec![list("spring", freqs)] },
            Segment { lists: vec![list("spring", freqs_hi)] },
        ],
        store: DocumentStore { docs },
    }
}

#[test]
fn result_never_exceeds_limit() {
    let snap = large_snapshot();
    for limit in 0..13usize {
        let docs = search(&snap, "spring", limit).unwrap();
        assert!(docs.len() <= limit);
        assert_eq!(docs.len(), limit.min(12));
    }
}

#[test]
fn scores_non_increasing_with_id_tiebreak() {
    let snap = large_snapshot();
    let docs = search(&snap, "spring", 12).unwrap();
    let freq_of = |id: u64| -> u64 {
        match id {
            1 => 3,
            2 => 1,
            3 => 7,
            4 => 7,
            5 => 2,
            6 => 1,
            7 => 7,
            8 => 4,
            9 => 1,
            10 => 2,
            11 => 5,
            12 => 1,
            _ => panic!("unknown document"),
        }
    };
    for w in docs.windows(2) {
        let (a, b) = (freq_of(w[0].id), freq_of(w[1].id));
        assert!(a > b || (a == b && w[0].id < w[1].id));
    }
}

#[test]
fn top_k_matches_brute_force() {
    let snap = large_snapshot();
    // The full ranking, computed naively: sort every match by score
    // descending, identifier ascending.
    let mut all: Vec<(u64, u64)> = vec![
        (1, 3),
        (2, 1),
        (3, 7),
        (4, 7),
        (5, 2),
        (6, 1),
        (7, 7),
        (8, 4),
        (9, 1),
        (10, 2),
        (11, 5),
        (12, 1),
    ];
    all.sort_by(|x, y| y.1.cmp(&x.1).then(x.0.cmp(&y.0)));
    for limit in [1usize, 3, 5, 12] {
        let expected: Vec<u64> = all.iter().take(limit).map(|p| p.0).collect();
        let got: Vec<u64> = search(&snap, "spring", limit).unwrap().iter().map(|d| d.id).collect();
        assert_eq!(got, expected, "limit {}", limit);
    }
}

#[test]
fn collector_keeps_only_the_best() {
    let mut coll = TopK::new(2);
    coll.offer(ScoredHit { doc_id: 1, score: 5 });
    coll.offer(ScoredHit { doc_id: 2, score: 7 });
    coll.offer(ScoredHit { doc_id: 3, score: 7 });
    coll.offer(ScoredHit { doc_id: 4, score: 9 });
    coll.offer(ScoredHit { doc_id: 5, score: 1 });
    let hits = coll.into_hits();
    assert_eq!(hits.len(), 2);
    assert_eq!(hits[0], ScoredHit { doc_id: 4, score: 9 });
    assert_eq!(hits[1], ScoredHit { doc_id: 2, score: 7 });
}

#[test]
fn collector_breaks_ties_by_lower_identifier() {
    let mut coll = TopK::new(2);
    coll.offer(ScoredHit { doc_id: 9, score: 4 });
    coll.offer(ScoredHit { doc_id: 3, score: 4 });
    coll.offer(ScoredHit { doc_id: 6, score: 4 });
    let hits = coll.into_hits();
    assert_eq!(hits.len(), 2);
    assert_eq!(hits[0], ScoredHit { doc_id: 3, score: 4 });
    assert_eq!(hits[1], ScoredHit { doc_id: 6, score: 4 });
}

#[test]
fn lookup_merges_segments_in_identifier_order() {
    let snap = large_snapshot();
    let term = "spring".to_string();
    let ps = snap.lookup(&term);
    assert_eq!(ps.len(), 12);
    for w in ps.windows(2) {
        assert!(w[0].doc_id < w[1].doc_id);
    }
    let absent = "nowhere".to_string();
    assert_eq!(snap.lookup(&absent).len(), 0);
}

#[test]
fn tokenizer_lowercases_and_splits() {
    let toks = tokenize("Spring-Valley, IL 62702");
    let toks: Vec<&str> = toks.iter().map(|t| t.as_str()).collect();
    assert_eq!(toks, vec!["spring", "valley", "il", "62702"]);
    assert_eq!(tokenize("").len(), 0);
    assert_eq!(tokenize(" ,;! ").len(), 0);
}

#[test]
fn limit_parsing_mirrors_u8_rules() {
    assert_eq!(parse_u8("0"), Some(0));
    assert_eq!(parse_u8("7"), Some(7));
    assert_eq!(parse_u8("007"), Some(7));
    assert_eq!(parse_u8("+9"), Some(9));
    assert_eq!(parse_u8("255"), Some(255));
    assert_eq!(parse_u8("256"), None);
    assert_eq!(parse_u8("300"), None);
    assert_eq!(parse_u8(""), None);
    assert_eq!(parse_u8("+"), None);
    assert_eq!(parse_u8("-1"), None);
    assert_eq!(parse_u8("3x"), None);
    assert_eq!(parse_u8(" 3"), None);
}

#[test]
fn well_formedness_accepts_the_valid_snapshot() {
    assert!(large_snapshot().is_well_formed());
}

#[test]
fn well_formedness_rejects_unsorted_postings() {
    let mut snap = large_snapshot();
    snap.segments[0].lists[0].postings.reverse();
    assert!(!snap.is_well_formed());
}

#[test]
fn well_formedness_rejects_zero_frequency() {
    let mut snap = large_snapshot();
    snap.segments[0].lists[0].postings[0].term_freq = 0;
    assert!(!snap.is_well_formed());
}

#[test]
fn well_formedness_rejects_overlapping_segments() {
    let mut snap = large_snapshot();
    snap.segments[1].lists[0].postings[0].doc_id = 2;
    snap.segments[1].lists[0].postings.sort_by_key(|p| p.doc_id);
    assert!(!snap.is_well_formed());
}

#[test]
fn well_formedness_rejects_unsorted_store() {
    let mut snap = large_snapshot();
    snap.store.docs.swap(0, 1);
    assert!(!snap.is_well_formed());
}

#[test]
fn multi_term_query_sums_frequencies() {
    let snap = Snapshot {
        version: 1,
        field: "display_name".to_string(),
        segments: vec![Segment {
            lists: vec![
                list("spring", vec![(1, 1), (2, 1)]),
                list("valley", vec![(2, 1), (3, 2)]),
            ],
        }],
        store: DocumentStore {
            docs: vec![doc(1, "Springfield"), doc(2, "Spring Valley"), doc(3, "Valley Valley")],
        },
    };
    // Document 2 holds both terms, documents 3 and 1 one term each; the
    // doubled "valley" of document 3 outranks the single "spring" of 1.
    let docs = search(&snap, "spring valley", 10).unwrap();
    let ids: Vec<u64> = docs.iter().map(|d| d.id).collect();
    assert_eq!(ids, vec![2, 3, 1]);
}
