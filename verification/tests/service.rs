use searcher::index::Posting;
use searcher::index::Segment;
use searcher::index::Snapshot;
use searcher::index::TermPostings;
use searcher::service::handle_search;
use searcher::service::search;
use searcher::service::Query;
use searcher::service::SearchError;
use searcher::service::SearchResponse;
use searcher::service::SnapshotManager;
use searcher::store::Document;
use searcher::store::DocumentStore;
use searcher::store::Field;

fn doc(id: u64, name: &str) -> Document {
    Document {
        id,
        fields: vec![Field { name: "display_name".to_string(), value: name.to_string() }],
    }
}

fn list(term: &str, postings: Vec<(u64, u64)>) -> TermPostings {
    TermPostings {
        term: term.to_string(),
        postings: postings.into_iter().map(|(doc_id, term_freq)| Posting { doc_id, term_freq }).collect(),
    }
}

/// The gazetteer of the worked scenario: Springfield, Spring Valley and
/// Shelbyville, indexed with prefix terms so that "spring" reaches both
/// spring places.
fn spring_snapshot() -> Snapshot {
    Snapshot {
        version: 1,
        field: "display_name".to_string(),
        segments: vec![Segment {
            lists: vec![
                list("springfield", vec![(1, 1)]),
                list("spring", vec![(1, 1), (2, 1)]),
                list("valley", vec![(2, 1)]),
                list("shelbyville", vec![(3, 1)]),
            ],
        }],
        store: DocumentStore {
            docs: vec![doc(1, "Springfield"), doc(2, "Spring Valley"), doc(3, "Shelbyville")],
        },
    }
}

fn body_of(r: SearchResponse) -> String {
    match r {
        SearchResponse::Success(body) => body,
        SearchResponse::BadRequest => panic!("unexpected 400"),
        SearchResponse::InternalError => panic!("unexpected 500"),
    }
}

#[test]
fn scenario_spring_limit_two() {
    let snap = spring_snapshot();
    let r = handle_search(&snap, Some("spring"), Some("2"));
    assert_eq!(r.status(), 200);
    let body = body_of(r);
    assert_eq!(
        body,
        "[{\"display_name\":\"Springfield\"},{\"display_name\":\"Spring Valley\"}]"
    );
}

#[test]
fn missing_term_is_bad_request() {
    let snap = spring_snapshot();
    let r = handle_search(&snap, None, Some("3"));
    assert!(matches!(r, SearchResponse::BadRequest));
    assert_eq!(r.status(), 400);
}

#[test]
fn empty_term_is_ok_and_empty() {
    let snap = spring_snapshot();
    let r = handle_search(&snap, Some(""), None);
    assert_eq!(r.status(), 200);
    assert_eq!(body_of(r), "[]");
}

#[test]
fn blank_term_is_ok_and_empty() {
    let snap = spring_snapshot();
    let r = handle_search(&snap, Some("   !!  "), None);
    assert_eq!(r.status(), 200);
    assert_eq!(body_of(r), "[]");
}

#[test]
fn unparsable_limit_defaults_to_three() {
    let snap = spring_snapshot();
    let with_default = body_of(handle_search(&snap, Some("spring"), None));
    for bad in ["abc", "", "3x", "300", "-1", " 3"] {
        let b = body_of(handle_search(&snap, Some("spring"), Some(bad)));
        assert_eq!(b, with_default, "limit {:?} must fall back to the default", bad);
    }
}

#[test]
fn plus_prefixed_limit_parses() {
    let snap = spring_snapshot();
    let one = body_of(handle_search(&snap, Some("spring"), Some("+1")));
    assert_eq!(one, "[{\"display_name\":\"Springfield\"}]");
}

#[test]
fn zero_limit_stays_zero() {
    let snap = spring_snapshot();
    let r = handle_search(&snap, Some("spring"), Some("0"));
    assert_eq!(r.status(), 200);
    assert_eq!(body_of(r), "[]");
}

#[test]
fn unterminated_quote_is_internal_error() {
    let snap = spring_snapshot();
    let r = handle_search(&snap, Some("\"spring"), None);
    assert_eq!(r.status(), 500);
    assert!(matches!(r, SearchResponse::InternalError));
}

#[test]
fn paired_quotes_are_accepted() {
    let snap = spring_snapshot();
    let r = handle_search(&snap, Some("\"spring\""), Some("10"));
    assert_eq!(r.status(), 200);
    let body = body_of(r);
    assert!(body.contains("Springfield"));
    assert!(body.contains("Spring Valley"));
}

#[test]
fn integrity_fault_is_internal_error() {
    let mut snap = spring_snapshot();
    snap.segments[0].lists.push(list("ghost", vec![(99, 1)]));
    let r = handle_search(&snap, Some("ghost"), None);
    assert_eq!(r.status(), 500);
    assert!(matches!(
        search(&snap, "ghost", 3),
        Err(SearchError::IntegrityError)
    ));
}

#[test]
fn parse_error_from_query_parse() {
    let f = "display_name".to_string();
    assert!(matches!(
        Query::parse("\"oops", &f),
        Err(SearchError::InvalidQuerySyntax)
    ));
}

#[test]
fn parse_normalizes_and_deduplicates() {
    let f = "display_name".to_string();
    let q = Query::parse("Spring  VALLEY!! spring, valley", &f).unwrap();
    let terms: Vec<&str> = q.terms.iter().map(|t| t.as_str()).collect();
    assert_eq!(terms, vec!["spring", "valley"]);
    assert_eq!(q.field, f);
}

#[test]
fn identical_requests_get_identical_answers() {
    let snap = spring_snapshot();
    let a = body_of(handle_search(&snap, Some("spring"), Some("2")));
    let b = body_of(handle_search(&snap, Some("spring"), Some("2")));
    assert_eq!(a, b);
}

#[test]
fn snapshot_reload_does_not_disturb_captured_snapshot() {
    let captured = spring_snapshot();
    let mut manager = SnapshotManager::new(spring_snapshot());
    let mut replacement = spring_snapshot();
    replacement.version = 2;
    replacement.store.docs[0] = doc(1, "Renamed Place");
    manager.publish(replacement);
    // The request that captured the first snapshot still sees its data.
    let body = body_of(handle_search(&captured, Some("springfield"), None));
    assert_eq!(body, "[{\"display_name\":\"Springfield\"}]");
    // Only new requests see the replacement.
    let body2 = body_of(handle_search(manager.acquire(), Some("springfield"), None));
    assert_eq!(body2, "[{\"display_name\":\"Renamed Place\"}]");
}

#[test]
fn json_escaping() {
    let snap = Snapshot {
        version: 1,
        field: "display_name".to_string(),
        segments: vec![Segment { lists: vec![list("odd", vec![(7, 1)])] }],
        store: DocumentStore { docs: vec![doc(7, "a\"b\\c\nd\te\u{1}f")] },
    };
    let body = body_of(handle_search(&snap, Some("odd"), None));
    assert_eq!(body, "[{\"display_name\":\"a\\\"b\\\\c\\nd\\te\\u0001f\"}]");
}
