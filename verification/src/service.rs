//! The search service: parse, look up, score, collect, materialize, respond.
//!
//! One request runs strictly in that order against a single snapshot; any
//! failure ends the request, with no retry and no partial result. The limit
//! policy mirrors the service's observable behaviour: a missing or
//! unparsable count falls back to three, a parsed count is capped at ten,
//! and no lower bound is applied, so an explicit zero yields an empty page.

use crate::index::candidates;
use crate::index::candidates_spec;
use crate::index::score;
use crate::index::score_spec;
use crate::index::Snapshot;
use crate::index::SnapshotV;
use crate::json::json_body;
use crate::json::render_body;
use crate::store::doc_views;
use crate::store::find_doc;
use crate::store::Document;
use crate::store::DocumentV;
use crate::text::dedup;
use crate::text::parse_u8;
use crate::text::parse_u8_spec;
use crate::text::quote_count;
use crate::text::quotes_balanced;
use crate::text::tokenize;
use crate::text::tokens_of;
use crate::text::views_of;
use crate::topk::topk_spec;
use crate::topk::ScoredHit;
use crate::topk::TopK;
use vstd::prelude::*;

verus! {

/// Why a request failed after its parameters were present.
#[derive(Clone, Copy, PartialEq, Eq, Structural, Debug)]
pub enum SearchError {
    /// The query text is structurally invalid: its quotes do not pair up.
    InvalidQuerySyntax,
    /// The index returned a document identifier the store does not hold:
    /// an integrity fault of the snapshot, fatal for this request only.
    IntegrityError,
}

/// A structured query: match any of the terms in the one searchable field.
pub struct Query {
    pub field: String,
    pub terms: Vec<String>,
}

/// The normalized, deduplicated terms of a query text.
pub open spec fn query_terms(text: Seq<char>) -> Seq<Seq<char>> {
    dedup(tokens_of(text))
}

/// Membership of a string among the views of a list of strings.
fn contains_string(v: &Vec<String>, x: &String) -> (r: bool)
    ensures
        r == views_of(v@).contains(x@),
{
    let n = v.len();
    let mut i: usize = 0;
    while i < n
        invariant
            n == v.len(),
            0 <= i <= n,
            forall|k: int| 0 <= k < i ==> v@[k]@ != x@,
        decreases n - i,
    {
        if v[i].eq(x) {
            assert(views_of(v@)[i as int] == x@);
            return true;
        }
        i = i + 1;
    }
    proof {
        if views_of(v@).contains(x@) {
            let k = choose|k: int| 0 <= k < views_of(v@).len() && views_of(v@)[k] == x@;
            assert(v@[k]@ == x@);
        }
    }
    false
}

impl Query {
    /// Turn a free-text query into a structured one over `field`, with the
    /// same normalization the index was built with. Empty or blank text
    /// gives a query with no terms, which matches nothing; the only error is
    /// an unpaired quote.
    pub fn parse(text: &str, field: &String) -> (r: Result<Query, SearchError>)
        ensures
            match r {
                Ok(q) => quote_count(text@) % 2 == 0 && q.field@ == field@ && views_of(q.terms@)
                    == query_terms(text@),
                Err(e) => e == SearchError::InvalidQuerySyntax && quote_count(text@) % 2 != 0,
            },
    {
        if !quotes_balanced(text) {
            return Err(SearchError::InvalidQuerySyntax);
        }
        let toks = tokenize(text);
        let ghost tv = views_of(toks@);
        let mut terms: Vec<String> = Vec::new();
        let n = toks.len();
        let mut i: usize = 0;
        proof {
            assert(tv.take(0) =~= Seq::<Seq<char>>::empty());
            assert(views_of(terms@) =~= dedup(tv.take(0)));
        }
        while i < n
            invariant
                n == toks.len(),
                0 <= i <= n,
                tv == views_of(toks@),
                tv.len() == n,
                views_of(terms@) == dedup(tv.take(i as int)),
            decreases n - i,
        {
            let t = &toks[i];
            let ghost prefix = tv.take(i as int);
            proof {
                assert(tv[i as int] == toks@[i as int]@);
                assert(tv.take(i as int + 1) =~= prefix.push(t@));
                assert(prefix.push(t@).drop_last() =~= prefix);
                crate::text::lemma_dedup_contains(prefix, t@);
            }
            if !contains_string(&terms, t) {
                let ghost ts = terms@;
                let c = t.clone();
                terms.push(c);
                proof {
                    assert(views_of(terms@) =~= views_of(ts).push(t@));
                }
            }
            i = i + 1;
        }
        proof {
            assert(tv.take(n as int) =~= tv);
        }
        Ok(Query { field: field.clone(), terms })
    }
}

/// The hits a query's candidates produce, in candidate order: every
/// candidate with its relevance score.
pub open spec fn scored_candidates(snap: SnapshotV, terms: Seq<Seq<char>>) -> Seq<ScoredHit> {
    candidates_spec(snap, terms).map(
        |i: int, d: u64| ScoredHit { doc_id: d, score: score_spec(snap, terms, d) },
    )
}

/// Whether the store holds every hit's document.
pub open spec fn all_found(store: Seq<DocumentV>, hits: Seq<ScoredHit>) -> bool {
    forall|k: int| 0 <= k < hits.len() ==> find_doc(store, (#[trigger] hits[k]).doc_id) is Some
}

/// The records of the hits, in hit order.
pub open spec fn materialized(store: Seq<DocumentV>, hits: Seq<ScoredHit>) -> Seq<DocumentV> {
    hits.map(|i: int, h: ScoredHit| find_doc(store, h.doc_id)->0)
}

/// What one search returns: the best `limit` matching documents in response
/// order, or the error that ended the request.
pub open spec fn spec_search(snap: SnapshotV, term: Seq<char>, limit: int) -> Result<
    Seq<DocumentV>,
    SearchError,
> {
    if quote_count(term) % 2 != 0 {
        Err(SearchError::InvalidQuerySyntax)
    } else {
        let hits = topk_spec(scored_candidates(snap, query_terms(term)), limit);
        if all_found(snap.store, hits) {
            Ok(materialized(snap.store, hits))
        } else {
            Err(SearchError::IntegrityError)
        }
    }
}

/// One search: parse the text, look the terms up, score and collect the
/// best `limit` candidates, and materialize their records, in order.
pub fn search(snap: &Snapshot, term: &str, limit: usize) -> (r: Result<Vec<Document>, SearchError>)
    ensures
        match r {
            Ok(docs) => spec_search(snap@, term@, limit as int) == Ok::<_, SearchError>(
                doc_views(docs@),
            ),
            Err(e) => spec_search(snap@, term@, limit as int) == Err::<Seq<DocumentV>, _>(e),
        },
{
    let q = match Query::parse(term, &snap.field) {
        Ok(q) => q,
        Err(e) => {
            return Err(e);
        },
    };
    let ghost terms_v = views_of(q.terms@);
    let cands = candidates(snap, &q.terms);
    let ghost scored = scored_candidates(snap@, terms_v);
    let mut coll = TopK::new(limit);
    let n = cands.len();
    let mut i: usize = 0;
    proof {
        assert(scored.len() == n);
        assert(scored.take(0) =~= Seq::<ScoredHit>::empty());
    }
    while i < n
        invariant
            n == cands.len(),
            0 <= i <= n,
            terms_v == views_of(q.terms@),
            cands@ == candidates_spec(snap@, terms_v),
            scored == scored_candidates(snap@, terms_v),
            scored.len() == n,
            coll.spec_limit() == limit,
            coll.spec_hits() == topk_spec(scored.take(i as int), limit as int),
        decreases n - i,
    {
        let d = cands[i];
        let sc = score(snap, &q.terms, d);
        proof {
            crate::topk::lemma_topk_sorted(scored.take(i as int), limit as int);
            crate::topk::lemma_topk_len(scored.take(i as int), limit as int);
            assert(scored[i as int] == ScoredHit { doc_id: d, score: sc });
            assert(scored.take(i as int + 1).drop_last() =~= scored.take(i as int));
            assert(scored.take(i as int + 1).last() == scored[i as int]);
        }
        coll.offer(ScoredHit { doc_id: d, score: sc });
        i = i + 1;
    }
    proof {
        assert(scored.take(n as int) =~= scored);
    }
    let hits = coll.into_hits();
    let ghost hv = hits@;
    proof {
        assert(hv == topk_spec(scored_candidates(snap@, query_terms(term@)), limit as int));
    }
    let mut out: Vec<Document> = Vec::new();
    let nh = hits.len();
    let mut k: usize = 0;
    while k < nh
        invariant
            nh == hits.len(),
            0 <= k <= nh,
            hv == hits@,
            hv.len() == nh,
            quote_count(term@) % 2 == 0,
            hv == topk_spec(scored_candidates(snap@, query_terms(term@)), limit as int),
            out@.len() == k,
            forall|j: int|
                0 <= j < k ==> find_doc(snap@.store, (#[trigger] hv[j]).doc_id) is Some,
            forall|j: int|
                0 <= j < k ==> (#[trigger] out@[j])@ == find_doc(snap@.store, hv[j].doc_id)->0,
        decreases nh - k,
    {
        proof {
            assert(snap@.store == snap.store@);
        }
        match snap.store.get(hits[k].doc_id) {
            Some(d) => {
                proof {
                    assert(find_doc(snap@.store, hv[k as int].doc_id) == Some(d@));
                }
                let ghost dv = d@;
                let ghost out0 = out@;
                let c = d.clone();
                proof {
                    assert(c@ == dv);
                }
                out.push(c);
                proof {
                    assert(out@[k as int]@ == find_doc(snap@.store, hv[k as int].doc_id)->0);
                    assert forall|j: int| 0 <= j < k + 1 implies (#[trigger] out@[j])@ == find_doc(
                        snap@.store,
                        hv[j].doc_id,
                    )->0 by {
                        if j < k {
                            assert(out@[j] == out0[j]);
                        }
                    }
                }
            },
            None => {
                proof {
                    assert(find_doc(snap@.store, hv[k as int].doc_id) is None);
                    assert(!all_found(snap@.store, hv));
                }
                return Err(SearchError::IntegrityError);
            },
        }
        k = k + 1;
    }
    proof {
        assert forall|j: int| 0 <= j < hv.len() implies find_doc(
            snap@.store,
            (#[trigger] hv[j]).doc_id,
        ) is Some by {
            assert(find_doc(snap@.store, hv[j].doc_id) is Some);
        }
        assert(all_found(snap@.store, hv));
        assert(doc_views(out@) =~= materialized(snap@.store, hv));
    }
    Ok(out)
}

/// The result count a request is served with: three when the parameter is
/// absent or not a plain decimal count, otherwise the value capped at ten.
/// No lower bound is applied: an explicit zero stays zero.
pub open spec fn spec_effective_limit(limit: Option<Seq<char>>) -> u8 {
    match limit {
        None => 3,
        Some(s) => match parse_u8_spec(s) {
            None => 3,
            Some(v) => if v < 10 {
                v
            } else {
                10
            },
        },
    }
}

/// The view of an optional request parameter.
pub open spec fn opt_view(o: Option<&str>) -> Option<Seq<char>> {
    match o {
        Some(s) => Some(s@),
        None => None,
    }
}

/// Read the `limit` parameter, as `spec_effective_limit` says.
pub fn effective_limit(limit: Option<&str>) -> (r: u8)
    ensures
        r == spec_effective_limit(opt_view(limit)),
        r <= 10,
{
    match limit {
        None => 3,
        Some(s) => match parse_u8(s) {
            None => 3,
            Some(v) => if v < 10 {
                v
            } else {
                10
            },
        },
    }
}

/// A finished response: the JSON body of a successful search, or the class
/// of error the transport reports.
pub enum SearchResponse {
    /// A successful search; the body is the JSON array of the records.
    Success(String),
    /// A required parameter is missing.
    BadRequest,
    /// A parse failure or an integrity fault; no detail leaves the service.
    InternalError,
}

/// The mathematical value of a response.
pub enum SearchResponseV {
    Success(Seq<char>),
    BadRequest,
    InternalError,
}

impl View for SearchResponse {
    type V = SearchResponseV;

    open spec fn view(&self) -> SearchResponseV {
        match self {
            SearchResponse::Success(body) => SearchResponseV::Success(body@),
            SearchResponse::BadRequest => SearchResponseV::BadRequest,
            SearchResponse::InternalError => SearchResponseV::InternalError,
        }
    }
}

impl SearchResponse {
    /// The HTTP status the transport sends for this response.
    pub fn status(&self) -> (r: u16)
        ensures
            r == match self@ {
                SearchResponseV::Success(_) => 200u16,
                SearchResponseV::BadRequest => 400u16,
                SearchResponseV::InternalError => 500u16,
            },
    {
        match self {
            SearchResponse::Success(_) => 200,
            SearchResponse::BadRequest => 400,
            SearchResponse::InternalError => 500,
        }
    }
}

/// What the service answers for given request parameters.
pub open spec fn spec_handle(
    snap: SnapshotV,
    term: Option<Seq<char>>,
    limit: Option<Seq<char>>,
) -> SearchResponseV {
    match term {
        None => SearchResponseV::BadRequest,
        Some(t) => match spec_search(snap, t, spec_effective_limit(limit) as int) {
            Ok(docs) => SearchResponseV::Success(json_body(docs)),
            Err(_) => SearchResponseV::InternalError,
        },
    }
}

/// Serve one request: a missing `term` is the caller's fault; everything
/// else that fails is reported as an internal fault, with no detail.
pub fn handle_search(snap: &Snapshot, term: Option<&str>, limit: Option<&str>) -> (r:
    SearchResponse)
    ensures
        r@ == spec_handle(snap@, opt_view(term), opt_view(limit)),
{
    let t = match term {
        Some(t) => t,
        None => {
            return SearchResponse::BadRequest;
        },
    };
    let lim = effective_limit(limit);
    match search(snap, t, lim as usize) {
        Ok(docs) => SearchResponse::Success(render_body(&docs)),
        Err(_) => SearchResponse::InternalError,
    }
}

/// Owner of the currently served snapshot. A replacement is published as a
/// whole; a search keeps using the snapshot it acquired at request start,
/// so a reload never disturbs a request already running.
pub struct SnapshotManager {
    current: Snapshot,
}

impl SnapshotManager {
    /// The snapshot now served to new requests.
    pub closed spec fn spec_current(&self) -> Snapshot {
        self.current
    }

    pub fn new(initial: Snapshot) -> (r: SnapshotManager)
        ensures
            r.spec_current() == initial,
    {
        SnapshotManager { current: initial }
    }

    /// Acquire the current snapshot for one request.
    pub fn acquire(&self) -> (r: &Snapshot)
        ensures
            r == self.spec_current(),
    {
        &self.current
    }

    /// Atomically supersede the served snapshot. Requests that already
    /// acquired the old one keep it; only new requests see the replacement.
    pub fn publish(&mut self, replacement: Snapshot)
        ensures
            final(self).spec_current() == replacement,
    {
        self.current = replacement;
    }
}

} // verus!
