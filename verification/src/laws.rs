//! The guarantees of the service, stated and proved once and for all.
//!
//! Each law speaks over the specification functions that the executable
//! functions' contracts are written against, so it covers every run of the
//! service, not a sample of inputs.

use crate::index::candidates_spec;
use crate::index::is_match;
use crate::index::score_spec;
use crate::index::seg_wf;
use crate::index::Snapshot;
use crate::index::SnapshotV;
use crate::service::all_found;
use crate::service::materialized;
use crate::service::query_terms;
use crate::service::scored_candidates;
use crate::service::spec_effective_limit;
use crate::service::spec_search;
use crate::service::SearchError;
use crate::service::SnapshotManager;
use crate::store::find_doc;
use crate::store::DocumentV;
use crate::text::parse_u8_spec;
use crate::text::quote_count;
use crate::topk::better;
use crate::topk::lemma_topk_complete;
use crate::topk::lemma_topk_len;
use crate::topk::lemma_topk_sorted;
use crate::topk::lemma_topk_subset;
use crate::topk::topk_spec;
use crate::topk::ScoredHit;
use vstd::prelude::*;

verus! {

/// The hit a document would contribute for a query.
pub open spec fn hit_of(snap: SnapshotV, terms: Seq<Seq<char>>, d: u64) -> ScoredHit {
    ScoredHit { doc_id: d, score: score_spec(snap, terms, d) }
}

/// Whether a result sequence holds a record of the document.
pub open spec fn returned(docs: Seq<DocumentV>, d: u64) -> bool {
    exists|k: int| 0 <= k < docs.len() && docs[k].id == d
}

proof fn lemma_find_doc_id(docs: Seq<DocumentV>, id: u64)
    requires
        find_doc(docs, id) is Some,
    ensures
        (find_doc(docs, id)->0).id == id,
    decreases docs.len(),
{
    if docs.len() > 0 && docs[0].id != id {
        lemma_find_doc_id(docs.drop_first(), id);
    }
}

/// Each returned record is the stored document of its hit, hits come from
/// the collector, and each hit carries its document's true score.
proof fn lemma_search_shape(snap: SnapshotV, term: Seq<char>, limit: int)
    requires
        limit >= 0,
        spec_search(snap, term, limit) is Ok,
    ensures
        ({
            let terms = query_terms(term);
            let hits = topk_spec(scored_candidates(snap, terms), limit);
            let docs = spec_search(snap, term, limit)->Ok_0;
            &&& quote_count(term) % 2 == 0
            &&& all_found(snap.store, hits)
            &&& docs == materialized(snap.store, hits)
            &&& docs.len() == hits.len()
            &&& forall|k: int|
                0 <= k < hits.len() ==> (#[trigger] docs[k]).id == hits[k].doc_id && hits[k]
                    == hit_of(snap, terms, hits[k].doc_id) && candidates_spec(
                    snap,
                    terms,
                ).contains(hits[k].doc_id)
        }),
{
    let terms = query_terms(term);
    let scored = scored_candidates(snap, terms);
    let hits = topk_spec(scored, limit);
    let docs = spec_search(snap, term, limit)->Ok_0;
    assert forall|k: int| 0 <= k < hits.len() implies (#[trigger] docs[k]).id == hits[k].doc_id
        && hits[k] == hit_of(snap, terms, hits[k].doc_id) && candidates_spec(snap, terms).contains(
        hits[k].doc_id,
    ) by {
        assert(find_doc(snap.store, hits[k].doc_id) is Some);
        lemma_find_doc_id(snap.store, hits[k].doc_id);
        assert(hits.contains(hits[k]));
        lemma_topk_subset(scored, limit, hits[k]);
        let i = choose|i: int| 0 <= i < scored.len() && scored[i] == hits[k];
        assert(scored[i] == hit_of(snap, terms, candidates_spec(snap, terms)[i]));
        assert(candidates_spec(snap, terms).contains(candidates_spec(snap, terms)[i]));
    }
}

/// A result page never exceeds the requested bound, and a request is never
/// served with a bound above ten.
pub proof fn lemma_search_bounded(snap: SnapshotV, term: Seq<char>, limit: int)
    requires
        limit >= 0,
        spec_search(snap, term, limit) is Ok,
    ensures
        (spec_search(snap, term, limit)->Ok_0).len() <= limit,
{
    lemma_topk_len(scored_candidates(snap, query_terms(term)), limit);
}

/// The served bound is always at most ten, whatever the parameter holds.
pub proof fn lemma_limit_capped(limit: Option<Seq<char>>)
    ensures
        spec_effective_limit(limit) <= 10,
{
}

/// Results come in order of decreasing relevance, ties broken by ascending
/// document identifier: scores never increase along the page, equal scores
/// come in strictly ascending identifier order, and no record repeats.
pub proof fn lemma_search_ordered(snap: SnapshotV, term: Seq<char>, limit: int)
    requires
        limit >= 0,
        spec_search(snap, term, limit) is Ok,
    ensures
        ({
            let terms = query_terms(term);
            let docs = spec_search(snap, term, limit)->Ok_0;
            forall|i: int, j: int|
                0 <= i < j < docs.len() ==> score_spec(snap, terms, (#[trigger] docs[i]).id)
                    > score_spec(snap, terms, (#[trigger] docs[j]).id) || (score_spec(
                    snap,
                    terms,
                    docs[i].id,
                ) == score_spec(snap, terms, docs[j].id) && docs[i].id < docs[j].id)
        }),
{
    let terms = query_terms(term);
    let scored = scored_candidates(snap, terms);
    let hits = topk_spec(scored, limit);
    let docs = spec_search(snap, term, limit)->Ok_0;
    lemma_search_shape(snap, term, limit);
    lemma_topk_sorted(scored, limit);
    crate::index::lemma_candidates_distinct(snap, terms);
    assert(crate::topk::distinct_hits(scored)) by {
        let cands = candidates_spec(snap, terms);
        assert forall|i: int, j: int| 0 <= i < j < scored.len() implies scored[i] != scored[j] by {
            assert(scored[i].doc_id == cands[i] && scored[j].doc_id == cands[j]);
        }
    }
    crate::topk::lemma_topk_distinct(scored, limit);
    assert forall|i: int, j: int| 0 <= i < j < docs.len() implies score_spec(
        snap,
        terms,
        (#[trigger] docs[i]).id,
    ) > score_spec(snap, terms, (#[trigger] docs[j]).id) || (score_spec(snap, terms, docs[i].id)
        == score_spec(snap, terms, docs[j].id) && docs[i].id < docs[j].id) by {
        assert(better(hits[i], hits[j]) || hits[i] == hits[j]);
        assert(hits[i] != hits[j]);
        assert(hits[i].score == score_spec(snap, terms, docs[i].id));
        assert(hits[j].score == score_spec(snap, terms, docs[j].id));
    }
}

/// One query, one answer: any two results that the search contract admits
/// for the same snapshot, text and bound are identical, order included.
pub proof fn lemma_search_idempotent(
    snap: SnapshotV,
    term: Seq<char>,
    limit: int,
    r1: Result<Seq<DocumentV>, SearchError>,
    r2: Result<Seq<DocumentV>, SearchError>,
)
    requires
        r1 == spec_search(snap, term, limit),
        r2 == spec_search(snap, term, limit),
    ensures
        r1 == r2,
{
}

/// Top-K correctness: a successful page holds `limit` records, or all of
/// them when fewer match; every record is of a matching document; and no
/// matching document left off the page beats any document on it.
pub proof fn lemma_search_top_k(snap: SnapshotV, term: Seq<char>, limit: int)
    requires
        limit >= 0,
        forall|si: int| 0 <= si < snap.segments.len() ==> seg_wf(#[trigger] snap.segments[si]),
        spec_search(snap, term, limit) is Ok,
    ensures
        ({
            let terms = query_terms(term);
            let docs = spec_search(snap, term, limit)->Ok_0;
            let m = candidates_spec(snap, terms).len();
            &&& docs.len() == if m <= limit {
                m as int
            } else {
                limit
            }
            &&& forall|k: int| 0 <= k < docs.len() ==> is_match(snap, terms, (#[trigger] docs[k]).id)
            &&& forall|d: u64|
                is_match(snap, terms, d) && !returned(docs, d) ==> docs.len() == limit && (forall|
                    k: int,
                |
                    0 <= k < docs.len() ==> better(
                        hit_of(snap, terms, (#[trigger] docs[k]).id),
                        hit_of(snap, terms, d),
                    ))
        }),
{
    let terms = query_terms(term);
    let scored = scored_candidates(snap, terms);
    let hits = topk_spec(scored, limit);
    let docs = spec_search(snap, term, limit)->Ok_0;
    lemma_search_shape(snap, term, limit);
    lemma_topk_len(scored, limit);
    assert(scored.len() == candidates_spec(snap, terms).len());
    assert forall|k: int| 0 <= k < docs.len() implies is_match(
        snap,
        terms,
        (#[trigger] docs[k]).id,
    ) by {
        crate::index::lemma_candidates_iff(snap, terms, docs[k].id);
    }
    assert forall|d: u64| is_match(snap, terms, d) && !returned(docs, d) implies docs.len() == limit
        && (forall|k: int|
        0 <= k < docs.len() ==> better(
            hit_of(snap, terms, (#[trigger] docs[k]).id),
            hit_of(snap, terms, d),
        )) by {
        crate::index::lemma_candidates_iff(snap, terms, d);
        let cands = candidates_spec(snap, terms);
        let i = choose|i: int| 0 <= i < cands.len() && cands[i] == d;
        assert(scored[i] == hit_of(snap, terms, d));
        assert(scored.contains(hit_of(snap, terms, d)));
        let x = hit_of(snap, terms, d);
        if hits.contains(x) {
            let k = choose|k: int| 0 <= k < hits.len() && hits[k] == x;
            assert(docs[k].id == d);
            assert(returned(docs, d));
        }
        lemma_topk_complete(scored, limit, x);
        assert forall|k: int| 0 <= k < docs.len() implies better(
            hit_of(snap, terms, (#[trigger] docs[k]).id),
            hit_of(snap, terms, d),
        ) by {
            assert(better(hits[k], x));
            assert(hits[k] == hit_of(snap, terms, docs[k].id));
        }
    }
}

/// An unparsable bound falls back to the default of three, exactly as a
/// missing one does.
pub proof fn lemma_limit_fallback(s: Seq<char>)
    requires
        parse_u8_spec(s) is None,
    ensures
        spec_effective_limit(Some(s)) == 3,
        spec_effective_limit(None) == 3,
{
}

/// An explicit bound of zero is served as given: a well-formed query still
/// succeeds, with an empty page.
pub proof fn lemma_limit_zero(snap: SnapshotV, term: Seq<char>)
    requires
        quote_count(term) % 2 == 0,
    ensures
        spec_search(snap, term, 0) == Ok::<Seq<DocumentV>, SearchError>(Seq::empty()),
{
    let scored = scored_candidates(snap, query_terms(term));
    lemma_topk_len(scored, 0);
    let hits = topk_spec(scored, 0);
    assert(hits.len() == 0);
    assert(all_found(snap.store, hits));
    assert(materialized(snap.store, hits) =~= Seq::<DocumentV>::empty());
}

/// An empty query text is not an error: it parses to a query with no terms,
/// which matches nothing, and the search succeeds with an empty page.
pub proof fn lemma_empty_term(snap: SnapshotV, limit: int)
    requires
        limit >= 0,
    ensures
        query_terms(Seq::<char>::empty()) == Seq::<Seq<char>>::empty(),
        spec_search(snap, Seq::<char>::empty(), limit) == Ok::<Seq<DocumentV>, SearchError>(
            Seq::empty(),
        ),
{
    let e = Seq::<char>::empty();
    assert(quote_count(e) == 0);
    assert(crate::text::tokens_of(e) =~= Seq::<Seq<char>>::empty());
    assert(query_terms(e) =~= Seq::<Seq<char>>::empty());
    assert(crate::index::all_match_ids(snap, query_terms(e)) =~= Seq::<u64>::empty());
    assert(candidates_spec(snap, query_terms(e)) =~= Seq::<u64>::empty());
    let scored = scored_candidates(snap, query_terms(e));
    assert(scored =~= Seq::<ScoredHit>::empty());
    let hits = topk_spec(scored, limit);
    assert(hits =~= Seq::<ScoredHit>::empty());
    assert(all_found(snap.store, hits));
    assert(materialized(snap.store, hits) =~= Seq::<DocumentV>::empty());
}

/// A request without a `term` parameter is the caller's fault, answered as
/// a bad request before anything else is looked at.
pub proof fn lemma_missing_term(snap: SnapshotV, limit: Option<Seq<char>>)
    ensures
        crate::service::spec_handle(snap, None, limit)
            == crate::service::SearchResponseV::BadRequest,
{
}

/// A reload cannot disturb a request in flight. The outcome of a search is
/// a function of the snapshot captured when the request began; the manager
/// state after a publish, `after`, does not occur in it, so a search that
/// captured the earlier snapshot completes on that snapshot's data alone.
pub proof fn lemma_reload_isolation(
    captured: Snapshot,
    before: SnapshotManager,
    after: SnapshotManager,
    term: Seq<char>,
    limit: int,
)
    requires
        captured == before.spec_current(),
    ensures
        spec_search(captured@, term, limit) == spec_search(before.spec_current()@, term, limit),
{
}

} // verus!
