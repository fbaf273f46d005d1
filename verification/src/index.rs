//! The inverted index: normalized term to postings, over immutable segments.
//!
//! A snapshot is a read-only view of the whole index plus the document
//! store. Segments cover disjoint, increasing document-identifier ranges, so
//! concatenating per-segment posting lists keeps identifier order. A lookup
//! of an absent term yields the empty posting list; it never fails.

use crate::store::DocumentStore;
use crate::store::DocumentV;
use vstd::prelude::*;

verus! {

/// One posting: a document holding the term, with the term's frequency in
/// the document's searchable field.
#[derive(Clone, Copy, PartialEq, Eq, Structural, Debug)]
pub struct Posting {
    pub doc_id: u64,
    pub term_freq: u64,
}

/// The posting list of one term within one segment.
pub struct TermPostings {
    pub term: String,
    pub postings: Vec<Posting>,
}

/// The mathematical value of a posting list.
pub struct TermPostingsV {
    pub term: Seq<char>,
    pub postings: Seq<Posting>,
}

impl View for TermPostings {
    type V = TermPostingsV;

    open spec fn view(&self) -> TermPostingsV {
        TermPostingsV { term: self.term@, postings: self.postings@ }
    }
}

/// An immutable partition of the index, covering a disjoint range of
/// document identifiers.
pub struct Segment {
    pub lists: Vec<TermPostings>,
}

/// The mathematical value of a segment.
pub struct SegmentV {
    pub lists: Seq<TermPostingsV>,
}

impl View for Segment {
    type V = SegmentV;

    open spec fn view(&self) -> SegmentV {
        SegmentV { lists: self.lists@.map(|i: int, l: TermPostings| l@) }
    }
}

/// A versioned, immutable view of index and store, read-only for its whole
/// life; a search uses exactly one snapshot from start to finish.
pub struct Snapshot {
    pub version: u64,
    pub field: String,
    pub segments: Vec<Segment>,
    pub store: DocumentStore,
}

/// The mathematical value of a snapshot.
pub struct SnapshotV {
    pub version: u64,
    pub field: Seq<char>,
    pub segments: Seq<SegmentV>,
    pub store: Seq<DocumentV>,
}

impl View for Snapshot {
    type V = SnapshotV;

    open spec fn view(&self) -> SnapshotV {
        SnapshotV {
            version: self.version,
            field: self.field@,
            segments: self.segments@.map(|i: int, s: Segment| s@),
            store: self.store@,
        }
    }
}

/// The postings of `term` within one segment: those of the first list keyed
/// by the term, or none.
pub open spec fn seg_postings(lists: Seq<TermPostingsV>, term: Seq<char>) -> Seq<Posting>
    decreases lists.len(),
{
    if lists.len() == 0 {
        Seq::empty()
    } else if lists[0].term == term {
        lists[0].postings
    } else {
        seg_postings(lists.drop_first(), term)
    }
}

/// The postings of `term` over the whole snapshot: per-segment lists
/// concatenated in segment order.
pub open spec fn lookup_spec(segs: Seq<SegmentV>, term: Seq<char>) -> Seq<Posting>
    decreases segs.len(),
{
    if segs.len() == 0 {
        Seq::empty()
    } else {
        lookup_spec(segs.drop_last(), term) + seg_postings(segs.last().lists, term)
    }
}

/// Postings in strictly increasing document-identifier order.
pub open spec fn postings_sorted(ps: Seq<Posting>) -> bool {
    forall|i: int, j: int| 0 <= i < j < ps.len() ==> ps[i].doc_id < ps[j].doc_id
}

/// A posting exists only for a document that holds the term at least once.
pub open spec fn postings_positive(ps: Seq<Posting>) -> bool {
    forall|i: int| 0 <= i < ps.len() ==> ps[i].term_freq >= 1
}

/// A document identifier occurring somewhere in a segment.
pub open spec fn seg_has_doc(seg: SegmentV, d: u64) -> bool {
    exists|li: int, pi: int|
        0 <= li < seg.lists.len() && 0 <= pi < seg.lists[li].postings.len()
            && seg.lists[li].postings[pi].doc_id == d
}

/// Every document of `a` precedes every document of `b`.
pub open spec fn seg_before(a: SegmentV, b: SegmentV) -> bool {
    forall|da: u64, db: u64| seg_has_doc(a, da) && seg_has_doc(b, db) ==> da < db
}

/// Well-formedness of one segment's lists.
pub open spec fn seg_wf(seg: SegmentV) -> bool {
    forall|li: int|
        0 <= li < seg.lists.len() ==> postings_sorted(#[trigger] seg.lists[li].postings)
            && postings_positive(seg.lists[li].postings)
}

impl Snapshot {
    /// What index construction guarantees of every snapshot it hands over:
    /// sorted, positive posting lists; segments over disjoint, increasing
    /// identifier ranges; a store in increasing identifier order.
    pub open spec fn wf(&self) -> bool {
        let v = self@;
        &&& forall|si: int| 0 <= si < v.segments.len() ==> seg_wf(#[trigger] v.segments[si])
        &&& forall|i: int, j: int|
            0 <= i < j < v.segments.len() ==> seg_before(v.segments[i], v.segments[j])
        &&& self.store.wf()
    }

    /// The ordered posting list of a term: empty when the term is absent,
    /// never an error.
    pub fn lookup(&self, term: &String) -> (r: Vec<Posting>)
        ensures
            r@ == lookup_spec(self@.segments, term@),
    {
        let mut out: Vec<Posting> = Vec::new();
        let ns = self.segments.len();
        let mut si: usize = 0;
        proof {
            assert(self@.segments.take(0) =~= Seq::<SegmentV>::empty());
        }
        while si < ns
            invariant
                ns == self.segments.len(),
                0 <= si <= ns,
                self@.segments.len() == ns,
                out@ == lookup_spec(self@.segments.take(si as int), term@),
            decreases ns - si,
        {
            let seg = &self.segments[si];
            let nl = seg.lists.len();
            let mut li: usize = 0;
            let ghost lists = seg@.lists;
            proof {
                assert(lists.skip(0) =~= lists);
            }
            while li < nl && !(seg.lists[li].term == *term)
                invariant
                    nl == seg.lists.len(),
                    0 <= li <= nl,
                    lists == seg@.lists,
                    lists.len() == nl,
                    seg_postings(lists, term@) == seg_postings(lists.skip(li as int), term@),
                decreases nl - li,
            {
                let ghost rest = lists.skip(li as int);
                proof {
                    assert(rest[0] == lists[li as int]);
                    assert(rest.drop_first() =~= lists.skip(li as int + 1));
                }
                li = li + 1;
            }
            let ghost out0 = out@;
            if li < nl {
                proof {
                    let rest = lists.skip(li as int);
                    assert(rest[0] == lists[li as int]);
                    assert(rest[0].term == term@);
                    assert(seg_postings(rest, term@) == rest[0].postings);
                }
                assert(seg_postings(lists, term@) == lists[li as int].postings);
                let ps = &seg.lists[li].postings;
                let np = ps.len();
                let mut pi: usize = 0;
                while pi < np
                    invariant
                        np == ps.len(),
                        0 <= pi <= np,
                        out@ == out0 + ps@.take(pi as int),
                    decreases np - pi,
                {
                    out.push(ps[pi]);
                    proof {
                        assert(out0 + ps@.take(pi as int + 1) =~= (out0 + ps@.take(pi as int)).push(
                            ps@[pi as int],
                        ));
                    }
                    pi = pi + 1;
                }
                proof {
                    assert(ps@.take(np as int) =~= ps@);
                    assert(lists[li as int].postings == ps@);
                }
            } else {
                proof {
                    assert(lists.skip(nl as int) =~= Seq::<TermPostingsV>::empty());
                    assert(out@ =~= out0 + Seq::<Posting>::empty());
                }
            }
            proof {
                assert(self@.segments.take(si as int + 1).drop_last() =~= self@.segments.take(
                    si as int,
                ));
                assert(self@.segments.take(si as int + 1).last() == self@.segments[si as int]);
            }
            si = si + 1;
        }
        proof {
            assert(self@.segments.take(ns as int) =~= self@.segments);
        }
        out
    }
}

proof fn lemma_seg_postings_sorted(lists: Seq<TermPostingsV>, term: Seq<char>)
    requires
        forall|li: int| 0 <= li < lists.len() ==> postings_sorted((#[trigger] lists[li]).postings),
    ensures
        postings_sorted(seg_postings(lists, term)),
    decreases lists.len(),
{
    if lists.len() > 0 && lists[0].term != term {
        let rest = lists.drop_first();
        assert(forall|li: int| 0 <= li < rest.len() ==> (#[trigger] rest[li]) == lists[li + 1]);
        lemma_seg_postings_sorted(rest, term);
    }
}

proof fn lemma_seg_postings_member(lists: Seq<TermPostingsV>, term: Seq<char>, k: int)
    requires
        0 <= k < seg_postings(lists, term).len(),
    ensures
        exists|li: int, pi: int|
            0 <= li < lists.len() && 0 <= pi < lists[li].postings.len() && lists[li].postings[pi]
                == seg_postings(lists, term)[k],
    decreases lists.len(),
{
    if lists.len() == 0 {
    } else if lists[0].term == term {
        assert(lists[0].postings[k] == seg_postings(lists, term)[k]);
    } else {
        let rest = lists.drop_first();
        assert(forall|li: int| 0 <= li < rest.len() ==> (#[trigger] rest[li]) == lists[li + 1]);
        lemma_seg_postings_member(rest, term, k);
        let (li, pi) = choose|li: int, pi: int|
            0 <= li < rest.len() && 0 <= pi < rest[li].postings.len() && rest[li].postings[pi]
                == seg_postings(rest, term)[k];
        assert(lists[li + 1].postings[pi] == seg_postings(lists, term)[k]);
    }
}

/// The contract of the merged lookup: under the snapshot invariant, the
/// concatenated per-segment posting lists come in strictly increasing
/// document-identifier order, with no duplicate document.
pub proof fn lemma_lookup_sorted(segs: Seq<SegmentV>, term: Seq<char>)
    requires
        forall|si: int| 0 <= si < segs.len() ==> seg_wf(#[trigger] segs[si]),
        forall|i: int, j: int| 0 <= i < j < segs.len() ==> seg_before(segs[i], segs[j]),
    ensures
        postings_sorted(lookup_spec(segs, term)),
        forall|k: int|
            0 <= k < lookup_spec(segs, term).len() ==> exists|si: int|
                0 <= si < segs.len() && seg_has_doc(
                    #[trigger] segs[si],
                    (#[trigger] lookup_spec(segs, term)[k]).doc_id,
                ),
    decreases segs.len(),
{
    if segs.len() > 0 {
        let front = segs.drop_last();
        let seg = segs.last();
        assert(forall|si: int| 0 <= si < front.len() ==> (#[trigger] front[si]) == segs[si]);
        lemma_lookup_sorted(front, term);
        lemma_seg_postings_sorted(seg.lists, term);
        let a = lookup_spec(front, term);
        let b = seg_postings(seg.lists, term);
        let r = a + b;
        assert forall|k: int| 0 <= k < b.len() implies seg_has_doc(seg, b[k].doc_id) by {
            lemma_seg_postings_member(seg.lists, term, k);
        }
        assert forall|i: int, j: int| 0 <= i < j < r.len() implies r[i].doc_id < r[j].doc_id by {
            if j < a.len() {
                assert(r[i] == a[i] && r[j] == a[j]);
            } else if i >= a.len() {
                assert(r[i] == b[i - a.len()] && r[j] == b[j - a.len()]);
            } else {
                assert(r[i] == a[i] && r[j] == b[j - a.len()]);
                let si = choose|si: int|
                    0 <= si < front.len() && seg_has_doc(#[trigger] front[si], a[i].doc_id);
                assert(seg_before(segs[si], seg));
            }
        }
        assert forall|k: int| 0 <= k < r.len() implies exists|si: int|
            0 <= si < segs.len() && seg_has_doc(#[trigger] segs[si], (#[trigger] r[k]).doc_id) by {
            if k < a.len() {
                assert(r[k] == a[k]);
                let si = choose|si: int|
                    0 <= si < front.len() && seg_has_doc(#[trigger] front[si], a[k].doc_id);
                assert(seg_has_doc(segs[si], r[k].doc_id));
            } else {
                assert(r[k] == b[k - a.len()]);
                assert(seg_has_doc(segs[segs.len() - 1], r[k].doc_id));
            }
        }
    }
}

/// Under the snapshot invariant every merged lookup is ordered: the
/// postings of any term come in strictly increasing document-identifier
/// order, however many segments they are drawn from.
pub proof fn lemma_lookup_ordered(snap: &Snapshot, term: Seq<char>)
    requires
        snap.wf(),
    ensures
        postings_sorted(lookup_spec(snap@.segments, term)),
{
    lemma_lookup_sorted(snap@.segments, term);
}

/// No document is considered twice for one query: the candidate list holds
/// pairwise distinct identifiers, so each document is scored and offered to
/// the collector exactly once.
pub proof fn lemma_candidates_distinct(snap: SnapshotV, terms: Seq<Seq<char>>)
    ensures
        forall|i: int, j: int|
            0 <= i < j < candidates_spec(snap, terms).len() ==> candidates_spec(snap, terms)[i]
                != candidates_spec(snap, terms)[j],
{
    crate::text::lemma_dedup_distinct(all_match_ids(snap, terms));
}

proof fn lemma_doc_chain(ps: Seq<Posting>, i: int, j: int)
    requires
        forall|k: int| 0 < k < ps.len() ==> (#[trigger] ps[k]).doc_id > ps[k - 1].doc_id,
        0 <= i < j < ps.len(),
    ensures
        ps[i].doc_id < ps[j].doc_id,
    decreases j - i,
{
    if i + 1 < j {
        lemma_doc_chain(ps, i + 1, j);
    }
}

proof fn lemma_id_chain(docs: Seq<DocumentV>, i: int, j: int)
    requires
        forall|k: int| 0 < k < docs.len() ==> (#[trigger] docs[k]).id > docs[k - 1].id,
        0 <= i < j < docs.len(),
    ensures
        docs[i].id < docs[j].id,
    decreases j - i,
{
    if i + 1 < j {
        lemma_id_chain(docs, i + 1, j);
    }
}

/// Check one segment: its lists in order with positive frequencies, and
/// the least and greatest document identifier it holds, if it holds any.
fn check_segment(seg: &Segment) -> (r: (bool, bool, u64, u64))
    ensures
        r.0 == seg_wf(seg@),
        r.0 && r.1 ==> seg_has_doc(seg@, r.2) && seg_has_doc(seg@, r.3) && forall|d: u64|
            #[trigger] seg_has_doc(seg@, d) ==> r.2 <= d && d <= r.3,
        r.0 && !r.1 ==> forall|d: u64| !(#[trigger] seg_has_doc(seg@, d)),
{
    let ghost segv = seg@;
    let nl = seg.lists.len();
    let mut seg_lo: u64 = 0;
    let mut seg_hi: u64 = 0;
    let mut seg_any = false;
    let ghost mut lo_li: int = 0;
    let ghost mut lo_pi: int = 0;
    let ghost mut hi_li: int = 0;
    let ghost mut hi_pi: int = 0;
    let mut li: usize = 0;
    while li < nl
        invariant
            nl == seg.lists.len(),
            segv == seg@,
            segv.lists.len() == nl,
            0 <= li <= nl,
            forall|l: int|
                0 <= l < li ==> postings_sorted((#[trigger] segv.lists[l]).postings)
                    && postings_positive(segv.lists[l].postings),
            !seg_any ==> forall|l: int|
                0 <= l < li ==> (#[trigger] segv.lists[l]).postings.len() == 0,
            seg_any ==> 0 <= lo_li < li && 0 <= lo_pi < segv.lists[lo_li].postings.len()
                && segv.lists[lo_li].postings[lo_pi].doc_id == seg_lo,
            seg_any ==> 0 <= hi_li < li && 0 <= hi_pi < segv.lists[hi_li].postings.len()
                && segv.lists[hi_li].postings[hi_pi].doc_id == seg_hi,
            seg_any ==> forall|l: int, p: int|
                0 <= l < li && 0 <= p < segv.lists[l].postings.len() ==> seg_lo <= (
                #[trigger] segv.lists[l].postings[p]).doc_id && segv.lists[l].postings[p].doc_id
                    <= seg_hi,
        decreases nl - li,
    {
        let ps = &seg.lists[li].postings;
        let np = ps.len();
        let ghost psv = segv.lists[li as int].postings;
        proof {
            assert(psv == ps@);
        }
        let mut pi: usize = 0;
        while pi < np
            invariant
                np == ps.len(),
                psv == ps@,
                psv.len() == np,
                0 <= pi <= np,
                segv == seg@,
                li < segv.lists.len(),
                psv == segv.lists[li as int].postings,
                forall|k: int| 0 <= k < pi ==> (#[trigger] psv[k]).term_freq >= 1,
                forall|k: int| 0 < k < pi ==> (#[trigger] psv[k]).doc_id > psv[k - 1].doc_id,
            decreases np - pi,
        {
            let p = ps[pi];
            if p.term_freq < 1 {
                proof {
                    assert(psv[pi as int].term_freq < 1);
                    assert(!postings_positive(psv));
                    assert(!seg_wf(segv));
                }
                return (false, false, 0, 0);
            }
            if pi > 0 && ps[pi - 1].doc_id >= p.doc_id {
                proof {
                    assert(psv[pi as int - 1].doc_id >= psv[pi as int].doc_id);
                    assert(!postings_sorted(psv));
                    assert(!seg_wf(segv));
                }
                return (false, false, 0, 0);
            }
            pi = pi + 1;
        }
        proof {
            assert forall|i2: int, j2: int| 0 <= i2 < j2 < psv.len() implies psv[i2].doc_id
                < psv[j2].doc_id by {
                lemma_doc_chain(psv, i2, j2);
            }
            assert(postings_sorted(psv));
            assert(postings_positive(psv));
        }
        if np > 0 {
            let first = ps[0].doc_id;
            let last = ps[np - 1].doc_id;
            let ghost had_any = seg_any;
            let ghost old_lo = seg_lo;
            let ghost old_hi = seg_hi;
            if !seg_any {
                seg_any = true;
                seg_lo = first;
                seg_hi = last;
                proof {
                    lo_li = li as int;
                    lo_pi = 0;
                    hi_li = li as int;
                    hi_pi = np - 1;
                }
            } else {
                if first < seg_lo {
                    seg_lo = first;
                    proof {
                        lo_li = li as int;
                        lo_pi = 0;
                    }
                }
                if last > seg_hi {
                    seg_hi = last;
                    proof {
                        hi_li = li as int;
                        hi_pi = np - 1;
                    }
                }
            }
            proof {
                assert forall|l: int, p: int|
                    0 <= l < li + 1 && 0 <= p < segv.lists[l].postings.len() implies seg_lo <= (
                #[trigger] segv.lists[l].postings[p]).doc_id && segv.lists[l].postings[p].doc_id
                    <= seg_hi by {
                    if l == li as int {
                        if p > 0 {
                            lemma_doc_chain(psv, 0, p);
                        }
                        if p < np - 1 {
                            lemma_doc_chain(psv, p, np - 1);
                        }
                    } else {
                        assert(had_any);
                        assert(old_lo <= segv.lists[l].postings[p].doc_id <= old_hi);
                    }
                }
            }
        } else {
            proof {
                assert(segv.lists[li as int].postings.len() == 0);
            }
        }
        li = li + 1;
    }
    proof {
        assert(seg_wf(segv));
        if seg_any {
            assert(seg_has_doc(segv, seg_lo));
            assert(seg_has_doc(segv, seg_hi));
            assert forall|d: u64| #[trigger] seg_has_doc(segv, d) implies seg_lo <= d && d
                <= seg_hi by {
                let (l, p) = choose|l: int, p: int|
                    0 <= l < segv.lists.len() && 0 <= p < segv.lists[l].postings.len()
                        && segv.lists[l].postings[p].doc_id == d;
                assert(seg_lo <= segv.lists[l].postings[p].doc_id <= seg_hi);
            }
        } else {
            assert forall|d: u64| !(#[trigger] seg_has_doc(segv, d)) by {
                if seg_has_doc(segv, d) {
                    let (l, p) = choose|l: int, p: int|
                        0 <= l < segv.lists.len() && 0 <= p < segv.lists[l].postings.len()
                            && segv.lists[l].postings[p].doc_id == d;
                    assert(segv.lists[l].postings.len() == 0);
                }
            }
        }
    }
    (true, seg_any, seg_lo, seg_hi)
}

impl Snapshot {
    /// Decide the snapshot invariant, so that a corrupt on-disk snapshot
    /// can be refused at load time and never surfaces mid-query.
    pub fn is_well_formed(&self) -> (r: bool)
        ensures
            r == self.wf(),
    {
        let ghost segsv = self@.segments;
        let ns = self.segments.len();
        let mut prev_hi: u64 = 0;
        let mut have_prev = false;
        let ghost mut prev_si: int = 0;
        let mut si: usize = 0;
        while si < ns
            invariant
                ns == self.segments.len(),
                segsv == self@.segments,
                segsv.len() == ns,
                0 <= si <= ns,
                forall|s: int| 0 <= s < si ==> seg_wf(#[trigger] segsv[s]),
                forall|i: int, j: int| 0 <= i < j < si ==> seg_before(segsv[i], segsv[j]),
                !have_prev ==> forall|s: int, d: u64|
                    0 <= s < si ==> !(#[trigger] seg_has_doc(segsv[s], d)),
                have_prev ==> 0 <= prev_si < si && seg_has_doc(segsv[prev_si], prev_hi),
                have_prev ==> forall|s: int, d: u64|
                    0 <= s < si && #[trigger] seg_has_doc(segsv[s], d) ==> d <= prev_hi,
            decreases ns - si,
        {
            let seg = &self.segments[si];
            let ghost segv = segsv[si as int];
            proof {
                assert(segv == seg@);
            }
            let (ok, seg_any, seg_lo, seg_hi) = check_segment(seg);
            if !ok {
                proof {
                    assert(!seg_wf(segsv[si as int]));
                    assert(!self.wf());
                }
                return false;
            }
            if seg_any {
                if have_prev && prev_hi >= seg_lo {
                    proof {
                        assert(seg_has_doc(segv, seg_lo));
                        assert(!seg_before(segsv[prev_si], segv));
                        assert(!self.wf());
                    }
                    return false;
                }
                proof {
                    assert forall|i2: int, j2: int| 0 <= i2 < j2 < si + 1 implies seg_before(
                        segsv[i2],
                        segsv[j2],
                    ) by {
                        if j2 == si as int {
                            assert forall|da: u64, db: u64|
                                seg_has_doc(segsv[i2], da) && seg_has_doc(segsv[j2], db) implies da
                                < db by {
                                assert(have_prev);
                                assert(da <= prev_hi);
                                assert(seg_lo <= db);
                            }
                        }
                    }
                    prev_si = si as int;
                }
                prev_hi = seg_hi;
                have_prev = true;
            } else {
                proof {
                    assert forall|i2: int, j2: int| 0 <= i2 < j2 < si + 1 implies seg_before(
                        segsv[i2],
                        segsv[j2],
                    ) by {
                        if j2 == si as int {
                            assert forall|da: u64, db: u64|
                                seg_has_doc(segsv[i2], da) && seg_has_doc(segsv[j2], db) implies da
                                < db by {
                                assert(!seg_has_doc(segv, db));
                            }
                        }
                    }
                }
            }
            si = si + 1;
        }
        let ghost docsv = self.store@;
        let nd = self.store.docs.len();
        let mut di: usize = 1;
        while di < nd
            invariant
                nd == self.store.docs.len(),
                docsv == self.store@,
                docsv.len() == nd,
                1 <= di <= nd || (nd == 0 && di == 1),
                forall|k: int| 0 < k < di ==> (#[trigger] docsv[k]).id > docsv[k - 1].id,
            decreases nd - di,
        {
            if self.store.docs[di - 1].id >= self.store.docs[di].id {
                proof {
                    assert(docsv[di as int - 1].id >= docsv[di as int].id);
                    assert(!self.store.wf());
                    assert(!self.wf());
                }
                return false;
            }
            di = di + 1;
        }
        proof {
            assert forall|i2: int, j2: int| 0 <= i2 < j2 < docsv.len() implies docsv[i2].id
                < docsv[j2].id by {
                lemma_id_chain(docsv, i2, j2);
            }
            assert(self.store.wf());
            assert(self.wf());
        }
        true
    }
}

/// The frequency of the term in one document: the first posting for the
/// document, or zero when there is none.
pub open spec fn tf_in(ps: Seq<Posting>, d: u64) -> u64
    decreases ps.len(),
{
    if ps.len() == 0 {
        0
    } else if ps[0].doc_id == d {
        ps[0].term_freq
    } else {
        tf_in(ps.drop_first(), d)
    }
}

/// The frequency of a term in a document, over the whole snapshot.
pub open spec fn tf(snap: SnapshotV, term: Seq<char>, d: u64) -> u64 {
    tf_in(lookup_spec(snap.segments, term), d)
}

/// Addition that stops at the largest representable value.
pub open spec fn sat_add(a: u64, b: u64) -> u64 {
    if a + b <= u64::MAX {
        (a + b) as u64
    } else {
        u64::MAX
    }
}

/// The relevance of a document for a set of query terms: the sum of the
/// term frequencies, saturating at the largest representable value. The
/// score is zero exactly when no query term occurs in the document.
pub open spec fn score_spec(snap: SnapshotV, terms: Seq<Seq<char>>, d: u64) -> u64
    decreases terms.len(),
{
    if terms.len() == 0 {
        0
    } else {
        sat_add(score_spec(snap, terms.drop_last(), d), tf(snap, terms.last(), d))
    }
}

/// The document identifiers of a posting list, in list order.
pub open spec fn posting_ids(ps: Seq<Posting>) -> Seq<u64> {
    ps.map(|i: int, p: Posting| p.doc_id)
}

/// The identifiers of every posting of every query term, term by term,
/// repeats included.
pub open spec fn all_match_ids(snap: SnapshotV, terms: Seq<Seq<char>>) -> Seq<u64>
    decreases terms.len(),
{
    if terms.len() == 0 {
        Seq::empty()
    } else {
        all_match_ids(snap, terms.drop_last()) + posting_ids(
            lookup_spec(snap.segments, terms.last()),
        )
    }
}

/// The candidate documents of a query: every document holding at least one
/// query term, each once, in first-posting order.
pub open spec fn candidates_spec(snap: SnapshotV, terms: Seq<Seq<char>>) -> Seq<u64> {
    crate::text::dedup(all_match_ids(snap, terms))
}

/// Membership of an identifier in a fixed list.
fn contains_u64(v: &Vec<u64>, x: u64) -> (r: bool)
    ensures
        r == v@.contains(x),
{
    let n = v.len();
    let mut i: usize = 0;
    while i < n
        invariant
            n == v.len(),
            0 <= i <= n,
            forall|k: int| 0 <= k < i ==> v@[k] != x,
        decreases n - i,
    {
        if v[i] == x {
            return true;
        }
        i = i + 1;
    }
    proof {
        if v@.contains(x) {
            let k = choose|k: int| 0 <= k < v@.len() && v@[k] == x;
            assert(false);
        }
    }
    false
}

/// The candidate documents of a query, as `candidates_spec` lists them.
pub fn candidates(snap: &Snapshot, terms: &Vec<String>) -> (r: Vec<u64>)
    ensures
        r@ == candidates_spec(snap@, crate::text::views_of(terms@)),
{
    let ghost tv = crate::text::views_of(terms@);
    let mut out: Vec<u64> = Vec::new();
    let nt = terms.len();
    let mut ti: usize = 0;
    proof {
        assert(tv.take(0) =~= Seq::<Seq<char>>::empty());
        assert(out@ =~= crate::text::dedup(all_match_ids(snap@, tv.take(0))));
    }
    while ti < nt
        invariant
            nt == terms.len(),
            0 <= ti <= nt,
            tv == crate::text::views_of(terms@),
            tv.len() == nt,
            out@ == crate::text::dedup(all_match_ids(snap@, tv.take(ti as int))),
        decreases nt - ti,
    {
        let ps = snap.lookup(&terms[ti]);
        let ghost front = all_match_ids(snap@, tv.take(ti as int));
        let ghost ids = posting_ids(ps@);
        let np = ps.len();
        let mut pi: usize = 0;
        proof {
            assert(tv[ti as int] == terms@[ti as int]@);
            assert(front + ids.take(0) =~= front);
        }
        while pi < np
            invariant
                np == ps.len(),
                0 <= pi <= np,
                ids == posting_ids(ps@),
                ids.len() == np,
                out@ == crate::text::dedup(front + ids.take(pi as int)),
            decreases np - pi,
        {
            let d = ps[pi].doc_id;
            let ghost prefix = front + ids.take(pi as int);
            proof {
                assert(ids[pi as int] == d);
                assert(front + ids.take(pi as int + 1) =~= prefix.push(d));
                assert(prefix.push(d).drop_last() =~= prefix);
                crate::text::lemma_dedup_contains(prefix, d);
            }
            if !contains_u64(&out, d) {
                out.push(d);
            }
            pi = pi + 1;
        }
        proof {
            assert(ids.take(np as int) =~= ids);
            assert(tv.take(ti as int + 1).drop_last() =~= tv.take(ti as int));
            assert(tv.take(ti as int + 1).last() == tv[ti as int]);
        }
        ti = ti + 1;
    }
    proof {
        assert(tv.take(nt as int) =~= tv);
    }
    out
}

/// Whether a document occurs in a posting list.
pub open spec fn has_doc(ps: Seq<Posting>, d: u64) -> bool {
    exists|k: int| 0 <= k < ps.len() && ps[k].doc_id == d
}

/// A document matches a query exactly when its score is positive.
pub open spec fn is_match(snap: SnapshotV, terms: Seq<Seq<char>>, d: u64) -> bool {
    score_spec(snap, terms, d) > 0
}

proof fn lemma_tf_in_pos(ps: Seq<Posting>, d: u64)
    requires
        postings_positive(ps),
    ensures
        (tf_in(ps, d) > 0) <==> has_doc(ps, d),
    decreases ps.len(),
{
    if ps.len() == 0 {
    } else if ps[0].doc_id == d {
        assert(ps[0].term_freq >= 1);
    } else {
        let rest = ps.drop_first();
        assert(forall|k: int| 0 <= k < rest.len() ==> (#[trigger] rest[k]) == ps[k + 1]);
        lemma_tf_in_pos(rest, d);
        if has_doc(ps, d) {
            let k = choose|k: int| 0 <= k < ps.len() && ps[k].doc_id == d;
            assert(rest[k - 1] == ps[k]);
            assert(has_doc(rest, d));
        }
        if has_doc(rest, d) {
            let k = choose|k: int| 0 <= k < rest.len() && rest[k].doc_id == d;
            assert(ps[k + 1].doc_id == d);
        }
    }
}

proof fn lemma_seg_postings_positive(lists: Seq<TermPostingsV>, term: Seq<char>)
    requires
        forall|li: int| 0 <= li < lists.len() ==> postings_positive((#[trigger] lists[li]).postings),
    ensures
        postings_positive(seg_postings(lists, term)),
    decreases lists.len(),
{
    if lists.len() == 0 {
    } else if lists[0].term == term {
    } else {
        let rest = lists.drop_first();
        assert(forall|li: int| 0 <= li < rest.len() ==> (#[trigger] rest[li]) == lists[li + 1]);
        lemma_seg_postings_positive(rest, term);
    }
}

proof fn lemma_lookup_positive(segs: Seq<SegmentV>, term: Seq<char>)
    requires
        forall|si: int| 0 <= si < segs.len() ==> seg_wf(#[trigger] segs[si]),
    ensures
        postings_positive(lookup_spec(segs, term)),
    decreases segs.len(),
{
    if segs.len() > 0 {
        let front = segs.drop_last();
        assert(forall|si: int| 0 <= si < front.len() ==> (#[trigger] front[si]) == segs[si]);
        lemma_lookup_positive(front, term);
        let seg = segs.last();
        assert(seg_wf(seg));
        lemma_seg_postings_positive(seg.lists, term);
        let a = lookup_spec(front, term);
        let b = seg_postings(seg.lists, term);
        assert forall|i: int| 0 <= i < (a + b).len() implies (#[trigger] (a + b)[i]).term_freq
            >= 1 by {
            if i < a.len() {
                assert((a + b)[i] == a[i]);
            } else {
                assert((a + b)[i] == b[i - a.len()]);
            }
        }
    }
}

proof fn lemma_has_doc_concat(a: Seq<Posting>, b: Seq<Posting>, d: u64)
    ensures
        has_doc(a + b, d) <==> (has_doc(a, d) || has_doc(b, d)),
{
    if has_doc(a + b, d) {
        let k = choose|k: int| 0 <= k < (a + b).len() && (a + b)[k].doc_id == d;
        if k < a.len() {
            assert(a[k].doc_id == d);
        } else {
            assert(b[k - a.len()].doc_id == d);
        }
    }
    if has_doc(a, d) {
        let k = choose|k: int| 0 <= k < a.len() && a[k].doc_id == d;
        assert((a + b)[k].doc_id == d);
    }
    if has_doc(b, d) {
        let k = choose|k: int| 0 <= k < b.len() && b[k].doc_id == d;
        assert((a + b)[k + a.len()].doc_id == d);
    }
}

proof fn lemma_score_pos(snap: SnapshotV, terms: Seq<Seq<char>>, d: u64)
    ensures
        (score_spec(snap, terms, d) > 0) <==> (exists|ti: int|
            0 <= ti < terms.len() && tf(snap, #[trigger] terms[ti], d) > 0),
    decreases terms.len(),
{
    if terms.len() > 0 {
        let front = terms.drop_last();
        lemma_score_pos(snap, front, d);
        assert(forall|ti: int| 0 <= ti < front.len() ==> (#[trigger] front[ti]) == terms[ti]);
        if exists|ti: int| 0 <= ti < front.len() && tf(snap, #[trigger] front[ti], d) > 0 {
            let ti = choose|ti: int| 0 <= ti < front.len() && tf(snap, #[trigger] front[ti], d) > 0;
            assert(tf(snap, terms[ti], d) > 0);
        }
        if exists|ti: int| 0 <= ti < terms.len() && tf(snap, #[trigger] terms[ti], d) > 0 {
            let ti = choose|ti: int| 0 <= ti < terms.len() && tf(snap, #[trigger] terms[ti], d) > 0;
            if ti < terms.len() - 1 {
                assert(tf(snap, front[ti], d) > 0);
            }
        }
    }
}

proof fn lemma_all_match_has(snap: SnapshotV, terms: Seq<Seq<char>>, d: u64)
    ensures
        all_match_ids(snap, terms).contains(d) <==> (exists|ti: int|
            0 <= ti < terms.len() && has_doc(
                lookup_spec(snap.segments, #[trigger] terms[ti]),
                d,
            )),
    decreases terms.len(),
{
    if terms.len() > 0 {
        let front = terms.drop_last();
        lemma_all_match_has(snap, front, d);
        assert(forall|ti: int| 0 <= ti < front.len() ==> (#[trigger] front[ti]) == terms[ti]);
        let a = all_match_ids(snap, front);
        let ps = lookup_spec(snap.segments, terms.last());
        let b = posting_ids(ps);
        assert(all_match_ids(snap, terms) == a + b);
        assert((a + b).contains(d) <==> (a.contains(d) || b.contains(d))) by {
            if (a + b).contains(d) {
                let k = choose|k: int| 0 <= k < (a + b).len() && (a + b)[k] == d;
                if k < a.len() {
                    assert(a[k] == d);
                } else {
                    assert(b[k - a.len()] == d);
                }
            }
            if a.contains(d) {
                let k = choose|k: int| 0 <= k < a.len() && a[k] == d;
                assert((a + b)[k] == d);
            }
            if b.contains(d) {
                let k = choose|k: int| 0 <= k < b.len() && b[k] == d;
                assert((a + b)[k + a.len()] == d);
            }
        }
        assert(b.contains(d) <==> has_doc(ps, d)) by {
            if b.contains(d) {
                let k = choose|k: int| 0 <= k < b.len() && b[k] == d;
                assert(ps[k].doc_id == d);
            }
            if has_doc(ps, d) {
                let k = choose|k: int| 0 <= k < ps.len() && ps[k].doc_id == d;
                assert(b[k] == d);
            }
        }
        if a.contains(d) {
            let ti = choose|ti: int|
                0 <= ti < front.len() && has_doc(lookup_spec(snap.segments, #[trigger] front[ti]), d);
            assert(has_doc(lookup_spec(snap.segments, terms[ti]), d));
        }
        if exists|ti: int|
            0 <= ti < terms.len() && has_doc(lookup_spec(snap.segments, #[trigger] terms[ti]), d) {
            let ti = choose|ti: int|
                0 <= ti < terms.len() && has_doc(lookup_spec(snap.segments, #[trigger] terms[ti]), d);
            if ti < terms.len() - 1 {
                assert(has_doc(lookup_spec(snap.segments, front[ti]), d));
            }
        }
    }
}

/// The candidates of a query are exactly the documents that match it: those
/// in which at least one query term occurs.
pub proof fn lemma_candidates_iff(snap: SnapshotV, terms: Seq<Seq<char>>, d: u64)
    requires
        forall|si: int| 0 <= si < snap.segments.len() ==> seg_wf(#[trigger] snap.segments[si]),
    ensures
        candidates_spec(snap, terms).contains(d) <==> is_match(snap, terms, d),
{
    crate::text::lemma_dedup_contains(all_match_ids(snap, terms), d);
    lemma_all_match_has(snap, terms, d);
    lemma_score_pos(snap, terms, d);
    assert forall|ti: int| 0 <= ti < terms.len() implies ((tf(snap, #[trigger] terms[ti], d) > 0)
        <==> has_doc(lookup_spec(snap.segments, terms[ti]), d)) by {
        lemma_lookup_positive(snap.segments, terms[ti]);
        lemma_tf_in_pos(lookup_spec(snap.segments, terms[ti]), d);
    }
}

/// The term frequency of one term for one document.
pub fn term_freq(snap: &Snapshot, term: &String, d: u64) -> (r: u64)
    ensures
        r == tf(snap@, term@, d),
{
    let ps = snap.lookup(term);
    let n = ps.len();
    let mut i: usize = 0;
    proof {
        assert(ps@.skip(0) =~= ps@);
    }
    while i < n
        invariant
            n == ps.len(),
            0 <= i <= n,
            ps@ == lookup_spec(snap@.segments, term@),
            tf_in(ps@, d) == tf_in(ps@.skip(i as int), d),
            forall|k: int| 0 <= k < i ==> ps@[k].doc_id != d,
        decreases n - i,
    {
        let ghost rest = ps@.skip(i as int);
        proof {
            assert(rest[0] == ps@[i as int]);
            assert(rest.drop_first() =~= ps@.skip(i as int + 1));
        }
        if ps[i].doc_id == d {
            proof {
                assert(tf_in(rest, d) == rest[0].term_freq);
                assert(tf(snap@, term@, d) == tf_in(ps@, d));
            }
            return ps[i].term_freq;
        }
        i = i + 1;
    }
    proof {
        assert(ps@.skip(n as int) =~= Seq::<Posting>::empty());
    }
    0
}

/// The relevance score of one document for the query terms.
pub fn score(snap: &Snapshot, terms: &Vec<String>, d: u64) -> (r: u64)
    ensures
        r == score_spec(snap@, crate::text::views_of(terms@), d),
{
    let ghost tv = crate::text::views_of(terms@);
    let n = terms.len();
    let mut i: usize = 0;
    let mut total: u64 = 0;
    proof {
        assert(tv.take(0) =~= Seq::<Seq<char>>::empty());
    }
    while i < n
        invariant
            n == terms.len(),
            0 <= i <= n,
            tv == crate::text::views_of(terms@),
            tv.len() == n,
            total == score_spec(snap@, tv.take(i as int), d),
        decreases n - i,
    {
        let f = term_freq(snap, &terms[i], d);
        proof {
            assert(tv.take(i as int + 1).drop_last() =~= tv.take(i as int));
            assert(tv.take(i as int + 1).last() == tv[i as int]);
            assert(tv[i as int] == terms@[i as int]@);
        }
        if total <= u64::MAX - f {
            total = total + f;
        } else {
            total = u64::MAX;
        }
        i = i + 1;
    }
    proof {
        assert(tv.take(n as int) =~= tv);
    }
    total
}

} // verus!
