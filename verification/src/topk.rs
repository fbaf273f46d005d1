//! Bounded top-K collection of scored hits.
//!
//! The collector retains at most `limit` hits in memory, whatever the number
//! of hits offered. Hits are ordered by score descending, and hits of equal
//! score by document identifier ascending, so results are deterministic.

use vstd::prelude::*;

verus! {

/// A (document identifier, relevance score) pair.
#[derive(Clone, Copy, PartialEq, Eq, Structural, Debug)]
pub struct ScoredHit {
    pub doc_id: u64,
    pub score: u64,
}

/// Strict ordering of hits: higher score first, and for equal scores the
/// lower document identifier first. Two hits are incomparable only when they
/// are the same value.
pub open spec fn better(a: ScoredHit, b: ScoredHit) -> bool {
    a.score > b.score || (a.score == b.score && a.doc_id < b.doc_id)
}

/// Hits listed best first: every earlier hit is better than (or equal to)
/// every later one.
pub open spec fn sorted_hits(s: Seq<ScoredHit>) -> bool {
    forall|i: int, j: int| 0 <= i < j < s.len() ==> better(s[i], s[j]) || s[i] == s[j]
}

/// Insertion of a hit into a best-first sequence, keeping the order.
pub open spec fn insert_hit(s: Seq<ScoredHit>, h: ScoredHit) -> Seq<ScoredHit>
    decreases s.len(),
{
    if s.len() == 0 {
        seq![h]
    } else if better(h, s[0]) {
        seq![h] + s
    } else {
        seq![s[0]] + insert_hit(s.drop_first(), h)
    }
}

/// The first `limit` entries, or the whole sequence when it is shorter.
pub open spec fn take_at_most(s: Seq<ScoredHit>, limit: int) -> Seq<ScoredHit> {
    if s.len() <= limit {
        s
    } else {
        s.take(limit)
    }
}

/// One step of bounded collection: insert the hit in order, then drop
/// whatever falls beyond `limit`.
pub open spec fn offer_spec(s: Seq<ScoredHit>, h: ScoredHit, limit: int) -> Seq<ScoredHit> {
    take_at_most(insert_hit(s, h), limit)
}

/// The best `limit` hits of `s`, best first: the result of offering every
/// hit of `s` in turn to an empty collector.
pub open spec fn topk_spec(s: Seq<ScoredHit>, limit: int) -> Seq<ScoredHit>
    decreases s.len(),
{
    if s.len() == 0 {
        Seq::empty()
    } else {
        offer_spec(topk_spec(s.drop_last(), limit), s.last(), limit)
    }
}

proof fn lemma_insert_hit_len(s: Seq<ScoredHit>, h: ScoredHit)
    ensures
        insert_hit(s, h).len() == s.len() + 1,
    decreases s.len(),
{
    if s.len() > 0 && !better(h, s[0]) {
        lemma_insert_hit_len(s.drop_first(), h);
    }
}

proof fn lemma_contains_cons<A>(head: A, rest: Seq<A>, x: A)
    ensures
        (seq![head] + rest).contains(x) <==> (x == head || rest.contains(x)),
{
    let r = seq![head] + rest;
    if r.contains(x) {
        let i = choose|i: int| 0 <= i < r.len() && r[i] == x;
        if i > 0 {
            assert(rest[i - 1] == x);
        }
    }
    if rest.contains(x) {
        let i = choose|i: int| 0 <= i < rest.len() && rest[i] == x;
        assert(r[i + 1] == x);
    }
    assert(r[0] == head);
}

proof fn lemma_insert_hit_contains(s: Seq<ScoredHit>, h: ScoredHit, x: ScoredHit)
    ensures
        insert_hit(s, h).contains(x) <==> (s.contains(x) || x == h),
    decreases s.len(),
{
    if s.len() == 0 {
        assert(insert_hit(s, h)[0] == h);
    } else if better(h, s[0]) {
        assert(insert_hit(s, h) == seq![h] + s);
        lemma_contains_cons(h, s, x);
    } else {
        let rest = s.drop_first();
        lemma_insert_hit_contains(rest, h, x);
        assert(insert_hit(s, h) == seq![s[0]] + insert_hit(rest, h));
        lemma_contains_cons(s[0], insert_hit(rest, h), x);
        lemma_contains_cons(s[0], rest, x);
        assert(s =~= seq![s[0]] + rest);
    }
}

proof fn lemma_insert_hit_sorted(s: Seq<ScoredHit>, h: ScoredHit)
    requires
        sorted_hits(s),
    ensures
        sorted_hits(insert_hit(s, h)),
    decreases s.len(),
{
    if s.len() == 0 {
    } else if better(h, s[0]) {
        assert forall|i: int, j: int|
            0 <= i < j < insert_hit(s, h).len() implies better(
            insert_hit(s, h)[i],
            insert_hit(s, h)[j],
        ) || insert_hit(s, h)[i] == insert_hit(s, h)[j] by {
            if i > 0 {
                assert(insert_hit(s, h)[i] == s[i - 1]);
                assert(insert_hit(s, h)[j] == s[j - 1]);
            } else {
                assert(insert_hit(s, h)[j] == s[j - 1]);
                if j - 1 > 0 {
                    assert(better(s[0], s[j - 1]) || s[0] == s[j - 1]);
                }
            }
        }
    } else {
        let rest = s.drop_first();
        lemma_insert_hit_sorted(rest, h);
        lemma_insert_hit_len(rest, h);
        let r = seq![s[0]] + insert_hit(rest, h);
        assert forall|i: int, j: int| 0 <= i < j < r.len() implies better(r[i], r[j]) || r[i]
            == r[j] by {
            if i == 0 {
                lemma_insert_hit_contains(rest, h, r[j]);
                if r[j] == h {
                    assert(!better(h, s[0]));
                    if s[0] != h {
                        assert(better(s[0], h));
                    }
                } else {
                    assert(rest.contains(r[j]));
                    let k = choose|k: int| 0 <= k < rest.len() && rest[k] == r[j];
                    assert(s[k + 1] == rest[k]);
                }
            } else {
                assert(r[i] == insert_hit(rest, h)[i - 1]);
                assert(r[j] == insert_hit(rest, h)[j - 1]);
            }
        }
    }
}

proof fn lemma_sorted_take(s: Seq<ScoredHit>, n: int)
    requires
        sorted_hits(s),
        0 <= n <= s.len(),
    ensures
        sorted_hits(s.take(n)),
{
}

/// Every result of bounded collection keeps at most `limit` hits: the memory
/// bound of the collector, independent of how many hits were offered.
pub proof fn lemma_topk_len(s: Seq<ScoredHit>, limit: int)
    requires
        limit >= 0,
    ensures
        topk_spec(s, limit).len() == if s.len() <= limit {
            s.len() as int
        } else {
            limit
        },
    decreases s.len(),
{
    if s.len() > 0 {
        lemma_topk_len(s.drop_last(), limit);
        lemma_insert_hit_len(topk_spec(s.drop_last(), limit), s.last());
    }
}

/// The collected hits come best first: scores never increase along the
/// result, and equal scores come in ascending document-identifier order.
pub proof fn lemma_topk_sorted(s: Seq<ScoredHit>, limit: int)
    requires
        limit >= 0,
    ensures
        sorted_hits(topk_spec(s, limit)),
    decreases s.len(),
{
    if s.len() > 0 {
        let prev = topk_spec(s.drop_last(), limit);
        lemma_topk_sorted(s.drop_last(), limit);
        lemma_insert_hit_sorted(prev, s.last());
        lemma_insert_hit_len(prev, s.last());
        if insert_hit(prev, s.last()).len() > limit {
            lemma_sorted_take(insert_hit(prev, s.last()), limit);
        }
    }
}

proof fn lemma_contains_drop_last(s: Seq<ScoredHit>, x: ScoredHit)
    requires
        s.len() > 0,
        s.contains(x),
        x != s.last(),
    ensures
        s.drop_last().contains(x),
{
    let i = choose|i: int| 0 <= i < s.len() && s[i] == x;
    assert(s.drop_last()[i] == x);
}

/// Every hit the collector keeps was offered to it.
pub proof fn lemma_topk_subset(s: Seq<ScoredHit>, limit: int, x: ScoredHit)
    requires
        limit >= 0,
        topk_spec(s, limit).contains(x),
    ensures
        s.contains(x),
    decreases s.len(),
{
    if s.len() > 0 {
        let prev = topk_spec(s.drop_last(), limit);
        let ins = insert_hit(prev, s.last());
        let res = topk_spec(s, limit);
        assert(res == take_at_most(ins, limit));
        let i = choose|i: int| 0 <= i < res.len() && res[i] == x;
        if ins.len() <= limit {
            assert(res == ins);
        } else {
            assert(res == ins.take(limit));
            assert(res[i] == ins[i]);
        }
        assert(ins[i] == x);
        assert(ins.contains(x));
        lemma_insert_hit_contains(prev, s.last(), x);
        if x == s.last() {
            assert(s[s.len() - 1] == x);
        } else {
            lemma_topk_subset(s.drop_last(), limit, x);
            let j = choose|j: int| 0 <= j < s.drop_last().len() && s.drop_last()[j] == x;
            assert(s[j] == x);
        }
    }
}

/// When the worst of the sorted hits is dropped by the bound, it is no
/// better than anything kept, and the kept hits fill the bound exactly.
proof fn lemma_take_dropped(ins: Seq<ScoredHit>, limit: int, x: ScoredHit)
    requires
        limit >= 0,
        sorted_hits(ins),
        ins.contains(x),
        !take_at_most(ins, limit).contains(x),
    ensures
        take_at_most(ins, limit).len() == limit,
        forall|j: int|
            0 <= j < limit ==> better(#[trigger] take_at_most(ins, limit)[j], x),
{
    let res = take_at_most(ins, limit);
    if ins.len() <= limit {
        assert(res == ins);
        assert(false);
    }
    let pa = choose|pa: int| 0 <= pa < ins.len() && ins[pa] == x;
    if pa < limit {
        assert(res[pa] == x);
        assert(res.contains(x));
        assert(false);
    }
    assert forall|j: int| 0 <= j < limit implies better(#[trigger] res[j], x) by {
        assert(res[j] == ins[j]);
        if ins[j] == ins[pa] {
            assert(res.contains(x));
        }
    }
}

/// Ordering of hits is transitive, and two hits that are each no better
/// than the other are the same value.
proof fn lemma_better_total(a: ScoredHit, b: ScoredHit)
    ensures
        !better(a, b) && !better(b, a) ==> a == b,
        better(a, b) ==> !better(b, a),
{
}

/// A hit worse than every element goes to the end.
proof fn lemma_insert_hit_worst(t: Seq<ScoredHit>, a: ScoredHit)
    requires
        forall|j: int| 0 <= j < t.len() ==> better(#[trigger] t[j], a),
    ensures
        insert_hit(t, a) == t.push(a),
    decreases t.len(),
{
    if t.len() == 0 {
        assert(insert_hit(t, a) =~= t.push(a));
    } else {
        assert(better(t[0], a));
        assert(!better(a, t[0]));
        assert(forall|j: int|
            0 <= j < t.drop_first().len() ==> better(#[trigger] t.drop_first()[j], a));
        lemma_insert_hit_worst(t.drop_first(), a);
        assert(insert_hit(t, a) =~= t.push(a));
    }
}

/// Bounded collection keeps exactly the best hits: whatever was offered and
/// not kept is worse than everything kept, and dropping happens only once
/// the bound is filled.
pub proof fn lemma_topk_complete(s: Seq<ScoredHit>, limit: int, x: ScoredHit)
    requires
        limit >= 0,
        s.contains(x),
        !topk_spec(s, limit).contains(x),
    ensures
        topk_spec(s, limit).len() == limit,
        forall|j: int|
            0 <= j < topk_spec(s, limit).len() ==> better(#[trigger] topk_spec(s, limit)[j], x),
    decreases s.len(),
{
    let res = topk_spec(s, limit);
    let a = s.last();
    let t = topk_spec(s.drop_last(), limit);
    let ins = insert_hit(t, a);
    lemma_topk_sorted(s.drop_last(), limit);
    lemma_topk_len(s.drop_last(), limit);
    lemma_insert_hit_sorted(t, a);
    lemma_insert_hit_len(t, a);
    lemma_insert_hit_contains(t, a, x);
    if x == a || t.contains(x) {
        assert(ins.contains(x));
        lemma_take_dropped(ins, limit, x);
    } else {
        lemma_contains_drop_last(s, x);
        lemma_topk_complete(s.drop_last(), limit, x);
        assert(t.len() == limit);
        if better(x, a) {
            assert forall|j: int| 0 <= j < t.len() implies better(#[trigger] t[j], a) by {
                assert(better(t[j], x));
            }
            lemma_insert_hit_worst(t, a);
            assert(ins == t.push(a));
            assert(ins.len() == limit + 1);
            assert(res == ins.take(limit));
            assert(res =~= t);
            assert forall|j: int| 0 <= j < res.len() implies better(#[trigger] res[j], x) by {
                assert(res[j] == t[j]);
            }
        } else {
            lemma_better_total(x, a);
            assert(better(a, x) || a == x);
            assert(a != x);
            assert(ins.len() == limit + 1);
            assert(res == ins.take(limit));
            assert(res.len() == limit);
            assert forall|j: int| 0 <= j < res.len() implies better(#[trigger] res[j], x) by {
                assert(res[j] == ins[j]);
                assert(ins.contains(ins[j]));
                lemma_insert_hit_contains(t, a, ins[j]);
                if ins[j] == a {
                } else {
                    assert(t.contains(ins[j]));
                    let p = choose|p: int| 0 <= p < t.len() && t[p] == ins[j];
                    assert(better(t[p], x));
                }
            }
        }
    }
}

/// Pairwise distinct hits.
pub open spec fn distinct_hits(s: Seq<ScoredHit>) -> bool {
    forall|i: int, j: int| 0 <= i < j < s.len() ==> s[i] != s[j]
}

proof fn lemma_insert_hit_distinct(t: Seq<ScoredHit>, a: ScoredHit)
    requires
        distinct_hits(t),
        !t.contains(a),
    ensures
        distinct_hits(insert_hit(t, a)),
    decreases t.len(),
{
    if t.len() == 0 {
    } else if better(a, t[0]) {
        let r = seq![a] + t;
        assert forall|i: int, j: int| 0 <= i < j < r.len() implies r[i] != r[j] by {
            if i == 0 {
                assert(r[j] == t[j - 1]);
                assert(t.contains(t[j - 1]));
            } else {
                assert(r[i] == t[i - 1] && r[j] == t[j - 1]);
            }
        }
    } else {
        let rest = t.drop_first();
        assert(forall|k: int| 0 <= k < rest.len() ==> (#[trigger] rest[k]) == t[k + 1]);
        assert(!rest.contains(a)) by {
            if rest.contains(a) {
                let k = choose|k: int| 0 <= k < rest.len() && rest[k] == a;
                assert(t[k + 1] == a);
                assert(t.contains(a));
            }
        }
        lemma_insert_hit_distinct(rest, a);
        let r = seq![t[0]] + insert_hit(rest, a);
        assert forall|i: int, j: int| 0 <= i < j < r.len() implies r[i] != r[j] by {
            if i == 0 {
                assert(r[j] == insert_hit(rest, a)[j - 1]);
                lemma_insert_hit_contains(rest, a, r[j]);
                assert(insert_hit(rest, a).contains(r[j])) by {
                    lemma_insert_hit_len(rest, a);
                }
                if r[j] == a {
                    assert(t.contains(t[0]));
                } else {
                    let k = choose|k: int| 0 <= k < rest.len() && rest[k] == r[j];
                    assert(t[k + 1] == r[j]);
                }
            } else {
                assert(r[i] == insert_hit(rest, a)[i - 1] && r[j] == insert_hit(rest, a)[j - 1]);
            }
        }
    }
}

/// Distinct offered hits stay distinct in the collector: nothing is ever
/// returned twice.
pub proof fn lemma_topk_distinct(s: Seq<ScoredHit>, limit: int)
    requires
        limit >= 0,
        distinct_hits(s),
    ensures
        distinct_hits(topk_spec(s, limit)),
    decreases s.len(),
{
    if s.len() > 0 {
        let front = s.drop_last();
        let a = s.last();
        assert(forall|k: int| 0 <= k < front.len() ==> (#[trigger] front[k]) == s[k]);
        assert(distinct_hits(front));
        lemma_topk_distinct(front, limit);
        let t = topk_spec(front, limit);
        assert(!t.contains(a)) by {
            if t.contains(a) {
                lemma_topk_subset(front, limit, a);
                let k = choose|k: int| 0 <= k < front.len() && front[k] == a;
                assert(s[k] == s[s.len() - 1]);
            }
        }
        lemma_insert_hit_distinct(t, a);
        let ins = insert_hit(t, a);
        let res = topk_spec(s, limit);
        assert(res == take_at_most(ins, limit));
        if ins.len() > limit {
            assert forall|i: int, j: int| 0 <= i < j < res.len() implies res[i] != res[j] by {
                assert(res[i] == ins[i] && res[j] == ins[j]);
            }
        }
    }
}

/// A bounded collector of the best `limit` hits seen so far.
pub struct TopK {
    limit: usize,
    hits: Vec<ScoredHit>,
}

impl TopK {
    /// The bound this collector was created with.
    pub closed spec fn spec_limit(&self) -> usize {
        self.limit
    }

    /// The hits currently retained, best first.
    pub closed spec fn spec_hits(&self) -> Seq<ScoredHit> {
        self.hits@
    }

    pub fn new(limit: usize) -> (r: TopK)
        ensures
            r.spec_limit() == limit,
            r.spec_hits() == Seq::<ScoredHit>::empty(),
    {
        TopK { limit, hits: Vec::new() }
    }

    /// Offer one hit: it is retained exactly when fewer than `limit` hits are
    /// held or it is better than the worst held one, which is then dropped.
    pub fn offer(&mut self, h: ScoredHit)
        requires
            sorted_hits(old(self).spec_hits()),
            old(self).spec_hits().len() <= old(self).spec_limit(),
        ensures
            final(self).spec_limit() == old(self).spec_limit(),
            final(self).spec_hits() == offer_spec(
                old(self).spec_hits(),
                h,
                old(self).spec_limit() as int,
            ),
    {
        let ghost s0 = self.hits@;
        let mut pos: usize = 0;
        while pos < self.hits.len() && !(h.score > self.hits[pos].score || (h.score
            == self.hits[pos].score && h.doc_id < self.hits[pos].doc_id))
            invariant
                0 <= pos <= self.hits.len(),
                self.hits@ == s0,
                forall|k: int| 0 <= k < pos ==> !better(h, s0[k]),
            decreases self.hits.len() - pos,
        {
            pos = pos + 1;
        }
        proof {
            lemma_insert_at_pos(s0, h, pos as int);
        }
        self.hits.insert(pos, h);
        if self.hits.len() > self.limit {
            self.hits.pop();
            proof {
                lemma_insert_hit_len(s0, h);
                assert(self.hits@ =~= insert_hit(s0, h).take(self.limit as int));
            }
        }
    }

    /// Hand the retained hits out, best first.
    pub fn into_hits(self) -> (r: Vec<ScoredHit>)
        ensures
            r@ == self.spec_hits(),
    {
        self.hits
    }
}

/// Inserting at the first position whose hit `h` beats is the ordered
/// insertion `insert_hit`.
proof fn lemma_insert_at_pos(s: Seq<ScoredHit>, h: ScoredHit, pos: int)
    requires
        0 <= pos <= s.len(),
        forall|k: int| 0 <= k < pos ==> !better(h, s[k]),
        pos < s.len() ==> better(h, s[pos]),
    ensures
        insert_hit(s, h) =~= s.take(pos) + seq![h] + s.skip(pos),
    decreases s.len(),
{
    if s.len() == 0 {
    } else if better(h, s[0]) {
        assert(pos == 0);
    } else {
        assert(pos >= 1);
        lemma_insert_at_pos(s.drop_first(), h, pos - 1);
        assert(s.drop_first().take(pos - 1) =~= s.take(pos).drop_first());
        assert(s.drop_first().skip(pos - 1) =~= s.skip(pos));
        assert(insert_hit(s, h) == seq![s[0]] + insert_hit(s.drop_first(), h));
    }
}

} // verus!
