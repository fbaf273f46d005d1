//! Term normalization and tokenization.
//!
//! Indexing and querying share one normalization: text splits into maximal
//! runs of letters and digits, and ASCII letters are lower-cased. If the two
//! sides ever normalized differently, queries would silently stop matching,
//! so this module is the single home of that function.

use vstd::prelude::*;

verus! {

/// Characters that belong to a term: ASCII letters and digits.
pub open spec fn is_word_char(c: char) -> bool {
    ('a' <= c && c <= 'z') || ('A' <= c && c <= 'Z') || ('0' <= c && c <= '9')
}

/// ASCII lower-casing of a single character; anything else is unchanged.
pub open spec fn lower_char(c: char) -> char {
    if 'A' <= c && c <= 'Z' {
        ((c as u8) + 0x20) as char
    } else {
        c
    }
}

/// The terms of `s` with `cur` as the partially read term: maximal runs of
/// word characters, lower-cased, in input order.
pub open spec fn tokens_from(s: Seq<char>, cur: Seq<char>) -> Seq<Seq<char>>
    decreases s.len(),
{
    if s.len() == 0 {
        if cur.len() > 0 {
            seq![cur]
        } else {
            Seq::empty()
        }
    } else if is_word_char(s[0]) {
        tokens_from(s.drop_first(), cur.push(lower_char(s[0])))
    } else {
        if cur.len() > 0 {
            seq![cur] + tokens_from(s.drop_first(), Seq::empty())
        } else {
            tokens_from(s.drop_first(), Seq::empty())
        }
    }
}

/// The normalized terms of a text, duplicates included, in input order.
pub open spec fn tokens_of(s: Seq<char>) -> Seq<Seq<char>> {
    tokens_from(s, Seq::empty())
}

/// A sequence with the repeats removed: each element kept at its first
/// occurrence.
pub open spec fn dedup<A>(s: Seq<A>) -> Seq<A>
    decreases s.len(),
{
    if s.len() == 0 {
        Seq::empty()
    } else if s.drop_last().contains(s.last()) {
        dedup(s.drop_last())
    } else {
        dedup(s.drop_last()).push(s.last())
    }
}

/// `dedup` keeps exactly the elements of its input.
pub proof fn lemma_dedup_contains<A>(s: Seq<A>, x: A)
    ensures
        dedup(s).contains(x) <==> s.contains(x),
    decreases s.len(),
{
    if s.len() > 0 {
        lemma_dedup_contains(s.drop_last(), x);
        assert(s.contains(x) <==> (s.drop_last().contains(x) || x == s.last())) by {
            if s.contains(x) {
                let i = choose|i: int| 0 <= i < s.len() && s[i] == x;
                if i < s.len() - 1 {
                    assert(s.drop_last()[i] == x);
                }
            }
            if s.drop_last().contains(x) {
                let i = choose|i: int| 0 <= i < s.len() - 1 && s.drop_last()[i] == x;
                assert(s[i] == x);
            }
            assert(s[s.len() - 1] == s.last());
        }
        if !s.drop_last().contains(s.last()) {
            assert forall|y: A| #[trigger] dedup(s).contains(y) implies dedup(
                s.drop_last(),
            ).contains(y) || y == s.last() by {
                let i = choose|i: int| 0 <= i < dedup(s).len() && dedup(s)[i] == y;
                if i < dedup(s).len() - 1 {
                    assert(dedup(s.drop_last())[i] == y);
                }
            }
            assert(dedup(s).last() == s.last());
            assert(forall|y: A| dedup(s.drop_last()).contains(y) ==> #[trigger] dedup(s).contains(
                y,
            )) by {
                assert forall|y: A| dedup(s.drop_last()).contains(y) implies #[trigger] dedup(
                    s,
                ).contains(y) by {
                    let i = choose|i: int|
                        0 <= i < dedup(s.drop_last()).len() && dedup(s.drop_last())[i] == y;
                    assert(dedup(s)[i] == y);
                }
            }
        }
    }
}

/// The elements of `dedup` are pairwise distinct.
pub proof fn lemma_dedup_distinct<A>(s: Seq<A>)
    ensures
        forall|i: int, j: int|
            0 <= i < j < dedup(s).len() ==> dedup(s)[i] != dedup(s)[j],
    decreases s.len(),
{
    if s.len() > 0 {
        lemma_dedup_distinct(s.drop_last());
        if s.drop_last().contains(s.last()) {
            assert(dedup(s) == dedup(s.drop_last()));
            assert forall|i: int, j: int| 0 <= i < j < dedup(s).len() implies dedup(s)[i] != dedup(
                s,
            )[j] by {
                assert(dedup(s)[i] == dedup(s.drop_last())[i]);
                assert(dedup(s)[j] == dedup(s.drop_last())[j]);
            }
        } else {
            lemma_dedup_contains(s.drop_last(), s.last());
            let d = dedup(s);
            assert forall|i: int, j: int| 0 <= i < j < d.len() implies d[i] != d[j] by {
                if j < d.len() - 1 {
                    assert(dedup(s.drop_last())[i] == d[i]);
                    assert(dedup(s.drop_last())[j] == d[j]);
                } else {
                    assert(d[j] == s.last());
                    assert(dedup(s.drop_last())[i] == d[i]);
                    assert(dedup(s.drop_last()).contains(d[i]));
                }
            }
        }
    }
}

/// Relies on `String::push`: appends exactly the one character.
#[verifier::external_body]
pub(crate) fn push_char(s: &mut String, c: char)
    ensures
        final(s)@ == old(s)@.push(c),
{
    s.push(c);
}

/// Lower-case one character, as `lower_char` says.
pub fn lower_char_exec(c: char) -> (r: char)
    ensures
        r == lower_char(c),
{
    if 'A' <= c && c <= 'Z' {
        ((c as u8) + 0x20) as char
    } else {
        c
    }
}

/// The views of a sequence of strings.
pub open spec fn views_of(ts: Seq<String>) -> Seq<Seq<char>> {
    ts.map(|i: int, t: String| t@)
}

/// Split a text into its normalized terms, duplicates included.
pub fn tokenize(text: &str) -> (tokens: Vec<String>)
    ensures
        views_of(tokens@) == tokens_of(text@),
{
    let n = text.unicode_len();
    let mut i: usize = 0;
    let mut cur = String::new();
    let mut tokens: Vec<String> = Vec::new();
    proof {
        assert(text@.skip(0) =~= text@);
        assert(views_of(tokens@) =~= Seq::<Seq<char>>::empty());
        assert(Seq::<Seq<char>>::empty() + tokens_from(text@, cur@) =~= tokens_from(
            text@,
            cur@,
        ));
    }
    while i < n
        invariant
            n == text@.len(),
            0 <= i <= n,
            tokens_of(text@) == views_of(tokens@) + tokens_from(text@.skip(i as int), cur@),
        decreases n - i,
    {
        let c = text.get_char(i);
        let ghost rest = text@.skip(i as int);
        proof {
            assert(rest[0] == text@[i as int]);
            assert(rest.drop_first() =~= text@.skip(i as int + 1));
        }
        if ('a' <= c && c <= 'z') || ('A' <= c && c <= 'Z') || ('0' <= c && c <= '9') {
            assert(is_word_char(rest[0]));
            let ghost cv = cur@;
            let lc = lower_char_exec(c);
            push_char(&mut cur, lc);
            proof {
                assert(tokens_from(rest, cv) == tokens_from(rest.drop_first(), cv.push(lower_char(
                    rest[0],
                ))));
            }
        } else {
            assert(!is_word_char(rest[0]));
            if !cur.as_str().is_empty() {
                let ghost ts = tokens@;
                let ghost cv = cur@;
                tokens.push(cur);
                cur = String::new();
                proof {
                    assert(tokens_from(rest, cv) == seq![cv] + tokens_from(
                        rest.drop_first(),
                        Seq::empty(),
                    ));
                    assert(views_of(tokens@) =~= views_of(ts).push(cv));
                    assert(views_of(ts) + (seq![cv] + tokens_from(rest.drop_first(), Seq::empty()))
                        =~= views_of(ts).push(cv) + tokens_from(rest.drop_first(), Seq::empty()));
                }
            } else {
                proof {
                    assert(cur@ =~= Seq::<char>::empty());
                    assert(tokens_from(rest, cur@) == tokens_from(
                        rest.drop_first(),
                        Seq::<char>::empty(),
                    ));
                }
            }
        }
        i = i + 1;
    }
    proof {
        assert(text@.skip(n as int) =~= Seq::<char>::empty());
    }
    if !cur.as_str().is_empty() {
        let ghost ts = tokens@;
        let ghost cv = cur@;
        tokens.push(cur);
        proof {
            assert(views_of(tokens@) =~= views_of(ts).push(cv));
            assert(views_of(ts) + seq![cv] =~= views_of(ts).push(cv));
        }
    } else {
        proof {
            assert(views_of(tokens@) + Seq::<Seq<char>>::empty() =~= views_of(tokens@));
        }
    }
    tokens
}

/// The number of double quotes in a text. Quotes only group words; a query
/// whose quotes do not pair up is structurally invalid.
pub open spec fn quote_count(s: Seq<char>) -> int
    decreases s.len(),
{
    if s.len() == 0 {
        0
    } else {
        quote_count(s.drop_last()) + if s.last() == '"' {
            1int
        } else {
            0int
        }
    }
}

/// Whether the double quotes of a text pair up.
pub fn quotes_balanced(s: &str) -> (r: bool)
    ensures
        r == (quote_count(s@) % 2 == 0),
{
    let n = s.unicode_len();
    let mut i: usize = 0;
    let mut even = true;
    proof {
        assert(s@.take(0) =~= Seq::<char>::empty());
    }
    while i < n
        invariant
            n == s@.len(),
            0 <= i <= n,
            even == (quote_count(s@.take(i as int)) % 2 == 0),
        decreases n - i,
    {
        let c = s.get_char(i);
        proof {
            assert(s@.take(i as int + 1).drop_last() =~= s@.take(i as int));
            assert(s@.take(i as int + 1).last() == s@[i as int]);
        }
        if c == '"' {
            even = !even;
        }
        i = i + 1;
    }
    proof {
        assert(s@.take(n as int) =~= s@);
    }
    even
}

/// A decimal digit.
pub open spec fn is_digit(c: char) -> bool {
    '0' <= c && c <= '9'
}

/// The value of a digit string read in base ten.
pub open spec fn digits_val(s: Seq<char>) -> int
    decreases s.len(),
{
    if s.len() == 0 {
        0
    } else {
        digits_val(s.drop_last()) * 10 + (s.last() as int - '0' as int)
    }
}

/// A string of decimal digits only.
pub open spec fn all_digits(s: Seq<char>) -> bool {
    forall|k: int| 0 <= k < s.len() ==> is_digit(s[k])
}

/// What `u8` parsing accepts: an optional leading `+`, then at least one
/// digit, and a value of at most 255.
pub open spec fn parse_u8_spec(s: Seq<char>) -> Option<u8> {
    let body = if s.len() > 0 && s[0] == '+' {
        s.drop_first()
    } else {
        s
    };
    if body.len() > 0 && all_digits(body) && digits_val(body) <= 255 {
        Some(digits_val(body) as u8)
    } else {
        None
    }
}

proof fn lemma_digits_val_nonneg(s: Seq<char>)
    requires
        all_digits(s),
    ensures
        digits_val(s) >= 0,
    decreases s.len(),
{
    if s.len() > 0 {
        lemma_digits_val_nonneg(s.drop_last());
    }
}

proof fn lemma_digits_val_grows(s: Seq<char>, k: int)
    requires
        all_digits(s),
        0 <= k <= s.len(),
    ensures
        digits_val(s) >= digits_val(s.take(k)),
    decreases s.len() - k,
{
    if k < s.len() {
        lemma_digits_val_grows(s, k + 1);
        lemma_digits_val_nonneg(s.take(k));
        assert(s.take(k + 1).drop_last() =~= s.take(k));
        assert(digits_val(s.take(k + 1)) == digits_val(s.take(k)) * 10 + (s[k] as int
            - '0' as int));
    } else {
        assert(s.take(k) =~= s);
    }
}

/// Read a bounded result count the way the original service does: `None`
/// whenever the text is not a plain decimal `u8`.
pub fn parse_u8(s: &str) -> (r: Option<u8>)
    ensures
        r == parse_u8_spec(s@),
{
    let n = s.unicode_len();
    if n == 0 {
        return None;
    }
    let mut i: usize = 0;
    if s.get_char(0) == '+' {
        i = 1;
    }
    let ghost body = if s@.len() > 0 && s@[0] == '+' {
        s@.drop_first()
    } else {
        s@
    };
    proof {
        assert(body =~= s@.skip(i as int));
        assert(body.len() == n - i);
    }
    if i == n {
        return None;
    }
    let mut val: u32 = 0;
    let ghost start = i;
    while i < n
        invariant
            n == s@.len(),
            start <= i <= n,
            body == s@.skip(start as int),
            body == (if s@.len() > 0 && s@[0] == '+' {
                s@.drop_first()
            } else {
                s@
            }),
            start == if s@[0] == '+' {
                1int
            } else {
                0int
            },
            0 < n - start,
            val <= 255,
            forall|k: int| 0 <= k < i - start ==> is_digit(body[k]),
            val == digits_val(body.take(i - start)),
        decreases n - i,
    {
        let c = s.get_char(i);
        assert(body[i - start] == s@[i as int]);
        if !('0' <= c && c <= '9') {
            assert(!is_digit(body[i - start]));
            assert(!all_digits(body));
            return None;
        }
        let d: u32 = (c as u32) - 48;
        val = val * 10 + d;
        i = i + 1;
        proof {
            assert(body.take(i - start).drop_last() =~= body.take(i - start - 1));
            assert(body.take(i - start).last() == body[i - start - 1]);
        }
        if val > 255 {
            proof {
                if all_digits(body) {
                    lemma_digits_val_grows(body, i - start);
                }
            }
            return None;
        }
    }
    proof {
        assert(body.take(n - start) =~= body);
    }
    Some(val as u8)
}

} // verus!
