//! Rendering result records as a JSON array.
//!
//! Each document becomes one object mapping stored field name to value, and
//! the response body is the array of those objects in result order. String
//! content is escaped: quote, backslash and the common control characters by
//! their two-character escapes, any other control character numerically.

use crate::store::Document;
use crate::store::DocumentV;
use crate::store::FieldV;
use crate::text::push_char;
use vstd::prelude::*;

verus! {

/// The hexadecimal digit of a value below sixteen.
pub open spec fn hex_digit(n: int) -> char {
    if n == 0 {
        '0'
    } else if n == 1 {
        '1'
    } else if n == 2 {
        '2'
    } else if n == 3 {
        '3'
    } else if n == 4 {
        '4'
    } else if n == 5 {
        '5'
    } else if n == 6 {
        '6'
    } else if n == 7 {
        '7'
    } else if n == 8 {
        '8'
    } else if n == 9 {
        '9'
    } else if n == 10 {
        'a'
    } else if n == 11 {
        'b'
    } else if n == 12 {
        'c'
    } else if n == 13 {
        'd'
    } else if n == 14 {
        'e'
    } else {
        'f'
    }
}

/// The escape of one character inside a JSON string literal.
pub open spec fn esc_char(c: char) -> Seq<char> {
    if c == '"' {
        seq!['\\', '"']
    } else if c == '\\' {
        seq!['\\', '\\']
    } else if c == '\n' {
        seq!['\\', 'n']
    } else if c == '\r' {
        seq!['\\', 'r']
    } else if c == '\t' {
        seq!['\\', 't']
    } else if (c as u32) < 32 {
        seq!['\\', 'u', '0', '0', hex_digit(c as int / 16), hex_digit(c as int % 16)]
    } else {
        seq![c]
    }
}

/// A text with every character escaped.
pub open spec fn escaped(s: Seq<char>) -> Seq<char>
    decreases s.len(),
{
    if s.len() == 0 {
        Seq::empty()
    } else {
        escaped(s.drop_last()) + esc_char(s.last())
    }
}

/// A JSON string literal.
pub open spec fn json_string(s: Seq<char>) -> Seq<char> {
    seq!['"'] + escaped(s) + seq!['"']
}

/// One `"name":"value"` member.
pub open spec fn json_field(f: FieldV) -> Seq<char> {
    json_string(f.name) + seq![':'] + json_string(f.value)
}

/// The members of one record, comma-separated.
pub open spec fn json_fields(fs: Seq<FieldV>) -> Seq<char>
    decreases fs.len(),
{
    if fs.len() == 0 {
        Seq::empty()
    } else if fs.len() == 1 {
        json_field(fs[0])
    } else {
        json_fields(fs.drop_last()) + seq![','] + json_field(fs.last())
    }
}

/// One record as a JSON object.
pub open spec fn json_doc(d: DocumentV) -> Seq<char> {
    seq!['{'] + json_fields(d.fields) + seq!['}']
}

/// The records, comma-separated.
pub open spec fn json_docs(ds: Seq<DocumentV>) -> Seq<char>
    decreases ds.len(),
{
    if ds.len() == 0 {
        Seq::empty()
    } else if ds.len() == 1 {
        json_doc(ds[0])
    } else {
        json_docs(ds.drop_last()) + seq![','] + json_doc(ds.last())
    }
}

/// A whole response body: the JSON array of the records.
pub open spec fn json_body(ds: Seq<DocumentV>) -> Seq<char> {
    seq!['['] + json_docs(ds) + seq![']']
}

/// Append one escaped character.
fn push_escaped(out: &mut String, c: char)
    ensures
        final(out)@ == old(out)@ + esc_char(c),
{
    let ghost o0 = out@;
    if c == '"' {
        push_char(out, '\\');
        push_char(out, '"');
        proof {
            assert(out@ =~= o0 + esc_char(c));
        }
    } else if c == '\\' {
        push_char(out, '\\');
        push_char(out, '\\');
        proof {
            assert(out@ =~= o0 + esc_char(c));
        }
    } else if c == '\n' {
        push_char(out, '\\');
        push_char(out, 'n');
        proof {
            assert(out@ =~= o0 + esc_char(c));
        }
    } else if c == '\r' {
        push_char(out, '\\');
        push_char(out, 'r');
        proof {
            assert(out@ =~= o0 + esc_char(c));
        }
    } else if c == '\t' {
        push_char(out, '\\');
        push_char(out, 't');
        proof {
            assert(out@ =~= o0 + esc_char(c));
        }
    } else if (c as u32) < 32 {
        let hi = (c as u32) / 16;
        let lo = (c as u32) % 16;
        push_char(out, '\\');
        push_char(out, 'u');
        push_char(out, '0');
        push_char(out, '0');
        push_char(out, hex_digit_exec(hi));
        push_char(out, hex_digit_exec(lo));
        proof {
            assert(hi == c as int / 16 && lo == c as int % 16);
            assert(out@ =~= o0 + esc_char(c));
        }
    } else {
        push_char(out, c);
        proof {
            assert(out@ =~= o0 + esc_char(c));
        }
    }
}

/// The hexadecimal digit of a value below sixteen.
fn hex_digit_exec(n: u32) -> (r: char)
    requires
        n < 16,
    ensures
        r == hex_digit(n as int),
{
    if n == 0 {
        '0'
    } else if n == 1 {
        '1'
    } else if n == 2 {
        '2'
    } else if n == 3 {
        '3'
    } else if n == 4 {
        '4'
    } else if n == 5 {
        '5'
    } else if n == 6 {
        '6'
    } else if n == 7 {
        '7'
    } else if n == 8 {
        '8'
    } else if n == 9 {
        '9'
    } else if n == 10 {
        'a'
    } else if n == 11 {
        'b'
    } else if n == 12 {
        'c'
    } else if n == 13 {
        'd'
    } else if n == 14 {
        'e'
    } else {
        'f'
    }
}

/// Append a JSON string literal.
fn append_json_string(out: &mut String, s: &str)
    ensures
        final(out)@ == old(out)@ + json_string(s@),
{
    let ghost o0 = out@;
    push_char(out, '"');
    let n = s.unicode_len();
    let mut i: usize = 0;
    proof {
        assert(escaped(s@.take(0)) =~= Seq::<char>::empty());
        assert(out@ =~= o0 + seq!['"'] + escaped(s@.take(0)));
    }
    while i < n
        invariant
            n == s@.len(),
            0 <= i <= n,
            out@ == o0 + seq!['"'] + escaped(s@.take(i as int)),
        decreases n - i,
    {
        let c = s.get_char(i);
        push_escaped(out, c);
        proof {
            assert(s@.take(i as int + 1).drop_last() =~= s@.take(i as int));
            assert(s@.take(i as int + 1).last() == s@[i as int]);
            assert(out@ =~= o0 + seq!['"'] + escaped(s@.take(i as int + 1)));
        }
        i = i + 1;
    }
    push_char(out, '"');
    proof {
        assert(s@.take(n as int) =~= s@);
        assert(out@ =~= o0 + json_string(s@));
    }
}

/// Append one record as a JSON object.
fn append_json_doc(out: &mut String, d: &Document)
    ensures
        final(out)@ == old(out)@ + json_doc(d@),
{
    let ghost o0 = out@;
    let ghost fv = d@.fields;
    push_char(out, '{');
    let n = d.fields.len();
    let mut i: usize = 0;
    proof {
        assert(fv.len() == n);
        assert(json_fields(fv.take(0)) =~= Seq::<char>::empty());
        assert(out@ =~= o0 + seq!['{'] + json_fields(fv.take(0)));
    }
    while i < n
        invariant
            n == d.fields.len(),
            fv == d@.fields,
            fv.len() == n,
            0 <= i <= n,
            out@ == o0 + seq!['{'] + json_fields(fv.take(i as int)),
        decreases n - i,
    {
        if i > 0 {
            push_char(out, ',');
        }
        let f = &d.fields[i];
        append_json_string(out, f.name.as_str());
        push_char(out, ':');
        append_json_string(out, f.value.as_str());
        proof {
            assert(fv[i as int] == d.fields@[i as int]@);
            assert(fv.take(i as int + 1).drop_last() =~= fv.take(i as int));
            assert(fv.take(i as int + 1).last() == fv[i as int]);
            if i == 0 {
                assert(json_fields(fv.take(1)) == json_field(fv[0]));
                assert(out@ =~= o0 + seq!['{'] + json_fields(fv.take(i as int + 1)));
            } else {
                assert(json_fields(fv.take(i as int + 1)) == json_fields(fv.take(i as int)) + seq![
                    ',',
                ] + json_field(fv[i as int]));
                assert(out@ =~= o0 + seq!['{'] + json_fields(fv.take(i as int + 1)));
            }
        }
        i = i + 1;
    }
    push_char(out, '}');
    proof {
        assert(fv.take(n as int) =~= fv);
        assert(out@ =~= o0 + json_doc(d@));
    }
}

/// Render the whole response body for the result records.
pub fn render_body(docs: &Vec<Document>) -> (r: String)
    ensures
        r@ == json_body(crate::store::doc_views(docs@)),
{
    let ghost dv = crate::store::doc_views(docs@);
    let mut out = String::new();
    push_char(&mut out, '[');
    let n = docs.len();
    let mut i: usize = 0;
    proof {
        assert(dv.len() == n);
        assert(json_docs(dv.take(0)) =~= Seq::<char>::empty());
        assert(out@ =~= seq!['['] + json_docs(dv.take(0)));
    }
    while i < n
        invariant
            n == docs.len(),
            dv == crate::store::doc_views(docs@),
            dv.len() == n,
            0 <= i <= n,
            out@ == seq!['['] + json_docs(dv.take(i as int)),
        decreases n - i,
    {
        if i > 0 {
            push_char(&mut out, ',');
        }
        append_json_doc(&mut out, &docs[i]);
        proof {
            assert(dv[i as int] == docs@[i as int]@);
            assert(dv.take(i as int + 1).drop_last() =~= dv.take(i as int));
            assert(dv.take(i as int + 1).last() == dv[i as int]);
            if i == 0 {
                assert(json_docs(dv.take(1)) == json_doc(dv[0]));
                assert(out@ =~= seq!['['] + json_docs(dv.take(i as int + 1)));
            } else {
                assert(json_docs(dv.take(i as int + 1)) == json_docs(dv.take(i as int)) + seq![',']
                    + json_doc(dv[i as int]));
                assert(out@ =~= seq!['['] + json_docs(dv.take(i as int + 1)));
            }
        }
        i = i + 1;
    }
    push_char(&mut out, ']');
    proof {
        assert(dv.take(n as int) =~= dv);
        assert(out@ =~= json_body(dv));
    }
    out
}

} // verus!
