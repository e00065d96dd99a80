//! The document text form used by the depth-collapse escape.
//!
//! A collapsed subtree is serialised to a compact document text (the JSON
//! grammar, without whitespace), enciphered as a string, and re-expanded on
//! decryption by parsing.  Both directions are defined here: a serialiser,
//! a parser, and the proof that parsing a serialised document restores it
//! exactly.
use vstd::prelude::*;

use crate::chars::all_digits;
use crate::chars::is_digit;
use crate::value::SpecValue;
use crate::value::Value;
use crate::value::view_of;
use crate::numeric::wf_integral;
use crate::numeric::wf_fraction;

verus! {

broadcast use vstd::std_specs::vec::group_vec_axioms, vstd::seq::group_seq_axioms;

/// The first index at or after `i` that holds a dot, or the length.
pub open spec fn find_dot(s: Seq<char>, i: int) -> int
    decreases s.len() - i,
{
    if i < 0 || i >= s.len() {
        s.len() as int
    } else if s[i] == '.' {
        i
    } else {
        find_dot(s, i + 1)
    }
}

/// A well-formed decimal numeral: an integral half and, after an optional
/// dot, a fractional half with no trailing zero.
pub open spec fn wf_number(s: Seq<char>) -> bool {
    let d = find_dot(s, 0);
    if d == s.len() {
        wf_integral(s)
    } else {
        wf_integral(s.subrange(0, d)) && wf_fraction(s.subrange(d + 1, s.len() as int))
    }
}

/// A well-formed document: every number leaf is a well-formed numeral.
pub open spec fn wf_doc(v: SpecValue) -> bool
    decreases v,
{
    match v {
        SpecValue::Null => true,
        SpecValue::Bool(_) => true,
        SpecValue::Number(s) => wf_number(s),
        SpecValue::Text(_) => true,
        SpecValue::Array(es) => forall|i: int|
            0 <= i < es.len() ==> wf_doc(#[trigger] es[i]),
        SpecValue::Object(ps) => forall|i: int|
            0 <= i < ps.len() ==> wf_doc(#[trigger] ps[i].1),
    }
}

/// The escape of one string character: quotes and backslashes take a
/// backslash prefix, everything else stands for itself.
pub open spec fn esc_char(c: char) -> Seq<char> {
    if c == '"' || c == '\\' {
        seq!['\\', c]
    } else {
        seq![c]
    }
}

/// The escaped form of a string body.
pub open spec fn esc(s: Seq<char>) -> Seq<char>
    decreases s.len(),
{
    if s.len() == 0 {
        Seq::empty()
    } else {
        esc_char(s[0]) + esc(s.drop_first())
    }
}

/// A string in its serialised form: quote, escaped body, quote.
pub open spec fn quoted(s: Seq<char>) -> Seq<char> {
    seq!['"'] + esc(s) + seq!['"']
}

/// The serialised text of a document value.
pub open spec fn json_text(v: SpecValue) -> Seq<char>
    decreases v, 0nat,
{
    match v {
        SpecValue::Null => seq!['n', 'u', 'l', 'l'],
        SpecValue::Bool(b) => if b {
            seq!['t', 'r', 'u', 'e']
        } else {
            seq!['f', 'a', 'l', 's', 'e']
        },
        SpecValue::Number(s) => s,
        SpecValue::Text(s) => quoted(s),
        SpecValue::Array(es) => seq!['['] + json_items(es, 0) + seq![']'],
        SpecValue::Object(ps) => seq!['{'] + json_members(ps, 0) + seq!['}'],
    }
}

/// The serialised array elements from index `k` on, separated by commas.
pub open spec fn json_items(es: Seq<SpecValue>, k: int) -> Seq<char>
    decreases es, es.len() - k,
{
    if k < 0 || k >= es.len() {
        Seq::empty()
    } else if k == es.len() - 1 {
        json_text(es[k])
    } else {
        json_text(es[k]) + seq![','] + json_items(es, k + 1)
    }
}

/// The serialised object members from index `k` on: quoted key, colon,
/// value, separated by commas.
pub open spec fn json_members(ps: Seq<(Seq<char>, SpecValue)>, k: int) -> Seq<char>
    decreases ps, ps.len() - k,
{
    if k < 0 || k >= ps.len() {
        Seq::empty()
    } else if k == ps.len() - 1 {
        quoted(ps[k].0) + seq![':'] + json_text(ps[k].1)
    } else {
        quoted(ps[k].0) + seq![':'] + json_text(ps[k].1) + seq![','] + json_members(ps, k + 1)
    }
}

/// Reads a string body up to its closing quote, undoing the escapes;
/// returns the body and the index after the closing quote.
pub open spec fn parse_string_body(s: Seq<char>, i: int) -> Option<(Seq<char>, int)>
    decreases s.len() - i,
{
    if i < 0 || i >= s.len() {
        Option::None
    } else if s[i] == '"' {
        Option::Some((Seq::empty(), i + 1))
    } else if s[i] == '\\' {
        if i + 1 < s.len() && (s[i + 1] == '"' || s[i + 1] == '\\') {
            match parse_string_body(s, i + 2) {
                Option::Some((t, j)) => Option::Some((seq![s[i + 1]] + t, j)),
                Option::None => Option::None,
            }
        } else {
            Option::None
        }
    } else {
        match parse_string_body(s, i + 1) {
            Option::Some((t, j)) => Option::Some((seq![s[i]] + t, j)),
            Option::None => Option::None,
        }
    }
}

/// The first index at or after `i` that holds no digit, or the length.
pub open spec fn scan_digits(s: Seq<char>, i: int) -> int
    decreases s.len() - i,
{
    if i < 0 || i >= s.len() {
        s.len() as int
    } else if is_digit(s[i]) {
        scan_digits(s, i + 1)
    } else {
        i
    }
}

/// Reads a numeral: an optional minus sign, digits, and optionally a dot
/// with more digits.  Returns the numeral text and the index after it.
pub open spec fn parse_number(s: Seq<char>, i: int) -> Option<(Seq<char>, int)> {
    if i < 0 || i >= s.len() {
        Option::None
    } else {
        let j0 = if s[i] == '-' {
            i + 1
        } else {
            i
        };
        let j1 = scan_digits(s, j0);
        if j1 == j0 {
            Option::None
        } else if j1 < s.len() && s[j1] == '.' {
            let j2 = scan_digits(s, j1 + 1);
            if j2 == j1 + 1 {
                Option::None
            } else {
                Option::Some((s.subrange(i, j2), j2))
            }
        } else {
            Option::Some((s.subrange(i, j1), j1))
        }
    }
}

/// Reads one value starting at `i`; returns it and the index after it.
pub open spec fn parse_value(s: Seq<char>, i: int) -> Option<(SpecValue, int)>
    decreases s.len() - i, 0nat,
{
    if i < 0 || i >= s.len() {
        Option::None
    } else if s[i] == 'n' {
        if i + 4 <= s.len() && s.subrange(i, i + 4) == seq!['n', 'u', 'l', 'l'] {
            Option::Some((SpecValue::Null, i + 4))
        } else {
            Option::None
        }
    } else if s[i] == 't' {
        if i + 4 <= s.len() && s.subrange(i, i + 4) == seq!['t', 'r', 'u', 'e'] {
            Option::Some((SpecValue::Bool(true), i + 4))
        } else {
            Option::None
        }
    } else if s[i] == 'f' {
        if i + 5 <= s.len() && s.subrange(i, i + 5) == seq!['f', 'a', 'l', 's', 'e'] {
            Option::Some((SpecValue::Bool(false), i + 5))
        } else {
            Option::None
        }
    } else if s[i] == '"' {
        match parse_string_body(s, i + 1) {
            Option::Some((t, j)) => Option::Some((SpecValue::Text(t), j)),
            Option::None => Option::None,
        }
    } else if s[i] == '[' {
        if i + 1 < s.len() && s[i + 1] == ']' {
            Option::Some((SpecValue::Array(Seq::empty()), i + 2))
        } else {
            match parse_elems(s, i + 1) {
                Option::Some((es, j)) => Option::Some((SpecValue::Array(es), j)),
                Option::None => Option::None,
            }
        }
    } else if s[i] == '{' {
        if i + 1 < s.len() && s[i + 1] == '}' {
            Option::Some((SpecValue::Object(Seq::empty()), i + 2))
        } else {
            match parse_members(s, i + 1) {
                Option::Some((ps, j)) => Option::Some((SpecValue::Object(ps), j)),
                Option::None => Option::None,
            }
        }
    } else if s[i] == '-' || is_digit(s[i]) {
        match parse_number(s, i) {
            Option::Some((t, j)) => Option::Some((SpecValue::Number(t), j)),
            Option::None => Option::None,
        }
    } else {
        Option::None
    }
}

/// Reads the elements of a non-empty array, from the first element up to
/// and including the closing bracket.
pub open spec fn parse_elems(s: Seq<char>, i: int) -> Option<(Seq<SpecValue>, int)>
    decreases s.len() - i, 1nat,
{
    match parse_value(s, i) {
        Option::None => Option::None,
        Option::Some((v, j)) => {
            if j <= i || j >= s.len() {
                Option::None
            } else if s[j] == ',' {
                match parse_elems(s, j + 1) {
                    Option::Some((es, j2)) => Option::Some((seq![v] + es, j2)),
                    Option::None => Option::None,
                }
            } else if s[j] == ']' {
                Option::Some((seq![v], j + 1))
            } else {
                Option::None
            }
        },
    }
}

/// Reads the members of a non-empty object, from the first key up to and
/// including the closing brace.
pub open spec fn parse_members(s: Seq<char>, i: int) -> Option<(Seq<(Seq<char>, SpecValue)>, int)>
    decreases s.len() - i, 1nat,
{
    if i < 0 || i >= s.len() || s[i] != '"' {
        Option::None
    } else {
        match parse_string_body(s, i + 1) {
            Option::None => Option::None,
            Option::Some((k, j)) => {
                if j <= i + 1 || j >= s.len() || s[j] != ':' {
                    Option::None
                } else {
                    match parse_value(s, j + 1) {
                        Option::None => Option::None,
                        Option::Some((v, j2)) => {
                            if j2 <= j || j2 >= s.len() {
                                Option::None
                            } else if s[j2] == ',' {
                                match parse_members(s, j2 + 1) {
                                    Option::Some((ps, j3)) => Option::Some(
                                        (seq![(k, v)] + ps, j3),
                                    ),
                                    Option::None => Option::None,
                                }
                            } else if s[j2] == '}' {
                                Option::Some((seq![(k, v)], j2 + 1))
                            } else {
                                Option::None
                            }
                        },
                    }
                }
            },
        }
    }
}

/// A separator that can follow a serialised value inside a container.
pub open spec fn is_sep(c: char) -> bool {
    c == ',' || c == ']' || c == '}'
}

/// A character that can start a serialised value.
pub open spec fn json_head_ok(c: char) -> bool {
    c == 'n' || c == 't' || c == 'f' || c == '"' || c == '[' || c == '{' || c == '-' || is_digit(c)
}

/// The serialised text of a well-formed value is non-empty and starts with
/// a value-head character (never with a separator).
pub proof fn lemma_json_text_head(v: SpecValue)
    requires
        wf_doc(v),
    ensures
        json_text(v).len() >= 1,
        json_head_ok(json_text(v)[0]),
{
    match v {
        SpecValue::Number(s) => {
            let d = find_dot(s, 0);
            lemma_find_dot(s, 0);
            if d == s.len() {
                assert(wf_integral(s));
                if !(s.len() > 0 && s[0] == '-') {
                    assert(is_digit(s[0]));
                }
            } else {
                let left = s.subrange(0, d);
                assert(wf_integral(left));
                if !(left.len() > 0 && left[0] == '-') {
                    assert(is_digit(left[0]));
                }
                assert(s[0] == left[0]);
            }
        },
        _ => {},
    }
}

/// `find_dot` yields the first dot position: no dot lies before it, and a
/// dot stands at it unless it is the length.
pub proof fn lemma_find_dot(s: Seq<char>, i: int)
    requires
        0 <= i <= s.len(),
    ensures
        i <= find_dot(s, i) <= s.len(),
        forall|q: int| i <= q < find_dot(s, i) ==> s[q] != '.',
        find_dot(s, i) < s.len() ==> s[find_dot(s, i)] == '.',
    decreases s.len() - i,
{
    if i < s.len() && s[i] != '.' {
        lemma_find_dot(s, i + 1);
    }
}

/// `scan_digits` stops exactly at the first non-digit.
pub proof fn lemma_scan_digits(s: Seq<char>, a: int, b: int)
    requires
        0 <= a <= b <= s.len(),
        forall|q: int| a <= q < b ==> is_digit(#[trigger] s[q]),
        b == s.len() || !is_digit(s[b]),
    ensures
        scan_digits(s, a) == b,
    decreases b - a,
{
    if a < b {
        lemma_scan_digits(s, a + 1, b);
    }
}

/// Parsing a string body reads an escaped body followed by a closing quote
/// back to the original characters.
pub proof fn lemma_parse_string_body(t: Seq<char>, s: Seq<char>, i: int)
    requires
        0 <= i,
        i + esc(t).len() + 1 <= s.len(),
        s.subrange(i, i + esc(t).len()) == esc(t),
        s[i + esc(t).len()] == '"',
    ensures
        parse_string_body(s, i) == Option::Some((t, i + esc(t).len() + 1)),
    decreases t.len(),
{
    if t.len() == 0 {
        assert(esc(t) =~= Seq::empty());
        assert(s[i] == '"');
        assert(parse_string_body(s, i) == Option::Some((Seq::<char>::empty(), i + 1)));
        assert(Seq::<char>::empty() =~= t);
    } else {
        let c = t[0];
        let rest = t.drop_first();
        let e = esc(t);
        assert(e =~= esc_char(c) + esc(rest));
        assert(forall|q: int| 0 <= q < e.len() ==> s[i + q] == #[trigger] e[q]) by {
            assert(forall|q: int|
                0 <= q < e.len() ==> #[trigger] s.subrange(i, i + e.len() as int)[q] == e[q]);
        }
        if c == '"' || c == '\\' {
            assert(e[0] == '\\');
            assert(e[1] == c);
            assert(s[i] == '\\');
            assert(s[i + 1] == c);
            assert(s.subrange(i + 2, i + 2 + esc(rest).len()) =~= esc(rest)) by {
                assert(forall|q: int|
                    0 <= q < esc(rest).len() ==> #[trigger] s.subrange(
                        i + 2,
                        i + 2 + esc(rest).len() as int,
                    )[q] == e[2 + q]);
                assert(forall|q: int|
                    0 <= q < esc(rest).len() ==> e[2 + q] == #[trigger] esc(rest)[q]);
            }
            assert(e.len() == 2 + esc(rest).len());
            lemma_parse_string_body(rest, s, i + 2);
            assert(seq![s[i + 1]] + rest =~= t);
        } else {
            assert(e[0] == c);
            assert(s[i] == c);
            assert(s[i] != '"' && s[i] != '\\');
            assert(s.subrange(i + 1, i + 1 + esc(rest).len()) =~= esc(rest)) by {
                assert(forall|q: int|
                    0 <= q < esc(rest).len() ==> #[trigger] s.subrange(
                        i + 1,
                        i + 1 + esc(rest).len() as int,
                    )[q] == e[1 + q]);
                assert(forall|q: int|
                    0 <= q < esc(rest).len() ==> e[1 + q] == #[trigger] esc(rest)[q]);
            }
            assert(e.len() == 1 + esc(rest).len());
            lemma_parse_string_body(rest, s, i + 1);
            assert(seq![s[i]] + rest =~= t);
        }
    }
}

/// Parsing a well-formed numeral followed by a separator (or the end) reads
/// exactly the numeral.
pub proof fn lemma_parse_number(t: Seq<char>, s: Seq<char>, i: int)
    requires
        wf_number(t),
        0 <= i,
        i + t.len() <= s.len(),
        s.subrange(i, i + t.len()) == t,
        i + t.len() == s.len() || is_sep(s[i + t.len()]),
    ensures
        parse_number(s, i) == Option::Some((t, i + t.len())),
{
    let n = t.len() as int;
    assert(forall|q: int| 0 <= q < n ==> s[i + q] == t[q]) by {
        assert(forall|q: int| 0 <= q < n ==> #[trigger] s.subrange(i, i + n)[q] == t[q]);
    }
    let d = find_dot(t, 0);
    lemma_find_dot(t, 0);
    if d == n {
        assert(wf_integral(t));
        let neg = t.len() > 0 && t[0] == '-';
        let off: int = if neg {
            1
        } else {
            0
        };
        let body = if neg {
            t.drop_first()
        } else {
            t
        };
        assert(forall|q: int| off <= q < n ==> is_digit(#[trigger] t[q])) by {
            assert(forall|q: int| off <= q < n ==> #[trigger] t[q] == body[q - off]);
        }
        assert(forall|q: int| i + off <= q < i + n ==> is_digit(#[trigger] s[q])) by {
            assert(forall|q: int| i + off <= q < i + n ==> #[trigger] s[q] == t[q - i]);
        }
        assert(i + n == s.len() || !is_digit(s[i + n]));
        lemma_scan_digits(s, i + off, i + n);
        assert(body.len() >= 1);
        assert(s.subrange(i, i + n) =~= t);
    } else {
        let left = t.subrange(0, d);
        let right = t.subrange(d + 1, n);
        assert(wf_integral(left) && wf_fraction(right));
        let neg = left.len() > 0 && left[0] == '-';
        let off: int = if neg {
            1
        } else {
            0
        };
        let body = if neg {
            left.drop_first()
        } else {
            left
        };
        assert(t[d] == '.');
        assert(s[i + d] == '.');
        assert(forall|q: int| off <= q < d ==> is_digit(#[trigger] t[q])) by {
            assert(forall|q: int| off <= q < d ==> #[trigger] t[q] == body[q - off]);
        }
        assert(forall|q: int| i + off <= q < i + d ==> is_digit(#[trigger] s[q])) by {
            assert(forall|q: int| i + off <= q < i + d ==> #[trigger] s[q] == t[q - i]);
        }
        assert(!is_digit('.')) by {
            assert('.' as u32 == 46);
        }
        lemma_scan_digits(s, i + off, i + d);
        assert(body.len() >= 1);
        assert(forall|q: int| i + d + 1 <= q < i + n ==> is_digit(#[trigger] s[q])) by {
            assert(forall|q: int| d + 1 <= q < n ==> #[trigger] t[q] == right[q - d - 1]);
            assert(forall|q: int| i + d + 1 <= q < i + n ==> #[trigger] s[q] == t[q - i]);
        }
        assert(i + n == s.len() || !is_digit(s[i + n]));
        lemma_scan_digits(s, i + d + 1, i + n);
        assert(right.len() >= 1);
        assert(s.subrange(i, i + n) =~= t);
    }
}

/// Aligns a slice of `s` with the matching slice of `t`, given that `t`
/// stands in `s` at offset `i`.
proof fn lemma_sub_align(s: Seq<char>, i: int, t: Seq<char>, a: int, b: int)
    requires
        0 <= i,
        i + t.len() <= s.len(),
        s.subrange(i, i + t.len() as int) == t,
        0 <= a <= b <= t.len(),
    ensures
        s.subrange(i + a, i + b) == t.subrange(a, b),
{
    assert(forall|q: int| 0 <= q < t.len() ==> s[i + q] == #[trigger] t[q]) by {
        assert(forall|q: int|
            0 <= q < t.len() ==> #[trigger] s.subrange(i, i + t.len() as int)[q] == t[q]);
    }
    assert(s.subrange(i + a, i + b) =~= t.subrange(a, b));
}

/// The character of `s` at offset `a` inside an embedded copy of `t`.
proof fn lemma_sub_at(s: Seq<char>, i: int, t: Seq<char>, a: int)
    requires
        0 <= i,
        i + t.len() <= s.len(),
        s.subrange(i, i + t.len() as int) == t,
        0 <= a < t.len(),
    ensures
        s[i + a] == t[a],
{
    assert(s.subrange(i, i + t.len() as int)[a] == t[a]);
}

/// Parsing the serialised text of a well-formed value, followed by a
/// separator or the end of input, reads back exactly that value.
pub proof fn lemma_parse_text(v: SpecValue, s: Seq<char>, i: int)
    requires
        wf_doc(v),
        0 <= i,
        i + json_text(v).len() <= s.len(),
        s.subrange(i, i + json_text(v).len() as int) == json_text(v),
        i + json_text(v).len() == s.len() || is_sep(s[i + json_text(v).len()]),
    ensures
        parse_value(s, i) == Option::Some((v, i + json_text(v).len())),
    decreases v, 0nat, 0nat,
{
    let t = json_text(v);
    let n = t.len() as int;
    lemma_json_text_head(v);
    lemma_sub_at(s, i, t, 0);
    match v {
        SpecValue::Null => {
            assert(s.subrange(i, i + 4) == seq!['n', 'u', 'l', 'l']);
        },
        SpecValue::Bool(b) => {
            if b {
                assert(s.subrange(i, i + 4) == seq!['t', 'r', 'u', 'e']);
            } else {
                assert(s.subrange(i, i + 5) == seq!['f', 'a', 'l', 's', 'e']);
            }
        },
        SpecValue::Number(num) => {
            lemma_parse_number(num, s, i);
        },
        SpecValue::Text(str) => {
            let e = esc(str);
            assert(t =~= seq!['"'] + e + seq!['"']);
            assert(s[i] == '"');
            lemma_sub_align(s, i, t, 1, 1 + e.len() as int);
            assert(t.subrange(1, 1 + e.len() as int) =~= e);
            lemma_sub_at(s, i, t, n - 1);
            assert(t[n - 1] == '"');
            lemma_parse_string_body(str, s, i + 1);
        },
        SpecValue::Array(es) => {
            if es.len() == 0 {
                assert(json_items(es, 0) =~= Seq::empty());
                assert(t =~= seq!['[', ']']);
                lemma_sub_at(s, i, t, 1);
                assert(s[i + 1] == ']');
                assert(es =~= Seq::<SpecValue>::empty());
            } else {
                let items = json_items(es, 0);
                assert(t =~= seq!['['] + items + seq![']']);
                assert(s[i] == '[');
                assert(wf_doc(es[0]));
                lemma_json_text_head(es[0]);
                assert(items[0] == json_text(es[0])[0]);
                lemma_sub_at(s, i, t, 1);
                assert(s[i + 1] == items[0]);
                assert(s[i + 1] != ']');
                lemma_sub_align(s, i, t, 1, 1 + items.len() as int);
                assert(t.subrange(1, 1 + items.len() as int) =~= items);
                lemma_sub_at(s, i, t, n - 1);
                assert(t[n - 1] == ']');
                assert(s[i + 1 + items.len()] == ']');
                lemma_parse_items(es, 0, s, i + 1);
                assert(es.skip(0) =~= es);
                assert(i + 1 + items.len() + 1 == i + n);
            }
        },
        SpecValue::Object(ps) => {
            if ps.len() == 0 {
                assert(json_members(ps, 0) =~= Seq::empty());
                assert(t =~= seq!['{', '}']);
                lemma_sub_at(s, i, t, 1);
                assert(s[i + 1] == '}');
                assert(ps =~= Seq::<(Seq<char>, SpecValue)>::empty());
            } else {
                let membs = json_members(ps, 0);
                assert(t =~= seq!['{'] + membs + seq!['}']);
                assert(s[i] == '{');
                assert(membs[0] == quoted(ps[0].0)[0]);
                assert(membs[0] == '"');
                lemma_sub_at(s, i, t, 1);
                assert(s[i + 1] == '"');
                assert(s[i + 1] != '}');
                lemma_sub_align(s, i, t, 1, 1 + membs.len() as int);
                assert(t.subrange(1, 1 + membs.len() as int) =~= membs);
                lemma_sub_at(s, i, t, n - 1);
                assert(t[n - 1] == '}');
                assert(s[i + 1 + membs.len()] == '}');
                lemma_parse_membs(ps, 0, s, i + 1);
                assert(ps.skip(0) =~= ps);
                assert(i + 1 + membs.len() + 1 == i + n);
            }
        },
    }
}

/// Parsing the serialised elements from index `k` on, followed by the
/// closing bracket, reads back exactly those elements.
pub proof fn lemma_parse_items(es: Seq<SpecValue>, k: int, s: Seq<char>, i: int)
    requires
        0 <= k < es.len(),
        forall|q: int| 0 <= q < es.len() ==> wf_doc(#[trigger] es[q]),
        0 <= i,
        i + json_items(es, k).len() + 1 <= s.len(),
        s.subrange(i, i + json_items(es, k).len() as int) == json_items(es, k),
        s[i + json_items(es, k).len()] == ']',
    ensures
        parse_elems(s, i) == Option::Some((es.skip(k), i + json_items(es, k).len() + 1)),
    decreases es, (es.len() - k) as nat, 1nat,
{
    let t = json_items(es, k);
    let n = t.len() as int;
    let t0 = json_text(es[k]);
    let n0 = t0.len() as int;
    lemma_json_text_head(es[k]);
    if k == es.len() - 1 {
        assert(t == t0);
        lemma_parse_text(es[k], s, i);
        assert(parse_elems(s, i) == Option::Some((seq![es[k]], i + n0 + 1)));
        assert(seq![es[k]] =~= es.skip(k));
    } else {
        let rest = json_items(es, k + 1);
        assert(t =~= t0 + seq![','] + rest);
        lemma_sub_align(s, i, t, 0, n0);
        assert(t.subrange(0, n0) =~= t0);
        lemma_sub_at(s, i, t, n0);
        assert(t[n0] == ',');
        assert(s[i + n0] == ',');
        lemma_parse_text(es[k], s, i);
        lemma_sub_align(s, i, t, n0 + 1, n);
        assert(t.subrange(n0 + 1, n) =~= rest);
        assert(i + n0 + 1 + rest.len() == i + n);
        lemma_parse_items(es, k + 1, s, i + n0 + 1);
        assert(seq![es[k]] + es.skip(k + 1) =~= es.skip(k));
    }
}

/// Parsing the serialised members from index `k` on, followed by the
/// closing brace, reads back exactly those members.
pub proof fn lemma_parse_membs(ps: Seq<(Seq<char>, SpecValue)>, k: int, s: Seq<char>, i: int)
    requires
        0 <= k < ps.len(),
        forall|q: int| 0 <= q < ps.len() ==> wf_doc(#[trigger] ps[q].1),
        0 <= i,
        i + json_members(ps, k).len() + 1 <= s.len(),
        s.subrange(i, i + json_members(ps, k).len() as int) == json_members(ps, k),
        s[i + json_members(ps, k).len()] == '}',
    ensures
        parse_members(s, i) == Option::Some((ps.skip(k), i + json_members(ps, k).len() + 1)),
    decreases ps, (ps.len() - k) as nat, 1nat,
{
    let t = json_members(ps, k);
    let n = t.len() as int;
    let key = ps[k].0;
    let v0 = ps[k].1;
    let q0 = quoted(key);
    let nq = q0.len() as int;
    let t0 = json_text(v0);
    let n0 = t0.len() as int;
    let e = esc(key);
    lemma_json_text_head(v0);
    if k == ps.len() - 1 {
        assert(t =~= q0 + seq![':'] + t0);
        assert(n == nq + 1 + n0);
        lemma_sub_at(s, i, t, 0);
        assert(t[0] == '"');
        assert(s[i] == '"');
        assert(q0 =~= seq!['"'] + e + seq!['"']);
        lemma_sub_align(s, i, t, 1, 1 + e.len() as int);
        assert(t.subrange(1, 1 + e.len() as int) =~= e);
        lemma_sub_at(s, i, t, nq - 1);
        assert(t[nq - 1] == '"');
        lemma_parse_string_body(key, s, i + 1);
        lemma_sub_at(s, i, t, nq);
        assert(t[nq] == ':');
        assert(s[i + nq] == ':');
        lemma_sub_align(s, i, t, nq + 1, n);
        assert(t.subrange(nq + 1, n) =~= t0);
        lemma_parse_text(v0, s, i + nq + 1);
        assert(s[i + nq + 1 + n0] == '}');
        assert(seq![(key, v0)] =~= ps.skip(k));
        assert((key, v0) == ps[k]);
    } else {
        let rest = json_members(ps, k + 1);
        assert(t =~= q0 + seq![':'] + t0 + seq![','] + rest);
        assert(n == nq + 1 + n0 + 1 + rest.len());
        lemma_sub_at(s, i, t, 0);
        assert(t[0] == '"');
        assert(s[i] == '"');
        assert(q0 =~= seq!['"'] + e + seq!['"']);
        lemma_sub_align(s, i, t, 1, 1 + e.len() as int);
        assert(t.subrange(1, 1 + e.len() as int) =~= e);
        lemma_sub_at(s, i, t, nq - 1);
        assert(t[nq - 1] == '"');
        lemma_parse_string_body(key, s, i + 1);
        lemma_sub_at(s, i, t, nq);
        assert(t[nq] == ':');
        assert(s[i + nq] == ':');
        lemma_sub_align(s, i, t, nq + 1, nq + 1 + n0);
        assert(t.subrange(nq + 1, nq + 1 + n0) =~= t0);
        lemma_sub_at(s, i, t, nq + 1 + n0);
        assert(t[nq + 1 + n0] == ',');
        lemma_parse_text(v0, s, i + nq + 1);
        lemma_sub_align(s, i, t, nq + 1 + n0 + 1, n);
        assert(t.subrange(nq + 1 + n0 + 1, n) =~= rest);
        assert(i + nq + 1 + n0 + 1 + rest.len() == i + n);
        lemma_parse_membs(ps, k + 1, s, i + nq + 1 + n0 + 1);
        assert(seq![(key, v0)] + ps.skip(k + 1) =~= ps.skip(k));
        assert((key, v0) == ps[k]);
    }
}

/// Parsing the serialised text of a well-formed value restores the value
/// exactly: the serialiser and the parser are mutual inverses on documents.
pub proof fn lemma_parse_document_of_text(v: SpecValue)
    requires
        wf_doc(v),
    ensures
        parse_document(json_text(v)) == Option::Some(v),
{
    let t = json_text(v);
    assert(t.subrange(0, t.len() as int) =~= t);
    lemma_parse_text(v, t, 0);
}

/// Parses a whole text as one document value, demanding that the text is
/// consumed exactly.
pub open spec fn parse_document(s: Seq<char>) -> Option<SpecValue> {
    match parse_value(s, 0) {
        Option::Some((v, j)) => if j == s.len() {
            Option::Some(v)
        } else {
            Option::None
        },
        Option::None => Option::None,
    }
}

/// Appending one character extends the escaped form by that character's
/// escape.
pub proof fn lemma_esc_snoc(t: Seq<char>, c: char)
    ensures
        esc(t.push(c)) == esc(t) + esc_char(c),
    decreases t.len(),
{
    if t.len() == 0 {
        assert(t.push(c)[0] == c);
        assert(t.push(c).drop_first() =~= Seq::<char>::empty());
        assert(esc(Seq::<char>::empty()) =~= Seq::<char>::empty());
        assert(esc(t.push(c)) =~= esc_char(c));
        assert(esc(t) + esc_char(c) =~= esc_char(c));
    } else {
        assert(t.push(c)[0] == t[0]);
        assert(t.push(c).drop_first() =~= t.drop_first().push(c));
        lemma_esc_snoc(t.drop_first(), c);
        assert(esc(t.push(c)) =~= esc(t) + esc_char(c));
    }
}

/// Writes the escaped form of `s` onto `out`.
fn write_esc(s: &str, out: &mut Vec<char>)
    ensures
        final(out)@ == old(out)@ + esc(s@),
{
    let n = s.unicode_len();
    let mut i: usize = 0;
    proof {
        assert(s@.subrange(0, 0) =~= Seq::empty());
        assert(out@ =~= old(out)@ + esc(s@.subrange(0, 0)));
    }
    while i < n
        invariant
            i <= n,
            n == s@.len(),
            out@ == old(out)@ + esc(s@.subrange(0, i as int)),
        decreases n - i,
    {
        let c = s.get_char(i);
        if c == '"' || c == '\\' {
            out.push('\\');
            out.push(c);
        } else {
            out.push(c);
        }
        proof {
            let pre = s@.subrange(0, i as int);
            lemma_esc_snoc(pre, c);
            assert(pre.push(c) =~= s@.subrange(0, i + 1 as int));
            if c == '"' || c == '\\' {
                assert(out@ =~= old(out)@ + esc(pre) + esc_char(c));
            } else {
                assert(out@ =~= old(out)@ + esc(pre) + esc_char(c));
            }
            assert(out@ =~= old(out)@ + esc(s@.subrange(0, i + 1 as int)));
        }
        i = i + 1;
    }
    proof {
        assert(s@.subrange(0, n as int) =~= s@);
    }
}

/// Writes the serialised text of `v` onto `out`.
pub fn write_text(v: &Value, out: &mut Vec<char>)
    ensures
        final(out)@ == old(out)@ + json_text(v@),
    decreases v, 0nat, 0nat,
{
    match v {
        Value::Null => {
            out.push('n');
            out.push('u');
            out.push('l');
            out.push('l');
            assert(out@ =~= old(out)@ + json_text(v@));
        },
        Value::Bool(b) => {
            if *b {
                out.push('t');
                out.push('r');
                out.push('u');
                out.push('e');
            } else {
                out.push('f');
                out.push('a');
                out.push('l');
                out.push('s');
                out.push('e');
            }
            assert(out@ =~= old(out)@ + json_text(v@));
        },
        Value::Number(s) => {
            let mut cv = crate::chars::chars_of(s.as_str());
            out.append(&mut cv);
            assert(out@ =~= old(out)@ + json_text(v@));
        },
        Value::Text(s) => {
            out.push('"');
            write_esc(s.as_str(), out);
            out.push('"');
            assert(out@ =~= old(out)@ + json_text(v@));
        },
        Value::Array(vs) => {
            out.push('[');
            if vs.len() > 0 {
                write_items(vs, 0, out);
            }
            out.push(']');
            proof {
                assert(view_of_elems(vs) =~= v@->Array_0);
                if vs@.len() == 0 {
                    assert(json_items(v@->Array_0, 0) =~= Seq::empty());
                }
                assert(out@ =~= old(out)@ + json_text(v@));
            }
        },
        Value::Object(ps) => {
            out.push('{');
            if ps.len() > 0 {
                write_members(ps, 0, out);
            }
            out.push('}');
            proof {
                assert(view_of_members(ps) =~= v@->Object_0);
                if ps@.len() == 0 {
                    assert(json_members(v@->Object_0, 0) =~= Seq::empty());
                }
                assert(out@ =~= old(out)@ + json_text(v@));
            }
        },
    }
}

/// Writes the serialised elements of `vs` from index `k` on.
fn write_items(vs: &Vec<Value>, k: usize, out: &mut Vec<char>)
    requires
        k < vs@.len(),
    ensures
        final(out)@ == old(out)@ + json_items(view_of_elems(vs), k as int),
    decreases vs, vs@.len() - k, 1nat,
{
    write_text(&vs[k], out);
    proof {
        assert(view_of_elems(vs)[k as int] == vs@[k as int]@);
    }
    if k < vs.len() - 1 {
        out.push(',');
        write_items(vs, k + 1, out);
        assert(out@ =~= old(out)@ + json_items(view_of_elems(vs), k as int));
    } else {
        assert(out@ =~= old(out)@ + json_items(view_of_elems(vs), k as int));
    }
}

/// Writes the serialised members of `ps` from index `k` on.
fn write_members(ps: &Vec<(String, Value)>, k: usize, out: &mut Vec<char>)
    requires
        k < ps@.len(),
    ensures
        final(out)@ == old(out)@ + json_members(view_of_members(ps), k as int),
    decreases ps, ps@.len() - k, 1nat,
{
    out.push('"');
    write_esc(ps[k].0.as_str(), out);
    out.push('"');
    out.push(':');
    write_text(&ps[k].1, out);
    proof {
        assert(view_of_members(ps)[k as int].0 == ps@[k as int].0@);
        assert(view_of_members(ps)[k as int].1 == ps@[k as int].1@);
    }
    if k < ps.len() - 1 {
        out.push(',');
        write_members(ps, k + 1, out);
        assert(out@ =~= old(out)@ + json_members(view_of_members(ps), k as int));
    } else {
        assert(out@ =~= old(out)@ + json_members(view_of_members(ps), k as int));
    }
}

/// The element views of an array's backing vector.
pub open spec fn view_of_elems(vs: &Vec<Value>) -> Seq<SpecValue> {
    Seq::new(vs@.len(), |i: int| if 0 <= i < vs@.len() { view_of(vs@[i]) } else { SpecValue::Null })
}

/// The member views of an object's backing vector.
pub open spec fn view_of_members(ps: &Vec<(String, Value)>) -> Seq<(Seq<char>, SpecValue)> {
    Seq::new(
        ps@.len(),
        |i: int|
            if 0 <= i < ps@.len() {
                (ps@[i].0@, view_of(ps@[i].1))
            } else {
                (Seq::empty(), SpecValue::Null)
            },
    )
}

/// The serialised text of a document value, as a string.
pub fn to_json_string(v: &Value) -> (r: String)
    ensures
        r@ == json_text(v@),
{
    let mut out: Vec<char> = Vec::new();
    write_text(v, &mut out);
    proof {
        assert(out@ =~= json_text(v@));
    }
    crate::chars::string_of_chars(&out)
}


/// Reads a string body in executable code, mirroring `parse_string_body`.
fn p_string_body(s: &Vec<char>, i: usize) -> (r: Option<(Vec<char>, usize)>)
    ensures
        match r {
            Option::None => parse_string_body(s@, i as int) is None,
            Option::Some((t, j)) => parse_string_body(s@, i as int) == Option::Some(
                (t@, j as int),
            ) && i < j <= s@.len(),
        },
    decreases s@.len() - i,
{
    if i >= s.len() {
        return Option::None;
    }
    let c = s[i];
    if c == '"' {
        let t: Vec<char> = Vec::new();
        proof {
            assert(t@ =~= Seq::<char>::empty());
        }
        Option::Some((t, i + 1))
    } else if c == '\\' {
        if i + 1 < s.len() && (s[i + 1] == '"' || s[i + 1] == '\\') {
            match p_string_body(s, i + 2) {
                Option::Some((t, j)) => {
                    let ghost gt = t@;
                    let mut out: Vec<char> = Vec::new();
                    out.push(s[i + 1]);
                    let mut tm = t;
                    out.append(&mut tm);
                    proof {
                        assert(out@ =~= seq![s@[i + 1 as int]] + gt);
                    }
                    Option::Some((out, j))
                },
                Option::None => Option::None,
            }
        } else {
            Option::None
        }
    } else {
        match p_string_body(s, i + 1) {
            Option::Some((t, j)) => {
                let ghost gt = t@;
                let mut out: Vec<char> = Vec::new();
                out.push(c);
                let mut tm = t;
                out.append(&mut tm);
                proof {
                    assert(out@ =~= seq![s@[i as int]] + gt);
                }
                Option::Some((out, j))
            },
            Option::None => Option::None,
        }
    }
}

/// Finds the end of a digit run in executable code.
fn scan_digits_exec(s: &Vec<char>, a: usize) -> (b: usize)
    requires
        a <= s@.len(),
    ensures
        a <= b <= s@.len(),
        b as int == scan_digits(s@, a as int),
{
    let mut j: usize = a;
    while j < s.len() && crate::chars::is_digit_char(s[j])
        invariant
            a <= j <= s@.len(),
            scan_digits(s@, a as int) == scan_digits(s@, j as int),
        decreases s@.len() - j,
    {
        j = j + 1;
    }
    j
}

/// Reads a numeral in executable code, mirroring `parse_number`.
fn p_number(s: &Vec<char>, i: usize) -> (r: Option<(Vec<char>, usize)>)
    requires
        i < s@.len(),
    ensures
        match r {
            Option::None => parse_number(s@, i as int) is None,
            Option::Some((t, j)) => parse_number(s@, i as int) == Option::Some((t@, j as int))
                && i < j <= s@.len(),
        },
{
    let n = s.len();
    let j0: usize = if s[i] == '-' {
        i + 1
    } else {
        i
    };
    let j1 = scan_digits_exec(s, j0);
    if j1 == j0 {
        Option::None
    } else if j1 < s.len() && s[j1] == '.' {
        let j2 = scan_digits_exec(s, j1 + 1);
        if j2 == j1 + 1 {
            Option::None
        } else {
            Option::Some((crate::chars::slice_vec(s, i, j2), j2))
        }
    } else {
        Option::Some((crate::chars::slice_vec(s, i, j1), j1))
    }
}

/// Reads one value in executable code, mirroring `parse_value`.
pub fn p_value(s: &Vec<char>, i: usize) -> (r: Option<(Value, usize)>)
    ensures
        match r {
            Option::None => parse_value(s@, i as int) is None,
            Option::Some((v, j)) => parse_value(s@, i as int) == Option::Some((v@, j as int))
                && i < j <= s@.len(),
        },
    decreases s@.len() - i, 0nat,
{
    if i >= s.len() {
        return Option::None;
    }
    let c = s[i];
    if c == 'n' {
        let m = s.len() - i >= 4 && s[i + 1] == 'u' && s[i + 2] == 'l' && s[i + 3] == 'l';
        proof {
            if i + 4 <= s@.len() {
                let sub = s@.subrange(i as int, i + 4 as int);
                assert(sub[0] == s@[i as int]);
                assert(sub[1] == s@[i + 1 as int]);
                assert(sub[2] == s@[i + 2 as int]);
                assert(sub[3] == s@[i + 3 as int]);
                if m {
                    assert(sub =~= seq!['n', 'u', 'l', 'l']);
                } else {
                    assert(sub != seq!['n', 'u', 'l', 'l']);
                }
            }
        }
        if m {
            Option::Some((Value::Null, i + 4))
        } else {
            Option::None
        }
    } else if c == 't' {
        let m = s.len() - i >= 4 && s[i + 1] == 'r' && s[i + 2] == 'u' && s[i + 3] == 'e';
        proof {
            if i + 4 <= s@.len() {
                let sub = s@.subrange(i as int, i + 4 as int);
                assert(sub[0] == s@[i as int]);
                assert(sub[1] == s@[i + 1 as int]);
                assert(sub[2] == s@[i + 2 as int]);
                assert(sub[3] == s@[i + 3 as int]);
                if m {
                    assert(sub =~= seq!['t', 'r', 'u', 'e']);
                } else {
                    assert(sub != seq!['t', 'r', 'u', 'e']);
                }
            }
        }
        if m {
            Option::Some((Value::Bool(true), i + 4))
        } else {
            Option::None
        }
    } else if c == 'f' {
        let m = s.len() - i >= 5 && s[i + 1] == 'a' && s[i + 2] == 'l' && s[i + 3] == 's' && s[i + 4] == 'e';
        proof {
            if i + 5 <= s@.len() {
                let sub = s@.subrange(i as int, i + 5 as int);
                assert(sub[0] == s@[i as int]);
                assert(sub[1] == s@[i + 1 as int]);
                assert(sub[2] == s@[i + 2 as int]);
                assert(sub[3] == s@[i + 3 as int]);
                assert(sub[4] == s@[i + 4 as int]);
                if m {
                    assert(sub =~= seq!['f', 'a', 'l', 's', 'e']);
                } else {
                    assert(sub != seq!['f', 'a', 'l', 's', 'e']);
                }
            }
        }
        if m {
            Option::Some((Value::Bool(false), i + 5))
        } else {
            Option::None
        }
    } else if c == '"' {
        match p_string_body(s, i + 1) {
            Option::Some((t, j)) => {
                let ghost gt = t@;
                let txt = crate::chars::string_of_chars(&t);
                proof {
                    assert(view_of(Value::Text(txt))->Text_0 =~= gt);
                    assert(view_of(Value::Text(txt)) == SpecValue::Text(gt));
                }
                Option::Some((Value::Text(txt), j))
            },
            Option::None => Option::None,
        }
    } else if c == '[' {
        if i + 1 < s.len() && s[i + 1] == ']' {
            let es: Vec<Value> = Vec::new();
            proof {
                assert(view_of(Value::Array(es))->Array_0 =~= Seq::<SpecValue>::empty());
                assert(view_of(Value::Array(es)) == SpecValue::Array(Seq::<SpecValue>::empty()));
            }
            Option::Some((Value::Array(es), i + 2))
        } else {
            match p_elems(s, i + 1) {
                Option::Some((es, j)) => {
                    let ghost ges = view_of_elems(&es);
                    proof {
                        assert(view_of(Value::Array(es))->Array_0 =~= ges);
                        assert(view_of(Value::Array(es)) == SpecValue::Array(ges));
                    }
                    Option::Some((Value::Array(es), j))
                },
                Option::None => Option::None,
            }
        }
    } else if c == '{' {
        if i + 1 < s.len() && s[i + 1] == '}' {
            let ps: Vec<(String, Value)> = Vec::new();
            proof {
                assert(view_of(Value::Object(ps))->Object_0 =~= Seq::<(Seq<char>, SpecValue)>::empty());
                assert(view_of(Value::Object(ps)) == SpecValue::Object(
                    Seq::<(Seq<char>, SpecValue)>::empty(),
                ));
            }
            Option::Some((Value::Object(ps), i + 2))
        } else {
            match p_members(s, i + 1) {
                Option::Some((ps, j)) => {
                    let ghost gps = view_of_members(&ps);
                    proof {
                        assert(view_of(Value::Object(ps))->Object_0 =~= gps);
                        assert(view_of(Value::Object(ps)) == SpecValue::Object(gps));
                    }
                    Option::Some((Value::Object(ps), j))
                },
                Option::None => Option::None,
            }
        }
    } else if c == '-' || crate::chars::is_digit_char(c) {
        match p_number(s, i) {
            Option::Some((t, j)) => {
                let ghost gt = t@;
                let txt = crate::chars::string_of_chars(&t);
                proof {
                    assert(view_of(Value::Number(txt))->Number_0 =~= gt);
                    assert(view_of(Value::Number(txt)) == SpecValue::Number(gt));
                }
                Option::Some((Value::Number(txt), j))
            },
            Option::None => Option::None,
        }
    } else {
        Option::None
    }
}

/// Reads array elements in executable code, mirroring `parse_elems`.
fn p_elems(s: &Vec<char>, i: usize) -> (r: Option<(Vec<Value>, usize)>)
    ensures
        match r {
            Option::None => parse_elems(s@, i as int) is None,
            Option::Some((es, j)) => parse_elems(s@, i as int) == Option::Some(
                (view_of_elems(&es), j as int),
            ) && i < j <= s@.len(),
        },
    decreases s@.len() - i, 1nat,
{
    match p_value(s, i) {
        Option::None => Option::None,
        Option::Some((v, j)) => {
            if j >= s.len() {
                return Option::None;
            }
            let c = s[j];
            if c == ',' {
                match p_elems(s, j + 1) {
                    Option::Some((es, j2)) => {
                        let ghost ges = view_of_elems(&es);
                        let ghost gv = v@;
                        let mut out: Vec<Value> = Vec::new();
                        out.push(v);
                        let mut esm = es;
                        out.append(&mut esm);
                        proof {
                            assert(view_of_elems(&out) =~= seq![gv] + ges);
                        }
                        Option::Some((out, j2))
                    },
                    Option::None => Option::None,
                }
            } else if c == ']' {
                let ghost gv = v@;
                let mut out: Vec<Value> = Vec::new();
                out.push(v);
                proof {
                    assert(view_of_elems(&out) =~= seq![gv]);
                }
                Option::Some((out, j + 1))
            } else {
                Option::None
            }
        },
    }
}

/// Reads object members in executable code, mirroring `parse_members`.
fn p_members(s: &Vec<char>, i: usize) -> (r: Option<(Vec<(String, Value)>, usize)>)
    ensures
        match r {
            Option::None => parse_members(s@, i as int) is None,
            Option::Some((ps, j)) => parse_members(s@, i as int) == Option::Some(
                (view_of_members(&ps), j as int),
            ) && i < j <= s@.len(),
        },
    decreases s@.len() - i, 1nat,
{
    if i >= s.len() {
        return Option::None;
    }
    if s[i] != '"' {
        return Option::None;
    }
    match p_string_body(s, i + 1) {
        Option::None => Option::None,
        Option::Some((k, j)) => {
            if j >= s.len() {
                return Option::None;
            }
            if s[j] != ':' {
                return Option::None;
            }
            match p_value(s, j + 1) {
                Option::None => Option::None,
                Option::Some((v, j2)) => {
                    if j2 >= s.len() {
                        return Option::None;
                    }
                    let c = s[j2];
                    let ghost gk = k@;
                    let ghost gv = v@;
                    let key = crate::chars::string_of_chars(&k);
                    if c == ',' {
                        match p_members(s, j2 + 1) {
                            Option::Some((ps, j3)) => {
                                let ghost gps = view_of_members(&ps);
                                let mut out: Vec<(String, Value)> = Vec::new();
                                out.push((key, v));
                                let mut psm = ps;
                                out.append(&mut psm);
                                proof {
                                    assert(view_of_members(&out) =~= seq![(gk, gv)] + gps);
                                }
                                Option::Some((out, j3))
                            },
                            Option::None => Option::None,
                        }
                    } else if c == '}' {
                        let mut out: Vec<(String, Value)> = Vec::new();
                        out.push((key, v));
                        proof {
                            assert(view_of_members(&out) =~= seq![(gk, gv)]);
                        }
                        Option::Some((out, j2 + 1))
                    } else {
                        Option::None
                    }
                },
            }
        },
    }
}

/// Parses a whole string as one document value in executable code.
pub fn from_json_string(s: &str) -> (r: Option<Value>)
    ensures
        match r {
            Option::None => parse_document(s@) is None,
            Option::Some(v) => parse_document(s@) == Option::Some(v@),
        },
{
    let cv = crate::chars::chars_of(s);
    match p_value(&cv, 0) {
        Option::Some((v, j)) => {
            if j == cv.len() {
                Option::Some(v)
            } else {
                Option::None
            }
        },
        Option::None => Option::None,
    }
}

} // verus!
