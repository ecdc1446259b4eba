//! The report format: a JSON array of objects, each with a `folders` array
//! (the canonical folder key, sorted) and a `files` array (the representative
//! duplicate files). The emitter is verified to produce exactly the format's
//! byte string; the format's parser is stated alongside, and parsing an
//! emitted report provably gives the entries back.

use vstd::prelude::*;
use crate::grouping::entries_view;
use crate::grouping::entry_view;
use crate::grouping::ReportEntry;
use crate::pathkit::views_of;

verus! {

/// The lower-case hex digit of a value below 16.
pub open spec fn hex_digit(n: u8) -> u8 {
    if n < 10 {
        (48 + n) as u8
    } else {
        (87 + n) as u8
    }
}

/// How one byte of a path appears inside a JSON string literal: quote and
/// backslash are escaped, control bytes become `\u00XX`, all else stands
/// as itself.
pub open spec fn esc_byte(b: u8) -> Seq<u8> {
    if b == 34 {
        seq![92u8, 34u8]
    } else if b == 92 {
        seq![92u8, 92u8]
    } else if b < 32 {
        seq![92u8, 117u8, 48u8, 48u8, hex_digit(b / 16), hex_digit(b % 16)]
    } else {
        seq![b]
    }
}

/// The escaped body of a JSON string literal.
pub open spec fn esc_bytes(s: Seq<u8>) -> Seq<u8>
    decreases s.len(),
{
    if s.len() == 0 {
        Seq::empty()
    } else {
        esc_byte(s[0]) + esc_bytes(s.drop_first())
    }
}

/// A JSON string literal holding the bytes of one path.
pub open spec fn json_string(s: Seq<u8>) -> Seq<u8> {
    seq![34u8] + esc_bytes(s) + seq![34u8]
}

/// The rest of a JSON string array after its first member: a comma-led
/// string per member, then the closing bracket's place is the caller's.
pub open spec fn json_strings_tail(items: Seq<Seq<u8>>) -> Seq<u8>
    decreases items.len(),
{
    if items.len() == 0 {
        Seq::empty()
    } else {
        seq![44u8] + json_string(items[0]) + json_strings_tail(items.drop_first())
    }
}

/// A JSON array of string literals.
pub open spec fn json_string_array(items: Seq<Seq<u8>>) -> Seq<u8> {
    if items.len() == 0 {
        seq![91u8, 93u8]
    } else {
        seq![91u8] + json_string(items[0]) + json_strings_tail(items.drop_first()) + seq![93u8]
    }
}

/// The bytes of `"folders":`.
pub open spec fn folders_label() -> Seq<u8> {
    seq![34u8, 102u8, 111u8, 108u8, 100u8, 101u8, 114u8, 115u8, 34u8, 58u8]
}

/// The bytes of `"files":`.
pub open spec fn files_label() -> Seq<u8> {
    seq![34u8, 102u8, 105u8, 108u8, 101u8, 115u8, 34u8, 58u8]
}

/// One report object: `{"folders":[...],"files":[...]}`.
pub open spec fn json_entry(e: (Seq<Seq<u8>>, Seq<Seq<u8>>)) -> Seq<u8> {
    seq![123u8] + folders_label() + json_string_array(e.0) + seq![44u8] + files_label()
        + json_string_array(e.1) + seq![125u8]
}

/// The rest of the report array after its first entry.
pub open spec fn json_entries_tail(es: Seq<(Seq<Seq<u8>>, Seq<Seq<u8>>)>) -> Seq<u8>
    decreases es.len(),
{
    if es.len() == 0 {
        Seq::empty()
    } else {
        seq![44u8] + json_entry(es[0]) + json_entries_tail(es.drop_first())
    }
}

/// The whole report: a JSON array of report objects.
pub open spec fn json_report(es: Seq<(Seq<Seq<u8>>, Seq<Seq<u8>>)>) -> Seq<u8> {
    if es.len() == 0 {
        seq![91u8, 93u8]
    } else {
        seq![91u8] + json_entry(es[0]) + json_entries_tail(es.drop_first()) + seq![93u8]
    }
}

proof fn lemma_esc_bytes_snoc(s: Seq<u8>, b: u8)
    ensures
        esc_bytes(s.push(b)) == esc_bytes(s) + esc_byte(b),
    decreases s.len(),
{
    if s.len() == 0 {
        let t = s.push(b);
        assert(t[0] == b);
        assert(t.drop_first() =~= Seq::<u8>::empty());
        assert(esc_bytes(t.drop_first()) == Seq::<u8>::empty());
        assert(esc_bytes(t) == esc_byte(b) + esc_bytes(t.drop_first()));
        assert(esc_bytes(t) =~= esc_bytes(s) + esc_byte(b));
    } else {
        assert(s.push(b)[0] == s[0]);
        assert(s.push(b).drop_first() =~= s.drop_first().push(b));
        lemma_esc_bytes_snoc(s.drop_first(), b);
        assert(esc_byte(s[0]) + (esc_bytes(s.drop_first()) + esc_byte(b)) =~= (esc_byte(s[0])
            + esc_bytes(s.drop_first())) + esc_byte(b));
    }
}

proof fn lemma_json_strings_tail_snoc(items: Seq<Seq<u8>>, x: Seq<u8>)
    ensures
        json_strings_tail(items.push(x)) == json_strings_tail(items) + seq![44u8] + json_string(x),
    decreases items.len(),
{
    if items.len() == 0 {
        let t = items.push(x);
        assert(t[0] == x);
        assert(t.drop_first() =~= Seq::<Seq<u8>>::empty());
        assert(json_strings_tail(t.drop_first()) == Seq::<u8>::empty());
        assert(json_strings_tail(t) == seq![44u8] + json_string(x) + json_strings_tail(
            t.drop_first(),
        ));
        assert(json_strings_tail(t) =~= json_strings_tail(items) + seq![44u8] + json_string(x));
    } else {
        assert(items.push(x)[0] == items[0]);
        assert(items.push(x).drop_first() =~= items.drop_first().push(x));
        lemma_json_strings_tail_snoc(items.drop_first(), x);
        assert(seq![44u8] + json_string(items[0]) + (json_strings_tail(items.drop_first())
            + seq![44u8] + json_string(x)) =~= (seq![44u8] + json_string(items[0])
            + json_strings_tail(items.drop_first())) + seq![44u8] + json_string(x));
    }
}

proof fn lemma_json_entries_tail_snoc(es: Seq<(Seq<Seq<u8>>, Seq<Seq<u8>>)>, x: (Seq<Seq<u8>>, Seq<Seq<u8>>))
    ensures
        json_entries_tail(es.push(x)) == json_entries_tail(es) + seq![44u8] + json_entry(x),
    decreases es.len(),
{
    if es.len() == 0 {
        let t = es.push(x);
        assert(t[0] == x);
        assert(t.drop_first() =~= Seq::<(Seq<Seq<u8>>, Seq<Seq<u8>>)>::empty());
        assert(json_entries_tail(t.drop_first()) == Seq::<u8>::empty());
        assert(json_entries_tail(t) == seq![44u8] + json_entry(x) + json_entries_tail(
            t.drop_first(),
        ));
        assert(json_entries_tail(t) =~= json_entries_tail(es) + seq![44u8] + json_entry(x));
    } else {
        assert(es.push(x)[0] == es[0]);
        assert(es.push(x).drop_first() =~= es.drop_first().push(x));
        lemma_json_entries_tail_snoc(es.drop_first(), x);
        assert(seq![44u8] + json_entry(es[0]) + (json_entries_tail(es.drop_first()) + seq![44u8]
            + json_entry(x)) =~= (seq![44u8] + json_entry(es[0]) + json_entries_tail(
            es.drop_first(),
        )) + seq![44u8] + json_entry(x));
    }
}

/// Numeric value of a lower-case hex digit, or -1 for any other byte.
pub open spec fn hex_val(d: u8) -> int {
    if 48 <= d <= 57 {
        d - 48
    } else if 97 <= d <= 102 {
        d - 87
    } else {
        -1
    }
}

/// The literal occurs in `s` at position `i`.
pub open spec fn match_at(s: Seq<u8>, i: int, lit: Seq<u8>) -> bool {
    0 <= i && i + lit.len() <= s.len() && s.subrange(i, i + lit.len()) == lit
}

proof fn lemma_match_at_split(s: Seq<u8>, i: int, a: Seq<u8>, b: Seq<u8>)
    requires
        match_at(s, i, a + b),
    ensures
        match_at(s, i, a),
        match_at(s, i + a.len(), b),
{
    let ab = a + b;
    assert(forall|k: int| 0 <= k < ab.len() ==> s[i + k] == #[trigger] ab[k]) by {
        assert(forall|k: int|
            0 <= k < ab.len() ==> s.subrange(i, i + ab.len())[k] == #[trigger] ab[k]);
    }
    assert(s.subrange(i, i + a.len()) =~= a);
    assert forall|k: int| 0 <= k < b.len() implies s.subrange(
        i + a.len(),
        i + a.len() + b.len(),
    )[k] == b[k] by {
        assert(ab[a.len() + k] == b[k]);
        assert(s[i + a.len() + k] == ab[a.len() + k]);
    }
    assert(s.subrange(i + a.len(), i + a.len() + b.len()) =~= b);
}

proof fn lemma_match_at_index(s: Seq<u8>, i: int, lit: Seq<u8>, k: int)
    requires
        match_at(s, i, lit),
        0 <= k < lit.len(),
    ensures
        s[i + k] == lit[k],
{
    assert(s.subrange(i, i + lit.len())[k] == lit[k]);
}

/// The parser of a JSON string literal's body, from just past the opening
/// quote: the decoded bytes and the position just past the closing quote.
pub open spec fn sp_string_body(s: Seq<u8>, i: int) -> Option<(Seq<u8>, int)>
    decreases s.len() - i,
{
    if i < 0 || i >= s.len() {
        None
    } else if s[i] == 34 {
        Some((Seq::empty(), i + 1))
    } else if s[i] == 92 {
        if i + 1 < s.len() && (s[i + 1] == 34 || s[i + 1] == 92) {
            match sp_string_body(s, i + 2) {
                None => None,
                Some(p) => Some((seq![s[i + 1]] + p.0, p.1)),
            }
        } else if i + 5 < s.len() && s[i + 1] == 117 && s[i + 2] == 48 && s[i + 3] == 48 && hex_val(
            s[i + 4],
        ) >= 0 && hex_val(s[i + 5]) >= 0 {
            match sp_string_body(s, i + 6) {
                None => None,
                Some(p) => Some((seq![(hex_val(s[i + 4]) * 16 + hex_val(s[i + 5])) as u8] + p.0, p.1)),
            }
        } else {
            None
        }
    } else if s[i] < 32 {
        None
    } else {
        match sp_string_body(s, i + 1) {
            None => None,
            Some(p) => Some((seq![s[i]] + p.0, p.1)),
        }
    }
}

/// The parser of a JSON string literal at position `i`.
pub open spec fn sp_string(s: Seq<u8>, i: int) -> Option<(Seq<u8>, int)> {
    if 0 <= i < s.len() && s[i] == 34 {
        sp_string_body(s, i + 1)
    } else {
        None
    }
}

/// The parser of a string array's remainder, from just past one member:
/// either the closing bracket, or comma-led further members.
pub open spec fn sp_strings_tail(s: Seq<u8>, i: int) -> Option<(Seq<Seq<u8>>, int)>
    decreases s.len() - i,
{
    if i < 0 || i >= s.len() {
        None
    } else if s[i] == 93 {
        Some((Seq::empty(), i + 1))
    } else if s[i] == 44 {
        match sp_string(s, i + 1) {
            None => None,
            Some(p) => if p.1 <= i || p.1 > s.len() {
                None
            } else {
                match sp_strings_tail(s, p.1) {
                    None => None,
                    Some(q) => Some((seq![p.0] + q.0, q.1)),
                }
            },
        }
    } else {
        None
    }
}

/// The parser of a whole JSON string array.
pub open spec fn sp_string_array(s: Seq<u8>, i: int) -> Option<(Seq<Seq<u8>>, int)> {
    if 0 <= i < s.len() && s[i] == 91 {
        if i + 1 < s.len() && s[i + 1] == 93 {
            Some((Seq::empty(), i + 2))
        } else {
            match sp_string(s, i + 1) {
                None => None,
                Some(p) => if p.1 <= i + 1 || p.1 > s.len() {
                    None
                } else {
                    match sp_strings_tail(s, p.1) {
                        None => None,
                        Some(q) => Some((seq![p.0] + q.0, q.1)),
                    }
                },
            }
        }
    } else {
        None
    }
}

/// The parser of one report object.
pub open spec fn sp_entry(s: Seq<u8>, i: int) -> Option<((Seq<Seq<u8>>, Seq<Seq<u8>>), int)> {
    if 0 <= i < s.len() && s[i] == 123 && match_at(s, i + 1, folders_label()) {
        match sp_string_array(s, i + 1 + folders_label().len() as int) {
            None => None,
            Some(p) => if 0 <= p.1 < s.len() && s[p.1] == 44 && match_at(s, p.1 + 1, files_label()) {
                match sp_string_array(s, p.1 + 1 + files_label().len() as int) {
                    None => None,
                    Some(q) => if 0 <= q.1 < s.len() && s[q.1] == 125 {
                        Some(((p.0, q.0), q.1 + 1))
                    } else {
                        None
                    },
                }
            } else {
                None
            },
        }
    } else {
        None
    }
}

/// The parser of the report array's remainder, from just past one entry.
pub open spec fn sp_entries_tail(s: Seq<u8>, i: int) -> Option<(
    Seq<(Seq<Seq<u8>>, Seq<Seq<u8>>)>,
    int,
)>
    decreases s.len() - i,
{
    if i < 0 || i >= s.len() {
        None
    } else if s[i] == 93 {
        Some((Seq::empty(), i + 1))
    } else if s[i] == 44 {
        match sp_entry(s, i + 1) {
            None => None,
            Some(p) => if p.1 <= i || p.1 > s.len() {
                None
            } else {
                match sp_entries_tail(s, p.1) {
                    None => None,
                    Some(q) => Some((seq![p.0] + q.0, q.1)),
                }
            },
        }
    } else {
        None
    }
}

/// The parser of a whole report.
pub open spec fn sp_report(s: Seq<u8>, i: int) -> Option<(
    Seq<(Seq<Seq<u8>>, Seq<Seq<u8>>)>,
    int,
)> {
    if 0 <= i < s.len() && s[i] == 91 {
        if i + 1 < s.len() && s[i + 1] == 93 {
            Some((Seq::empty(), i + 2))
        } else {
            match sp_entry(s, i + 1) {
                None => None,
                Some(p) => if p.1 <= i + 1 || p.1 > s.len() {
                    None
                } else {
                    match sp_entries_tail(s, p.1) {
                        None => None,
                        Some(q) => Some((seq![p.0] + q.0, q.1)),
                    }
                },
            }
        }
    } else {
        None
    }
}

/// What parsing a report byte string means: the whole input must be one
/// report, nothing before or after.
pub open spec fn parse_report_spec(s: Seq<u8>) -> Option<Seq<(Seq<Seq<u8>>, Seq<Seq<u8>>)>> {
    match sp_report(s, 0) {
        None => None,
        Some(p) => if p.1 == s.len() {
            Some(p.0)
        } else {
            None
        },
    }
}

proof fn lemma_hex_val_of_digit(n: u8)
    requires
        n < 16,
    ensures
        hex_val(hex_digit(n)) == n as int,
{
}

proof fn lemma_sp_string_body_of_emit(x: Seq<u8>, s: Seq<u8>, i: int)
    requires
        match_at(s, i, esc_bytes(x) + seq![34u8]),
    ensures
        sp_string_body(s, i) == Some((x, i + esc_bytes(x).len() + 1)),
    decreases x.len(),
{
    if x.len() == 0 {
        assert(esc_bytes(x) + seq![34u8] =~= seq![34u8]);
        lemma_match_at_index(s, i, seq![34u8], 0);
        assert(s[i] == 34);
        assert(x =~= Seq::<u8>::empty());
    } else {
        let c = x[0];
        let rest = x.drop_first();
        let eb = esc_byte(c);
        assert(esc_bytes(x) == eb + esc_bytes(rest));
        assert(esc_bytes(x) + seq![34u8] =~= eb + (esc_bytes(rest) + seq![34u8]));
        lemma_match_at_split(s, i, eb, esc_bytes(rest) + seq![34u8]);
        let j = i + eb.len();
        lemma_sp_string_body_of_emit(rest, s, j);
        assert(seq![c] + rest =~= x);
        if c == 34 {
            lemma_match_at_index(s, i, eb, 0);
            lemma_match_at_index(s, i, eb, 1);
            assert(s[i] == 92 && s[i + 1] == 34);
            assert(sp_string_body(s, i) == Some((x, i + esc_bytes(x).len() + 1)));
        } else if c == 92 {
            lemma_match_at_index(s, i, eb, 0);
            lemma_match_at_index(s, i, eb, 1);
            assert(s[i] == 92 && s[i + 1] == 92);
            assert(sp_string_body(s, i) == Some((x, i + esc_bytes(x).len() + 1)));
        } else if c < 32 {
            lemma_match_at_index(s, i, eb, 0);
            lemma_match_at_index(s, i, eb, 1);
            lemma_match_at_index(s, i, eb, 2);
            lemma_match_at_index(s, i, eb, 3);
            lemma_match_at_index(s, i, eb, 4);
            lemma_match_at_index(s, i, eb, 5);
            assert(s[i] == 92 && s[i + 1] == 117 && s[i + 2] == 48 && s[i + 3] == 48);
            assert(s[i + 4] == hex_digit(c / 16) && s[i + 5] == hex_digit(c % 16));
            lemma_hex_val_of_digit(c / 16);
            lemma_hex_val_of_digit(c % 16);
            assert(hex_val(s[i + 4]) * 16 + hex_val(s[i + 5]) == c) by {
                assert(c / 16 * 16 + c % 16 == c) by (nonlinear_arith);
            }
            assert(sp_string_body(s, i) == Some((x, i + esc_bytes(x).len() + 1)));
        } else {
            lemma_match_at_index(s, i, eb, 0);
            assert(s[i] == c);
            assert(sp_string_body(s, i) == Some((x, i + esc_bytes(x).len() + 1)));
        }
    }
}

proof fn lemma_sp_string_of_emit(x: Seq<u8>, s: Seq<u8>, i: int)
    requires
        match_at(s, i, json_string(x)),
    ensures
        sp_string(s, i) == Some((x, i + json_string(x).len())),
{
    assert(json_string(x) =~= seq![34u8] + (esc_bytes(x) + seq![34u8]));
    lemma_match_at_split(s, i, seq![34u8], esc_bytes(x) + seq![34u8]);
    lemma_match_at_index(s, i, seq![34u8], 0);
    assert(s[i] == 34);
    lemma_sp_string_body_of_emit(x, s, i + 1);
}

proof fn lemma_sp_strings_tail_of_emit(items: Seq<Seq<u8>>, s: Seq<u8>, i: int)
    requires
        match_at(s, i, json_strings_tail(items) + seq![93u8]),
    ensures
        sp_strings_tail(s, i) == Some((items, i + json_strings_tail(items).len() + 1)),
    decreases items.len(),
{
    if items.len() == 0 {
        assert(json_strings_tail(items) + seq![93u8] =~= seq![93u8]);
        lemma_match_at_index(s, i, seq![93u8], 0);
        assert(s[i] == 93);
        assert(items =~= Seq::<Seq<u8>>::empty());
    } else {
        let x = items[0];
        let rest = items.drop_first();
        assert(json_strings_tail(items) == seq![44u8] + json_string(x) + json_strings_tail(rest));
        assert(json_strings_tail(items) + seq![93u8] =~= seq![44u8] + (json_string(x)
            + (json_strings_tail(rest) + seq![93u8])));
        lemma_match_at_split(s, i, seq![44u8], json_string(x) + (json_strings_tail(rest)
            + seq![93u8]));
        lemma_match_at_index(s, i, seq![44u8], 0);
        assert(s[i] == 44);
        lemma_match_at_split(s, i + 1, json_string(x), json_strings_tail(rest) + seq![93u8]);
        lemma_sp_string_of_emit(x, s, i + 1);
        let p1 = i + 1 + json_string(x).len();
        lemma_sp_strings_tail_of_emit(rest, s, p1);
        assert(seq![x] + rest =~= items);
        assert(sp_strings_tail(s, i) == Some((items, i + json_strings_tail(items).len() + 1)));
    }
}

proof fn lemma_sp_string_array_of_emit(items: Seq<Seq<u8>>, s: Seq<u8>, i: int)
    requires
        match_at(s, i, json_string_array(items)),
    ensures
        sp_string_array(s, i) == Some((items, i + json_string_array(items).len())),
{
    if items.len() == 0 {
        lemma_match_at_index(s, i, json_string_array(items), 0);
        lemma_match_at_index(s, i, json_string_array(items), 1);
        assert(s[i] == 91 && s[i + 1] == 93);
        assert(items =~= Seq::<Seq<u8>>::empty());
    } else {
        let x = items[0];
        let rest = items.drop_first();
        assert(json_string_array(items) =~= seq![91u8] + (json_string(x) + (json_strings_tail(rest)
            + seq![93u8])));
        lemma_match_at_split(s, i, seq![91u8], json_string(x) + (json_strings_tail(rest)
            + seq![93u8]));
        lemma_match_at_index(s, i, seq![91u8], 0);
        assert(s[i] == 91);
        lemma_match_at_split(s, i + 1, json_string(x), json_strings_tail(rest) + seq![93u8]);
        lemma_sp_string_of_emit(x, s, i + 1);
        lemma_match_at_index(s, i + 1, json_string(x), 0);
        assert(s[i + 1] == 34);
        let p1 = i + 1 + json_string(x).len();
        lemma_sp_strings_tail_of_emit(rest, s, p1);
        assert(seq![x] + rest =~= items);
        assert(sp_string_array(s, i) == Some((items, i + json_string_array(items).len())));
    }
}

proof fn lemma_sp_entry_of_emit(e: (Seq<Seq<u8>>, Seq<Seq<u8>>), s: Seq<u8>, i: int)
    requires
        match_at(s, i, json_entry(e)),
    ensures
        sp_entry(s, i) == Some((e, i + json_entry(e).len())),
{
    let fl = folders_label();
    let il = files_label();
    let a = json_string_array(e.0);
    let b = json_string_array(e.1);
    assert(json_entry(e) =~= seq![123u8] + (fl + (a + (seq![44u8] + (il + (b
        + seq![125u8]))))));
    lemma_match_at_split(s, i, seq![123u8], fl + (a + (seq![44u8] + (il + (b + seq![125u8])))));
    lemma_match_at_index(s, i, seq![123u8], 0);
    assert(s[i] == 123);
    lemma_match_at_split(s, i + 1, fl, a + (seq![44u8] + (il + (b + seq![125u8]))));
    let ai = i + 1 + fl.len();
    lemma_match_at_split(s, ai, a, seq![44u8] + (il + (b + seq![125u8])));
    lemma_sp_string_array_of_emit(e.0, s, ai);
    let ci = ai + a.len();
    lemma_match_at_split(s, ci, seq![44u8], il + (b + seq![125u8]));
    lemma_match_at_index(s, ci, seq![44u8], 0);
    assert(s[ci] == 44);
    lemma_match_at_split(s, ci + 1, il, b + seq![125u8]);
    let bi = ci + 1 + il.len();
    lemma_match_at_split(s, bi, b, seq![125u8]);
    lemma_sp_string_array_of_emit(e.1, s, bi);
    let di = bi + b.len();
    lemma_match_at_index(s, di, seq![125u8], 0);
    assert(s[di] == 125);
    assert(sp_entry(s, i) == Some((e, i + json_entry(e).len())));
}

proof fn lemma_sp_entries_tail_of_emit(
    es: Seq<(Seq<Seq<u8>>, Seq<Seq<u8>>)>,
    s: Seq<u8>,
    i: int,
)
    requires
        match_at(s, i, json_entries_tail(es) + seq![93u8]),
    ensures
        sp_entries_tail(s, i) == Some((es, i + json_entries_tail(es).len() + 1)),
    decreases es.len(),
{
    if es.len() == 0 {
        assert(json_entries_tail(es) + seq![93u8] =~= seq![93u8]);
        lemma_match_at_index(s, i, seq![93u8], 0);
        assert(s[i] == 93);
        assert(es =~= Seq::<(Seq<Seq<u8>>, Seq<Seq<u8>>)>::empty());
    } else {
        let x = es[0];
        let rest = es.drop_first();
        assert(json_entries_tail(es) == seq![44u8] + json_entry(x) + json_entries_tail(rest));
        assert(json_entries_tail(es) + seq![93u8] =~= seq![44u8] + (json_entry(x)
            + (json_entries_tail(rest) + seq![93u8])));
        lemma_match_at_split(s, i, seq![44u8], json_entry(x) + (json_entries_tail(rest)
            + seq![93u8]));
        lemma_match_at_index(s, i, seq![44u8], 0);
        assert(s[i] == 44);
        lemma_match_at_split(s, i + 1, json_entry(x), json_entries_tail(rest) + seq![93u8]);
        lemma_sp_entry_of_emit(x, s, i + 1);
        let p1 = i + 1 + json_entry(x).len();
        lemma_sp_entries_tail_of_emit(rest, s, p1);
        assert(seq![x] + rest =~= es);
        assert(sp_entries_tail(s, i) == Some((es, i + json_entries_tail(es).len() + 1)));
    }
}

proof fn lemma_sp_report_of_emit(es: Seq<(Seq<Seq<u8>>, Seq<Seq<u8>>)>, s: Seq<u8>, i: int)
    requires
        match_at(s, i, json_report(es)),
    ensures
        sp_report(s, i) == Some((es, i + json_report(es).len())),
{
    if es.len() == 0 {
        lemma_match_at_index(s, i, json_report(es), 0);
        lemma_match_at_index(s, i, json_report(es), 1);
        assert(s[i] == 91 && s[i + 1] == 93);
        assert(es =~= Seq::<(Seq<Seq<u8>>, Seq<Seq<u8>>)>::empty());
    } else {
        let x = es[0];
        let rest = es.drop_first();
        assert(json_report(es) =~= seq![91u8] + (json_entry(x) + (json_entries_tail(rest)
            + seq![93u8])));
        lemma_match_at_split(s, i, seq![91u8], json_entry(x) + (json_entries_tail(rest)
            + seq![93u8]));
        lemma_match_at_index(s, i, seq![91u8], 0);
        assert(s[i] == 91);
        lemma_match_at_split(s, i + 1, json_entry(x), json_entries_tail(rest) + seq![93u8]);
        lemma_sp_entry_of_emit(x, s, i + 1);
        lemma_match_at_index(s, i + 1, json_entry(x), 0);
        assert(s[i + 1] == 123);
        let p1 = i + 1 + json_entry(x).len();
        lemma_sp_entries_tail_of_emit(rest, s, p1);
        assert(seq![x] + rest =~= es);
        assert(sp_report(s, i) == Some((es, i + json_report(es).len())));
    }
}

/// Round trip of the report format: parsing a serialized report yields the
/// entries back, unchanged — in particular every parsed `folders` array is
/// exactly the canonical folder key it was rendered from.
pub proof fn lemma_report_round_trip(es: Seq<(Seq<Seq<u8>>, Seq<Seq<u8>>)>)
    ensures
        parse_report_spec(json_report(es)) == Some(es),
{
    let s = json_report(es);
    assert(s.subrange(0, s.len() as int) =~= s);
    lemma_sp_report_of_emit(es, s, 0);
}

/// Numeric value of a lower-case hex digit, or -1.
fn hexv(d: u8) -> (r: i16)
    ensures
        r as int == hex_val(d),
{
    if 48 <= d && d <= 57 {
        (d as i16) - 48
    } else if 97 <= d && d <= 102 {
        (d as i16) - 87
    } else {
        -1
    }
}

fn p_string_body(s: &Vec<u8>, i: usize) -> (r: Option<(Vec<u8>, usize)>)
    ensures
        match sp_string_body(s@, i as int) {
            None => r is None,
            Some(p) => r matches Some(q) && q.0@ == p.0 && q.1 == p.1,
        },
    decreases s@.len() - i,
{
    if i >= s.len() {
        return None;
    }
    let b = s[i];
    if b == 34 {
        Some((Vec::new(), i + 1))
    } else if b == 92 {
        if i + 1 < s.len() && (s[i + 1] == 34 || s[i + 1] == 92) {
            match p_string_body(s, i + 2) {
                None => None,
                Some((mut v, j)) => {
                    let ghost tail = v@;
                    v.insert(0, s[i + 1]);
                    proof {
                        assert(v@ =~= seq![s@[i + 1]] + tail);
                    }
                    Some((v, j))
                },
            }
        } else if s.len() - i > 5 && s[i + 1] == 117 && s[i + 2] == 48 && s[i + 3] == 48 && hexv(
            s[i + 4],
        ) >= 0 && hexv(s[i + 5]) >= 0 {
            let hi = hexv(s[i + 4]);
            let lo = hexv(s[i + 5]);
            let val = (hi * 16 + lo) as u8;
            match p_string_body(s, i + 6) {
                None => None,
                Some((mut v, j)) => {
                    let ghost tail = v@;
                    v.insert(0, val);
                    proof {
                        assert(v@ =~= seq![(hex_val(s@[i + 4]) * 16 + hex_val(s@[i + 5])) as u8]
                            + tail);
                    }
                    Some((v, j))
                },
            }
        } else {
            None
        }
    } else if b < 32 {
        None
    } else {
        match p_string_body(s, i + 1) {
            None => None,
            Some((mut v, j)) => {
                let ghost tail = v@;
                v.insert(0, b);
                proof {
                    assert(v@ =~= seq![s@[i as int]] + tail);
                }
                Some((v, j))
            },
        }
    }
}

fn p_string(s: &Vec<u8>, i: usize) -> (r: Option<(Vec<u8>, usize)>)
    ensures
        match sp_string(s@, i as int) {
            None => r is None,
            Some(p) => r matches Some(q) && q.0@ == p.0 && q.1 == p.1,
        },
{
    if i < s.len() && s[i] == 34 {
        p_string_body(s, i + 1)
    } else {
        None
    }
}

fn p_strings_tail(s: &Vec<u8>, i: usize) -> (r: Option<(Vec<Vec<u8>>, usize)>)
    ensures
        match sp_strings_tail(s@, i as int) {
            None => r is None,
            Some(p) => r matches Some(q) && views_of(q.0@) == p.0 && q.1 == p.1,
        },
    decreases s@.len() - i,
{
    if i >= s.len() {
        None
    } else if s[i] == 93 {
        let r: Vec<Vec<u8>> = Vec::new();
        proof {
            assert(views_of(r@) =~= Seq::<Seq<u8>>::empty());
        }
        Some((r, i + 1))
    } else if s[i] == 44 {
        match p_string(s, i + 1) {
            None => None,
            Some((v, j)) => {
                if j <= i || j > s.len() {
                    None
                } else {
                    match p_strings_tail(s, j) {
                        None => None,
                        Some((mut vs, k)) => {
                            let ghost tail = views_of(vs@);
                            let ghost head = v@;
                            vs.insert(0, v);
                            proof {
                                assert(views_of(vs@) =~= seq![head] + tail);
                            }
                            Some((vs, k))
                        },
                    }
                }
            },
        }
    } else {
        None
    }
}

fn p_string_array(s: &Vec<u8>, i: usize) -> (r: Option<(Vec<Vec<u8>>, usize)>)
    ensures
        match sp_string_array(s@, i as int) {
            None => r is None,
            Some(p) => r matches Some(q) && views_of(q.0@) == p.0 && q.1 == p.1,
        },
{
    if i < s.len() && s[i] == 91 {
        if i + 1 < s.len() && s[i + 1] == 93 {
            let r: Vec<Vec<u8>> = Vec::new();
            proof {
                assert(views_of(r@) =~= Seq::<Seq<u8>>::empty());
            }
            Some((r, i + 2))
        } else {
            match p_string(s, i + 1) {
                None => None,
                Some((v, j)) => {
                    if j <= i + 1 || j > s.len() {
                        None
                    } else {
                        match p_strings_tail(s, j) {
                            None => None,
                            Some((mut vs, k)) => {
                                let ghost tail = views_of(vs@);
                                let ghost head = v@;
                                vs.insert(0, v);
                                proof {
                                    assert(views_of(vs@) =~= seq![head] + tail);
                                }
                                Some((vs, k))
                            },
                        }
                    }
                },
            }
        }
    } else {
        None
    }
}

fn matches_folders_label(s: &Vec<u8>, i: usize) -> (r: bool)
    ensures
        r == match_at(s@, i as int, folders_label()),
{
    if i <= s.len() && s.len() - i >= 10 && s[i] == 34 && s[i + 1] == 102 && s[i + 2] == 111
        && s[i + 3] == 108 && s[i + 4] == 100 && s[i + 5] == 101 && s[i + 6] == 114 && s[i + 7]
        == 115 && s[i + 8] == 34 && s[i + 9] == 58 {
        proof {
            assert(s@.subrange(i as int, i + 10) =~= folders_label());
        }
        true
    } else {
        proof {
            if match_at(s@, i as int, folders_label()) {
                assert(forall|k: int|
                    0 <= k < 10 ==> s@.subrange(i as int, i + 10)[k]
                        == #[trigger] folders_label()[k]);
            }
        }
        false
    }
}

fn matches_files_label(s: &Vec<u8>, i: usize) -> (r: bool)
    ensures
        r == match_at(s@, i as int, files_label()),
{
    if i <= s.len() && s.len() - i >= 8 && s[i] == 34 && s[i + 1] == 102 && s[i + 2] == 105
        && s[i + 3] == 108 && s[i + 4] == 101 && s[i + 5] == 115 && s[i + 6] == 34 && s[i + 7]
        == 58 {
        proof {
            assert(s@.subrange(i as int, i + 8) =~= files_label());
        }
        true
    } else {
        proof {
            if match_at(s@, i as int, files_label()) {
                assert(forall|k: int|
                    0 <= k < 8 ==> s@.subrange(i as int, i + 8)[k] == #[trigger] files_label()[k]);
            }
        }
        false
    }
}

fn p_entry(s: &Vec<u8>, i: usize) -> (r: Option<(ReportEntry, usize)>)
    ensures
        match sp_entry(s@, i as int) {
            None => r is None,
            Some(p) => r matches Some(q) && entry_view(q.0) == p.0 && q.1 == p.1,
        },
{
    if i < s.len() && s[i] == 123 && matches_folders_label(s, i + 1) {
        match p_string_array(s, i + 11) {
            None => None,
            Some((folders, j)) => {
                if j < s.len() && s[j] == 44 && matches_files_label(s, j + 1) {
                    match p_string_array(s, j + 9) {
                        None => None,
                        Some((files, k)) => {
                            if k < s.len() && s[k] == 125 {
                                Some((ReportEntry { folders, files }, k + 1))
                            } else {
                                None
                            }
                        },
                    }
                } else {
                    None
                }
            },
        }
    } else {
        None
    }
}

fn p_entries_tail(s: &Vec<u8>, i: usize) -> (r: Option<(Vec<ReportEntry>, usize)>)
    ensures
        match sp_entries_tail(s@, i as int) {
            None => r is None,
            Some(p) => r matches Some(q) && entries_view(q.0@) == p.0 && q.1 == p.1,
        },
    decreases s@.len() - i,
{
    if i >= s.len() {
        None
    } else if s[i] == 93 {
        let r: Vec<ReportEntry> = Vec::new();
        proof {
            assert(entries_view(r@) =~= Seq::<(Seq<Seq<u8>>, Seq<Seq<u8>>)>::empty());
        }
        Some((r, i + 1))
    } else if s[i] == 44 {
        match p_entry(s, i + 1) {
            None => None,
            Some((e, j)) => {
                if j <= i || j > s.len() {
                    None
                } else {
                    match p_entries_tail(s, j) {
                        None => None,
                        Some((mut es, k)) => {
                            let ghost tail = entries_view(es@);
                            let ghost head = entry_view(e);
                            es.insert(0, e);
                            proof {
                                assert(entries_view(es@) =~= seq![head] + tail);
                            }
                            Some((es, k))
                        },
                    }
                }
            },
        }
    } else {
        None
    }
}

/// Parse a whole report byte string back into entries. Parsing accepts
/// exactly the report format; on any other input it returns nothing.
pub fn parse_report(input: &Vec<u8>) -> (r: Option<Vec<ReportEntry>>)
    ensures
        match parse_report_spec(input@) {
            None => r is None,
            Some(es) => r matches Some(v) && entries_view(v@) == es,
        },
{
    let s = input;
    let full = if s.len() > 0 && s[0] == 91 {
        if 1 < s.len() && s[1] == 93 {
            let r: Vec<ReportEntry> = Vec::new();
            proof {
                assert(entries_view(r@) =~= Seq::<(Seq<Seq<u8>>, Seq<Seq<u8>>)>::empty());
            }
            Some((r, 2usize))
        } else {
            match p_entry(s, 1) {
                None => None,
                Some((e, j)) => {
                    if j <= 1 || j > s.len() {
                        None
                    } else {
                        match p_entries_tail(s, j) {
                            None => None,
                            Some((mut es, k)) => {
                                let ghost tail = entries_view(es@);
                                let ghost head = entry_view(e);
                                es.insert(0, e);
                                proof {
                                    assert(entries_view(es@) =~= seq![head] + tail);
                                }
                                Some((es, k))
                            },
                        }
                    }
                },
            }
        }
    } else {
        None
    };
    match full {
        None => None,
        Some((es, k)) => {
            if k == s.len() {
                Some(es)
            } else {
                None
            }
        },
    }
}

/// Append the JSON string literal of one path.
fn emit_string(out: &mut Vec<u8>, s: &Vec<u8>)
    ensures
        final(out)@ == old(out)@ + json_string(s@),
{
    let ghost base = out@;
    out.push(34u8);
    let mut i: usize = 0;
    proof {
        assert(s@.take(0) =~= Seq::<u8>::empty());
        assert(out@ =~= base + seq![34u8] + esc_bytes(s@.take(0)));
    }
    while i < s.len()
        invariant
            i <= s@.len(),
            out@ == base + seq![34u8] + esc_bytes(s@.take(i as int)),
        decreases s@.len() - i,
    {
        let ghost before = out@;
        let b = s[i];
        if b == 34u8 {
            out.push(92u8);
            out.push(34u8);
        } else if b == 92u8 {
            out.push(92u8);
            out.push(92u8);
        } else if b < 32u8 {
            out.push(92u8);
            out.push(117u8);
            out.push(48u8);
            out.push(48u8);
            let hi = b / 16;
            let lo = b % 16;
            out.push(if hi < 10 { 48 + hi } else { 87 + hi });
            out.push(if lo < 10 { 48 + lo } else { 87 + lo });
        } else {
            out.push(b);
        }
        proof {
            assert(out@ =~= before + esc_byte(b));
            assert(s@.take(i + 1) =~= s@.take(i as int).push(b));
            lemma_esc_bytes_snoc(s@.take(i as int), b);
            assert(out@ =~= base + seq![34u8] + esc_bytes(s@.take(i + 1)));
        }
        i = i + 1;
    }
    out.push(34u8);
    proof {
        assert(s@.take(s@.len() as int) =~= s@);
        assert(out@ =~= base + json_string(s@));
    }
}

/// Append the JSON array of one folder or file list.
fn emit_string_array(out: &mut Vec<u8>, items: &Vec<Vec<u8>>)
    ensures
        final(out)@ == old(out)@ + json_string_array(views_of(items@)),
{
    let ghost base = out@;
    let ghost vs = views_of(items@);
    out.push(91u8);
    if items.len() == 0 {
        out.push(93u8);
        proof {
            assert(out@ =~= base + json_string_array(vs));
        }
        return;
    }
    emit_string(out, &items[0]);
    proof {
        assert(vs[0] == items@[0]@);
        assert(vs.drop_first().take(0) =~= Seq::<Seq<u8>>::empty());
        assert(out@ =~= base + seq![91u8] + json_string(vs[0]) + json_strings_tail(
            vs.drop_first().take(0),
        ));
    }
    let mut i: usize = 1;
    while i < items.len()
        invariant
            1 <= i <= items@.len(),
            vs == views_of(items@),
            vs.len() == items@.len(),
            out@ == base + seq![91u8] + json_string(vs[0]) + json_strings_tail(
                vs.drop_first().take(i - 1),
            ),
        decreases items@.len() - i,
    {
        out.push(44u8);
        emit_string(out, &items[i]);
        proof {
            assert(vs[i as int] == items@[i as int]@);
            assert(vs.drop_first().take(i as int) =~= vs.drop_first().take(i - 1).push(
                vs[i as int],
            ));
            lemma_json_strings_tail_snoc(vs.drop_first().take(i - 1), vs[i as int]);
            assert(out@ =~= base + seq![91u8] + json_string(vs[0]) + json_strings_tail(
                vs.drop_first().take(i as int),
            ));
        }
        i = i + 1;
    }
    out.push(93u8);
    proof {
        assert(vs.drop_first().take(vs.len() - 1) =~= vs.drop_first());
        assert(out@ =~= base + json_string_array(vs));
    }
}

/// Append one report object.
fn emit_entry(out: &mut Vec<u8>, e: &ReportEntry)
    ensures
        final(out)@ == old(out)@ + json_entry((views_of(e.folders@), views_of(e.files@))),
{
    let ghost base = out@;
    out.push(123u8);
    out.push(34u8);
    out.push(102u8);
    out.push(111u8);
    out.push(108u8);
    out.push(100u8);
    out.push(101u8);
    out.push(114u8);
    out.push(115u8);
    out.push(34u8);
    out.push(58u8);
    proof {
        assert(out@ =~= base + seq![123u8] + folders_label());
    }
    emit_string_array(out, &e.folders);
    out.push(44u8);
    out.push(34u8);
    out.push(102u8);
    out.push(105u8);
    out.push(108u8);
    out.push(101u8);
    out.push(115u8);
    out.push(34u8);
    out.push(58u8);
    proof {
        assert(out@ =~= base + seq![123u8] + folders_label() + json_string_array(
            views_of(e.folders@),
        ) + seq![44u8] + files_label());
    }
    emit_string_array(out, &e.files);
    out.push(125u8);
    proof {
        assert(out@ =~= base + json_entry((views_of(e.folders@), views_of(e.files@))));
    }
}

/// Serialize the grouping pass's output as the report format.
pub fn render_report(entries: &Vec<ReportEntry>) -> (out: Vec<u8>)
    ensures
        out@ == json_report(entries_view(entries@)),
{
    let ghost es = entries_view(entries@);
    let mut out: Vec<u8> = Vec::new();
    out.push(91u8);
    if entries.len() == 0 {
        out.push(93u8);
        proof {
            assert(out@ =~= json_report(es));
        }
        return out;
    }
    emit_entry(&mut out, &entries[0]);
    proof {
        assert(es[0] == (views_of(entries@[0].folders@), views_of(entries@[0].files@)));
        assert(es.drop_first().take(0) =~= Seq::<(Seq<Seq<u8>>, Seq<Seq<u8>>)>::empty());
        assert(out@ =~= seq![91u8] + json_entry(es[0]) + json_entries_tail(
            es.drop_first().take(0),
        ));
    }
    let mut i: usize = 1;
    while i < entries.len()
        invariant
            1 <= i <= entries@.len(),
            es == entries_view(entries@),
            es.len() == entries@.len(),
            out@ == seq![91u8] + json_entry(es[0]) + json_entries_tail(
                es.drop_first().take(i - 1),
            ),
        decreases entries@.len() - i,
    {
        out.push(44u8);
        emit_entry(&mut out, &entries[i]);
        proof {
            assert(es[i as int] == (views_of(entries@[i as int].folders@), views_of(
                entries@[i as int].files@,
            )));
            assert(es.drop_first().take(i as int) =~= es.drop_first().take(i - 1).push(
                es[i as int],
            ));
            lemma_json_entries_tail_snoc(es.drop_first().take(i - 1), es[i as int]);
            assert(out@ =~= seq![91u8] + json_entry(es[0]) + json_entries_tail(
                es.drop_first().take(i as int),
            ));
        }
        i = i + 1;
    }
    out.push(93u8);
    proof {
        assert(es.drop_first().take(es.len() - 1) =~= es.drop_first());
        assert(out@ =~= json_report(es));
    }
    out
}

} // verus!
