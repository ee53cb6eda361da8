//! A small JSON tree, a canonical printer and a tolerant parser.
//!
//! Protocol frames are JSON arrays; this module holds the JSON layer that the
//! frame codec is built on.  Numbers are kept as their literal text, so the
//! tree loses nothing and needs no numeric types.  The printer emits canonical
//! text (no whitespace, minimal escapes); the parser accepts insignificant
//! whitespace and the standard string escapes.  Printing a well-formed tree
//! and parsing it back yields the same tree; see `lemma_parse_json_print`.

use vstd::prelude::*;

verus! {

use vstd::std_specs::iter::IteratorSpec;

/// A JSON value. Numeric literals are kept as text.
#[derive(Debug, PartialEq, Eq)]
pub enum JsonValue {
    Null,
    Bool(bool),
    Num(String),
    Str(String),
    Arr(Vec<JsonValue>),
    Obj(Vec<(String, JsonValue)>),
}

/// The mathematical shape of a `JsonValue`: all text as `Seq<char>`.
pub enum JsonView {
    Null,
    Bool(bool),
    Num(Seq<char>),
    Str(Seq<char>),
    Arr(Seq<JsonView>),
    Obj(Seq<(Seq<char>, JsonView)>),
}

impl View for JsonValue {
    type V = JsonView;

    open spec fn view(&self) -> JsonView {
        json_view(*self)
    }
}

pub open spec fn json_view(v: JsonValue) -> JsonView
    decreases v via json_view_decreases
{
    match v {
        JsonValue::Null => JsonView::Null,
        JsonValue::Bool(b) => JsonView::Bool(b),
        JsonValue::Num(s) => JsonView::Num(s@),
        JsonValue::Str(s) => JsonView::Str(s@),
        JsonValue::Arr(elems) => JsonView::Arr(json_views(elems@)),
        JsonValue::Obj(fields) => JsonView::Obj(json_field_views(fields@)),
    }
}

#[via_fn]
proof fn json_view_decreases(v: JsonValue) {
    broadcast use vstd::std_specs::vec::axiom_vec_decreases_to_view;

    match v {
        JsonValue::Arr(elems) => {
            assert(decreases_to!(v => elems));
            assert(decreases_to!(elems => elems@));
        },
        JsonValue::Obj(fields) => {
            assert(decreases_to!(v => fields));
            assert(decreases_to!(fields => fields@));
        },
        _ => {},
    }
}

pub open spec fn json_views(elems: Seq<JsonValue>) -> Seq<JsonView>
    decreases elems,
{
    if elems.len() == 0 {
        Seq::empty()
    } else {
        seq![json_view(elems[0])] + json_views(elems.drop_first())
    }
}

pub open spec fn json_field_views(fields: Seq<(String, JsonValue)>) -> Seq<(Seq<char>, JsonView)>
    decreases fields,
{
    if fields.len() == 0 {
        Seq::empty()
    } else {
        seq![(fields[0].0@, json_view(fields[0].1))] + json_field_views(fields.drop_first())
    }
}

/// JSON insignificant whitespace.
pub open spec fn is_ws_char(c: char) -> bool {
    c == ' ' || c == '\t' || c == '\n' || c == '\r'
}

/// Characters that may continue a numeric literal.
pub open spec fn is_num_char(c: char) -> bool {
    ('0' <= c && c <= '9') || c == '-' || c == '+' || c == '.' || c == 'e' || c == 'E'
}

/// Characters that may start a numeric literal.
pub open spec fn is_num_start(c: char) -> bool {
    ('0' <= c && c <= '9') || c == '-'
}

/// A numeric literal the printer may emit verbatim: it must start like a
/// number and consist of number characters only, so that the parser's
/// maximal-munch scan recovers exactly the literal.
pub open spec fn num_text_wf(s: Seq<char>) -> bool {
    &&& s.len() > 0
    &&& is_num_start(s[0])
    &&& forall|i: int| 0 <= i < s.len() ==> is_num_char(#[trigger] s[i])
}

/// Trees the printer round-trips: every numeric literal is well formed.
pub open spec fn json_wf(v: JsonView) -> bool
    decreases v,
{
    match v {
        JsonView::Null => true,
        JsonView::Bool(_) => true,
        JsonView::Num(s) => num_text_wf(s),
        JsonView::Str(_) => true,
        JsonView::Arr(elems) => forall|i: int|
            0 <= i < elems.len() ==> json_wf(#[trigger] elems[i]),
        JsonView::Obj(fields) => forall|i: int|
            0 <= i < fields.len() ==> json_wf(#[trigger] fields[i].1),
    }
}

/// The lower-case hexadecimal digit of a value below sixteen.
pub open spec fn hex_char(d: int) -> char {
    if d == 0 { '0' } else if d == 1 { '1' } else if d == 2 { '2' }
    else if d == 3 { '3' } else if d == 4 { '4' } else if d == 5 { '5' }
    else if d == 6 { '6' } else if d == 7 { '7' } else if d == 8 { '8' }
    else if d == 9 { '9' } else if d == 10 { 'a' } else if d == 11 { 'b' }
    else if d == 12 { 'c' } else if d == 13 { 'd' } else if d == 14 { 'e' }
    else { 'f' }
}

/// The value of a hexadecimal digit, upper or lower case.
pub open spec fn unhex_char(c: char) -> Option<int> {
    if c == '0' { Some(0int) } else if c == '1' { Some(1int) }
    else if c == '2' { Some(2int) } else if c == '3' { Some(3int) }
    else if c == '4' { Some(4int) } else if c == '5' { Some(5int) }
    else if c == '6' { Some(6int) } else if c == '7' { Some(7int) }
    else if c == '8' { Some(8int) } else if c == '9' { Some(9int) }
    else if c == 'a' || c == 'A' { Some(10int) } else if c == 'b' || c == 'B' { Some(11int) }
    else if c == 'c' || c == 'C' { Some(12int) } else if c == 'd' || c == 'D' { Some(13int) }
    else if c == 'e' || c == 'E' { Some(14int) } else if c == 'f' || c == 'F' { Some(15int) }
    else { None }
}

/// How the printer escapes one character inside a JSON string.
pub open spec fn escape_char(c: char) -> Seq<char> {
    if c == '"' { seq!['\\', '"'] }
    else if c == '\\' { seq!['\\', '\\'] }
    else if c == '\n' { seq!['\\', 'n'] }
    else if c == '\r' { seq!['\\', 'r'] }
    else if c == '\t' { seq!['\\', 't'] }
    else if c == '\u{8}' { seq!['\\', 'b'] }
    else if c == '\u{c}' { seq!['\\', 'f'] }
    else if (c as u32) < 0x20 {
        seq!['\\', 'u', '0', '0', hex_char((c as u32) as int / 16), hex_char((c as u32) as int % 16)]
    } else {
        seq![c]
    }
}

pub open spec fn escape_text(s: Seq<char>) -> Seq<char>
    decreases s.len(),
{
    if s.len() == 0 {
        Seq::empty()
    } else {
        escape_char(s[0]) + escape_text(s.drop_first())
    }
}

/// A JSON string literal: quoted, escaped text.
pub open spec fn print_string(s: Seq<char>) -> Seq<char> {
    seq!['"'] + escape_text(s) + seq!['"']
}

/// Canonical text of a JSON tree: no whitespace, object order kept.
pub open spec fn print_json(v: JsonView) -> Seq<char>
    decreases v,
{
    match v {
        JsonView::Null => seq!['n', 'u', 'l', 'l'],
        JsonView::Bool(b) => if b {
            seq!['t', 'r', 'u', 'e']
        } else {
            seq!['f', 'a', 'l', 's', 'e']
        },
        JsonView::Num(s) => s,
        JsonView::Str(s) => print_string(s),
        JsonView::Arr(elems) => seq!['['] + print_items(elems) + seq![']'],
        JsonView::Obj(fields) => seq!['{'] + print_fields(fields) + seq!['}'],
    }
}

pub open spec fn print_items(elems: Seq<JsonView>) -> Seq<char>
    decreases elems,
{
    if elems.len() == 0 {
        Seq::empty()
    } else if elems.len() == 1 {
        print_json(elems[0])
    } else {
        print_json(elems[0]) + seq![','] + print_items(elems.drop_first())
    }
}

pub open spec fn print_fields(fields: Seq<(Seq<char>, JsonView)>) -> Seq<char>
    decreases fields,
{
    if fields.len() == 0 {
        Seq::empty()
    } else if fields.len() == 1 {
        print_string(fields[0].0) + seq![':'] + print_json(fields[0].1)
    } else {
        print_string(fields[0].0) + seq![':'] + print_json(fields[0].1) + seq![',']
            + print_fields(fields.drop_first())
    }
}

/// Drop leading whitespace.
pub open spec fn skip_ws(s: Seq<char>) -> Seq<char>
    decreases s.len(),
{
    if s.len() > 0 && is_ws_char(s[0]) {
        skip_ws(s.drop_first())
    } else {
        s
    }
}

/// A unicode scalar value: what a `char` may hold.
pub open spec fn is_scalar_value(n: int) -> bool {
    (0 <= n && n < 0xD800) || (0xE000 <= n && n <= 0x10FFFF)
}

/// Read one escape after the backslash; yield the character and the rest.
pub open spec fn parse_escape(s: Seq<char>) -> Option<(char, Seq<char>)> {
    if s.len() == 0 {
        None
    } else if s[0] == '"' { Some(('"', s.drop_first())) }
    else if s[0] == '\\' { Some(('\\', s.drop_first())) }
    else if s[0] == '/' { Some(('/', s.drop_first())) }
    else if s[0] == 'n' { Some(('\n', s.drop_first())) }
    else if s[0] == 'r' { Some(('\r', s.drop_first())) }
    else if s[0] == 't' { Some(('\t', s.drop_first())) }
    else if s[0] == 'b' { Some(('\u{8}', s.drop_first())) }
    else if s[0] == 'f' { Some(('\u{c}', s.drop_first())) }
    else if s[0] == 'u' && s.len() >= 5 {
        match (unhex_char(s[1]), unhex_char(s[2]), unhex_char(s[3]), unhex_char(s[4])) {
            (Some(d0), Some(d1), Some(d2), Some(d3)) => {
                let n = d0 * 0x1000 + d1 * 0x100 + d2 * 0x10 + d3;
                if is_scalar_value(n) {
                    Some(((n as u32) as char, s.skip(5)))
                } else {
                    None
                }
            },
            _ => None,
        }
    } else {
        None
    }
}

/// Read a string body up to the closing quote; yield the text and the rest.
/// Raw control characters are refused, as JSON demands.
pub open spec fn parse_str_body(s: Seq<char>) -> Option<(Seq<char>, Seq<char>)>
    decreases s.len(),
{
    if s.len() == 0 {
        None
    } else if s[0] == '"' {
        Some((Seq::empty(), s.drop_first()))
    } else if s[0] == '\\' {
        match parse_escape(s.drop_first()) {
            None => None,
            Some((c, rest)) => if rest.len() < s.len() {
                match parse_str_body(rest) {
                    None => None,
                    Some((t, rest2)) => Some((seq![c] + t, rest2)),
                }
            } else {
                None
            },
        }
    } else if (s[0] as u32) < 0x20 {
        None
    } else {
        match parse_str_body(s.drop_first()) {
            None => None,
            Some((t, rest)) => Some((seq![s[0]] + t, rest)),
        }
    }
}

/// Split off the longest prefix of number characters.
pub open spec fn take_num(s: Seq<char>) -> (Seq<char>, Seq<char>)
    decreases s.len(),
{
    if s.len() > 0 && is_num_char(s[0]) {
        let (p, r) = take_num(s.drop_first());
        (seq![s[0]] + p, r)
    } else {
        (Seq::empty(), s)
    }
}

/// Parse one JSON value; yield it and the unconsumed rest.
/// The guards that compare lengths only shield termination: a parse never
/// grows its input, so they never fire on a successful run.
pub open spec fn parse_value(s0: Seq<char>) -> Option<(JsonView, Seq<char>)>
    decreases s0.len(), 0int,
{
    let s = skip_ws(s0);
    if s.len() > s0.len() || s.len() == 0 {
        None
    } else if s[0] == 'n' {
        if s.len() >= 4 && s[1] == 'u' && s[2] == 'l' && s[3] == 'l' {
            Some((JsonView::Null, s.skip(4)))
        } else {
            None
        }
    } else if s[0] == 't' {
        if s.len() >= 4 && s[1] == 'r' && s[2] == 'u' && s[3] == 'e' {
            Some((JsonView::Bool(true), s.skip(4)))
        } else {
            None
        }
    } else if s[0] == 'f' {
        if s.len() >= 5 && s[1] == 'a' && s[2] == 'l' && s[3] == 's' && s[4] == 'e' {
            Some((JsonView::Bool(false), s.skip(5)))
        } else {
            None
        }
    } else if s[0] == '"' {
        match parse_str_body(s.drop_first()) {
            None => None,
            Some((t, rest)) => Some((JsonView::Str(t), rest)),
        }
    } else if s[0] == '[' {
        match parse_items(s.drop_first()) {
            None => None,
            Some((elems, rest)) => Some((JsonView::Arr(elems), rest)),
        }
    } else if s[0] == '{' {
        match parse_fields(s.drop_first()) {
            None => None,
            Some((fields, rest)) => Some((JsonView::Obj(fields), rest)),
        }
    } else if is_num_start(s[0]) {
        let (p, r) = take_num(s);
        Some((JsonView::Num(p), r))
    } else {
        None
    }
}

/// Parse array elements after the opening bracket, closing bracket included.
pub open spec fn parse_items(s: Seq<char>) -> Option<(Seq<JsonView>, Seq<char>)>
    decreases s.len(), 1int,
{
    let t = skip_ws(s);
    if t.len() > s.len() || t.len() == 0 {
        None
    } else if t[0] == ']' {
        Some((Seq::empty(), t.drop_first()))
    } else {
        match parse_value(t) {
            None => None,
            Some((v, rest)) => if rest.len() >= s.len() {
                None
            } else {
                let u = skip_ws(rest);
                if u.len() > rest.len() || u.len() == 0 {
                    None
                } else if u[0] == ']' {
                    Some((seq![v], u.drop_first()))
                } else if u[0] == ',' {
                    match parse_items(u.drop_first()) {
                        None => None,
                        Some((more, rest2)) => Some((seq![v] + more, rest2)),
                    }
                } else {
                    None
                }
            },
        }
    }
}

/// Parse object members after the opening brace, closing brace included.
pub open spec fn parse_fields(s: Seq<char>) -> Option<(Seq<(Seq<char>, JsonView)>, Seq<char>)>
    decreases s.len(), 1int,
{
    let t = skip_ws(s);
    if t.len() > s.len() || t.len() == 0 {
        None
    } else if t[0] == '}' {
        Some((Seq::empty(), t.drop_first()))
    } else if t[0] == '"' {
        match parse_str_body(t.drop_first()) {
            None => None,
            Some((key, r1)) => if r1.len() >= s.len() {
                None
            } else {
                let r2 = skip_ws(r1);
                if r2.len() > r1.len() || r2.len() == 0 || r2[0] != ':' {
                    None
                } else {
                    match parse_value(r2.drop_first()) {
                        None => None,
                        Some((v, r3)) => if r3.len() >= s.len() {
                            None
                        } else {
                            let r4 = skip_ws(r3);
                            if r4.len() > r3.len() || r4.len() == 0 {
                                None
                            } else if r4[0] == '}' {
                                Some((seq![(key, v)], r4.drop_first()))
                            } else if r4[0] == ',' {
                                match parse_fields(r4.drop_first()) {
                                    None => None,
                                    Some((more, rest2)) => Some((seq![(key, v)] + more, rest2)),
                                }
                            } else {
                                None
                            }
                        },
                    }
                }
            },
        }
    } else {
        None
    }
}

/// The value of the first member with the given key, if any.
pub open spec fn obj_lookup(fields: Seq<(Seq<char>, JsonView)>, key: Seq<char>) -> Option<
    JsonView,
>
    decreases fields,
{
    if fields.len() == 0 {
        None
    } else if fields[0].0 == key {
        Some(fields[0].1)
    } else {
        obj_lookup(fields.drop_first(), key)
    }
}

/// Parse a whole text as one JSON value: nothing but whitespace may follow.
pub open spec fn parse_json(s: Seq<char>) -> Option<JsonView> {
    match parse_value(s) {
        None => None,
        Some((v, rest)) => if skip_ws(rest).len() == 0 {
            Some(v)
        } else {
            None
        },
    }
}

proof fn lemma_unhex_hex(d: int)
    requires
        0 <= d < 16,
    ensures
        unhex_char(hex_char(d)) == Some(d),
{
}

/// The first character of printed text classifies the value and is neither
/// whitespace nor a delimiter.
proof fn lemma_print_first(v: JsonView)
    requires
        json_wf(v),
    ensures
        print_json(v).len() > 0,
        print_json(v)[0] == 'n' || print_json(v)[0] == 't' || print_json(v)[0] == 'f'
            || print_json(v)[0] == '"' || print_json(v)[0] == '[' || print_json(v)[0] == '{'
            || is_num_start(print_json(v)[0]),
{
    match v {
        JsonView::Null => {},
        JsonView::Bool(_) => {},
        JsonView::Num(_) => {},
        JsonView::Str(s) => {
            assert(print_json(v)[0] == '"');
        },
        JsonView::Arr(_) => {},
        JsonView::Obj(_) => {},
    }
}

/// Maximal munch recovers exactly a printed numeric literal when what
/// follows does not continue a number.
proof fn lemma_take_num_print(p: Seq<char>, rest: Seq<char>)
    requires
        forall|i: int| 0 <= i < p.len() ==> is_num_char(#[trigger] p[i]),
        rest.len() == 0 || !is_num_char(rest[0]),
    ensures
        take_num(p + rest) == (p, rest),
    decreases p.len(),
{
    if p.len() == 0 {
        assert(p + rest =~= rest);
    } else {
        assert((p + rest)[0] == p[0]);
        assert((p + rest).drop_first() =~= p.drop_first() + rest);
        lemma_take_num_print(p.drop_first(), rest);
        assert(seq![p[0]] + p.drop_first() =~= p);
    }
}

/// The string-body parser undoes the escaper: reading the escaped text up to
/// the closing quote yields the original text and the trailing rest.
proof fn lemma_parse_str_body_print(t: Seq<char>, rest: Seq<char>)
    ensures
        parse_str_body(escape_text(t) + seq!['"'] + rest) == Some((t, rest)),
    decreases t.len(),
{
    let s = escape_text(t) + seq!['"'] + rest;
    if t.len() == 0 {
        assert(s =~= seq!['"'] + rest);
        assert(s[0] == '"');
        assert(s.drop_first() =~= rest);
    } else {
        let c = t[0];
        let e = escape_char(c);
        let tail = escape_text(t.drop_first()) + seq!['"'] + rest;
        assert(s =~= e + tail);
        lemma_parse_str_body_print(t.drop_first(), rest);
        assert(seq![c] + t.drop_first() =~= t);
        if c == '"' || c == '\\' || c == '\n' || c == '\r' || c == '\t' || c == '\u{8}'
            || c == '\u{c}' {
            assert(e.len() == 2 && e[0] == '\\');
            assert(s[0] == '\\');
            assert(s.drop_first() =~= seq![e[1]] + tail);
            assert((seq![e[1]] + tail).drop_first() =~= tail);
            assert(parse_escape(s.drop_first()) == Some((c, tail)));
            assert(tail.len() < s.len());
        } else if (c as u32) < 0x20 {
            let n = c as u32;
            assert(e =~= seq!['\\', 'u', '0', '0', hex_char(n as int / 16), hex_char(n as int % 16)]);
            assert(s[0] == '\\');
            let u = s.drop_first();
            assert(u =~= seq!['u', '0', '0', hex_char(n as int / 16), hex_char(n as int % 16)] + tail);
            assert(u[0] == 'u' && u.len() >= 5);
            assert(u[1] == '0' && u[2] == '0');
            assert(u[3] == hex_char(n as int / 16) && u[4] == hex_char(n as int % 16));
            assert(0 <= n as int / 16 < 16 && 0 <= n as int % 16 < 16);
            lemma_unhex_hex(n as int / 16);
            lemma_unhex_hex(n as int % 16);
            let m = 0 * 0x1000 + 0 * 0x100 + (n as int / 16) * 0x10 + n as int % 16;
            assert(m == n as int);
            assert(is_scalar_value(m));
            vstd::utf8::char_u32_cast(c, n);
            assert(((m as u32) as char) == c);
            assert(u.skip(5) =~= tail);
            assert(parse_escape(u) == Some((c, tail)));
            assert(tail.len() < s.len());
        } else {
            assert(e =~= seq![c]);
            assert(s[0] == c);
            assert(c != '"' && c != '\\' && !((c as u32) < 0x20));
            assert(s.drop_first() =~= tail);
        }
    }
}

/// Parsing printed text yields the printed value and leaves the rest,
/// provided the rest cannot extend a numeric literal.
#[verifier::rlimit(60)]
proof fn lemma_parse_value_print(v: JsonView, rest: Seq<char>)
    requires
        json_wf(v),
        rest.len() == 0 || !is_num_char(rest[0]),
    ensures
        parse_value(print_json(v) + rest) == Some((v, rest)),
    decreases v, 0int,
{
    let s0 = print_json(v) + rest;
    lemma_print_first(v);
    assert(s0[0] == print_json(v)[0]);
    assert(skip_ws(s0) == s0);
    match v {
        JsonView::Null => {
            assert(s0[0] == 'n' && s0.len() >= 4);
            assert(s0[1] == 'u' && s0[2] == 'l' && s0[3] == 'l');
            assert(s0.skip(4) =~= rest);
        },
        JsonView::Bool(b) => {
            if b {
                assert(s0[0] == 't' && s0.len() >= 4);
                assert(s0[1] == 'r' && s0[2] == 'u' && s0[3] == 'e');
                assert(s0.skip(4) =~= rest);
            } else {
                assert(s0[0] == 'f' && s0.len() >= 5);
                assert(s0[1] == 'a' && s0[2] == 'l' && s0[3] == 's' && s0[4] == 'e');
                assert(s0.skip(5) =~= rest);
            }
        },
        JsonView::Num(p) => {
            assert(is_num_start(s0[0]));
            assert(s0[0] != 'n' && s0[0] != 't' && s0[0] != 'f' && s0[0] != '"'
                && s0[0] != '[' && s0[0] != '{');
            lemma_take_num_print(p, rest);
            assert(take_num(s0) == (p, rest));
        },
        JsonView::Str(t) => {
            assert(s0[0] == '"');
            assert(s0.drop_first() =~= escape_text(t) + seq!['"'] + rest);
            lemma_parse_str_body_print(t, rest);
        },
        JsonView::Arr(elems) => {
            assert(s0[0] == '[');
            assert(s0.drop_first() =~= print_items(elems) + seq![']'] + rest);
            lemma_parse_items_print(elems, rest);
        },
        JsonView::Obj(fields) => {
            assert(s0[0] == '{');
            assert(s0.drop_first() =~= print_fields(fields) + seq!['}'] + rest);
            lemma_parse_fields_print(fields, rest);
        },
    }
}

proof fn lemma_parse_items_print(elems: Seq<JsonView>, rest: Seq<char>)
    requires
        forall|i: int| 0 <= i < elems.len() ==> json_wf(#[trigger] elems[i]),
    ensures
        parse_items(print_items(elems) + seq![']'] + rest) == Some((elems, rest)),
    decreases elems, 1int,
{
    let s = print_items(elems) + seq![']'] + rest;
    if elems.len() == 0 {
        assert(s =~= seq![']'] + rest);
        assert(s[0] == ']');
        assert(skip_ws(s) == s);
        assert(s.drop_first() =~= rest);
        assert(elems =~= Seq::<JsonView>::empty());
    } else {
        let e0 = elems[0];
        lemma_print_first(e0);
        let p0 = print_json(e0);
        if elems.len() == 1 {
            let r1 = seq![']'] + rest;
            assert(s =~= p0 + r1);
            assert(!is_num_char(r1[0]));
            lemma_parse_value_print(e0, r1);
            assert(s[0] == p0[0]);
            assert(!is_ws_char(s[0]) && s[0] != ']');
            assert(skip_ws(s) == s);
            assert(parse_value(s) == Some((e0, r1)));
            assert(r1.len() < s.len());
            assert(skip_ws(r1) == r1);
            assert(r1[0] == ']');
            assert(r1.drop_first() =~= rest);
            assert(seq![e0] =~= elems);
        } else {
            let tail = print_items(elems.drop_first()) + seq![']'] + rest;
            let r1 = seq![','] + tail;
            assert(s =~= p0 + r1);
            assert(!is_num_char(r1[0]));
            lemma_parse_value_print(e0, r1);
            assert(s[0] == p0[0]);
            assert(!is_ws_char(s[0]) && s[0] != ']');
            assert(skip_ws(s) == s);
            assert(parse_value(s) == Some((e0, r1)));
            assert(r1.len() < s.len());
            assert(skip_ws(r1) == r1);
            assert(r1[0] == ',');
            assert(r1.drop_first() =~= tail);
            lemma_parse_items_print(elems.drop_first(), rest);
            assert(seq![e0] + elems.drop_first() =~= elems);
        }
    }
}

#[verifier::rlimit(60)]
proof fn lemma_parse_fields_print(fields: Seq<(Seq<char>, JsonView)>, rest: Seq<char>)
    requires
        forall|i: int| 0 <= i < fields.len() ==> json_wf(#[trigger] fields[i].1),
    ensures
        parse_fields(print_fields(fields) + seq!['}'] + rest) == Some((fields, rest)),
    decreases fields, 1int,
{
    let s = print_fields(fields) + seq!['}'] + rest;
    if fields.len() == 0 {
        assert(s =~= seq!['}'] + rest);
        assert(s[0] == '}');
        assert(skip_ws(s) == s);
        assert(s.drop_first() =~= rest);
        assert(fields =~= Seq::<(Seq<char>, JsonView)>::empty());
    } else {
        let k0 = fields[0].0;
        let v0 = fields[0].1;
        lemma_print_first(v0);
        let p0 = print_json(v0);
        let close = if fields.len() == 1 {
            seq!['}'] + rest
        } else {
            seq![','] + (print_fields(fields.drop_first()) + seq!['}'] + rest)
        };
        assert(s =~= print_string(k0) + seq![':'] + p0 + close);
        assert(s[0] == '"');
        assert(skip_ws(s) == s);
        let after_key = seq![':'] + p0 + close;
        assert(s.drop_first() =~= escape_text(k0) + seq!['"'] + after_key);
        lemma_parse_str_body_print(k0, after_key);
        assert(parse_str_body(s.drop_first()) == Some((k0, after_key)));
        assert(after_key.len() < s.len());
        assert(skip_ws(after_key) == after_key);
        assert(after_key[0] == ':');
        let val_in = p0 + close;
        assert(after_key.drop_first() =~= val_in);
        assert(!is_num_char(close[0]));
        lemma_parse_value_print(v0, close);
        assert(parse_value(val_in) == Some((v0, close)));
        assert(close.len() < s.len());
        assert(skip_ws(close) == close);
        if fields.len() == 1 {
            assert(close[0] == '}');
            assert(close.drop_first() =~= rest);
            assert(seq![(k0, v0)] =~= fields);
        } else {
            let tail = print_fields(fields.drop_first()) + seq!['}'] + rest;
            assert(close[0] == ',');
            assert(close.drop_first() =~= tail);
            lemma_parse_fields_print(fields.drop_first(), rest);
            assert(seq![(k0, v0)] + fields.drop_first() =~= fields);
        }
    }
}

/// Round trip: parsing the canonical text of a well-formed tree yields
/// exactly that tree.
pub proof fn lemma_parse_json_print(v: JsonView)
    requires
        json_wf(v),
    ensures
        parse_json(print_json(v)) == Some(v),
{
    let empty = Seq::<char>::empty();
    lemma_parse_value_print(v, empty);
    assert(print_json(v) + empty =~= print_json(v));
    assert(parse_value(print_json(v)) == Some((v, empty)));
    assert(skip_ws(empty).len() == 0);
}

/// The characters of a string, as a vector.
pub fn str_to_chars(s: &str) -> (r: Vec<char>)
    ensures
        r@ == s@,
{
    broadcast use vstd::string::next_postcondition;
    broadcast use vstd::string::axiom_spec_iter;

    let mut it = s.chars();
    let mut r: Vec<char> = Vec::new();
    loop
        invariant
            it.obeys_prophetic_iter_laws(),
            r@ + it.remaining() == s@,
        decreases s@.len() - r@.len(),
    {
        match it.next() {
            Some(c) => {
                r.push(c);
            },
            None => {
                assert(r@ =~= s@);
                return r;
            },
        }
    }
}

/// Relies on `Iterator::collect` for `String`: the collected string holds
/// exactly the characters of the vector, in order.
#[verifier::external_body]
pub(crate) fn chars_to_string(v: &Vec<char>) -> (r: String)
    ensures
        r@ == v@,
{
    v.iter().collect()
}

/// Relies on `char::from_u32`: `Some` exactly on unicode scalar values,
/// holding the character with that code.
#[verifier::external_body]
fn char_from_u32(n: u32) -> (r: Option<char>)
    ensures
        r == if is_scalar_value(n as int) {
            Some(n as char)
        } else {
            None::<char>
        },
{
    char::from_u32(n)
}

fn ws_char(c: char) -> (r: bool)
    ensures
        r == is_ws_char(c),
{
    c == ' ' || c == '\t' || c == '\n' || c == '\r'
}

fn num_char(c: char) -> (r: bool)
    ensures
        r == is_num_char(c),
{
    ('0' <= c && c <= '9') || c == '-' || c == '+' || c == '.' || c == 'e' || c == 'E'
}

fn num_start(c: char) -> (r: bool)
    ensures
        r == is_num_start(c),
{
    ('0' <= c && c <= '9') || c == '-'
}

fn unhex(c: char) -> (r: Option<u32>)
    ensures
        match r {
            Some(d) => unhex_char(c) == Some(d as int) && d < 16,
            None => unhex_char(c) is None,
        },
{
    if c == '0' { Some(0) } else if c == '1' { Some(1) }
    else if c == '2' { Some(2) } else if c == '3' { Some(3) }
    else if c == '4' { Some(4) } else if c == '5' { Some(5) }
    else if c == '6' { Some(6) } else if c == '7' { Some(7) }
    else if c == '8' { Some(8) } else if c == '9' { Some(9) }
    else if c == 'a' || c == 'A' { Some(10) } else if c == 'b' || c == 'B' { Some(11) }
    else if c == 'c' || c == 'C' { Some(12) } else if c == 'd' || c == 'D' { Some(13) }
    else if c == 'e' || c == 'E' { Some(14) } else if c == 'f' || c == 'F' { Some(15) }
    else { None }
}

/// Advance past whitespace; the suffix at the result is `skip_ws` of the
/// suffix at the start.
fn skip_ws_x(s: &Vec<char>, i: usize) -> (j: usize)
    requires
        i <= s@.len(),
    ensures
        i <= j <= s@.len(),
        s@.skip(j as int) == skip_ws(s@.skip(i as int)),
{
    let mut j: usize = i;
    loop
        invariant
            i <= j <= s@.len(),
            skip_ws(s@.skip(j as int)) == skip_ws(s@.skip(i as int)),
        decreases s@.len() - j,
    {
        if j < s.len() && ws_char(s[j]) {
            assert(s@.skip(j as int).drop_first() =~= s@.skip(j as int + 1));
            j = j + 1;
        } else {
            assert(s@.skip(j as int) == skip_ws(s@.skip(j as int)));
            return j;
        }
    }
}

/// Continuation form of `parse_str_body`: the final text with `prefix` in
/// front of whatever the body parse of `s` yields.
spec fn str_body_with(prefix: Seq<char>, s: Seq<char>) -> Option<(Seq<char>, Seq<char>)> {
    match parse_str_body(s) {
        Some((t, r)) => Some((prefix + t, r)),
        None => None,
    }
}

fn parse_escape_x(s: &Vec<char>, i: usize) -> (r: Option<(char, usize)>)
    requires
        i <= s@.len(),
    ensures
        match r {
            Some((c, j)) => i < j <= s@.len() && parse_escape(s@.skip(i as int)) == Some(
                (c, s@.skip(j as int)),
            ),
            None => parse_escape(s@.skip(i as int)) is None,
        },
{
    let ghost sp = s@.skip(i as int);
    if i == s.len() {
        return None;
    }
    let c = s[i];
    assert(sp[0] == c);
    assert(sp.drop_first() =~= s@.skip(i as int + 1));
    if c == '"' { Some(('"', i + 1)) }
    else if c == '\\' { Some(('\\', i + 1)) }
    else if c == '/' { Some(('/', i + 1)) }
    else if c == 'n' { Some(('\n', i + 1)) }
    else if c == 'r' { Some(('\r', i + 1)) }
    else if c == 't' { Some(('\t', i + 1)) }
    else if c == 'b' { Some(('\u{8}', i + 1)) }
    else if c == 'f' { Some(('\u{c}', i + 1)) }
    else if c == 'u' && s.len() - i >= 5 {
        assert(sp.len() >= 5);
        assert(sp[1] == s@[i + 1] && sp[2] == s@[i + 2]);
        assert(sp[3] == s@[i + 3] && sp[4] == s@[i + 4]);
        let d0 = unhex(s[i + 1]);
        let d1 = unhex(s[i + 2]);
        let d2 = unhex(s[i + 3]);
        let d3 = unhex(s[i + 4]);
        match (d0, d1, d2, d3) {
            (Some(d0), Some(d1), Some(d2), Some(d3)) => {
                let n: u32 = d0 * 0x1000 + d1 * 0x100 + d2 * 0x10 + d3;
                match char_from_u32(n) {
                    Some(c2) => {
                        assert(sp.skip(5) =~= s@.skip(i as int + 5));
                        Some((c2, i + 5))
                    },
                    None => None,
                }
            },
            _ => None,
        }
    } else {
        None
    }
}

fn parse_str_body_x(s: &Vec<char>, i: usize) -> (r: Option<(String, usize)>)
    requires
        i <= s@.len(),
    ensures
        match r {
            Some((t, j)) => i <= j <= s@.len() && parse_str_body(s@.skip(i as int)) == Some(
                (t@, s@.skip(j as int)),
            ),
            None => parse_str_body(s@.skip(i as int)) is None,
        },
{
    let mut acc: Vec<char> = Vec::new();
    let mut cur: usize = i;
    loop
        invariant
            i <= cur <= s@.len(),
            str_body_with(acc@, s@.skip(cur as int)) == parse_str_body(s@.skip(i as int)),
        decreases s@.len() - cur,
    {
        let ghost sp = s@.skip(cur as int);
        if cur == s.len() {
            return None;
        }
        let c = s[cur];
        assert(sp[0] == c);
        assert(sp.drop_first() =~= s@.skip(cur as int + 1));
        if c == '"' {
            assert(parse_str_body(sp) == Some((Seq::<char>::empty(), s@.skip(cur as int + 1))));
            assert(acc@ + Seq::<char>::empty() =~= acc@);
            let t = chars_to_string(&acc);
            return Some((t, cur + 1));
        } else if c == '\\' {
            match parse_escape_x(s, cur + 1) {
                None => {
                    return None;
                },
                Some((e, j2)) => {
                    let ghost rest = s@.skip(j2 as int);
                    assert(rest.len() < sp.len());
                    proof {
                        let inner = parse_str_body(rest);
                        match inner {
                            Some((t2, r2)) => {
                                assert(parse_str_body(sp) == Some((seq![e] + t2, r2)));
                                assert((acc@ + seq![e]) + t2 =~= acc@ + (seq![e] + t2));
                            },
                            None => {},
                        }
                    }
                    acc.push(e);
                    cur = j2;
                },
            }
        } else if (c as u32) < 0x20 {
            return None;
        } else {
            proof {
                let inner = parse_str_body(s@.skip(cur as int + 1));
                match inner {
                    Some((t2, r2)) => {
                        assert(parse_str_body(sp) == Some((seq![c] + t2, r2)));
                        assert((acc@ + seq![c]) + t2 =~= acc@ + (seq![c] + t2));
                    },
                    None => {},
                }
            }
            acc.push(c);
            cur = cur + 1;
        }
    }
}

pub(crate) proof fn lemma_json_views_cons(x: JsonValue, rest: Seq<JsonValue>)
    ensures
        json_views(seq![x] + rest) == seq![json_view(x)] + json_views(rest),
{
    assert((seq![x] + rest)[0] == x);
    assert((seq![x] + rest).drop_first() =~= rest);
}

pub(crate) proof fn lemma_json_field_views_cons(k: String, x: JsonValue, rest: Seq<(String, JsonValue)>)
    ensures
        json_field_views(seq![(k, x)] + rest) == seq![(k@, json_view(x))] + json_field_views(rest),
{
    assert((seq![(k, x)] + rest)[0] == (k, x));
    assert((seq![(k, x)] + rest).drop_first() =~= rest);
}

pub(crate) proof fn lemma_json_views_len(elems: Seq<JsonValue>)
    ensures
        json_views(elems).len() == elems.len(),
    decreases elems,
{
    if elems.len() > 0 {
        lemma_json_views_len(elems.drop_first());
    }
}

pub(crate) proof fn lemma_json_field_views_len(fields: Seq<(String, JsonValue)>)
    ensures
        json_field_views(fields).len() == fields.len(),
    decreases fields,
{
    if fields.len() > 0 {
        lemma_json_field_views_len(fields.drop_first());
    }
}

/// Each element of the view list is the view of the element.
pub(crate) proof fn lemma_json_views_index(elems: Seq<JsonValue>, i: int)
    requires
        0 <= i < elems.len(),
    ensures
        json_views(elems).len() == elems.len(),
        json_views(elems)[i] == json_view(elems[i]),
    decreases elems,
{
    lemma_json_views_len(elems);
    if i > 0 {
        lemma_json_views_index(elems.drop_first(), i - 1);
    }
}

/// Continuation form of `take_num`.
spec fn take_num_with(prefix: Seq<char>, s: Seq<char>) -> (Seq<char>, Seq<char>) {
    let (p, r) = take_num(s);
    (prefix + p, r)
}

fn take_num_x(s: &Vec<char>, i: usize) -> (r: (Vec<char>, usize))
    requires
        i <= s@.len(),
    ensures
        i <= r.1 <= s@.len(),
        take_num(s@.skip(i as int)) == (r.0@, s@.skip(r.1 as int)),
{
    let mut acc: Vec<char> = Vec::new();
    let mut cur: usize = i;
    loop
        invariant
            i <= cur <= s@.len(),
            take_num_with(acc@, s@.skip(cur as int)) == take_num(s@.skip(i as int)),
        decreases s@.len() - cur,
    {
        let ghost sp = s@.skip(cur as int);
        if cur < s.len() && num_char(s[cur]) {
            let c = s[cur];
            assert(sp[0] == c);
            assert(sp.drop_first() =~= s@.skip(cur as int + 1));
            proof {
                let (p2, r2) = take_num(s@.skip(cur as int + 1));
                assert(take_num(sp) == (seq![c] + p2, r2));
                assert((acc@ + seq![c]) + p2 =~= acc@ + (seq![c] + p2));
            }
            acc.push(c);
            cur = cur + 1;
        } else {
            assert(take_num(sp) == (Seq::<char>::empty(), sp));
            assert(acc@ + Seq::<char>::empty() =~= acc@);
            return (acc, cur);
        }
    }
}

fn parse_value_x(s: &Vec<char>, i: usize) -> (r: Option<(JsonValue, usize)>)
    requires
        i <= s@.len(),
    ensures
        match r {
            Some((v, j)) => i <= j <= s@.len() && parse_value(s@.skip(i as int)) == Some(
                (v@, s@.skip(j as int)),
            ),
            None => parse_value(s@.skip(i as int)) is None,
        },
    decreases s@.len() - i, 0int,
{
    let ghost s0 = s@.skip(i as int);
    let j = skip_ws_x(s, i);
    let ghost sp = s@.skip(j as int);
    assert(sp.len() <= s0.len());
    if j == s.len() {
        return None;
    }
    let c = s[j];
    assert(sp[0] == c);
    assert(sp.drop_first() =~= s@.skip(j as int + 1));
    if c == 'n' {
        if s.len() - j >= 4 && s[j + 1] == 'u' && s[j + 2] == 'l' && s[j + 3] == 'l' {
            assert(sp.len() >= 4 && sp[1] == 'u' && sp[2] == 'l' && sp[3] == 'l');
            assert(sp.skip(4) =~= s@.skip(j as int + 4));
            Some((JsonValue::Null, j + 4))
        } else {
            assert(!(sp.len() >= 4 && sp[1] == 'u' && sp[2] == 'l' && sp[3] == 'l'));
            None
        }
    } else if c == 't' {
        if s.len() - j >= 4 && s[j + 1] == 'r' && s[j + 2] == 'u' && s[j + 3] == 'e' {
            assert(sp.len() >= 4 && sp[1] == 'r' && sp[2] == 'u' && sp[3] == 'e');
            assert(sp.skip(4) =~= s@.skip(j as int + 4));
            Some((JsonValue::Bool(true), j + 4))
        } else {
            assert(!(sp.len() >= 4 && sp[1] == 'r' && sp[2] == 'u' && sp[3] == 'e'));
            None
        }
    } else if c == 'f' {
        if s.len() - j >= 5 && s[j + 1] == 'a' && s[j + 2] == 'l' && s[j + 3] == 's' && s[j + 4]
            == 'e' {
            assert(sp.len() >= 5 && sp[1] == 'a' && sp[2] == 'l' && sp[3] == 's' && sp[4] == 'e');
            assert(sp.skip(5) =~= s@.skip(j as int + 5));
            Some((JsonValue::Bool(false), j + 5))
        } else {
            assert(!(sp.len() >= 5 && sp[1] == 'a' && sp[2] == 'l' && sp[3] == 's' && sp[4]
                == 'e'));
            None
        }
    } else if c == '"' {
        match parse_str_body_x(s, j + 1) {
            None => None,
            Some((t, j2)) => Some((JsonValue::Str(t), j2)),
        }
    } else if c == '[' {
        match parse_items_x(s, j + 1) {
            None => None,
            Some((elems, j2)) => Some((JsonValue::Arr(elems), j2)),
        }
    } else if c == '{' {
        match parse_fields_x(s, j + 1) {
            None => None,
            Some((fields, j2)) => Some((JsonValue::Obj(fields), j2)),
        }
    } else if num_start(c) {
        let (p, j2) = take_num_x(s, j);
        let t = chars_to_string(&p);
        Some((JsonValue::Num(t), j2))
    } else {
        None
    }
}

fn parse_items_x(s: &Vec<char>, i: usize) -> (r: Option<(Vec<JsonValue>, usize)>)
    requires
        i <= s@.len(),
    ensures
        match r {
            Some((elems, j)) => i <= j <= s@.len() && parse_items(s@.skip(i as int)) == Some(
                (json_views(elems@), s@.skip(j as int)),
            ),
            None => parse_items(s@.skip(i as int)) is None,
        },
    decreases s@.len() - i, 1int,
{
    let ghost s0 = s@.skip(i as int);
    let j = skip_ws_x(s, i);
    let ghost t = s@.skip(j as int);
    assert(t.len() <= s0.len());
    if j == s.len() {
        return None;
    }
    assert(t[0] == s@[j as int]);
    assert(t.drop_first() =~= s@.skip(j as int + 1));
    if s[j] == ']' {
        let out: Vec<JsonValue> = Vec::new();
        assert(json_views(out@) =~= Seq::<JsonView>::empty());
        return Some((out, j + 1));
    }
    match parse_value_x(s, j) {
        None => None,
        Some((v, j2)) => {
            if j2 <= i {
                return None;
            }
            let j3 = skip_ws_x(s, j2);
            let ghost u = s@.skip(j3 as int);
            assert(u.len() <= s@.skip(j2 as int).len());
            if j3 == s.len() {
                return None;
            }
            assert(u[0] == s@[j3 as int]);
            assert(u.drop_first() =~= s@.skip(j3 as int + 1));
            if s[j3] == ']' {
                let mut out: Vec<JsonValue> = Vec::new();
                out.push(v);
                proof {
                    assert(out@ =~= seq![v] + Seq::<JsonValue>::empty());
                    lemma_json_views_cons(v, Seq::<JsonValue>::empty());
                    assert(json_views(out@) =~= seq![json_view(v)]);
                }
                Some((out, j3 + 1))
            } else if s[j3] == ',' {
                match parse_items_x(s, j3 + 1) {
                    None => None,
                    Some((more, j4)) => {
                        let ghost m0 = more@;
                        let mut more = more;
                        more.insert(0, v);
                        proof {
                            assert(more@ =~= seq![v] + m0);
                            lemma_json_views_cons(v, m0);
                            assert(json_views(more@) =~= seq![json_view(v)] + json_views(m0));
                        }
                        Some((more, j4))
                    },
                }
            } else {
                None
            }
        },
    }
}

fn parse_fields_x(s: &Vec<char>, i: usize) -> (r: Option<(Vec<(String, JsonValue)>, usize)>)
    requires
        i <= s@.len(),
    ensures
        match r {
            Some((fields, j)) => i <= j <= s@.len() && parse_fields(s@.skip(i as int)) == Some(
                (json_field_views(fields@), s@.skip(j as int)),
            ),
            None => parse_fields(s@.skip(i as int)) is None,
        },
    decreases s@.len() - i, 1int,
{
    let ghost s0 = s@.skip(i as int);
    let j = skip_ws_x(s, i);
    let ghost t = s@.skip(j as int);
    assert(t.len() <= s0.len());
    if j == s.len() {
        return None;
    }
    assert(t[0] == s@[j as int]);
    assert(t.drop_first() =~= s@.skip(j as int + 1));
    if s[j] == '}' {
        let out: Vec<(String, JsonValue)> = Vec::new();
        assert(json_field_views(out@) =~= Seq::<(Seq<char>, JsonView)>::empty());
        return Some((out, j + 1));
    }
    if s[j] != '"' {
        return None;
    }
    match parse_str_body_x(s, j + 1) {
        None => None,
        Some((key, j2)) => {
            if j2 <= i {
                return None;
            }
            let j3 = skip_ws_x(s, j2);
            let ghost r2 = s@.skip(j3 as int);
            assert(r2.len() <= s@.skip(j2 as int).len());
            if j3 == s.len() {
                return None;
            }
            assert(r2[0] == s@[j3 as int]);
            assert(r2.drop_first() =~= s@.skip(j3 as int + 1));
            if s[j3] != ':' {
                return None;
            }
            match parse_value_x(s, j3 + 1) {
                None => None,
                Some((v, j4)) => {
                    if j4 <= i {
                        return None;
                    }
                    let j5 = skip_ws_x(s, j4);
                    let ghost r4 = s@.skip(j5 as int);
                    assert(r4.len() <= s@.skip(j4 as int).len());
                    if j5 == s.len() {
                        return None;
                    }
                    assert(r4[0] == s@[j5 as int]);
                    assert(r4.drop_first() =~= s@.skip(j5 as int + 1));
                    if s[j5] == '}' {
                        let mut out: Vec<(String, JsonValue)> = Vec::new();
                        let ghost kv = (key@, json_view(v));
                        out.push((key, v));
                        proof {
                            assert(out@ =~= seq![out@[0]] + Seq::<(String, JsonValue)>::empty());
                            lemma_json_field_views_cons(out@[0].0, out@[0].1, Seq::<(String, JsonValue)>::empty());
                            assert(json_field_views(out@) =~= seq![kv]);
                        }
                        Some((out, j5 + 1))
                    } else if s[j5] == ',' {
                        match parse_fields_x(s, j5 + 1) {
                            None => None,
                            Some((more, j6)) => {
                                let ghost m0 = more@;
                                let ghost kv = (key@, json_view(v));
                                let mut more = more;
                                more.insert(0, (key, v));
                                proof {
                                    assert(more@ =~= seq![more@[0]] + m0);
                                    lemma_json_field_views_cons(more@[0].0, more@[0].1, m0);
                                    assert(json_field_views(more@) =~= seq![kv] + json_field_views(m0));
                                }
                                Some((more, j6))
                            },
                        }
                    } else {
                        None
                    }
                },
            }
        },
    }
}

/// Parse a whole text as one JSON value; `None` on any malformed input.
pub fn text_to_json(s: &str) -> (r: Option<JsonValue>)
    ensures
        match r {
            Some(v) => parse_json(s@) == Some(v@),
            None => parse_json(s@) is None,
        },
{
    let chars = str_to_chars(s);
    assert(chars@.skip(0) =~= s@);
    match parse_value_x(&chars, 0) {
        None => None,
        Some((v, j)) => {
            let j2 = skip_ws_x(&chars, j);
            if j2 == chars.len() {
                Some(v)
            } else {
                None
            }
        },
    }
}

fn hex(d: u32) -> (r: char)
    requires
        d < 16,
    ensures
        r == hex_char(d as int),
{
    if d == 0 { '0' } else if d == 1 { '1' } else if d == 2 { '2' }
    else if d == 3 { '3' } else if d == 4 { '4' } else if d == 5 { '5' }
    else if d == 6 { '6' } else if d == 7 { '7' } else if d == 8 { '8' }
    else if d == 9 { '9' } else if d == 10 { 'a' } else if d == 11 { 'b' }
    else if d == 12 { 'c' } else if d == 13 { 'd' } else if d == 14 { 'e' }
    else { 'f' }
}

pub(crate) fn push_chars(out: &mut Vec<char>, cs: &Vec<char>)
    ensures
        final(out)@ == old(out)@ + cs@,
{
    let mut k: usize = 0;
    while k < cs.len()
        invariant
            k <= cs@.len(),
            out@ == old(out)@ + cs@.take(k as int),
        decreases cs@.len() - k,
    {
        out.push(cs[k]);
        assert(cs@.take(k as int).push(cs@[k as int]) =~= cs@.take(k as int + 1));
        k = k + 1;
    }
    assert(cs@.take(cs@.len() as int) =~= cs@);
}

fn write_escape(out: &mut Vec<char>, c: char)
    ensures
        final(out)@ == old(out)@ + escape_char(c),
{
    if c == '"' {
        out.push('\\');
        out.push('"');
        assert(out@ =~= old(out)@ + escape_char(c));
    } else if c == '\\' {
        out.push('\\');
        out.push('\\');
        assert(out@ =~= old(out)@ + escape_char(c));
    } else if c == '\n' {
        out.push('\\');
        out.push('n');
        assert(out@ =~= old(out)@ + escape_char(c));
    } else if c == '\r' {
        out.push('\\');
        out.push('r');
        assert(out@ =~= old(out)@ + escape_char(c));
    } else if c == '\t' {
        out.push('\\');
        out.push('t');
        assert(out@ =~= old(out)@ + escape_char(c));
    } else if c == '\u{8}' {
        out.push('\\');
        out.push('b');
        assert(out@ =~= old(out)@ + escape_char(c));
    } else if c == '\u{c}' {
        out.push('\\');
        out.push('f');
        assert(out@ =~= old(out)@ + escape_char(c));
    } else if (c as u32) < 0x20 {
        let n = c as u32;
        out.push('\\');
        out.push('u');
        out.push('0');
        out.push('0');
        out.push(hex(n / 16));
        out.push(hex(n % 16));
        assert(out@ =~= old(out)@ + escape_char(c));
    } else {
        out.push(c);
        assert(out@ =~= old(out)@ + escape_char(c));
    }
}

proof fn lemma_escape_text_append(a: Seq<char>, b: Seq<char>)
    ensures
        escape_text(a + b) == escape_text(a) + escape_text(b),
    decreases a.len(),
{
    if a.len() == 0 {
        assert(a + b =~= b);
        assert(escape_text(a) + escape_text(b) =~= escape_text(b));
    } else {
        assert((a + b)[0] == a[0]);
        assert((a + b).drop_first() =~= a.drop_first() + b);
        lemma_escape_text_append(a.drop_first(), b);
        assert(escape_char(a[0]) + (escape_text(a.drop_first()) + escape_text(b)) =~= (escape_char(
            a[0],
        ) + escape_text(a.drop_first())) + escape_text(b));
    }
}

pub(crate) fn write_string_str(out: &mut Vec<char>, t: &str)
    ensures
        final(out)@ == old(out)@ + print_string(t@),
{
    out.push('"');
    let cs = str_to_chars(t);
    let mut k: usize = 0;
    while k < cs.len()
        invariant
            k <= cs@.len(),
            cs@ == t@,
            out@ == old(out)@ + seq!['"'] + escape_text(t@.take(k as int)),
        decreases cs@.len() - k,
    {
        let c = cs[k];
        write_escape(out, c);
        proof {
            assert(t@.take(k as int + 1) =~= t@.take(k as int) + seq![c]);
            lemma_escape_text_append(t@.take(k as int), seq![c]);
            assert(seq![c].drop_first() =~= Seq::<char>::empty());
            assert(escape_text(seq![c]) =~= escape_char(c) + escape_text(Seq::<char>::empty()));
            assert(escape_char(c) + Seq::<char>::empty() =~= escape_char(c));
        }
        k = k + 1;
    }
    assert(t@.take(t@.len() as int) =~= t@);
    out.push('"');
    assert(out@ =~= old(out)@ + print_string(t@));
}

/// Write the canonical text of a value onto `out`.
pub(crate) fn write_json(out: &mut Vec<char>, v: &JsonValue)
    ensures
        final(out)@ == old(out)@ + print_json(v@),
    decreases *v, 0int,
{
    broadcast use vstd::std_specs::vec::axiom_vec_decreases_to_view;

    match v {
        JsonValue::Null => {
            out.push('n');
            out.push('u');
            out.push('l');
            out.push('l');
            assert(out@ =~= old(out)@ + print_json(v@));
        },
        JsonValue::Bool(b) => {
            if *b {
                out.push('t');
                out.push('r');
                out.push('u');
                out.push('e');
            } else {
                out.push('f');
                out.push('a');
                out.push('l');
                out.push('s');
                out.push('e');
            }
            assert(out@ =~= old(out)@ + print_json(v@));
        },
        JsonValue::Num(s) => {
            let cs = str_to_chars(s.as_str());
            push_chars(out, &cs);
        },
        JsonValue::Str(s) => {
            write_string_str(out, s.as_str());
        },
        JsonValue::Arr(elems) => {
            assert(decreases_to!(*v => *elems));
            out.push('[');
            write_items(out, elems, 0);
            out.push(']');
            proof {
                assert(elems@.skip(0) =~= elems@);
                assert(out@ =~= old(out)@ + print_json(v@));
            }
        },
        JsonValue::Obj(fields) => {
            assert(decreases_to!(*v => *fields));
            out.push('{');
            write_fields(out, fields, 0);
            out.push('}');
            proof {
                assert(fields@.skip(0) =~= fields@);
                assert(out@ =~= old(out)@ + print_json(v@));
            }
        },
    }
}

fn write_items(out: &mut Vec<char>, elems: &Vec<JsonValue>, idx: usize)
    requires
        idx <= elems@.len(),
    ensures
        final(out)@ == old(out)@ + print_items(json_views(elems@.skip(idx as int))),
    decreases *elems, elems@.len() - idx,
{
    broadcast use vstd::std_specs::vec::axiom_vec_decreases_to_view;
    broadcast use vstd::std_specs::vec::axiom_vec_index_decreases;

    let ghost tail = elems@.skip(idx as int);
    if idx == elems.len() {
        assert(tail =~= Seq::<JsonValue>::empty());
        assert(out@ =~= old(out)@ + print_items(json_views(tail)));
        return;
    }
    proof {
        assert(decreases_to!(*elems => elems@));
        assert(decreases_to!(elems@ => elems@[idx as int]));
        assert(tail =~= seq![elems@[idx as int]] + elems@.skip(idx as int + 1));
        lemma_json_views_cons(elems@[idx as int], elems@.skip(idx as int + 1));
        lemma_json_views_len(elems@.skip(idx as int + 1));
    }
    write_json(out, &elems[idx]);
    if idx + 1 == elems.len() {
        assert(json_views(tail).len() == 1);
        assert(json_views(tail)[0] == json_view(elems@[idx as int]));
    } else {
        out.push(',');
        write_items(out, elems, idx + 1);
        proof {
            assert(json_views(tail).len() > 1);
            assert(json_views(tail)[0] == json_view(elems@[idx as int]));
            assert(json_views(tail).drop_first() =~= json_views(elems@.skip(idx as int + 1)));
            assert(out@ =~= old(out)@ + print_items(json_views(tail)));
        }
    }
}

fn write_fields(out: &mut Vec<char>, fields: &Vec<(String, JsonValue)>, idx: usize)
    requires
        idx <= fields@.len(),
    ensures
        final(out)@ == old(out)@ + print_fields(json_field_views(fields@.skip(idx as int))),
    decreases *fields, fields@.len() - idx,
{
    broadcast use vstd::std_specs::vec::axiom_vec_decreases_to_view;
    broadcast use vstd::std_specs::vec::axiom_vec_index_decreases;

    let ghost tail = fields@.skip(idx as int);
    if idx == fields.len() {
        assert(tail =~= Seq::<(String, JsonValue)>::empty());
        assert(out@ =~= old(out)@ + print_fields(json_field_views(tail)));
        return;
    }
    proof {
        assert(decreases_to!(*fields => fields@));
        assert(decreases_to!(fields@ => fields@[idx as int]));
        assert(decreases_to!(fields@[idx as int] => fields@[idx as int].1));
        assert(tail =~= seq![fields@[idx as int]] + fields@.skip(idx as int + 1));
        lemma_json_field_views_cons(
            fields@[idx as int].0,
            fields@[idx as int].1,
            fields@.skip(idx as int + 1),
        );
        lemma_json_field_views_len(fields@.skip(idx as int + 1));
    }
    write_string_str(out, fields[idx].0.as_str());
    out.push(':');
    write_json(out, &fields[idx].1);
    if idx + 1 == fields.len() {
        assert(json_field_views(tail).len() == 1);
        assert(json_field_views(tail)[0] == (fields@[idx as int].0@, json_view(
            fields@[idx as int].1,
        )));
        assert(out@ =~= old(out)@ + print_fields(json_field_views(tail)));
    } else {
        out.push(',');
        write_fields(out, fields, idx + 1);
        proof {
            assert(json_field_views(tail).len() > 1);
            assert(json_field_views(tail)[0] == (fields@[idx as int].0@, json_view(
                fields@[idx as int].1,
            )));
            assert(json_field_views(tail).drop_first() =~= json_field_views(
                fields@.skip(idx as int + 1),
            ));
            assert(out@ =~= old(out)@ + print_fields(json_field_views(tail)));
        }
    }
}

/// The canonical text of a value.
pub fn json_to_text(v: &JsonValue) -> (r: String)
    ensures
        r@ == print_json(v@),
{
    let mut out: Vec<char> = Vec::new();
    write_json(&mut out, v);
    chars_to_string(&out)
}

} // verus!
