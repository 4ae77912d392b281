//! The intermediate file format: a text-encoded array of key-value
//! objects, `[{"key":"...","value":"..."},...]`, with `"` and `\` escaped
//! by a backslash inside the quoted texts. Every worker writes and reads
//! this one canonical form; the decoder accepts exactly what the encoder
//! produces.

use vstd::prelude::*;
use crate::models::{KeyValue, kvs_view};
use crate::strings::{chars_to_string, string_to_chars};

verus! {

/// How one character appears inside a quoted text.
pub open spec fn esc_char(c: char) -> Seq<char> {
    if c == '"' || c == '\\' {
        seq!['\\', c]
    } else {
        seq![c]
    }
}

/// A text with its quotes and backslashes escaped.
pub open spec fn spec_escape(s: Seq<char>) -> Seq<char>
    decreases s.len(),
{
    if s.len() == 0 {
        Seq::empty()
    } else {
        esc_char(s[0]) + spec_escape(s.skip(1))
    }
}

/// Escaping a concatenation escapes the parts.
pub proof fn lemma_escape_app(a: Seq<char>, b: Seq<char>)
    ensures
        spec_escape(a + b) == spec_escape(a) + spec_escape(b),
    decreases a.len(),
{
    if a.len() == 0 {
        assert(a + b =~= b);
        assert(spec_escape(a) + spec_escape(b) =~= spec_escape(b));
    } else {
        assert((a + b).skip(1) =~= a.skip(1) + b);
        lemma_escape_app(a.skip(1), b);
        assert(esc_char((a + b)[0]) + (spec_escape(a.skip(1)) + spec_escape(b)) =~= (esc_char(
            a[0],
        ) + spec_escape(a.skip(1))) + spec_escape(b));
    }
}

/// A single character escapes to its escape form.
proof fn lemma_escape_single(c: char)
    ensures
        spec_escape(seq![c]) == esc_char(c),
{
    let s = seq![c];
    assert(s.skip(1) =~= Seq::<char>::empty());
    assert(spec_escape(s.skip(1)) == Seq::<char>::empty());
    assert(esc_char(c) + Seq::<char>::empty() =~= esc_char(c));
}

/// The opening of an object, up to the key text: `{"key":"`.
pub open spec fn obj_open() -> Seq<char> {
    seq!['{', '"', 'k', 'e', 'y', '"', ':', '"']
}

/// Between the key text's closing quote and the value text: `,"value":"`.
pub open spec fn val_sep() -> Seq<char> {
    seq![',', '"', 'v', 'a', 'l', 'u', 'e', '"', ':', '"']
}

/// One encoded record.
pub open spec fn spec_encode_kv(kv: (Seq<char>, Seq<char>)) -> Seq<char> {
    obj_open() + spec_escape(kv.0) + seq!['"'] + val_sep() + spec_escape(kv.1) + seq!['"', '}']
}

/// Encoded records joined by commas.
pub open spec fn spec_encode_items(m: Seq<(Seq<char>, Seq<char>)>) -> Seq<char>
    decreases m.len(),
{
    if m.len() == 0 {
        Seq::empty()
    } else if m.len() == 1 {
        spec_encode_kv(m[0])
    } else {
        spec_encode_kv(m[0]) + seq![','] + spec_encode_items(m.skip(1))
    }
}

/// The whole encoded array.
pub open spec fn spec_encode_records(m: Seq<(Seq<char>, Seq<char>)>) -> Seq<char> {
    seq!['['] + spec_encode_items(m) + seq![']']
}

/// Appending one more record to a non-empty run appends a comma and its
/// encoding.
proof fn lemma_items_push(m: Seq<(Seq<char>, Seq<char>)>, x: (Seq<char>, Seq<char>))
    requires
        m.len() >= 1,
    ensures
        spec_encode_items(m.push(x)) == spec_encode_items(m) + seq![','] + spec_encode_kv(x),
    decreases m.len(),
{
    let p = m.push(x);
    if m.len() == 1 {
        assert(p.skip(1) =~= seq![x]);
        assert(spec_encode_items(seq![x]) == spec_encode_kv(x));
        assert(p[0] == m[0]);
        assert(spec_encode_items(p) =~= spec_encode_kv(m[0]) + seq![','] + spec_encode_kv(x));
    } else {
        lemma_items_push(m.skip(1), x);
        assert(p.skip(1) =~= m.skip(1).push(x));
        assert(spec_encode_kv(m[0]) + seq![','] + (spec_encode_items(m.skip(1)) + seq![',']
            + spec_encode_kv(x)) =~= (spec_encode_kv(m[0]) + seq![','] + spec_encode_items(
            m.skip(1),
        )) + seq![','] + spec_encode_kv(x));
    }
}

/// Push one character.
fn push_char(out: &mut Vec<char>, c: char)
    ensures
        final(out)@ == old(out)@ + seq![c],
{
    out.push(c);
    proof {
        assert(out@ =~= old(out)@ + seq![c]);
    }
}

/// Append the escaped form of a text.
fn push_escaped(out: &mut Vec<char>, s: &str)
    ensures
        final(out)@ == old(out)@ + spec_escape(s@),
{
    let cs = string_to_chars(s);
    let mut i: usize = 0;
    while i < cs.len()
        invariant
            cs@ == s@,
            i <= cs@.len(),
            out@ == old(out)@ + spec_escape(s@.take(i as int)),
        decreases cs@.len() - i,
    {
        proof {
            assert(s@.take(i as int + 1) =~= s@.take(i as int) + seq![s@[i as int]]);
            lemma_escape_app(s@.take(i as int), seq![s@[i as int]]);
            lemma_escape_single(s@[i as int]);
        }
        let c = cs[i];
        if c == '"' || c == '\\' {
            out.push('\\');
            out.push(c);
        } else {
            out.push(c);
        }
        proof {
            assert(out@ =~= old(out)@ + spec_escape(s@.take(i as int + 1)));
        }
        i += 1;
    }
    proof {
        assert(s@.take(s@.len() as int) =~= s@);
    }
}

/// Append one encoded record.
fn push_encoded_kv(out: &mut Vec<char>, kv: &KeyValue)
    ensures
        final(out)@ == old(out)@ + spec_encode_kv(kv@),
{
    push_char(out, '{');
    push_char(out, '"');
    push_char(out, 'k');
    push_char(out, 'e');
    push_char(out, 'y');
    push_char(out, '"');
    push_char(out, ':');
    push_char(out, '"');
    push_escaped(out, kv.key.as_str());
    push_char(out, '"');
    push_char(out, ',');
    push_char(out, '"');
    push_char(out, 'v');
    push_char(out, 'a');
    push_char(out, 'l');
    push_char(out, 'u');
    push_char(out, 'e');
    push_char(out, '"');
    push_char(out, ':');
    push_char(out, '"');
    push_escaped(out, kv.value.as_str());
    push_char(out, '"');
    push_char(out, '}');
    proof {
        assert(out@ =~= old(out)@ + spec_encode_kv(kv@));
    }
}

/// Encode a record list as one text: the bytes of an intermediate file.
pub fn encode_records(records: &Vec<KeyValue>) -> (r: String)
    ensures
        r@ == spec_encode_records(kvs_view(records@)),
{
    let ghost rv = kvs_view(records@);
    let mut out: Vec<char> = Vec::new();
    out.push('[');
    let mut i: usize = 0;
    while i < records.len()
        invariant
            rv == kvs_view(records@),
            rv.len() == records@.len(),
            i <= records@.len(),
            out@ == seq!['['] + spec_encode_items(rv.take(i as int)),
        decreases records@.len() - i,
    {
        if i > 0 {
            push_char(&mut out, ',');
        }
        push_encoded_kv(&mut out, &records[i]);
        proof {
            if i == 0 {
                assert(rv.take(1)[0] == rv[0]);
                assert(out@ =~= seq!['['] + spec_encode_items(rv.take(1)));
            } else {
                assert(rv.take(i as int + 1) =~= rv.take(i as int).push(rv[i as int]));
                lemma_items_push(rv.take(i as int), rv[i as int]);
                assert(out@ =~= seq!['['] + spec_encode_items(rv.take(i as int + 1)));
            }
        }
        i += 1;
    }
    out.push(']');
    proof {
        assert(rv.take(rv.len() as int) =~= rv);
        assert(out@ =~= spec_encode_records(rv));
    }
    chars_to_string(&out)
}

/// A quoted text parsed up to and including its closing quote: the text,
/// unescaped, and what follows the quote.
pub open spec fn parse_string_body(s: Seq<char>) -> Option<(Seq<char>, Seq<char>)>
    decreases s.len(),
{
    if s.len() == 0 {
        None
    } else if s[0] == '"' {
        Some((Seq::empty(), s.skip(1)))
    } else if s[0] == '\\' {
        if s.len() >= 2 && (s[1] == '"' || s[1] == '\\') {
            match parse_string_body(s.skip(2)) {
                Some(p) => Some((seq![s[1]] + p.0, p.1)),
                None => None,
            }
        } else {
            None
        }
    } else {
        match parse_string_body(s.skip(1)) {
            Some(p) => Some((seq![s[0]] + p.0, p.1)),
            None => None,
        }
    }
}

/// What remains after a parsed text is shorter than the input.
pub proof fn lemma_parse_string_body_rest(s: Seq<char>)
    requires
        parse_string_body(s) is Some,
    ensures
        parse_string_body(s)->Some_0.1.len() < s.len(),
    decreases s.len(),
{
    if s.len() != 0 && s[0] != '"' {
        if s[0] == '\\' {
            lemma_parse_string_body_rest(s.skip(2));
        } else {
            lemma_parse_string_body_rest(s.skip(1));
        }
    }
}

/// Whether `p` opens `s`.
pub open spec fn has_prefix(s: Seq<char>, p: Seq<char>) -> bool {
    s.len() >= p.len() && s.take(p.len() as int) == p
}

/// One parsed object: the record and what follows its closing brace.
pub open spec fn parse_obj(s: Seq<char>) -> Option<((Seq<char>, Seq<char>), Seq<char>)> {
    if has_prefix(s, obj_open()) {
        match parse_string_body(s.skip(obj_open().len() as int)) {
            Some(k) => if has_prefix(k.1, val_sep()) {
                match parse_string_body(k.1.skip(val_sep().len() as int)) {
                    Some(v) => if v.1.len() >= 1 && v.1[0] == '}' {
                        Some(((k.0, v.0), v.1.skip(1)))
                    } else {
                        None
                    },
                    None => None,
                }
            } else {
                None
            },
            None => None,
        }
    } else {
        None
    }
}

pub proof fn lemma_parse_obj_rest(s: Seq<char>)
    requires
        parse_obj(s) is Some,
    ensures
        parse_obj(s)->Some_0.1.len() < s.len(),
{
    lemma_parse_string_body_rest(s.skip(obj_open().len() as int));
    let k = parse_string_body(s.skip(obj_open().len() as int))->Some_0;
    lemma_parse_string_body_rest(k.1.skip(val_sep().len() as int));
}

/// A comma-separated run of objects; `fuel` only bounds the recursion and
/// any value at least the input's length is enough.
pub open spec fn parse_items(s: Seq<char>, fuel: nat) -> Option<
    (Seq<(Seq<char>, Seq<char>)>, Seq<char>),
>
    decreases fuel,
{
    if fuel == 0 {
        None
    } else {
        match parse_obj(s) {
            Some(p) => if p.1.len() >= 1 && p.1[0] == ',' {
                match parse_items(p.1.skip(1), (fuel - 1) as nat) {
                    Some(q) => Some((seq![p.0] + q.0, q.1)),
                    None => None,
                }
            } else {
                Some((seq![p.0], p.1))
            },
            None => None,
        }
    }
}

/// With enough fuel the parse no longer depends on it.
proof fn lemma_parse_items_fuel_canon(s: Seq<char>, f: nat)
    requires
        f >= s.len() + 1,
    ensures
        parse_items(s, f) == parse_items(s, s.len() + 1),
    decreases f,
{
    match parse_obj(s) {
        Some(p) => {
            lemma_parse_obj_rest(s);
            if p.1.len() >= 1 && p.1[0] == ',' {
                let rest = p.1.skip(1);
                lemma_parse_items_fuel_canon(rest, (f - 1) as nat);
                lemma_parse_items_fuel_canon(rest, s.len() as nat);
            }
        },
        None => {},
    }
}

/// Any fuel at least the input's length gives the same parse.
pub proof fn lemma_parse_items_fuel(s: Seq<char>, f1: nat, f2: nat)
    requires
        f1 >= s.len() + 1,
        f2 >= s.len() + 1,
    ensures
        parse_items(s, f1) == parse_items(s, f2),
{
    lemma_parse_items_fuel_canon(s, f1);
    lemma_parse_items_fuel_canon(s, f2);
}

/// The decoded record list of a whole text, or nothing if the text is not
/// a canonical encoding.
pub open spec fn spec_decode(s: Seq<char>) -> Option<Seq<(Seq<char>, Seq<char>)>> {
    if s =~= seq!['[', ']'] {
        Some(Seq::empty())
    } else if s.len() >= 1 && s[0] == '[' {
        match parse_items(s.skip(1), s.len() as nat) {
            Some(p) => if p.1 =~= seq![']'] {
                Some(p.0)
            } else {
                None
            },
            None => None,
        }
    } else {
        None
    }
}

fn parse_body_exec(v: &Vec<char>, pos: usize) -> (r: Option<(Vec<char>, usize)>)
    requires
        pos <= v@.len(),
    ensures
        match r {
            Some(p) => pos < p.1 <= v@.len() && parse_string_body(v@.skip(pos as int)) == Some(
                (p.0@, v@.skip(p.1 as int)),
            ),
            None => parse_string_body(v@.skip(pos as int)) is None,
        },
    decreases v@.len() - pos,
{
    let ghost s = v@.skip(pos as int);
    if pos >= v.len() {
        proof {
            assert(s.len() == 0);
        }
        None
    } else if v[pos] == '"' {
        proof {
            assert(s[0] == '"');
            assert(s.skip(1) =~= v@.skip(pos as int + 1));
        }
        Some((Vec::new(), pos + 1))
    } else if v[pos] == '\\' {
        if v.len() - pos >= 2 && (v[pos + 1] == '"' || v[pos + 1] == '\\') {
            proof {
                assert(s[0] == '\\');
                assert(s[1] == v@[pos as int + 1]);
                assert(s.skip(2) =~= v@.skip(pos as int + 2));
            }
            match parse_body_exec(v, pos + 2) {
                Some((b, np)) => {
                    let mut b = b;
                    let c = v[pos + 1];
                    b.insert(0, c);
                    proof {
                        assert(b@ =~= seq![s[1]] + b@.skip(1));
                    }
                    Some((b, np))
                },
                None => None,
            }
        } else {
            proof {
                assert(s[0] == '\\');
                if s.len() >= 2 {
                    assert(s[1] == v@[pos as int + 1]);
                }
            }
            None
        }
    } else {
        proof {
            assert(s[0] == v@[pos as int]);
            assert(s.skip(1) =~= v@.skip(pos as int + 1));
        }
        match parse_body_exec(v, pos + 1) {
            Some((b, np)) => {
                let mut b = b;
                let c = v[pos];
                b.insert(0, c);
                proof {
                    assert(b@ =~= seq![s[0]] + b@.skip(1));
                }
                Some((b, np))
            },
            None => None,
        }
    }
}

fn match_obj_open(v: &Vec<char>, pos: usize) -> (r: bool)
    requires
        pos <= v@.len(),
    ensures
        r == has_prefix(v@.skip(pos as int), obj_open()),
{
    let ghost s = v@.skip(pos as int);
    if v.len() - pos >= 8 && v[pos] == '{' && v[pos + 1] == '"' && v[pos + 2] == 'k' && v[pos + 3]
        == 'e' && v[pos + 4] == 'y' && v[pos + 5] == '"' && v[pos + 6] == ':' && v[pos + 7]
        == '"' {
        proof {
            assert(s.take(8) =~= obj_open());
        }
        true
    } else {
        proof {
            if has_prefix(s, obj_open()) {
                assert(s.take(8)[0] == s[0] && s.take(8)[1] == s[1] && s.take(8)[2] == s[2]
                    && s.take(8)[3] == s[3] && s.take(8)[4] == s[4] && s.take(8)[5] == s[5]
                    && s.take(8)[6] == s[6] && s.take(8)[7] == s[7]);
            }
        }
        false
    }
}

fn match_val_sep(v: &Vec<char>, pos: usize) -> (r: bool)
    requires
        pos <= v@.len(),
    ensures
        r == has_prefix(v@.skip(pos as int), val_sep()),
{
    let ghost s = v@.skip(pos as int);
    if v.len() - pos >= 10 && v[pos] == ',' && v[pos + 1] == '"' && v[pos + 2] == 'v' && v[pos + 3]
        == 'a' && v[pos + 4] == 'l' && v[pos + 5] == 'u' && v[pos + 6] == 'e' && v[pos + 7] == '"'
        && v[pos + 8] == ':' && v[pos + 9] == '"' {
        proof {
            assert(s.take(10) =~= val_sep());
        }
        true
    } else {
        proof {
            if has_prefix(s, val_sep()) {
                assert(s.take(10)[0] == s[0] && s.take(10)[1] == s[1] && s.take(10)[2] == s[2]
                    && s.take(10)[3] == s[3] && s.take(10)[4] == s[4] && s.take(10)[5] == s[5]
                    && s.take(10)[6] == s[6] && s.take(10)[7] == s[7] && s.take(10)[8] == s[8]
                    && s.take(10)[9] == s[9]);
            }
        }
        false
    }
}

fn parse_obj_exec(v: &Vec<char>, pos: usize) -> (r: Option<(KeyValue, usize)>)
    requires
        pos <= v@.len(),
    ensures
        match r {
            Some(p) => pos < p.1 <= v@.len() && parse_obj(v@.skip(pos as int)) == Some(
                (p.0@, v@.skip(p.1 as int)),
            ),
            None => parse_obj(v@.skip(pos as int)) is None,
        },
{
    let ghost s = v@.skip(pos as int);
    if !match_obj_open(v, pos) {
        return None;
    }
    let n = v.len();
    proof {
        assert(s.len() >= 8);
        assert(pos + 8 <= n);
        assert(s.skip(8) =~= v@.skip(pos as int + 8));
    }
    match parse_body_exec(v, pos + 8) {
        Some((kb, kp)) => {
            if !match_val_sep(v, kp) {
                return None;
            }
            proof {
                assert(v@.skip(kp as int).len() >= 10);
                assert(kp + 10 <= n);
                assert(v@.skip(kp as int).skip(10) =~= v@.skip(kp as int + 10));
            }
            match parse_body_exec(v, kp + 10) {
                Some((vb, vp)) => {
                    if vp < v.len() && v[vp] == '}' {
                        proof {
                            assert(v@.skip(vp as int)[0] == '}');
                            assert(v@.skip(vp as int).skip(1) =~= v@.skip(vp as int + 1));
                        }
                        let kv = KeyValue {
                            key: chars_to_string(&kb),
                            value: chars_to_string(&vb),
                        };
                        Some((kv, vp + 1))
                    } else {
                        proof {
                            if v@.skip(vp as int).len() >= 1 {
                                assert(v@.skip(vp as int)[0] == v@[vp as int]);
                            }
                        }
                        None
                    }
                },
                None => None,
            }
        },
        None => None,
    }
}

fn parse_items_exec(v: &Vec<char>, pos: usize) -> (r: Option<(Vec<KeyValue>, usize)>)
    requires
        pos <= v@.len(),
    ensures
        match r {
            Some(p) => p.1 <= v@.len() && parse_items(
                v@.skip(pos as int),
                v@.skip(pos as int).len() + 1,
            ) == Some((kvs_view(p.0@), v@.skip(p.1 as int))),
            None => parse_items(v@.skip(pos as int), v@.skip(pos as int).len() + 1) is None,
        },
    decreases v@.len() - pos,
{
    let ghost s = v@.skip(pos as int);
    match parse_obj_exec(v, pos) {
        Some((kv, np)) => {
            if np < v.len() && v[np] == ',' {
                proof {
                    assert(v@.skip(np as int)[0] == ',');
                    assert(v@.skip(np as int).skip(1) =~= v@.skip(np as int + 1));
                    lemma_parse_items_fuel(
                        v@.skip(np as int + 1),
                        s.len() as nat,
                        v@.skip(np as int + 1).len() + 1,
                    );
                }
                match parse_items_exec(v, np + 1) {
                    Some((items, e)) => {
                        let mut items = items;
                        items.insert(0, kv);
                        proof {
                            assert(kvs_view(items@) =~= seq![items@[0]@] + kvs_view(
                                items@.skip(1),
                            ));
                        }
                        Some((items, e))
                    },
                    None => None,
                }
            } else {
                proof {
                    if v@.skip(np as int).len() >= 1 {
                        assert(v@.skip(np as int)[0] == v@[np as int]);
                    }
                }
                let mut items: Vec<KeyValue> = Vec::new();
                items.push(kv);
                proof {
                    assert(kvs_view(items@) =~= seq![kv@]);
                }
                Some((items, np))
            }
        },
        None => None,
    }
}

/// Decode one intermediate file's text back to its record list; anything
/// that is not a canonical encoding is refused.
pub fn decode_records(s: &str) -> (r: Option<Vec<KeyValue>>)
    ensures
        match r {
            Some(kvs) => spec_decode(s@) == Some(kvs_view(kvs@)),
            None => spec_decode(s@) is None,
        },
{
    let v = string_to_chars(s);
    if v.len() == 2 && v[0] == '[' && v[1] == ']' {
        proof {
            assert(s@ =~= seq!['[', ']']);
            assert(kvs_view(Seq::<KeyValue>::empty()) =~= Seq::<(Seq<char>, Seq<char>)>::empty());
        }
        return Some(Vec::new());
    }
    proof {
        assert(!(s@ =~= seq!['[', ']']));
    }
    if v.len() >= 1 && v[0] == '[' {
        proof {
            assert(v@.skip(1).len() + 1 == s@.len());
        }
        match parse_items_exec(&v, 1) {
            Some((items, np)) => {
                if np == v.len() - 1 && v[np] == ']' {
                    proof {
                        assert(v@.skip(np as int) =~= seq![']']);
                    }
                    Some(items)
                } else {
                    proof {
                        if v@.skip(np as int) =~= seq![']'] {
                            assert(v@.skip(np as int).len() == 1);
                            assert(v@.skip(np as int)[0] == v@[np as int]);
                        }
                    }
                    None
                }
            },
            None => None,
        }
    } else {
        None
    }
}

/// A quoted text parses back to exactly the text that was escaped, leaving
/// exactly what followed the closing quote.
proof fn lemma_parse_body_of_escape(k: Seq<char>, rest: Seq<char>)
    ensures
        parse_string_body(spec_escape(k) + seq!['"'] + rest) == Some((k, rest)),
    decreases k.len(),
{
    let s = spec_escape(k) + seq!['"'] + rest;
    if k.len() == 0 {
        assert(s =~= seq!['"'] + rest);
        assert(s[0] == '"');
        assert(s.skip(1) =~= rest);
    } else {
        let c = k[0];
        let tail = spec_escape(k.skip(1)) + seq!['"'] + rest;
        lemma_parse_body_of_escape(k.skip(1), rest);
        if c == '"' || c == '\\' {
            assert(s =~= seq!['\\', c] + tail);
            assert(s[0] == '\\' && s[1] == c);
            assert(s.skip(2) =~= tail);
            assert(seq![c] + k.skip(1) =~= k);
        } else {
            assert(s =~= seq![c] + tail);
            assert(s[0] == c);
            assert(s.skip(1) =~= tail);
            assert(seq![c] + k.skip(1) =~= k);
        }
    }
}

/// One encoded record parses back to exactly that record.
proof fn lemma_parse_obj_of_encode(kv: (Seq<char>, Seq<char>), rest: Seq<char>)
    ensures
        parse_obj(spec_encode_kv(kv) + rest) == Some((kv, rest)),
{
    let s = spec_encode_kv(kv) + rest;
    let r1 = val_sep() + spec_escape(kv.1) + seq!['"', '}'] + rest;
    let r2 = seq!['}'] + rest;
    assert(s.take(8) =~= obj_open());
    assert(has_prefix(s, obj_open()));
    assert(s.skip(8) =~= spec_escape(kv.0) + seq!['"'] + (val_sep() + spec_escape(kv.1) + seq![
        '"',
        '}',
    ] + rest));
    lemma_parse_body_of_escape(kv.0, r1);
    assert(s.skip(8) =~= spec_escape(kv.0) + seq!['"'] + r1);
    assert(r1.take(10) =~= val_sep());
    assert(has_prefix(r1, val_sep()));
    assert(r1.skip(10) =~= spec_escape(kv.1) + seq!['"'] + r2);
    lemma_parse_body_of_escape(kv.1, r2);
    assert(r2[0] == '}');
    assert(r2.skip(1) =~= rest);
    assert(kv =~~= (kv.0, kv.1));
}

/// An encoded run of records, followed by anything but a comma, parses
/// back to exactly those records.
proof fn lemma_parse_items_of_encode(m: Seq<(Seq<char>, Seq<char>)>, rest: Seq<char>, fuel: nat)
    requires
        m.len() >= 1,
        fuel >= m.len(),
        rest.len() == 0 || rest[0] != ',',
    ensures
        parse_items(spec_encode_items(m) + rest, fuel) == Some((m, rest)),
    decreases m.len(),
{
    let s = spec_encode_items(m) + rest;
    if m.len() == 1 {
        assert(s =~= spec_encode_kv(m[0]) + rest);
        lemma_parse_obj_of_encode(m[0], rest);
        assert(seq![m[0]] =~= m);
    } else {
        let r1 = seq![','] + spec_encode_items(m.skip(1)) + rest;
        assert(s =~= spec_encode_kv(m[0]) + r1);
        lemma_parse_obj_of_encode(m[0], r1);
        assert(r1[0] == ',');
        assert(r1.skip(1) =~= spec_encode_items(m.skip(1)) + rest);
        lemma_parse_items_of_encode(m.skip(1), rest, (fuel - 1) as nat);
        assert(seq![m[0]] + m.skip(1) =~= m);
    }
}

/// The length of an encoded run dominates the record count.
proof fn lemma_items_len(m: Seq<(Seq<char>, Seq<char>)>)
    ensures
        spec_encode_items(m).len() >= m.len(),
        m.len() >= 1 ==> spec_encode_items(m).len() >= 1,
    decreases m.len(),
{
    if m.len() > 1 {
        lemma_items_len(m.skip(1));
    }
}

/// Decoding an encoding gives back exactly the records that were encoded:
/// the codec loses nothing, and equal encodings mean equal records.
pub proof fn lemma_decode_of_encode(m: Seq<(Seq<char>, Seq<char>)>)
    ensures
        spec_decode(spec_encode_records(m)) == Some(m),
{
    let s = spec_encode_records(m);
    if m.len() == 0 {
        assert(s =~= seq!['[', ']']);
    } else {
        lemma_items_len(m);
        assert(s.len() >= 3);
        assert(!(s =~= seq!['[', ']']));
        assert(s[0] == '[');
        assert(s.skip(1) =~= spec_encode_items(m) + seq![']']);
        lemma_parse_items_of_encode(m, seq![']'], s.len() as nat);
        assert(seq![']'] =~= seq![']']);
    }
}

/// Two record lists with the same encoding are the same list.
pub proof fn lemma_encode_injective(a: Seq<(Seq<char>, Seq<char>)>, b: Seq<(Seq<char>, Seq<char>)>)
    requires
        spec_encode_records(a) == spec_encode_records(b),
    ensures
        a == b,
{
    lemma_decode_of_encode(a);
    lemma_decode_of_encode(b);
}

} // verus!
