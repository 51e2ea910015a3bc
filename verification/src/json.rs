//! The wire-format JSON model and codec.
//!
//! Every frame the broker reads or writes is a JSON text. The model here is a
//! tree of values whose strings are UTF-8 byte sequences and whose numbers are
//! signed 64-bit integers; serialization emits a canonical byte string (no
//! inter-token whitespace, object keys in insertion order), and parsing
//! accepts general JSON texts (whitespace, all simple escapes, `\u00XX`
//! escapes for the Basic Multilingual Plane).

use vstd::prelude::*;

verus! {

/// Mathematical model of a JSON value.
pub ghost enum Json {
    Null,
    Bool(bool),
    Int(int),
    Str(Seq<u8>),
    Arr(Seq<Json>),
    Obj(Seq<(Seq<u8>, Json)>),
}

/// Executable JSON value. Object entries keep insertion order.
#[derive(Debug)]
pub enum JsonValue {
    Null,
    Bool(bool),
    Int(i64),
    Str(Vec<u8>),
    Arr(Vec<JsonValue>),
    Obj(Vec<(Vec<u8>, JsonValue)>),
}

pub open spec fn view_arr(els: Seq<JsonValue>) -> Seq<Json>
    decreases els,
{
    if els.len() == 0 {
        Seq::empty()
    } else {
        seq![els[0]@] + view_arr(els.subrange(1, els.len() as int))
    }
}

pub open spec fn view_obj(kvs: Seq<(Vec<u8>, JsonValue)>) -> Seq<(Seq<u8>, Json)>
    decreases kvs,
{
    if kvs.len() == 0 {
        Seq::empty()
    } else {
        seq![(kvs[0].0@, kvs[0].1@)] + view_obj(kvs.subrange(1, kvs.len() as int))
    }
}

impl View for JsonValue {
    type V = Json;

    open spec fn view(&self) -> Json
        decreases self,
    {
        match self {
            JsonValue::Null => Json::Null,
            JsonValue::Bool(b) => Json::Bool(*b),
            JsonValue::Int(i) => Json::Int(*i as int),
            JsonValue::Str(s) => Json::Str(s@),
            JsonValue::Arr(els) => Json::Arr(view_arr(els@)),
            JsonValue::Obj(kvs) => Json::Obj(view_obj(kvs@)),
        }
    }
}

pub broadcast proof fn lemma_view_arr_index(els: Seq<JsonValue>)
    ensures
        (#[trigger] view_arr(els)).len() == els.len(),
        forall|i: int| 0 <= i < els.len() ==> view_arr(els)[i] == els[i]@,
    decreases els,
{
    if els.len() > 0 {
        let tail = els.subrange(1, els.len() as int);
        lemma_view_arr_index(tail);
        assert(view_arr(els) == seq![els[0]@] + view_arr(tail));
        assert forall|i: int| 0 <= i < els.len() implies view_arr(els)[i] == els[i]@ by {
            if i > 0 {
                assert(view_arr(els)[i] == view_arr(tail)[i - 1]);
                assert(tail[i - 1] == els[i]);
            }
        }
    }
}

pub broadcast proof fn lemma_view_obj_index(kvs: Seq<(Vec<u8>, JsonValue)>)
    ensures
        (#[trigger] view_obj(kvs)).len() == kvs.len(),
        forall|i: int|
            0 <= i < kvs.len() ==> view_obj(kvs)[i] == (kvs[i].0@, kvs[i].1@),
    decreases kvs,
{
    if kvs.len() > 0 {
        let tail = kvs.subrange(1, kvs.len() as int);
        lemma_view_obj_index(tail);
        assert(view_obj(kvs) == seq![(kvs[0].0@, kvs[0].1@)] + view_obj(tail));
        assert forall|i: int|
            0 <= i < kvs.len() implies view_obj(kvs)[i] == (kvs[i].0@, kvs[i].1@) by {
            if i > 0 {
                assert(view_obj(kvs)[i] == view_obj(tail)[i - 1]);
                assert(tail[i - 1] == kvs[i]);
            }
        }
    }
}

// ---------------------------------------------------------------------------
// Canonical serialization (specification)
// ---------------------------------------------------------------------------

/// Decimal digits of `n`, most significant first.
pub open spec fn spec_digits(n: nat) -> Seq<u8>
    decreases n,
{
    if n < 10 {
        seq![(0x30 + n) as u8]
    } else {
        spec_digits(n / 10) + seq![(0x30 + n % 10) as u8]
    }
}

/// Decimal text of `i`, with a leading minus sign when negative.
pub open spec fn spec_ser_int(i: int) -> Seq<u8> {
    if i < 0 {
        seq![0x2du8] + spec_digits((-i) as nat)
    } else {
        spec_digits(i as nat)
    }
}

/// Lower-case hex digit for `n < 16`.
pub open spec fn spec_hex_digit(n: u8) -> u8 {
    if n < 10 {
        (0x30 + n) as u8
    } else {
        (0x61 + (n - 10)) as u8
    }
}

/// How one byte of string content is emitted: `"` and `\` and the common
/// control characters get two-byte escapes, other control bytes get `\u00XX`,
/// and everything else is emitted as itself.
pub open spec fn spec_escape_byte(b: u8) -> Seq<u8> {
    if b == 0x22 {
        seq![0x5cu8, 0x22u8]
    } else if b == 0x5c {
        seq![0x5cu8, 0x5cu8]
    } else if b == 0x08 {
        seq![0x5cu8, 0x62u8]
    } else if b == 0x09 {
        seq![0x5cu8, 0x74u8]
    } else if b == 0x0a {
        seq![0x5cu8, 0x6eu8]
    } else if b == 0x0c {
        seq![0x5cu8, 0x66u8]
    } else if b == 0x0d {
        seq![0x5cu8, 0x72u8]
    } else if b < 0x20 {
        seq![0x5cu8, 0x75u8, 0x30u8, 0x30u8, spec_hex_digit(b / 16), spec_hex_digit(b % 16)]
    } else {
        seq![b]
    }
}

pub open spec fn spec_escape(s: Seq<u8>) -> Seq<u8>
    decreases s.len(),
{
    if s.len() == 0 {
        Seq::empty()
    } else {
        spec_escape_byte(s[0]) + spec_escape(s.subrange(1, s.len() as int))
    }
}

/// A string literal: quote, escaped content, quote.
pub open spec fn spec_ser_str(s: Seq<u8>) -> Seq<u8> {
    seq![0x22u8] + spec_escape(s) + seq![0x22u8]
}

/// Canonical serialization of a value.
pub open spec fn spec_ser(v: Json) -> Seq<u8>
    decreases v,
{
    match v {
        Json::Null => seq![0x6eu8, 0x75u8, 0x6cu8, 0x6cu8],
        Json::Bool(b) => if b {
            seq![0x74u8, 0x72u8, 0x75u8, 0x65u8]
        } else {
            seq![0x66u8, 0x61u8, 0x6cu8, 0x73u8, 0x65u8]
        },
        Json::Int(i) => spec_ser_int(i),
        Json::Str(s) => spec_ser_str(s),
        Json::Arr(els) => seq![0x5bu8] + spec_ser_elems(els) + seq![0x5du8],
        Json::Obj(kvs) => seq![0x7bu8] + spec_ser_members(kvs) + seq![0x7du8],
    }
}

/// Comma-joined serializations of array elements.
pub open spec fn spec_ser_elems(els: Seq<Json>) -> Seq<u8>
    decreases els,
{
    if els.len() == 0 {
        Seq::empty()
    } else if els.len() == 1 {
        spec_ser(els[0])
    } else {
        spec_ser(els[0]) + seq![0x2cu8] + spec_ser_elems(els.subrange(1, els.len() as int))
    }
}

/// Comma-joined `"key":value` serializations of object members.
pub open spec fn spec_ser_members(kvs: Seq<(Seq<u8>, Json)>) -> Seq<u8>
    decreases kvs,
{
    if kvs.len() == 0 {
        Seq::empty()
    } else if kvs.len() == 1 {
        spec_ser_str(kvs[0].0) + seq![0x3au8] + spec_ser(kvs[0].1)
    } else {
        spec_ser_str(kvs[0].0) + seq![0x3au8] + spec_ser(kvs[0].1) + seq![0x2cu8]
            + spec_ser_members(kvs.subrange(1, kvs.len() as int))
    }
}

// ---------------------------------------------------------------------------
// Parsing (specification)
// ---------------------------------------------------------------------------

pub open spec fn is_ws(b: u8) -> bool {
    b == 0x20 || b == 0x09 || b == 0x0a || b == 0x0d
}

pub open spec fn is_digit(b: u8) -> bool {
    0x30 <= b <= 0x39
}

/// `s` with its leading whitespace removed.
pub open spec fn sp_ws(s: Seq<u8>) -> Seq<u8>
    decreases s.len(),
{
    if s.len() > 0 && is_ws(s[0]) {
        sp_ws(s.subrange(1, s.len() as int))
    } else {
        s
    }
}

/// Value of a hex digit byte, if it is one.
pub open spec fn spec_hex_val(b: u8) -> Option<u8> {
    if 0x30 <= b <= 0x39 {
        Some((b - 0x30) as u8)
    } else if 0x61 <= b <= 0x66 {
        Some((b - 0x61 + 10) as u8)
    } else if 0x41 <= b <= 0x46 {
        Some((b - 0x41 + 10) as u8)
    } else {
        None
    }
}

/// UTF-8 encoding of a BMP code point (surrogates excluded by the caller).
pub open spec fn spec_utf8_of(cp: u16) -> Seq<u8> {
    if cp < 0x80 {
        seq![cp as u8]
    } else if cp < 0x800 {
        seq![(0xc0 + cp / 0x40) as u8, (0x80 + cp % 0x40) as u8]
    } else {
        seq![
            (0xe0 + cp / 0x1000) as u8,
            (0x80 + (cp / 0x40) % 0x40) as u8,
            (0x80 + cp % 0x40) as u8,
        ]
    }
}

/// What a `\uXXXX` escape yields at the front of `s` (`s` starts right after
/// the `u`), together with the rest: four hex digits naming a BMP code point
/// outside the surrogate range.
pub open spec fn sp_unicode_escape(s: Seq<u8>) -> Option<(Seq<u8>, Seq<u8>)> {
    if s.len() >= 4 {
        match (spec_hex_val(s[0]), spec_hex_val(s[1]), spec_hex_val(s[2]), spec_hex_val(s[3])) {
            (Some(h0), Some(h1), Some(h2), Some(h3)) => {
                let cp = ((h0 as int) * 0x1000 + (h1 as int) * 0x100 + (h2 as int) * 0x10
                    + (h3 as int)) as u16;
                if 0xd800 <= cp < 0xe000 {
                    None
                } else {
                    Some((spec_utf8_of(cp), s.subrange(4, s.len() as int)))
                }
            },
            _ => None,
        }
    } else {
        None
    }
}

pub open spec fn opt_prepend(p: Seq<u8>, o: Option<(Seq<u8>, Seq<u8>)>) -> Option<
    (Seq<u8>, Seq<u8>),
> {
    match o {
        Some(cr) => Some((p + cr.0, cr.1)),
        None => None,
    }
}

/// String-body parse: `s` starts right after the opening quote; the result is
/// the decoded content and what follows the closing quote.
pub open spec fn sp_str_body(s: Seq<u8>) -> Option<(Seq<u8>, Seq<u8>)>
    decreases s.len(),
{
    if s.len() == 0 {
        None
    } else if s[0] == 0x22 {
        Some((Seq::empty(), s.subrange(1, s.len() as int)))
    } else if s[0] == 0x5c {
        if s.len() >= 2 {
            let e = s[1];
            let rest = s.subrange(2, s.len() as int);
            if e == 0x22 || e == 0x5c || e == 0x2f {
                opt_prepend(seq![e], sp_str_body(rest))
            } else if e == 0x62 {
                opt_prepend(seq![0x08u8], sp_str_body(rest))
            } else if e == 0x66 {
                opt_prepend(seq![0x0cu8], sp_str_body(rest))
            } else if e == 0x6e {
                opt_prepend(seq![0x0au8], sp_str_body(rest))
            } else if e == 0x72 {
                opt_prepend(seq![0x0du8], sp_str_body(rest))
            } else if e == 0x74 {
                opt_prepend(seq![0x09u8], sp_str_body(rest))
            } else if e == 0x75 {
                match sp_unicode_escape(rest) {
                    Some(dr) => if dr.1.len() < s.len() {
                        opt_prepend(dr.0, sp_str_body(dr.1))
                    } else {
                        None
                    },
                    None => None,
                }
            } else {
                None
            }
        } else {
            None
        }
    } else if s[0] < 0x20 {
        None
    } else {
        opt_prepend(seq![s[0]], sp_str_body(s.subrange(1, s.len() as int)))
    }
}

/// Length of the run of decimal digits at the front of `s`.
pub open spec fn digits_prefix_len(s: Seq<u8>) -> nat
    decreases s.len(),
{
    if s.len() > 0 && is_digit(s[0]) {
        1 + digits_prefix_len(s.subrange(1, s.len() as int))
    } else {
        0
    }
}

/// Numeric value of a digit run, most significant digit first.
pub open spec fn digits_value(d: Seq<u8>) -> nat
    decreases d.len(),
{
    if d.len() == 0 {
        0
    } else {
        (digits_value(d.subrange(0, d.len() - 1)) * 10 + (d[d.len() - 1] - 0x30)) as nat
    }
}

/// Integer parse at the front of `s`: optional minus, then digits; the value
/// must fit a signed 64-bit integer. Fractions and exponents are refused.
pub open spec fn sp_int(s: Seq<u8>) -> Option<(int, Seq<u8>)> {
    if s.len() > 0 && s[0] == 0x2d {
        let t = s.subrange(1, s.len() as int);
        let k = digits_prefix_len(t);
        if k == 0 {
            None
        } else {
            let v = digits_value(t.subrange(0, k as int));
            if v <= 0x8000000000000000 {
                Some((-(v as int), t.subrange(k as int, t.len() as int)))
            } else {
                None
            }
        }
    } else {
        let k = digits_prefix_len(s);
        if k == 0 {
            None
        } else {
            let v = digits_value(s.subrange(0, k as int));
            if v <= 0x7fffffffffffffff {
                Some((v as int, s.subrange(k as int, s.len() as int)))
            } else {
                None
            }
        }
    }
}

/// Value parse. `s` must already start at a token (no leading whitespace);
/// the result is the value and the bytes after it.
pub open spec fn sp_value(s: Seq<u8>) -> Option<(Json, Seq<u8>)>
    decreases s.len(), 0int,
{
    if s.len() == 0 {
        None
    } else if s[0] == 0x6e {
        // null
        if s.len() >= 4 && s.subrange(0, 4) == seq![0x6eu8, 0x75u8, 0x6cu8, 0x6cu8] {
            Some((Json::Null, s.subrange(4, s.len() as int)))
        } else {
            None
        }
    } else if s[0] == 0x74 {
        // true
        if s.len() >= 4 && s.subrange(0, 4) == seq![0x74u8, 0x72u8, 0x75u8, 0x65u8] {
            Some((Json::Bool(true), s.subrange(4, s.len() as int)))
        } else {
            None
        }
    } else if s[0] == 0x66 {
        // false
        if s.len() >= 5 && s.subrange(0, 5) == seq![0x66u8, 0x61u8, 0x6cu8, 0x73u8, 0x65u8] {
            Some((Json::Bool(false), s.subrange(5, s.len() as int)))
        } else {
            None
        }
    } else if s[0] == 0x22 {
        match sp_str_body(s.subrange(1, s.len() as int)) {
            Some(cr) => Some((Json::Str(cr.0), cr.1)),
            None => None,
        }
    } else if s[0] == 0x2d || is_digit(s[0]) {
        match sp_int(s) {
            Some(vr) => Some((Json::Int(vr.0), vr.1)),
            None => None,
        }
    } else if s[0] == 0x5b {
        // array
        let t = sp_ws(s.subrange(1, s.len() as int));
        if t.len() > 0 && t[0] == 0x5d {
            Some((Json::Arr(Seq::empty()), t.subrange(1, t.len() as int)))
        } else if t.len() < s.len() {
            match sp_elems(t) {
                Some(er) => Some((Json::Arr(er.0), er.1)),
                None => None,
            }
        } else {
            None
        }
    } else if s[0] == 0x7b {
        // object
        let t = sp_ws(s.subrange(1, s.len() as int));
        if t.len() > 0 && t[0] == 0x7d {
            Some((Json::Obj(Seq::empty()), t.subrange(1, t.len() as int)))
        } else if t.len() < s.len() {
            match sp_members(t) {
                Some(mr) => Some((Json::Obj(mr.0), mr.1)),
                None => None,
            }
        } else {
            None
        }
    } else {
        None
    }
}

/// One or more comma-separated elements followed by `]`.
pub open spec fn sp_elems(s: Seq<u8>) -> Option<(Seq<Json>, Seq<u8>)>
    decreases s.len(), 1int,
{
    match sp_value(s) {
        Some(vr) => {
            let u = sp_ws(vr.1);
            if u.len() > 0 && u[0] == 0x2c {
                let w = sp_ws(u.subrange(1, u.len() as int));
                if w.len() < s.len() {
                    match sp_elems(w) {
                        Some(er) => Some((seq![vr.0] + er.0, er.1)),
                        None => None,
                    }
                } else {
                    None
                }
            } else if u.len() > 0 && u[0] == 0x5d {
                Some((seq![vr.0], u.subrange(1, u.len() as int)))
            } else {
                None
            }
        },
        None => None,
    }
}

/// One or more comma-separated `"key":value` members followed by `}`.
pub open spec fn sp_members(s: Seq<u8>) -> Option<(Seq<(Seq<u8>, Json)>, Seq<u8>)>
    decreases s.len(), 1int,
{
    if s.len() > 0 && s[0] == 0x22 {
        match sp_str_body(s.subrange(1, s.len() as int)) {
            Some(kr) => {
                let u = sp_ws(kr.1);
                if u.len() > 0 && u[0] == 0x3a {
                    let w = sp_ws(u.subrange(1, u.len() as int));
                    if w.len() < s.len() {
                        match sp_value(w) {
                            Some(vr) => {
                                let x = sp_ws(vr.1);
                                if x.len() > 0 && x[0] == 0x2c {
                                    let y = sp_ws(x.subrange(1, x.len() as int));
                                    if y.len() < s.len() {
                                        match sp_members(y) {
                                            Some(mr) => Some(
                                                (seq![(kr.0, vr.0)] + mr.0, mr.1),
                                            ),
                                            None => None,
                                        }
                                    } else {
                                        None
                                    }
                                } else if x.len() > 0 && x[0] == 0x7d {
                                    Some((seq![(kr.0, vr.0)], x.subrange(1, x.len() as int)))
                                } else {
                                    None
                                }
                            },
                            None => None,
                        }
                    } else {
                        None
                    }
                } else {
                    None
                }
            },
            None => None,
        }
    } else {
        None
    }
}

// ---------------------------------------------------------------------------
// Serializer (executable)
// ---------------------------------------------------------------------------

/// Escaping distributes over concatenation.
pub proof fn lemma_escape_concat(s1: Seq<u8>, s2: Seq<u8>)
    ensures
        spec_escape(s1 + s2) == spec_escape(s1) + spec_escape(s2),
    decreases s1.len(),
{
    if s1.len() == 0 {
        assert(s1 + s2 =~= s2);
        assert(spec_escape(s1) + spec_escape(s2) =~= spec_escape(s2));
    } else {
        let t = s1.subrange(1, s1.len() as int);
        lemma_escape_concat(t, s2);
        assert((s1 + s2).subrange(1, (s1 + s2).len() as int) =~= t + s2);
        assert(spec_escape(s1 + s2) =~= spec_escape_byte(s1[0]) + spec_escape(t + s2));
        assert(spec_escape_byte(s1[0]) + (spec_escape(t) + spec_escape(s2)) =~= (spec_escape_byte(
            s1[0],
        ) + spec_escape(t)) + spec_escape(s2));
    }
}

/// Appending one element extends the comma-joined element serialization.
pub proof fn lemma_ser_elems_push(p: Seq<Json>, x: Json)
    requires
        p.len() >= 1,
    ensures
        spec_ser_elems(p.push(x)) == spec_ser_elems(p) + seq![0x2cu8] + spec_ser(x),
    decreases p.len(),
{
    let q = p.push(x);
    if p.len() == 1 {
        assert(q.subrange(1, q.len() as int) =~= seq![x]);
        assert(spec_ser_elems(seq![x]) == spec_ser(x));
        assert(spec_ser_elems(q) =~= spec_ser(p[0]) + seq![0x2cu8] + spec_ser(x));
        assert(spec_ser_elems(p) == spec_ser(p[0]));
    } else {
        let pt = p.subrange(1, p.len() as int);
        lemma_ser_elems_push(pt, x);
        assert(q.subrange(1, q.len() as int) =~= pt.push(x));
        assert(spec_ser_elems(q) =~= spec_ser(p[0]) + seq![0x2cu8] + spec_ser_elems(pt.push(x)));
        assert(spec_ser(p[0]) + seq![0x2cu8] + (spec_ser_elems(pt) + seq![0x2cu8] + spec_ser(x))
            =~= (spec_ser(p[0]) + seq![0x2cu8] + spec_ser_elems(pt)) + seq![0x2cu8] + spec_ser(x));
    }
}

/// Appending one member extends the comma-joined member serialization.
pub proof fn lemma_ser_members_push(p: Seq<(Seq<u8>, Json)>, k: Seq<u8>, x: Json)
    requires
        p.len() >= 1,
    ensures
        spec_ser_members(p.push((k, x))) == spec_ser_members(p) + seq![0x2cu8] + spec_ser_str(k)
            + seq![0x3au8] + spec_ser(x),
    decreases p.len(),
{
    let q = p.push((k, x));
    let m = spec_ser_str(k) + seq![0x3au8] + spec_ser(x);
    let h = spec_ser_str(p[0].0) + seq![0x3au8] + spec_ser(p[0].1);
    if p.len() == 1 {
        assert(q.subrange(1, q.len() as int) =~= seq![(k, x)]);
        assert(spec_ser_members(seq![(k, x)]) == m);
        assert(spec_ser_members(q) =~= h + seq![0x2cu8] + m);
        assert(spec_ser_members(p) == h);
        assert(h + seq![0x2cu8] + m =~= (h + seq![0x2cu8] + spec_ser_str(k) + seq![0x3au8]
            + spec_ser(x)));
    } else {
        let pt = p.subrange(1, p.len() as int);
        lemma_ser_members_push(pt, k, x);
        assert(q.subrange(1, q.len() as int) =~= pt.push((k, x)));
        assert(spec_ser_members(q) =~= h + seq![0x2cu8] + spec_ser_members(pt.push((k, x))));
        assert(h + seq![0x2cu8] + (spec_ser_members(pt) + seq![0x2cu8] + m) =~= (h + seq![0x2cu8]
            + spec_ser_members(pt)) + seq![0x2cu8] + m);
        assert(spec_ser_members(p) =~= h + seq![0x2cu8] + spec_ser_members(pt));
        assert(spec_ser_members(p) + seq![0x2cu8] + m =~= (spec_ser_members(p) + seq![0x2cu8]
            + spec_ser_str(k) + seq![0x3au8] + spec_ser(x)));
    }
}

/// Emit the decimal digits of `n`, most significant first.
fn push_digits(n: u64, out: &mut Vec<u8>)
    ensures
        final(out)@ == old(out)@ + spec_digits(n as nat),
    decreases n,
{
    if n < 10 {
        out.push((0x30 + n) as u8);
        assert(out@ =~= old(out)@ + spec_digits(n as nat));
    } else {
        push_digits(n / 10, out);
        out.push((0x30 + n % 10) as u8);
        assert(out@ =~= old(out)@ + (spec_digits((n / 10) as nat) + seq![
            (0x30 + (n as nat) % 10) as u8,
        ]));
    }
}

/// Emit the decimal text of `i`.
fn push_int(i: i64, out: &mut Vec<u8>)
    ensures
        final(out)@ == old(out)@ + spec_ser_int(i as int),
{
    if i < 0 {
        out.push(0x2d);
        let mag: u64 = (-(i as i128)) as u64;
        assert(mag as nat == (-(i as int)) as nat);
        push_digits(mag, out);
        assert(out@ =~= old(out)@ + (seq![0x2du8] + spec_digits(mag as nat)));
    } else {
        push_digits(i as u64, out);
    }
}

/// Emit a string literal: quote, escaped content, quote.
fn push_str_lit(s: &Vec<u8>, out: &mut Vec<u8>)
    ensures
        final(out)@ == old(out)@ + spec_ser_str(s@),
{
    out.push(0x22);
    let n = s.len();
    let mut i: usize = 0;
    while i < n
        invariant
            i <= n,
            n == s@.len(),
            out@ == old(out)@ + seq![0x22u8] + spec_escape(s@.subrange(0, i as int)),
        decreases n - i,
    {
        let b = s[i];
        if b == 0x22 {
            out.push(0x5c);
            out.push(0x22);
        } else if b == 0x5c {
            out.push(0x5c);
            out.push(0x5c);
        } else if b == 0x08 {
            out.push(0x5c);
            out.push(0x62);
        } else if b == 0x09 {
            out.push(0x5c);
            out.push(0x74);
        } else if b == 0x0a {
            out.push(0x5c);
            out.push(0x6e);
        } else if b == 0x0c {
            out.push(0x5c);
            out.push(0x66);
        } else if b == 0x0d {
            out.push(0x5c);
            out.push(0x72);
        } else if b < 0x20 {
            out.push(0x5c);
            out.push(0x75);
            out.push(0x30);
            out.push(0x30);
            out.push(if b / 16 < 10 { 0x30 + b / 16 } else { 0x61 + (b / 16 - 10) });
            out.push(if b % 16 < 10 { 0x30 + b % 16 } else { 0x61 + (b % 16 - 10) });
        } else {
            out.push(b);
        }
        proof {
            let pre = s@.subrange(0, i as int);
            lemma_escape_concat(pre, seq![s@[i as int]]);
            assert(pre + seq![s@[i as int]] =~= s@.subrange(0, i as int + 1));
            assert(seq![s@[i as int]].subrange(1, 1) =~= Seq::<u8>::empty());
            assert(spec_escape(seq![s@[i as int]]) =~= spec_escape_byte(s@[i as int]) + spec_escape(
                Seq::<u8>::empty(),
            ));
            assert(spec_escape(seq![s@[i as int]]) =~= spec_escape_byte(s@[i as int]));
            assert(out@ =~= old(out)@ + seq![0x22u8] + spec_escape(s@.subrange(0, i as int + 1)));
        }
        i = i + 1;
    }
    out.push(0x22);
    proof {
        assert(s@.subrange(0, n as int) =~= s@);
        assert(out@ =~= old(out)@ + spec_ser_str(s@));
    }
}

impl JsonValue {
    /// Append the canonical serialization of this value to `out`.
    #[verifier::loop_isolation(false)]
    #[verifier::rlimit(60)]
    pub fn write_to(&self, out: &mut Vec<u8>)
        ensures
            final(out)@ == old(out)@ + spec_ser(self@),
        decreases self,
    {
        match self {
            JsonValue::Null => {
                out.push(0x6e);
                out.push(0x75);
                out.push(0x6c);
                out.push(0x6c);
                assert(out@ =~= old(out)@ + spec_ser(self@));
            },
            JsonValue::Bool(b) => {
                if *b {
                    out.push(0x74);
                    out.push(0x72);
                    out.push(0x75);
                    out.push(0x65);
                } else {
                    out.push(0x66);
                    out.push(0x61);
                    out.push(0x6c);
                    out.push(0x73);
                    out.push(0x65);
                }
                assert(out@ =~= old(out)@ + spec_ser(self@));
            },
            JsonValue::Int(i) => {
                push_int(*i, out);
            },
            JsonValue::Str(s) => {
                push_str_lit(s, out);
            },
            JsonValue::Arr(els) => {
                out.push(0x5b);
                let n = els.len();
                let mut i: usize = 0;
                proof {
                    lemma_view_arr_index(els@);
                }
                while i < n
                    invariant
                        i <= n,
                        n == els@.len(),
                        view_arr(els@).len() == els@.len(),
                        forall|j: int| 0 <= j < els@.len() ==> view_arr(els@)[j] == els@[j]@,
                        out@ == old(out)@ + seq![0x5bu8] + spec_ser_elems(
                            view_arr(els@).subrange(0, i as int),
                        ),
                    decreases n - i,
                {
                    if i > 0 {
                        out.push(0x2c);
                        proof {
                            // the comma is accounted for by the push lemma below
                            assert(out@ == old(out)@ + seq![0x5bu8] + spec_ser_elems(
                                view_arr(els@).subrange(0, i as int),
                            ) + seq![0x2cu8]);
                        }
                    }
                    let ghost pre_elem = out@;
                    let e = &els[i];
                    proof {
                        assert(decreases_to!(*self => *els));
                        assert(decreases_to!(*els => els@));
                        assert(decreases_to!(els@ => els@[i as int]));
                    }
                    e.write_to(out);
                    proof {
                        let p = view_arr(els@).subrange(0, i as int);
                        let full = view_arr(els@).subrange(0, i as int + 1);
                        assert(full =~= p.push(view_arr(els@)[i as int]));
                        if i > 0 {
                            lemma_ser_elems_push(p, view_arr(els@)[i as int]);
                            assert(out@ =~= old(out)@ + seq![0x5bu8] + spec_ser_elems(full));
                        } else {
                            assert(p =~= Seq::<Json>::empty());
                            assert(full =~= seq![view_arr(els@)[0]]);
                            assert(out@ =~= old(out)@ + seq![0x5bu8] + spec_ser_elems(full));
                        }
                    }
                    i = i + 1;
                }
                out.push(0x5d);
                proof {
                    assert(view_arr(els@).subrange(0, n as int) =~= view_arr(els@));
                    assert(out@ =~= old(out)@ + (seq![0x5bu8] + spec_ser_elems(view_arr(els@))
                        + seq![0x5du8]));
                }
            },
            JsonValue::Obj(kvs) => {
                out.push(0x7b);
                let n = kvs.len();
                let mut i: usize = 0;
                proof {
                    lemma_view_obj_index(kvs@);
                }
                while i < n
                    invariant
                        i <= n,
                        n == kvs@.len(),
                        view_obj(kvs@).len() == kvs@.len(),
                        forall|j: int|
                            0 <= j < kvs@.len() ==> view_obj(kvs@)[j] == (kvs@[j].0@, kvs@[j].1@),
                        out@ == old(out)@ + seq![0x7bu8] + spec_ser_members(
                            view_obj(kvs@).subrange(0, i as int),
                        ),
                    decreases n - i,
                {
                    if i > 0 {
                        out.push(0x2c);
                    }
                    let ghost pre_elem = out@;
                    let kv = &kvs[i];
                    push_str_lit(&kv.0, out);
                    out.push(0x3a);
                    proof {
                        assert(decreases_to!(*self => *kvs));
                        assert(decreases_to!(*kvs => kvs@));
                        assert(decreases_to!(kvs@ => kvs@[i as int]));
                        assert(decreases_to!(kvs@[i as int] => kvs@[i as int].1));
                    }
                    kv.1.write_to(out);
                    proof {
                        let p = view_obj(kvs@).subrange(0, i as int);
                        let full = view_obj(kvs@).subrange(0, i as int + 1);
                        let key = view_obj(kvs@)[i as int].0;
                        let val = view_obj(kvs@)[i as int].1;
                        assert(full =~= p.push((key, val)));
                        if i > 0 {
                            lemma_ser_members_push(p, key, val);
                            assert(out@ =~= old(out)@ + seq![0x7bu8] + spec_ser_members(full));
                        } else {
                            assert(p =~= Seq::<(Seq<u8>, Json)>::empty());
                            assert(full =~= seq![(key, val)]);
                            assert(out@ =~= old(out)@ + seq![0x7bu8] + spec_ser_members(full));
                        }
                    }
                    i = i + 1;
                }
                out.push(0x7d);
                proof {
                    assert(view_obj(kvs@).subrange(0, n as int) =~= view_obj(kvs@));
                    assert(out@ =~= old(out)@ + (seq![0x7bu8] + spec_ser_members(view_obj(kvs@))
                        + seq![0x7du8]));
                }
            },
        }
    }

    /// The canonical serialization of this value as a fresh byte vector.
    pub fn to_json_bytes(&self) -> (out: Vec<u8>)
        ensures
            out@ == spec_ser(self@),
    {
        let mut out: Vec<u8> = Vec::new();
        self.write_to(&mut out);
        proof {
            assert(out@ =~= spec_ser(self@));
        }
        out
    }
}

// ---------------------------------------------------------------------------
// Parser (executable)
// ---------------------------------------------------------------------------

pub proof fn lemma_opt_prepend_compose(a: Seq<u8>, b: Seq<u8>, o: Option<(Seq<u8>, Seq<u8>)>)
    ensures
        opt_prepend(a, opt_prepend(b, o)) == opt_prepend(a + b, o),
{
    match o {
        Some(cr) => {
            assert(a + (b + cr.0) =~= (a + b) + cr.0);
        },
        None => {},
    }
}

/// Drop leading JSON whitespace.
#[verifier::loop_isolation(false)]
fn skip_ws(s: &[u8]) -> (r: &[u8])
    ensures
        r@ == sp_ws(s@),
{
    let n = s.len();
    let mut i: usize = 0;
    assert(s@.subrange(0, n as int) =~= s@);
    while i < n && (s[i] == 0x20 || s[i] == 0x09 || s[i] == 0x0a || s[i] == 0x0d)
        invariant
            i <= n,
            sp_ws(s@) == sp_ws(s@.subrange(i as int, n as int)),
        decreases n - i,
    {
        proof {
            let cur = s@.subrange(i as int, n as int);
            assert(cur.subrange(1, cur.len() as int) =~= s@.subrange(i as int + 1, n as int));
        }
        i = i + 1;
    }
    proof {
        let cur = s@.subrange(i as int, n as int);
        assert(sp_ws(cur) == cur);
    }
    vstd::slice::slice_subrange(s, i, n)
}

/// Value of a hex digit byte, if it is one.
fn hex_val(b: u8) -> (r: Option<u8>)
    ensures
        r == spec_hex_val(b),
{
    if 0x30 <= b && b <= 0x39 {
        Some(b - 0x30)
    } else if 0x61 <= b && b <= 0x66 {
        Some(b - 0x61 + 10)
    } else if 0x41 <= b && b <= 0x46 {
        Some(b - 0x41 + 10)
    } else {
        None
    }
}

/// Append the UTF-8 encoding of a BMP code point.
fn push_utf8(cp: u16, out: &mut Vec<u8>)
    ensures
        final(out)@ == old(out)@ + spec_utf8_of(cp),
{
    if cp < 0x80 {
        out.push(cp as u8);
        assert(final(out)@ =~= old(out)@ + spec_utf8_of(cp));
    } else if cp < 0x800 {
        out.push((0xc0 + cp / 0x40) as u8);
        out.push((0x80 + cp % 0x40) as u8);
        assert(final(out)@ =~= old(out)@ + spec_utf8_of(cp));
    } else {
        out.push((0xe0 + cp / 0x1000) as u8);
        out.push((0x80 + (cp / 0x40) % 0x40) as u8);
        out.push((0x80 + cp % 0x40) as u8);
        assert(final(out)@ =~= old(out)@ + spec_utf8_of(cp));
    }
}

/// Parse a string body (everything after the opening quote).
#[verifier::loop_isolation(false)]
fn parse_str_body<'a>(s: &'a [u8]) -> (r: Option<(Vec<u8>, &'a [u8])>)
    ensures
        match r {
            Some(p) => sp_str_body(s@) == Some((p.0@, p.1@)),
            None => sp_str_body(s@) is None,
        },
{
    let n = s.len();
    let mut acc: Vec<u8> = Vec::new();
    let mut i: usize = 0;
    assert(s@.subrange(0, n as int) =~= s@);
    loop
        invariant
            i <= n,
            sp_str_body(s@) == opt_prepend(acc@, sp_str_body(s@.subrange(i as int, n as int))),
        decreases n - i,
    {
        let ghost cur = s@.subrange(i as int, n as int);
        if i == n {
            // spec: empty input has no closing quote
            return None;
        }
        let b = s[i];
        assert(cur[0] == b);
        if b == 0x22 {
            let rest = vstd::slice::slice_subrange(s, i + 1, n);
            proof {
                assert(cur.subrange(1, cur.len() as int) =~= rest@);
                assert(acc@ + Seq::<u8>::empty() =~= acc@);
            }
            return Some((acc, rest));
        } else if b == 0x5c {
            if i + 1 == n {
                return None;
            }
            let e = s[i + 1];
            assert(cur[1] == e);
            let ghost rest_s = cur.subrange(2, cur.len() as int);
            proof {
                assert(rest_s =~= s@.subrange(i as int + 2, n as int));
            }
            if e == 0x22 || e == 0x5c || e == 0x2f {
                let ghost pre = acc@;
                acc.push(e);
                proof {
                    lemma_opt_prepend_compose(pre, seq![e], sp_str_body(rest_s));
                    assert(pre + seq![e] =~= acc@);
                }
                i = i + 2;
            } else if e == 0x62 || e == 0x66 || e == 0x6e || e == 0x72 || e == 0x74 {
                let d: u8 = if e == 0x62 {
                    0x08
                } else if e == 0x66 {
                    0x0c
                } else if e == 0x6e {
                    0x0a
                } else if e == 0x72 {
                    0x0d
                } else {
                    0x09
                };
                let ghost pre = acc@;
                acc.push(d);
                proof {
                    lemma_opt_prepend_compose(pre, seq![d], sp_str_body(rest_s));
                    assert(pre + seq![d] =~= acc@);
                }
                i = i + 2;
            } else if e == 0x75 {
                if n - i < 6 {
                    assert(sp_unicode_escape(rest_s) is None);
                    return None;
                }
                let h0 = hex_val(s[i + 2]);
                let h1 = hex_val(s[i + 3]);
                let h2 = hex_val(s[i + 4]);
                let h3 = hex_val(s[i + 5]);
                proof {
                    assert(rest_s[0] == s@[i as int + 2]);
                    assert(rest_s[1] == s@[i as int + 3]);
                    assert(rest_s[2] == s@[i as int + 4]);
                    assert(rest_s[3] == s@[i as int + 5]);
                }
                if h0.is_none() || h1.is_none() || h2.is_none() || h3.is_none() {
                    assert(sp_unicode_escape(rest_s) is None);
                    return None;
                }
                let cp: u16 = (h0.unwrap() as u16) * 0x1000 + (h1.unwrap() as u16) * 0x100 + (
                h2.unwrap() as u16) * 0x10 + (h3.unwrap() as u16);
                if 0xd800 <= cp && cp < 0xe000 {
                    assert(sp_unicode_escape(rest_s) is None);
                    return None;
                }
                let ghost pre = acc@;
                push_utf8(cp, &mut acc);
                proof {
                    assert(sp_unicode_escape(rest_s) == Some(
                        (spec_utf8_of(cp), rest_s.subrange(4, rest_s.len() as int)),
                    ));
                    assert(rest_s.subrange(4, rest_s.len() as int) =~= s@.subrange(
                        i as int + 6,
                        n as int,
                    ));
                    lemma_opt_prepend_compose(
                        pre,
                        spec_utf8_of(cp),
                        sp_str_body(s@.subrange(i as int + 6, n as int)),
                    );
                    assert(pre + spec_utf8_of(cp) =~= acc@);
                }
                i = i + 6;
            } else {
                return None;
            }
        } else if b < 0x20 {
            return None;
        } else {
            let ghost pre = acc@;
            acc.push(b);
            proof {
                assert(cur.subrange(1, cur.len() as int) =~= s@.subrange(i as int + 1, n as int));
                lemma_opt_prepend_compose(
                    pre,
                    seq![b],
                    sp_str_body(s@.subrange(i as int + 1, n as int)),
                );
                assert(pre + seq![b] =~= acc@);
            }
            i = i + 1;
        }
    }
}

/// The digit run at the front of `s` is exactly `i` long.
proof fn lemma_digits_prefix_len_of(s: Seq<u8>, i: int)
    requires
        0 <= i <= s.len(),
        forall|j: int| 0 <= j < i ==> is_digit(s[j]),
        i == s.len() || !is_digit(s[i]),
    ensures
        digits_prefix_len(s) == i,
    decreases i,
{
    if i == 0 {
    } else {
        let t = s.subrange(1, s.len() as int);
        lemma_digits_prefix_len_of(t, i - 1);
    }
}

/// Extending a digit run multiplies its value by ten and adds the new digit.
proof fn lemma_digits_value_step(s: Seq<u8>, i: int)
    requires
        0 <= i < s.len(),
        is_digit(s[i]),
    ensures
        digits_value(s.subrange(0, i + 1)) == digits_value(s.subrange(0, i)) * 10 + (s[i]
            - 0x30),
{
    let d = s.subrange(0, i + 1);
    assert(d.subrange(0, d.len() - 1) =~= s.subrange(0, i));
    assert(d[d.len() - 1] == s[i]);
}

/// Parse an integer at the front of `s`.
#[verifier::loop_isolation(false)]
fn parse_int<'a>(s: &'a [u8]) -> (r: Option<(i64, &'a [u8])>)
    ensures
        match r {
            Some(p) => sp_int(s@) == Some((p.0 as int, p.1@)),
            None => sp_int(s@) is None,
        },
{
    let n = s.len();
    let neg = n > 0 && s[0] == 0x2d;
    let start: usize = if neg {
        1
    } else {
        0
    };
    let ghost t = s@.subrange(start as int, n as int);
    // scan the digit run, tracking the value and whether it exceeded 2^63
    let mut i: usize = start;
    let mut acc: u64 = 0;
    let mut over = false;
    while i < n && 0x30 <= s[i] && s[i] <= 0x39
        invariant
            start <= i <= n,
            t == s@.subrange(start as int, n as int),
            forall|j: int| 0 <= j < i - start ==> is_digit(t[j]),
            over == (digits_value(t.subrange(0, i - start)) > 0x8000000000000000),
            !over ==> acc == digits_value(t.subrange(0, i - start)),
        decreases n - i,
    {
        let d: u8 = s[i] - 0x30;
        proof {
            lemma_digits_value_step(t, i - start);
        }
        if over {
            proof {
                let v = digits_value(t.subrange(0, i - start));
                assert(digits_value(t.subrange(0, i - start + 1)) == v * 10 + (t[i - start]
                    - 0x30));
                assert(v * 10 >= v);
            }
        } else {
            let wide: u128 = acc as u128 * 10 + d as u128;
            if wide > 0x8000000000000000u128 {
                over = true;
            } else {
                acc = wide as u64;
            }
        }
        i = i + 1;
    }
    proof {
        lemma_digits_prefix_len_of(t, i - start);
        if !neg {
            assert(t =~= s@);
        }
        assert(t.subrange(0, i - start) =~= t.subrange(0, (i - start) as int));
    }
    let k = i - start;
    if k == 0 {
        return None;
    }
    if over {
        return None;
    }
    proof {
        assert(t.subrange(0, k as int) =~= t.subrange(0, i - start));
        assert(t.subrange(k as int, t.len() as int) =~= s@.subrange(i as int, n as int));
    }
    let rest = vstd::slice::slice_subrange(s, i, n);
    if neg {
        let v: i64 = (-(acc as i128)) as i64;
        Some((v, rest))
    } else {
        if acc > 0x7fffffffffffffffu64 {
            return None;
        }
        Some((acc as i64, rest))
    }
}

/// Parse one JSON value at the front of `s` (no leading whitespace).
#[verifier::loop_isolation(false)]
fn parse_value<'a>(s: &'a [u8]) -> (r: Option<(JsonValue, &'a [u8])>)
    ensures
        match r {
            Some(p) => sp_value(s@) == Some((p.0@, p.1@)),
            None => sp_value(s@) is None,
        },
    decreases s@.len(), 0int,
{
    let n = s.len();
    if n == 0 {
        return None;
    }
    let b = s[0];
    if b == 0x6e {
        if n >= 4 && s[1] == 0x75 && s[2] == 0x6c && s[3] == 0x6c {
            assert(s@.subrange(0, 4) =~= seq![0x6eu8, 0x75u8, 0x6cu8, 0x6cu8]);
            Some((JsonValue::Null, vstd::slice::slice_subrange(s, 4, n)))
        } else {
            assert(n >= 4 ==> s@.subrange(0, 4) != seq![0x6eu8, 0x75u8, 0x6cu8, 0x6cu8]) by {
                if n >= 4 && s@.subrange(0, 4) == seq![0x6eu8, 0x75u8, 0x6cu8, 0x6cu8] {
                    assert(s@[1] == 0x75 && s@[2] == 0x6c && s@[3] == 0x6c);
                }
            }
            None
        }
    } else if b == 0x74 {
        if n >= 4 && s[1] == 0x72 && s[2] == 0x75 && s[3] == 0x65 {
            assert(s@.subrange(0, 4) =~= seq![0x74u8, 0x72u8, 0x75u8, 0x65u8]);
            Some((JsonValue::Bool(true), vstd::slice::slice_subrange(s, 4, n)))
        } else {
            assert(n >= 4 ==> s@.subrange(0, 4) != seq![0x74u8, 0x72u8, 0x75u8, 0x65u8]) by {
                if n >= 4 && s@.subrange(0, 4) == seq![0x74u8, 0x72u8, 0x75u8, 0x65u8] {
                    assert(s@[1] == 0x72 && s@[2] == 0x75 && s@[3] == 0x65);
                }
            }
            None
        }
    } else if b == 0x66 {
        if n >= 5 && s[1] == 0x61 && s[2] == 0x6c && s[3] == 0x73 && s[4] == 0x65 {
            assert(s@.subrange(0, 5) =~= seq![0x66u8, 0x61u8, 0x6cu8, 0x73u8, 0x65u8]);
            Some((JsonValue::Bool(false), vstd::slice::slice_subrange(s, 5, n)))
        } else {
            assert(n >= 5 ==> s@.subrange(0, 5) != seq![0x66u8, 0x61u8, 0x6cu8, 0x73u8, 0x65u8])
                by {
                if n >= 5 && s@.subrange(0, 5) == seq![0x66u8, 0x61u8, 0x6cu8, 0x73u8, 0x65u8] {
                    assert(s@[1] == 0x61 && s@[2] == 0x6c && s@[3] == 0x73 && s@[4] == 0x65);
                }
            }
            None
        }
    } else if b == 0x22 {
        let body = vstd::slice::slice_subrange(s, 1, n);
        match parse_str_body(body) {
            Some(p) => Some((JsonValue::Str(p.0), p.1)),
            None => None,
        }
    } else if b == 0x2d || (0x30 <= b && b <= 0x39) {
        match parse_int(s) {
            Some(p) => Some((JsonValue::Int(p.0), p.1)),
            None => None,
        }
    } else if b == 0x5b {
        let t = skip_ws(vstd::slice::slice_subrange(s, 1, n));
        if t.len() > 0 && t[0] == 0x5d {
            let rest = vstd::slice::slice_subrange(t, 1, t.len());
            assert(view_arr(Seq::<JsonValue>::empty()) =~= Seq::<Json>::empty());
            Some((JsonValue::Arr(Vec::new()), rest))
        } else if t.len() < n {
            match parse_elems(t) {
                Some(p) => Some((JsonValue::Arr(p.0), p.1)),
                None => None,
            }
        } else {
            None
        }
    } else if b == 0x7b {
        let t = skip_ws(vstd::slice::slice_subrange(s, 1, n));
        if t.len() > 0 && t[0] == 0x7d {
            let rest = vstd::slice::slice_subrange(t, 1, t.len());
            assert(view_obj(Seq::<(Vec<u8>, JsonValue)>::empty()) =~= Seq::<
                (Seq<u8>, Json),
            >::empty());
            Some((JsonValue::Obj(Vec::new()), rest))
        } else if t.len() < n {
            match parse_members(t) {
                Some(p) => Some((JsonValue::Obj(p.0), p.1)),
                None => None,
            }
        } else {
            None
        }
    } else {
        None
    }
}

/// Parse one or more comma-separated elements followed by `]`.
#[verifier::loop_isolation(false)]
fn parse_elems<'a>(s: &'a [u8]) -> (r: Option<(Vec<JsonValue>, &'a [u8])>)
    ensures
        match r {
            Some(p) => sp_elems(s@) == Some((view_arr(p.0@), p.1@)),
            None => sp_elems(s@) is None,
        },
    decreases s@.len(), 1int,
{
    match parse_value(s) {
        Some(vp) => {
            let u = skip_ws(vp.1);
            if u.len() > 0 && u[0] == 0x2c {
                let w = skip_ws(vstd::slice::slice_subrange(u, 1, u.len()));
                if w.len() < s.len() {
                    match parse_elems(w) {
                        Some(ep) => {
                            let mut els = ep.0;
                            els.insert(0, vp.0);
                            proof {
                                lemma_view_arr_index(els@);
                                lemma_view_arr_index(els@.subrange(1, els@.len() as int));
                                assert(els@.subrange(1, els@.len() as int) =~= ep.0@);
                                assert(view_arr(els@) =~= seq![vp.0@] + view_arr(ep.0@));
                            }
                            Some((els, ep.1))
                        },
                        None => None,
                    }
                } else {
                    None
                }
            } else if u.len() > 0 && u[0] == 0x5d {
                let rest = vstd::slice::slice_subrange(u, 1, u.len());
                let mut els: Vec<JsonValue> = Vec::new();
                els.push(vp.0);
                proof {
                    lemma_view_arr_index(els@);
                    assert(view_arr(els@) =~= seq![els@[0]@]);
                }
                Some((els, rest))
            } else {
                None
            }
        },
        None => None,
    }
}

/// Parse one or more comma-separated `"key":value` members followed by `}`.
#[verifier::loop_isolation(false)]
fn parse_members<'a>(s: &'a [u8]) -> (r: Option<(Vec<(Vec<u8>, JsonValue)>, &'a [u8])>)
    ensures
        match r {
            Some(p) => sp_members(s@) == Some((view_obj(p.0@), p.1@)),
            None => sp_members(s@) is None,
        },
    decreases s@.len(), 1int,
{
    let n = s.len();
    if n == 0 || s[0] != 0x22 {
        return None;
    }
    match parse_str_body(vstd::slice::slice_subrange(s, 1, n)) {
        Some(kp) => {
            let u = skip_ws(kp.1);
            if u.len() > 0 && u[0] == 0x3a {
                let w = skip_ws(vstd::slice::slice_subrange(u, 1, u.len()));
                if w.len() < n {
                    match parse_value(w) {
                        Some(vp) => {
                            let x = skip_ws(vp.1);
                            if x.len() > 0 && x[0] == 0x2c {
                                let y = skip_ws(vstd::slice::slice_subrange(x, 1, x.len()));
                                if y.len() < n {
                                    match parse_members(y) {
                                        Some(mp) => {
                                            let mut kvs = mp.0;
                                            kvs.insert(0, (kp.0, vp.0));
                                            proof {
                                                lemma_view_obj_index(kvs@);
                                                lemma_view_obj_index(
                                                    kvs@.subrange(1, kvs@.len() as int),
                                                );
                                                assert(kvs@.subrange(1, kvs@.len() as int)
                                                    =~= mp.0@);
                                                assert(view_obj(kvs@) =~= seq![
                                                    (kvs@[0].0@, kvs@[0].1@),
                                                ] + view_obj(mp.0@));
                                            }
                                            Some((kvs, mp.1))
                                        },
                                        None => None,
                                    }
                                } else {
                                    None
                                }
                            } else if x.len() > 0 && x[0] == 0x7d {
                                let rest = vstd::slice::slice_subrange(x, 1, x.len());
                                let mut kvs: Vec<(Vec<u8>, JsonValue)> = Vec::new();
                                kvs.push((kp.0, vp.0));
                                proof {
                                    lemma_view_obj_index(kvs@);
                                    assert(view_obj(kvs@) =~= seq![(kvs@[0].0@, kvs@[0].1@)]);
                                }
                                Some((kvs, rest))
                            } else {
                                None
                            }
                        },
                        None => None,
                    }
                } else {
                    None
                }
            } else {
                None
            }
        },
        None => None,
    }
}

/// Parse a whole JSON text: one value surrounded only by whitespace.
pub fn parse_json(s: &[u8]) -> (r: Option<JsonValue>)
    ensures
        match r {
            Some(v) => spec_parse_json(s@) == Some(v@),
            None => spec_parse_json(s@) is None,
        },
{
    let t = skip_ws(s);
    match parse_value(t) {
        Some(p) => {
            let rest = skip_ws(p.1);
            if rest.len() == 0 {
                Some(p.0)
            } else {
                None
            }
        },
        None => None,
    }
}

/// Whole-text parse: one value, surrounded only by whitespace.
pub open spec fn spec_parse_json(s: Seq<u8>) -> Option<Json> {
    match sp_value(sp_ws(s)) {
        Some(vr) => if sp_ws(vr.1).len() == 0 {
            Some(vr.0)
        } else {
            None
        },
        None => None,
    }
}

// ---------------------------------------------------------------------------
// The parser inverts the canonical serializer
// ---------------------------------------------------------------------------

/// A value whose integers all fit a signed 64-bit word. Every `JsonValue`
/// views to such a value, and only such values round-trip.
pub open spec fn json_wf(v: Json) -> bool
    decreases v,
{
    match v {
        Json::Null => true,
        Json::Bool(_) => true,
        Json::Int(i) => -0x8000000000000000 <= i <= 0x7fffffffffffffff,
        Json::Str(_) => true,
        Json::Arr(els) => forall|j: int| 0 <= j < els.len() ==> json_wf(#[trigger] els[j]),
        Json::Obj(kvs) => forall|j: int| 0 <= j < kvs.len() ==> json_wf(#[trigger] kvs[j].1),
    }
}

/// The view of an executable value is always well formed.
pub proof fn lemma_json_value_wf(v: JsonValue)
    ensures
        json_wf(v@),
    decreases v,
{
    match v {
        JsonValue::Arr(els) => {
            lemma_view_arr_index(els@);
            assert forall|j: int| 0 <= j < view_arr(els@).len() implies json_wf(
                #[trigger] view_arr(els@)[j],
            ) by {
                assert(decreases_to!(v => els));
                assert(decreases_to!(els => els@));
                assert(decreases_to!(els@ => els@[j]));
                lemma_json_value_wf(els@[j]);
            }
        },
        JsonValue::Obj(kvs) => {
            lemma_view_obj_index(kvs@);
            assert forall|j: int| 0 <= j < view_obj(kvs@).len() implies json_wf(
                #[trigger] view_obj(kvs@)[j].1,
            ) by {
                assert(decreases_to!(v => kvs));
                assert(decreases_to!(kvs => kvs@));
                assert(decreases_to!(kvs@ => kvs@[j]));
                assert(decreases_to!(kvs@[j] => kvs@[j].1));
                lemma_json_value_wf(kvs@[j].1);
            }
        },
        _ => {},
    }
}

/// Skipping whitespace does nothing when there is none in front.
pub proof fn lemma_sp_ws_id(s: Seq<u8>)
    requires
        s.len() == 0 || !is_ws(s[0]),
    ensures
        sp_ws(s) == s,
{
}

/// Digit runs: every byte of `spec_digits` is a digit.
pub proof fn lemma_spec_digits_shape(n: nat)
    ensures
        spec_digits(n).len() >= 1,
        forall|j: int| 0 <= j < spec_digits(n).len() ==> is_digit(#[trigger] spec_digits(n)[j]),
    decreases n,
{
    if n >= 10 {
        lemma_spec_digits_shape(n / 10);
    }
}

/// The printed digits of `n` evaluate back to `n`.
pub proof fn lemma_digits_value_of_spec(n: nat)
    ensures
        digits_value(spec_digits(n)) == n,
    decreases n,
{
    let d = spec_digits(n);
    if n < 10 {
        assert(d.subrange(0, d.len() - 1) =~= Seq::<u8>::empty());
        assert(d[0] == (0x30 + n) as u8);
        assert(digits_value(d) == (digits_value(Seq::<u8>::empty()) * 10 + ((0x30 + n) as u8
            - 0x30)) as nat);
    } else {
        lemma_digits_value_of_spec(n / 10);
        assert(d.subrange(0, d.len() - 1) =~= spec_digits(n / 10));
        assert(d[d.len() - 1] == (0x30 + n % 10) as u8);
        vstd::arithmetic::div_mod::lemma_fundamental_div_mod(n as int, 10);
    }
}

/// An all-digit block followed by a non-digit is exactly the digit prefix.
pub proof fn lemma_digits_prefix_of(d: Seq<u8>, rest: Seq<u8>)
    requires
        forall|j: int| 0 <= j < d.len() ==> is_digit(#[trigger] d[j]),
        rest.len() == 0 || !is_digit(rest[0]),
    ensures
        digits_prefix_len(d + rest) == d.len(),
    decreases d.len(),
{
    let s = d + rest;
    if d.len() == 0 {
        assert(s =~= rest);
    } else {
        let dt = d.subrange(1, d.len() as int);
        lemma_digits_prefix_of(dt, rest);
        assert(s.subrange(1, s.len() as int) =~= dt + rest);
    }
}

/// Parsing the printed form of an in-range integer gives it back.
pub proof fn lemma_sp_int_of_ser(i: int, rest: Seq<u8>)
    requires
        -0x8000000000000000 <= i <= 0x7fffffffffffffff,
        rest.len() == 0 || !is_digit(rest[0]),
    ensures
        sp_int(spec_ser_int(i) + rest) == Some((i, rest)),
{
    let s = spec_ser_int(i) + rest;
    if i < 0 {
        let m = (-i) as nat;
        lemma_spec_digits_shape(m);
        lemma_digits_value_of_spec(m);
        assert(s[0] == 0x2d);
        let t = s.subrange(1, s.len() as int);
        assert(t =~= spec_digits(m) + rest);
        lemma_digits_prefix_of(spec_digits(m), rest);
        let k = digits_prefix_len(t);
        assert(k == spec_digits(m).len());
        assert(t.subrange(0, k as int) =~= spec_digits(m));
        assert(t.subrange(k as int, t.len() as int) =~= rest);
    } else {
        let m = i as nat;
        lemma_spec_digits_shape(m);
        lemma_digits_value_of_spec(m);
        assert(s =~= spec_digits(m) + rest);
        assert(is_digit(s[0]));
        assert(s[0] != 0x2d);
        lemma_digits_prefix_of(spec_digits(m), rest);
        let k = digits_prefix_len(s);
        assert(k == spec_digits(m).len());
        assert(s.subrange(0, k as int) =~= spec_digits(m));
        assert(s.subrange(k as int, s.len() as int) =~= rest);
    }
}

/// Unescaping inverts escaping: the string body parser applied to the escaped
/// content followed by the closing quote returns the original content.
#[verifier::rlimit(100)]
#[verifier::spinoff_prover]
pub proof fn lemma_str_body_of_escape(s: Seq<u8>, rest: Seq<u8>)
    ensures
        sp_str_body(spec_escape(s) + seq![0x22u8] + rest) == Some((s, rest)),
    decreases s.len(),
{
    let inp = spec_escape(s) + seq![0x22u8] + rest;
    if s.len() == 0 {
        assert(inp =~= seq![0x22u8] + rest);
        assert(inp[0] == 0x22);
        assert(inp.subrange(1, inp.len() as int) =~= rest);
    } else {
        let b = s[0];
        let t = s.subrange(1, s.len() as int);
        lemma_str_body_of_escape(t, rest);
        let tail_inp = spec_escape(t) + seq![0x22u8] + rest;
        assert(inp =~= spec_escape_byte(b) + tail_inp);
        let eb = spec_escape_byte(b);
        if b == 0x22 || b == 0x5c {
            assert(inp[0] == 0x5c && inp[1] == eb[1]);
            assert(inp.subrange(2, inp.len() as int) =~= tail_inp);
            assert(seq![b] + t =~= s);
        } else if b == 0x08 || b == 0x09 || b == 0x0a || b == 0x0c || b == 0x0d {
            assert(inp[0] == 0x5c && inp[1] == eb[1]);
            assert(inp.subrange(2, inp.len() as int) =~= tail_inp);
            assert(seq![b] + t =~= s);
        } else if b < 0x20 {
            // printed as a \u00XX escape
            assert(inp[0] == 0x5c && inp[1] == 0x75);
            let r2 = inp.subrange(2, inp.len() as int);
            assert(r2 =~= seq![0x30u8, 0x30u8, spec_hex_digit(b / 16), spec_hex_digit(b % 16)]
                + tail_inp);
            assert(r2.len() >= 4);
            assert(r2[0] == 0x30 && r2[1] == 0x30);
            assert(r2[2] == spec_hex_digit(b / 16) && r2[3] == spec_hex_digit(b % 16));
            assert(spec_hex_val(spec_hex_digit(b / 16)) == Some((b / 16) as u8));
            assert(spec_hex_val(spec_hex_digit(b % 16)) == Some((b % 16) as u8));
            let cp = (((b / 16) as int) * 0x10 + (b % 16) as int) as u16;
            assert(cp == b as u16);
            assert(spec_utf8_of(cp) =~= seq![b]);
            assert(r2.subrange(4, r2.len() as int) =~= tail_inp);
            assert(sp_unicode_escape(r2) == Some((seq![b], tail_inp)));
            assert(tail_inp.len() < inp.len());
            assert(seq![b] + t =~= s);
        } else {
            assert(eb =~= seq![b]);
            assert(inp[0] == b);
            assert(b != 0x22 && b != 0x5c && !(b < 0x20));
            assert(inp.subrange(1, inp.len() as int) =~= tail_inp);
            assert(seq![b] + t =~= s);
        }
    }
}

/// Bytes that can begin a serialized value.
pub open spec fn is_value_start(b: u8) -> bool {
    b == 0x6e || b == 0x74 || b == 0x66 || b == 0x22 || b == 0x2d || is_digit(b) || b == 0x5b
        || b == 0x7b
}

/// The first byte of a serialized value starts a token: it is never
/// whitespace nor a closing delimiter nor a separator.
pub proof fn lemma_ser_first_byte(v: Json)
    ensures
        spec_ser(v).len() >= 1,
        is_value_start(spec_ser(v)[0]),
        !is_ws(spec_ser(v)[0]),
{
    match v {
        Json::Int(i) => {
            if i < 0 {
            } else {
                lemma_spec_digits_shape(i as nat);
                assert(is_digit(spec_ser(v)[0]));
            }
        },
        _ => {},
    }
}

/// Parsing the serialization of a well-formed value, followed by anything
/// that cannot extend a number, gives the value back.
#[verifier::rlimit(100)]
#[verifier::spinoff_prover]
pub proof fn lemma_sp_value_of_ser(v: Json, rest: Seq<u8>)
    requires
        json_wf(v),
        rest.len() == 0 || !is_digit(rest[0]),
    ensures
        sp_value(spec_ser(v) + rest) == Some((v, rest)),
    decreases v, 0int,
{
    let inp = spec_ser(v) + rest;
    match v {
        Json::Null => {
            assert(inp[0] == 0x6e);
            assert(inp.len() >= 4);
            assert(inp.subrange(0, 4) =~= seq![0x6eu8, 0x75u8, 0x6cu8, 0x6cu8]);
            assert(inp.subrange(4, inp.len() as int) =~= rest);
        },
        Json::Bool(b) => {
            if b {
                assert(inp[0] == 0x74);
                assert(inp.len() >= 4);
                assert(inp.subrange(0, 4) =~= seq![0x74u8, 0x72u8, 0x75u8, 0x65u8]);
                assert(inp.subrange(4, inp.len() as int) =~= rest);
            } else {
                assert(inp[0] == 0x66);
                assert(inp.len() >= 5);
                assert(inp.subrange(0, 5) =~= seq![0x66u8, 0x61u8, 0x6cu8, 0x73u8, 0x65u8]);
                assert(inp.subrange(5, inp.len() as int) =~= rest);
            }
        },
        Json::Int(i) => {
            lemma_sp_int_of_ser(i, rest);
            if i < 0 {
                assert(inp[0] == 0x2d);
            } else {
                lemma_spec_digits_shape(i as nat);
                assert(is_digit(inp[0]));
                assert(inp[0] != 0x6e && inp[0] != 0x74 && inp[0] != 0x66 && inp[0] != 0x22);
            }
        },
        Json::Str(sv) => {
            assert(inp[0] == 0x22);
            assert(inp.subrange(1, inp.len() as int) =~= spec_escape(sv) + seq![0x22u8] + rest);
            lemma_str_body_of_escape(sv, rest);
        },
        Json::Arr(els) => {
            assert(inp[0] == 0x5b);
            let inner = inp.subrange(1, inp.len() as int);
            if els.len() == 0 {
                assert(inner =~= seq![0x5du8] + rest);
                lemma_sp_ws_id(inner);
                assert(inner.subrange(1, inner.len() as int) =~= rest);
                assert(els =~= Seq::<Json>::empty());
            } else {
                assert(inner =~= spec_ser_elems(els) + seq![0x5du8] + rest);
                lemma_ser_first_byte(els[0]);
                assert(spec_ser_elems(els).len() >= 1);
                assert(spec_ser_elems(els)[0] == spec_ser(els[0])[0]);
                assert(inner[0] == spec_ser(els[0])[0]);
                lemma_sp_ws_id(inner);
                assert(inner[0] != 0x5d);
                assert(inner.len() < inp.len());
                lemma_sp_elems_of_ser(els, rest);
            }
        },
        Json::Obj(kvs) => {
            assert(inp[0] == 0x7b);
            let inner = inp.subrange(1, inp.len() as int);
            if kvs.len() == 0 {
                assert(inner =~= seq![0x7du8] + rest);
                lemma_sp_ws_id(inner);
                assert(inner.subrange(1, inner.len() as int) =~= rest);
                assert(kvs =~= Seq::<(Seq<u8>, Json)>::empty());
            } else {
                assert(inner =~= spec_ser_members(kvs) + seq![0x7du8] + rest);
                assert(spec_ser_members(kvs).len() >= 1);
                assert(spec_ser_members(kvs)[0] == 0x22);
                assert(inner[0] == 0x22);
                lemma_sp_ws_id(inner);
                assert(inner.len() < inp.len());
                lemma_sp_members_of_ser(kvs, rest);
            }
        },
    }
}

/// Element-list round trip for non-empty arrays.
pub proof fn lemma_sp_elems_of_ser(els: Seq<Json>, rest: Seq<u8>)
    requires
        els.len() >= 1,
        forall|j: int| 0 <= j < els.len() ==> json_wf(#[trigger] els[j]),
    ensures
        sp_elems(spec_ser_elems(els) + seq![0x5du8] + rest) == Some((els, rest)),
    decreases els, 1int,
{
    let inp = spec_ser_elems(els) + seq![0x5du8] + rest;
    if els.len() == 1 {
        let after = seq![0x5du8] + rest;
        assert(inp =~= spec_ser(els[0]) + after);
        lemma_sp_value_of_ser(els[0], after);
        lemma_sp_ws_id(after);
        assert(after[0] == 0x5d);
        assert(after.subrange(1, after.len() as int) =~= rest);
        assert(seq![els[0]] =~= els);
    } else {
        let tail = els.subrange(1, els.len() as int);
        assert(forall|j: int| 0 <= j < tail.len() ==> json_wf(#[trigger] tail[j]));
        let x = spec_ser_elems(tail) + seq![0x5du8] + rest;
        let after = seq![0x2cu8] + x;
        assert(inp =~= spec_ser(els[0]) + after);
        lemma_sp_value_of_ser(els[0], after);
        lemma_sp_ws_id(after);
        assert(after[0] == 0x2c);
        assert(after.subrange(1, after.len() as int) =~= x);
        lemma_ser_first_byte(tail[0]);
        assert(spec_ser_elems(tail)[0] == spec_ser(tail[0])[0]);
        assert(x[0] == spec_ser(tail[0])[0]);
        lemma_sp_ws_id(x);
        assert(x.len() < inp.len());
        lemma_sp_elems_of_ser(tail, rest);
        assert(seq![els[0]] + tail =~= els);
    }
}

/// Member-list round trip for non-empty objects.
#[verifier::rlimit(100)]
#[verifier::spinoff_prover]
pub proof fn lemma_sp_members_of_ser(kvs: Seq<(Seq<u8>, Json)>, rest: Seq<u8>)
    requires
        kvs.len() >= 1,
        forall|j: int| 0 <= j < kvs.len() ==> json_wf(#[trigger] kvs[j].1),
    ensures
        sp_members(spec_ser_members(kvs) + seq![0x7du8] + rest) == Some((kvs, rest)),
    decreases kvs, 1int,
{
    let inp = spec_ser_members(kvs) + seq![0x7du8] + rest;
    let k0 = kvs[0].0;
    let v0 = kvs[0].1;
    if kvs.len() == 1 {
        let after_key = seq![0x3au8] + spec_ser(v0) + seq![0x7du8] + rest;
        assert(inp =~= seq![0x22u8] + (spec_escape(k0) + seq![0x22u8] + after_key));
        assert(inp[0] == 0x22);
        assert(inp.subrange(1, inp.len() as int) =~= spec_escape(k0) + seq![0x22u8] + after_key);
        lemma_str_body_of_escape(k0, after_key);
        lemma_sp_ws_id(after_key);
        assert(after_key[0] == 0x3a);
        let w0 = after_key.subrange(1, after_key.len() as int);
        assert(w0 =~= spec_ser(v0) + (seq![0x7du8] + rest));
        lemma_ser_first_byte(v0);
        assert(w0[0] == spec_ser(v0)[0]);
        lemma_sp_ws_id(w0);
        assert(w0.len() < inp.len());
        lemma_sp_value_of_ser(v0, seq![0x7du8] + rest);
        let after_val = seq![0x7du8] + rest;
        lemma_sp_ws_id(after_val);
        assert(after_val[0] == 0x7d);
        assert(after_val.subrange(1, after_val.len() as int) =~= rest);
        assert(seq![(k0, v0)] =~= kvs);
    } else {
        let tail = kvs.subrange(1, kvs.len() as int);
        assert(forall|j: int| 0 <= j < tail.len() ==> json_wf(#[trigger] tail[j].1));
        let x = spec_ser_members(tail) + seq![0x7du8] + rest;
        let after_val = seq![0x2cu8] + x;
        let after_key = seq![0x3au8] + spec_ser(v0) + after_val;
        assert(inp =~= seq![0x22u8] + (spec_escape(k0) + seq![0x22u8] + after_key));
        assert(inp[0] == 0x22);
        assert(inp.subrange(1, inp.len() as int) =~= spec_escape(k0) + seq![0x22u8] + after_key);
        lemma_str_body_of_escape(k0, after_key);
        lemma_sp_ws_id(after_key);
        assert(after_key[0] == 0x3a);
        let w0 = after_key.subrange(1, after_key.len() as int);
        assert(w0 =~= spec_ser(v0) + after_val);
        lemma_ser_first_byte(v0);
        assert(w0[0] == spec_ser(v0)[0]);
        lemma_sp_ws_id(w0);
        assert(w0.len() < inp.len());
        lemma_sp_value_of_ser(v0, after_val);
        lemma_sp_ws_id(after_val);
        assert(after_val[0] == 0x2c);
        assert(after_val.subrange(1, after_val.len() as int) =~= x);
        assert(spec_ser_members(tail)[0] == 0x22);
        assert(x[0] == 0x22);
        lemma_sp_ws_id(x);
        assert(x.len() < inp.len());
        lemma_sp_members_of_ser(tail, rest);
        assert(seq![(k0, v0)] + tail =~= kvs);
    }
}

/// Round trip: parsing the canonical serialization of any well-formed value
/// yields exactly that value.
pub proof fn lemma_parse_of_ser(v: Json)
    requires
        json_wf(v),
    ensures
        spec_parse_json(spec_ser(v)) == Some(v),
{
    let s = spec_ser(v);
    lemma_ser_first_byte(v);
    lemma_sp_ws_id(s);
    assert(s + Seq::<u8>::empty() =~= s);
    lemma_sp_value_of_ser(v, Seq::empty());
    assert(sp_ws(Seq::<u8>::empty()).len() == 0);
}



/// Append the canonical serialization of the object with members `kvs`.
#[verifier::loop_isolation(false)]
#[verifier::rlimit(60)]
pub fn write_obj(kvs: &Vec<(Vec<u8>, JsonValue)>, out: &mut Vec<u8>)
    ensures
        final(out)@ == old(out)@ + spec_ser(Json::Obj(view_obj(kvs@))),
{
    out.push(0x7b);
    let n = kvs.len();
    let mut i: usize = 0;
    proof {
        lemma_view_obj_index(kvs@);
    }
    while i < n
        invariant
            i <= n,
            n == kvs@.len(),
            view_obj(kvs@).len() == kvs@.len(),
            forall|j: int|
                0 <= j < kvs@.len() ==> view_obj(kvs@)[j] == (kvs@[j].0@, kvs@[j].1@),
            out@ == old(out)@ + seq![0x7bu8] + spec_ser_members(
                view_obj(kvs@).subrange(0, i as int),
            ),
        decreases n - i,
    {
        if i > 0 {
            out.push(0x2c);
        }
        let kv = &kvs[i];
        push_str_lit(&kv.0, out);
        out.push(0x3a);
        kv.1.write_to(out);
        proof {
            let p = view_obj(kvs@).subrange(0, i as int);
            let full = view_obj(kvs@).subrange(0, i as int + 1);
            let key = view_obj(kvs@)[i as int].0;
            let val = view_obj(kvs@)[i as int].1;
            assert(full =~= p.push((key, val)));
            if i > 0 {
                lemma_ser_members_push(p, key, val);
                assert(out@ =~= old(out)@ + seq![0x7bu8] + spec_ser_members(full));
            } else {
                assert(p =~= Seq::<(Seq<u8>, Json)>::empty());
                assert(full =~= seq![(key, val)]);
                assert(out@ =~= old(out)@ + seq![0x7bu8] + spec_ser_members(full));
            }
        }
        i = i + 1;
    }
    out.push(0x7d);
    proof {
        assert(view_obj(kvs@).subrange(0, n as int) =~= view_obj(kvs@));
        assert(out@ =~= old(out)@ + (seq![0x7bu8] + spec_ser_members(view_obj(kvs@))
            + seq![0x7du8]));
    }
}

} // verus!
