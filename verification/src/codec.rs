//! The wire codec: a stable binary form for every envelope the mesh
//! exchanges, with a proof that decoding an encoded envelope yields the
//! envelope back.
//!
//! Integers travel as eight little-endian bytes, characters as their
//! code points in four, texts and payloads behind a length, documents
//! behind a one-byte shape tag.

use vstd::prelude::*;
use vstd::bytes::{
    lemma_auto_spec_u32_to_from_le_bytes, lemma_auto_spec_u64_to_from_le_bytes,
    spec_u32_from_le_bytes, spec_u32_to_le_bytes, spec_u64_from_le_bytes, spec_u64_to_le_bytes,
};
use crate::json::{Jv, JsonValue};
use crate::peer::PeerId;
use crate::stream::StreamId;
use crate::text::unicode_scalar;

verus! {

broadcast use vstd::std_specs::vec::group_vec_axioms;

/// A document whose lengths and numbers fit the wire's fixed widths.
pub open spec fn jv_bounded(j: Jv) -> bool
    decreases j,
{
    match j {
        Jv::Int(i) => i64::MIN <= i <= i64::MAX,
        Jv::Text(s) => s.len() <= u64::MAX,
        Jv::Arr(xs) => xs.len() <= u64::MAX && (forall|i: int|
            0 <= i < xs.len() ==> jv_bounded(#[trigger] xs[i])),
        Jv::Obj(es) => es.len() <= u64::MAX && (forall|i: int|
            0 <= i < es.len() ==> (#[trigger] es[i].0).len() <= u64::MAX && jv_bounded(es[i].1)),
        _ => true,
    }
}

/// Eight little-endian bytes of `n`.
pub open spec fn enc_u64(n: u64) -> Seq<u8> {
    spec_u64_to_le_bytes(n)
}

/// Four little-endian bytes of `n`.
pub open spec fn enc_u32(n: u32) -> Seq<u8> {
    spec_u32_to_le_bytes(n)
}

/// The characters of `s`, four bytes each.
pub open spec fn enc_chars(s: Seq<char>) -> Seq<u8>
    decreases s.len(),
{
    if s.len() == 0 {
        Seq::empty()
    } else {
        enc_u32(s[0] as u32) + enc_chars(s.drop_first())
    }
}

/// A text: its length, then its characters.
pub open spec fn enc_str(s: Seq<char>) -> Seq<u8> {
    enc_u64(s.len() as u64) + enc_chars(s)
}

/// A payload: its length, then its bytes.
pub open spec fn enc_bytes(d: Seq<u8>) -> Seq<u8> {
    enc_u64(d.len() as u64) + d
}

/// Read eight bytes as an integer.
pub open spec fn dec_u64(b: Seq<u8>, p: int) -> Option<(u64, int)> {
    if 0 <= p && p + 8 <= b.len() {
        Some((spec_u64_from_le_bytes(b.subrange(p, p + 8)), p + 8))
    } else {
        None
    }
}

/// Read four bytes as a character.
pub open spec fn dec_char(b: Seq<u8>, p: int) -> Option<(char, int)> {
    if 0 <= p && p + 4 <= b.len() {
        let v = spec_u32_from_le_bytes(b.subrange(p, p + 4));
        if unicode_scalar(v) {
            Some((v as char, p + 4))
        } else {
            None
        }
    } else {
        None
    }
}

/// Read `n` characters.
pub open spec fn dec_chars(b: Seq<u8>, p: int, n: nat) -> Option<(Seq<char>, int)>
    decreases n,
{
    if n == 0 {
        Some((Seq::empty(), p))
    } else {
        match dec_char(b, p) {
            Some((c, p1)) => match dec_chars(b, p1, (n - 1) as nat) {
                Some((s, p2)) => Some((seq![c] + s, p2)),
                None => None,
            },
            None => None,
        }
    }
}

/// Read a text: its length, then its characters.
pub open spec fn dec_str(b: Seq<u8>, p: int) -> Option<(Seq<char>, int)> {
    match dec_u64(b, p) {
        Some((n, p1)) => dec_chars(b, p1, n as nat),
        None => None,
    }
}

/// Read a payload: its length, then its bytes.
pub open spec fn dec_bytes(b: Seq<u8>, p: int) -> Option<(Seq<u8>, int)> {
    match dec_u64(b, p) {
        Some((n, p1)) => if p1 + n <= b.len() {
            Some((b.subrange(p1, p1 + n as int), p1 + n as int))
        } else {
            None
        },
        None => None,
    }
}

/// A document behind a one-byte shape tag.
pub open spec fn enc_json(j: Jv) -> Seq<u8>
    decreases j, 0int,
{
    match j {
        Jv::Null => seq![0u8],
        Jv::Bool(x) => seq![1u8, if x { 1u8 } else { 0u8 }],
        Jv::Int(i) => seq![2u8, if i < 0 { 1u8 } else { 0u8 }] + enc_u64(
            (if i < 0 { -i } else { i }) as u64,
        ),
        Jv::Text(s) => seq![3u8] + enc_str(s),
        Jv::Arr(xs) => seq![4u8] + enc_u64(xs.len() as u64) + enc_arr(xs),
        Jv::Obj(es) => seq![5u8] + enc_u64(es.len() as u64) + enc_obj(es),
    }
}

/// Array elements, one after another.
pub open spec fn enc_arr(xs: Seq<Jv>) -> Seq<u8>
    decreases xs, 1int,
{
    if xs.len() == 0 {
        Seq::empty()
    } else {
        enc_json(xs[0]) + enc_arr(xs.drop_first())
    }
}

/// Object entries, each a key then its value.
pub open spec fn enc_obj(es: Seq<(Seq<char>, Jv)>) -> Seq<u8>
    decreases es, 1int,
{
    if es.len() == 0 {
        Seq::empty()
    } else {
        enc_str(es[0].0) + enc_json(es[0].1) + enc_obj(es.drop_first())
    }
}

/// Read a document.
pub open spec fn dec_json(b: Seq<u8>, p: int) -> Option<(Jv, int)>
    decreases b.len() - p, 0int, 0int,
{
    if !(0 <= p < b.len()) {
        None
    } else {
        let tag = b[p];
        if tag == 0 {
            Some((Jv::Null, p + 1))
        } else if tag == 1 {
            if p + 2 <= b.len() {
                Some((Jv::Bool(b[p + 1] != 0), p + 2))
            } else {
                None
            }
        } else if tag == 2 {
            if p + 2 <= b.len() {
                match dec_u64(b, p + 2) {
                    Some((n, p1)) => if b[p + 1] != 0 && n <= 0x8000000000000000u64 {
                        Some((Jv::Int(-(n as int)), p1))
                    } else if b[p + 1] == 0 && n <= 0x7FFFFFFFFFFFFFFFu64 {
                        Some((Jv::Int(n as int), p1))
                    } else {
                        None
                    },
                    None => None,
                }
            } else {
                None
            }
        } else if tag == 3 {
            match dec_str(b, p + 1) {
                Some((s, p1)) => Some((Jv::Text(s), p1)),
                None => None,
            }
        } else if tag == 4 {
            match dec_u64(b, p + 1) {
                Some((n, p1)) => if p1 <= p || p1 > b.len() {
                    None
                } else {
                    match dec_arr(b, p1, n as nat) {
                        Some((xs, p2)) => Some((Jv::Arr(xs), p2)),
                        None => None,
                    }
                },
                None => None,
            }
        } else if tag == 5 {
            match dec_u64(b, p + 1) {
                Some((n, p1)) => if p1 <= p || p1 > b.len() {
                    None
                } else {
                    match dec_obj(b, p1, n as nat) {
                        Some((es, p2)) => Some((Jv::Obj(es), p2)),
                        None => None,
                    }
                },
                None => None,
            }
        } else {
            None
        }
    }
}

/// Read `n` array elements.
pub open spec fn dec_arr(b: Seq<u8>, p: int, n: nat) -> Option<(Seq<Jv>, int)>
    decreases b.len() - p, n, 1int,
{
    if n == 0 {
        Some((Seq::empty(), p))
    } else {
        match dec_json(b, p) {
            Some((v, p1)) => if p1 <= p || p1 > b.len() {
                None
            } else {
                match dec_arr(b, p1, (n - 1) as nat) {
                    Some((xs, p2)) => Some((seq![v] + xs, p2)),
                    None => None,
                }
            },
            None => None,
        }
    }
}

/// Read `n` object entries.
pub open spec fn dec_obj(b: Seq<u8>, p: int, n: nat) -> Option<(Seq<(Seq<char>, Jv)>, int)>
    decreases b.len() - p, n, 1int,
{
    if n == 0 {
        Some((Seq::empty(), p))
    } else {
        match dec_str(b, p) {
            Some((k, pk)) => if pk < p || pk > b.len() {
                None
            } else {
                match dec_json(b, pk) {
                    Some((v, pv)) => if pv <= p || pv > b.len() {
                        None
                    } else {
                        match dec_obj(b, pv, (n - 1) as nat) {
                            Some((es, p2)) => Some((seq![(k, v)] + es, p2)),
                            None => None,
                        }
                    },
                    None => None,
                }
            },
            None => None,
        }
    }
}

/// A match of a concatenation against a region of `b` matches each part
/// against its own subregion.
pub proof fn lemma_split2(b: Seq<u8>, p: int, a: Seq<u8>, c: Seq<u8>)
    requires
        0 <= p,
        p + a.len() + c.len() <= b.len(),
        b.subrange(p, p + a.len() + c.len()) == a + c,
    ensures
        b.subrange(p, p + a.len() as int) == a,
        b.subrange(p + a.len() as int, p + a.len() + c.len()) == c,
{
    let w = a + c;
    assert forall|i: int| 0 <= i < a.len() implies b.subrange(p, p + a.len() as int)[i]
        == a[i] by {
        assert(b.subrange(p, p + w.len() as int)[i] == w[i]);
    }
    assert(b.subrange(p, p + a.len() as int) =~= a);
    assert forall|i: int|
        0 <= i < c.len() implies b.subrange(p + a.len() as int, p + a.len() + c.len())[i]
        == c[i] by {
        assert(b.subrange(p, p + w.len() as int)[a.len() + i] == w[a.len() + i]);
    }
    assert(b.subrange(p + a.len() as int, p + a.len() + c.len()) =~= c);
}

/// A match of a text against a region of `b` fixes each byte of it.
pub proof fn lemma_read_byte(b: Seq<u8>, p: int, w: Seq<u8>, i: int)
    requires
        0 <= p,
        p + w.len() <= b.len(),
        b.subrange(p, p + w.len() as int) == w,
        0 <= i < w.len(),
    ensures
        b[p + i] == w[i],
{
    assert(b.subrange(p, p + w.len() as int)[i] == w[i]);
}

/// Character encodings take four bytes each.
pub proof fn lemma_enc_chars_len(s: Seq<char>)
    ensures
        enc_chars(s).len() == 4 * s.len(),
    decreases s.len(),
{
    lemma_auto_spec_u32_to_from_le_bytes();
    if s.len() > 0 {
        assert(spec_u32_to_le_bytes(s[0] as u32).len() == 4);
        lemma_enc_chars_len(s.drop_first());
    }
}

/// An encoded integer reads back as itself.
pub proof fn lemma_dec_u64(b: Seq<u8>, p: int, n: u64)
    requires
        0 <= p,
        p + 8 <= b.len(),
        b.subrange(p, p + 8) == enc_u64(n),
    ensures
        dec_u64(b, p) == Some((n, p + 8)),
{
    lemma_auto_spec_u64_to_from_le_bytes();
    assert(spec_u64_to_le_bytes(n).len() == 8);
}

/// An encoded character reads back as itself.
pub proof fn lemma_dec_char(b: Seq<u8>, p: int, c: char)
    requires
        0 <= p,
        p + 4 <= b.len(),
        b.subrange(p, p + 4) == enc_u32(c as u32),
    ensures
        dec_char(b, p) == Some((c, p + 4)),
{
    lemma_auto_spec_u32_to_from_le_bytes();
    assert(spec_u32_to_le_bytes(c as u32).len() == 4);
    let v = spec_u32_from_le_bytes(b.subrange(p, p + 4));
    assert(v == c as u32);
    vstd::utf8::char_is_scalar(c);
    assert(vstd::utf8::is_scalar(c as u32));
    assert(unicode_scalar(c as u32));
    vstd::utf8::char_u32_cast(c, c as u32);
    assert((v as char) == c);
}

/// Encoded characters read back as themselves.
pub proof fn lemma_dec_chars(b: Seq<u8>, p: int, s: Seq<char>)
    requires
        0 <= p,
        p + 4 * s.len() <= b.len(),
        b.subrange(p, p + 4 * s.len()) == enc_chars(s),
    ensures
        dec_chars(b, p, s.len()) == Some((s, p + 4 * s.len())),
    decreases s.len(),
{
    lemma_auto_spec_u32_to_from_le_bytes();
    if s.len() == 0 {
        assert(Seq::<char>::empty() =~= s);
    } else {
        lemma_enc_chars_len(s.drop_first());
        assert(spec_u32_to_le_bytes(s[0] as u32).len() == 4);
        assert(b.subrange(p, p + 4 * s.len()) == enc_u32(s[0] as u32) + enc_chars(
            s.drop_first(),
        ));
        lemma_split2(b, p, enc_u32(s[0] as u32), enc_chars(s.drop_first()));
        lemma_dec_char(b, p, s[0]);
        lemma_dec_chars(b, p + 4, s.drop_first());
        assert(seq![s[0]] + s.drop_first() =~= s);
    }
}

/// An encoded text reads back as itself.
pub proof fn lemma_dec_str(b: Seq<u8>, p: int, s: Seq<char>)
    requires
        s.len() <= u64::MAX,
        0 <= p,
        p + enc_str(s).len() <= b.len(),
        b.subrange(p, p + enc_str(s).len() as int) == enc_str(s),
    ensures
        enc_str(s).len() == 8 + 4 * s.len(),
        dec_str(b, p) == Some((s, p + enc_str(s).len() as int)),
{
    lemma_auto_spec_u64_to_from_le_bytes();
    assert(spec_u64_to_le_bytes(s.len() as u64).len() == 8);
    lemma_enc_chars_len(s);
    lemma_split2(b, p, enc_u64(s.len() as u64), enc_chars(s));
    lemma_dec_u64(b, p, s.len() as u64);
    assert((s.len() as u64) as nat == s.len());
    lemma_dec_chars(b, p + 8, s);
}

/// An encoded payload reads back as itself.
pub proof fn lemma_dec_bytes(b: Seq<u8>, p: int, d: Seq<u8>)
    requires
        d.len() <= u64::MAX,
        0 <= p,
        p + enc_bytes(d).len() <= b.len(),
        b.subrange(p, p + enc_bytes(d).len() as int) == enc_bytes(d),
    ensures
        enc_bytes(d).len() == 8 + d.len(),
        dec_bytes(b, p) == Some((d, p + enc_bytes(d).len() as int)),
{
    lemma_auto_spec_u64_to_from_le_bytes();
    assert(spec_u64_to_le_bytes(d.len() as u64).len() == 8);
    lemma_split2(b, p, enc_u64(d.len() as u64), d);
    lemma_dec_u64(b, p, d.len() as u64);
}

/// An encoded document reads back as itself.
pub proof fn lemma_dec_json(b: Seq<u8>, p: int, j: Jv)
    requires
        jv_bounded(j),
        0 <= p,
        p + enc_json(j).len() <= b.len(),
        b.subrange(p, p + enc_json(j).len() as int) == enc_json(j),
    ensures
        enc_json(j).len() >= 1,
        dec_json(b, p) == Some((j, p + enc_json(j).len() as int)),
    decreases j, 0int,
{
    lemma_auto_spec_u64_to_from_le_bytes();
    let e = enc_json(j);
    match j {
        Jv::Null => {
            lemma_read_byte(b, p, e, 0);
        },
        Jv::Bool(x) => {
            lemma_read_byte(b, p, e, 0);
            lemma_read_byte(b, p, e, 1);
        },
        Jv::Int(i) => {
            let mag: u64 = (if i < 0 { -i } else { i }) as u64;
            assert(spec_u64_to_le_bytes(mag).len() == 8);
            assert(e == seq![2u8, if i < 0 { 1u8 } else { 0u8 }] + enc_u64(mag));
            lemma_split2(b, p, seq![2u8, if i < 0 { 1u8 } else { 0u8 }], enc_u64(mag));
            lemma_read_byte(b, p, e, 0);
            lemma_read_byte(b, p, e, 1);
            lemma_dec_u64(b, p + 2, mag);
            assert(mag as int == if i < 0 { -i } else { i });
        },
        Jv::Text(s) => {
            assert(e == seq![3u8] + enc_str(s));
            lemma_split2(b, p, seq![3u8], enc_str(s));
            lemma_read_byte(b, p, e, 0);
            lemma_dec_str(b, p + 1, s);
        },
        Jv::Arr(xs) => {
            assert(spec_u64_to_le_bytes(xs.len() as u64).len() == 8);
            assert(e == (seq![4u8] + enc_u64(xs.len() as u64)) + enc_arr(xs)) by {
                assert(seq![4u8] + enc_u64(xs.len() as u64) + enc_arr(xs) =~= (seq![4u8]
                    + enc_u64(xs.len() as u64)) + enc_arr(xs));
            }
            lemma_split2(b, p, seq![4u8] + enc_u64(xs.len() as u64), enc_arr(xs));
            lemma_split2(b, p, seq![4u8], enc_u64(xs.len() as u64));
            lemma_read_byte(b, p, e, 0);
            lemma_dec_u64(b, p + 1, xs.len() as u64);
            assert((xs.len() as u64) as nat == xs.len());
            lemma_dec_arr(b, p + 9, xs);
        },
        Jv::Obj(es) => {
            assert(spec_u64_to_le_bytes(es.len() as u64).len() == 8);
            assert(e == (seq![5u8] + enc_u64(es.len() as u64)) + enc_obj(es)) by {
                assert(seq![5u8] + enc_u64(es.len() as u64) + enc_obj(es) =~= (seq![5u8]
                    + enc_u64(es.len() as u64)) + enc_obj(es));
            }
            lemma_split2(b, p, seq![5u8] + enc_u64(es.len() as u64), enc_obj(es));
            lemma_split2(b, p, seq![5u8], enc_u64(es.len() as u64));
            lemma_read_byte(b, p, e, 0);
            lemma_dec_u64(b, p + 1, es.len() as u64);
            assert((es.len() as u64) as nat == es.len());
            lemma_dec_obj(b, p + 9, es);
        },
    }
}

/// Encoded array elements read back as themselves.
pub proof fn lemma_dec_arr(b: Seq<u8>, p: int, xs: Seq<Jv>)
    requires
        forall|i: int| 0 <= i < xs.len() ==> jv_bounded(#[trigger] xs[i]),
        0 <= p,
        p + enc_arr(xs).len() <= b.len(),
        b.subrange(p, p + enc_arr(xs).len() as int) == enc_arr(xs),
    ensures
        dec_arr(b, p, xs.len()) == Some((xs, p + enc_arr(xs).len() as int)),
    decreases xs, 1int,
{
    if xs.len() == 0 {
        assert(Seq::<Jv>::empty() =~= xs);
    } else {
        let e0 = enc_json(xs[0]);
        assert(b.subrange(p, p + enc_arr(xs).len() as int) == e0 + enc_arr(xs.drop_first()));
        lemma_split2(b, p, e0, enc_arr(xs.drop_first()));
        lemma_dec_json(b, p, xs[0]);
        assert forall|i: int| 0 <= i < xs.drop_first().len() implies jv_bounded(
            #[trigger] xs.drop_first()[i],
        ) by {
            assert(xs.drop_first()[i] == xs[i + 1]);
        }
        lemma_dec_arr(b, p + e0.len() as int, xs.drop_first());
        assert(seq![xs[0]] + xs.drop_first() =~= xs);
    }
}

/// Encoded object entries read back as themselves.
pub proof fn lemma_dec_obj(b: Seq<u8>, p: int, es: Seq<(Seq<char>, Jv)>)
    requires
        forall|i: int|
            0 <= i < es.len() ==> (#[trigger] es[i].0).len() <= u64::MAX && jv_bounded(es[i].1),
        0 <= p,
        p + enc_obj(es).len() <= b.len(),
        b.subrange(p, p + enc_obj(es).len() as int) == enc_obj(es),
    ensures
        dec_obj(b, p, es.len()) == Some((es, p + enc_obj(es).len() as int)),
    decreases es, 1int,
{
    if es.len() == 0 {
        assert(Seq::<(Seq<char>, Jv)>::empty() =~= es);
    } else {
        let ek = enc_str(es[0].0);
        let ev = enc_json(es[0].1);
        let rest = enc_obj(es.drop_first());
        assert(b.subrange(p, p + enc_obj(es).len() as int) == (ek + ev) + rest) by {
            assert(ek + ev + rest =~= (ek + ev) + rest);
        }
        lemma_split2(b, p, ek + ev, rest);
        lemma_split2(b, p, ek, ev);
        lemma_dec_str(b, p, es[0].0);
        lemma_dec_json(b, p + ek.len() as int, es[0].1);
        assert forall|i: int|
            0 <= i < es.drop_first().len() implies (#[trigger] es.drop_first()[i].0).len()
            <= u64::MAX && jv_bounded(es.drop_first()[i].1) by {
            assert(es.drop_first()[i] == es[i + 1]);
        }
        lemma_dec_obj(b, p + ek.len() as int + ev.len() as int, es.drop_first());
        assert(seq![(es[0].0, es[0].1)] + es.drop_first() =~= es);
        assert((es[0].0, es[0].1) == es[0]);
    }
}


/// One envelope of the mesh's wire protocol.
pub enum WireEnvelope {
    /// Ask to open a logical stream, with the initiator's free-form reason.
    StreamOpen { id: StreamId, reason: String },
    /// Accept a requested stream.
    StreamAccept { id: StreamId },
    /// Turn a requested stream down, with why.
    StreamReject { id: StreamId, reason: String },
    /// Bytes on an open stream.
    StreamData { id: StreamId, data: Vec<u8> },
    /// End a stream, with why.
    StreamClose { id: StreamId, reason: String },
    /// A peer's context document with its clock.
    ContextAnnounce { peer: PeerId, data: JsonValue, clock: Vec<(String, u64)> },
}

/// The model of an envelope.
#[verifier::ext_equal]
pub enum WireModel {
    Open { id: (Seq<char>, u64, u64), reason: Seq<char> },
    Accept { id: (Seq<char>, u64, u64) },
    Reject { id: (Seq<char>, u64, u64), reason: Seq<char> },
    Data { id: (Seq<char>, u64, u64), data: Seq<u8> },
    Close { id: (Seq<char>, u64, u64), reason: Seq<char> },
    Announce { peer: Seq<char>, data: Jv, clock: Seq<(Seq<char>, u64)> },
}

/// The model of a clock pair list.
pub open spec fn clock_pairs_view(c: Seq<(String, u64)>) -> Seq<(Seq<char>, u64)> {
    Seq::new(c.len(), |i: int| (c[i].0@, c[i].1))
}

impl View for WireEnvelope {
    type V = WireModel;

    open spec fn view(&self) -> WireModel {
        match self {
            WireEnvelope::StreamOpen { id, reason } => WireModel::Open {
                id: id@,
                reason: reason@,
            },
            WireEnvelope::StreamAccept { id } => WireModel::Accept { id: id@ },
            WireEnvelope::StreamReject { id, reason } => WireModel::Reject {
                id: id@,
                reason: reason@,
            },
            WireEnvelope::StreamData { id, data } => WireModel::Data { id: id@, data: data@ },
            WireEnvelope::StreamClose { id, reason } => WireModel::Close {
                id: id@,
                reason: reason@,
            },
            WireEnvelope::ContextAnnounce { peer, data, clock } => WireModel::Announce {
                peer: peer@,
                data: data@,
                clock: clock_pairs_view(clock@),
            },
        }
    }
}

/// An envelope whose lengths fit the wire's fixed widths.
pub open spec fn wire_bounded(e: WireModel) -> bool {
    match e {
        WireModel::Open { id, reason } => id.0.len() <= u64::MAX && reason.len() <= u64::MAX,
        WireModel::Accept { id } => id.0.len() <= u64::MAX,
        WireModel::Reject { id, reason } => id.0.len() <= u64::MAX && reason.len() <= u64::MAX,
        WireModel::Data { id, data } => id.0.len() <= u64::MAX && data.len() <= u64::MAX,
        WireModel::Close { id, reason } => id.0.len() <= u64::MAX && reason.len() <= u64::MAX,
        WireModel::Announce { peer, data, clock } => peer.len() <= u64::MAX && jv_bounded(data)
            && clock.len() <= u64::MAX && (forall|i: int|
            0 <= i < clock.len() ==> (#[trigger] clock[i].0).len() <= u64::MAX),
    }
}

/// A stream id on the wire: its initiator, counter and suffix.
pub open spec fn enc_sid(id: (Seq<char>, u64, u64)) -> Seq<u8> {
    enc_str(id.0) + enc_u64(id.1) + enc_u64(id.2)
}

/// Clock entries on the wire, each a peer and its counter.
pub open spec fn enc_clock_entries(c: Seq<(Seq<char>, u64)>) -> Seq<u8>
    decreases c.len(),
{
    if c.len() == 0 {
        Seq::empty()
    } else {
        enc_str(c[0].0) + enc_u64(c[0].1) + enc_clock_entries(c.drop_first())
    }
}

/// A clock on the wire: how many entries, then the entries.
pub open spec fn enc_clock(c: Seq<(Seq<char>, u64)>) -> Seq<u8> {
    enc_u64(c.len() as u64) + enc_clock_entries(c)
}

/// An envelope on the wire: a tag, then its fields.
pub open spec fn enc_envelope(e: WireModel) -> Seq<u8> {
    match e {
        WireModel::Open { id, reason } => seq![1u8] + enc_sid(id) + enc_str(reason),
        WireModel::Accept { id } => seq![2u8] + enc_sid(id),
        WireModel::Reject { id, reason } => seq![3u8] + enc_sid(id) + enc_str(reason),
        WireModel::Data { id, data } => seq![4u8] + enc_sid(id) + enc_bytes(data),
        WireModel::Close { id, reason } => seq![5u8] + enc_sid(id) + enc_str(reason),
        WireModel::Announce { peer, data, clock } => seq![6u8] + enc_str(peer) + enc_json(data)
            + enc_clock(clock),
    }
}

/// Read a stream id.
pub open spec fn dec_sid(b: Seq<u8>, p: int) -> Option<((Seq<char>, u64, u64), int)> {
    match dec_str(b, p) {
        Some((s, p1)) => match dec_u64(b, p1) {
            Some((c, p2)) => match dec_u64(b, p2) {
                Some((x, p3)) => Some(((s, c, x), p3)),
                None => None,
            },
            None => None,
        },
        None => None,
    }
}

/// Read `n` clock entries.
pub open spec fn dec_clock_entries(b: Seq<u8>, p: int, n: nat) -> Option<
    (Seq<(Seq<char>, u64)>, int),
>
    decreases n,
{
    if n == 0 {
        Some((Seq::empty(), p))
    } else {
        match dec_str(b, p) {
            Some((k, p1)) => match dec_u64(b, p1) {
                Some((v, p2)) => match dec_clock_entries(b, p2, (n - 1) as nat) {
                    Some((c, p3)) => Some((seq![(k, v)] + c, p3)),
                    None => None,
                },
                None => None,
            },
            None => None,
        }
    }
}

/// Read a clock.
pub open spec fn dec_clock(b: Seq<u8>, p: int) -> Option<(Seq<(Seq<char>, u64)>, int)> {
    match dec_u64(b, p) {
        Some((n, p1)) => dec_clock_entries(b, p1, n as nat),
        None => None,
    }
}

/// Read a whole envelope; the buffer must hold exactly one.
pub open spec fn dec_envelope(b: Seq<u8>) -> Option<WireModel> {
    if b.len() < 1 {
        None
    } else {
        let tag = b[0];
        if tag == 1 {
            match dec_sid(b, 1) {
                Some((id, p1)) => match dec_str(b, p1) {
                    Some((s, p2)) => if p2 == b.len() {
                        Some(WireModel::Open { id, reason: s })
                    } else {
                        None
                    },
                    None => None,
                },
                None => None,
            }
        } else if tag == 2 {
            match dec_sid(b, 1) {
                Some((id, p1)) => if p1 == b.len() {
                    Some(WireModel::Accept { id })
                } else {
                    None
                },
                None => None,
            }
        } else if tag == 3 {
            match dec_sid(b, 1) {
                Some((id, p1)) => match dec_str(b, p1) {
                    Some((s, p2)) => if p2 == b.len() {
                        Some(WireModel::Reject { id, reason: s })
                    } else {
                        None
                    },
                    None => None,
                },
                None => None,
            }
        } else if tag == 4 {
            match dec_sid(b, 1) {
                Some((id, p1)) => match dec_bytes(b, p1) {
                    Some((d, p2)) => if p2 == b.len() {
                        Some(WireModel::Data { id, data: d })
                    } else {
                        None
                    },
                    None => None,
                },
                None => None,
            }
        } else if tag == 5 {
            match dec_sid(b, 1) {
                Some((id, p1)) => match dec_str(b, p1) {
                    Some((s, p2)) => if p2 == b.len() {
                        Some(WireModel::Close { id, reason: s })
                    } else {
                        None
                    },
                    None => None,
                },
                None => None,
            }
        } else if tag == 6 {
            match dec_str(b, 1) {
                Some((peer, p1)) => match dec_json(b, p1) {
                    Some((data, p2)) => match dec_clock(b, p2) {
                        Some((clock, p3)) => if p3 == b.len() {
                            Some(WireModel::Announce { peer, data, clock })
                        } else {
                            None
                        },
                        None => None,
                    },
                    None => None,
                },
                None => None,
            }
        } else {
            None
        }
    }
}

/// An encoded stream id reads back as itself.
pub proof fn lemma_dec_sid(b: Seq<u8>, p: int, id: (Seq<char>, u64, u64))
    requires
        id.0.len() <= u64::MAX,
        0 <= p,
        p + enc_sid(id).len() <= b.len(),
        b.subrange(p, p + enc_sid(id).len() as int) == enc_sid(id),
    ensures
        enc_sid(id).len() == 24 + 4 * id.0.len(),
        dec_sid(b, p) == Some((id, p + enc_sid(id).len() as int)),
{
    lemma_auto_spec_u64_to_from_le_bytes();
    assert(spec_u64_to_le_bytes(id.1).len() == 8);
    assert(spec_u64_to_le_bytes(id.2).len() == 8);
    assert(spec_u64_to_le_bytes(id.0.len() as u64).len() == 8);
    lemma_enc_chars_len(id.0);
    assert(b.subrange(p, p + enc_sid(id).len() as int) == (enc_str(id.0) + enc_u64(id.1))
        + enc_u64(id.2)) by {
        assert(enc_str(id.0) + enc_u64(id.1) + enc_u64(id.2) =~= (enc_str(id.0) + enc_u64(id.1))
            + enc_u64(id.2));
    }
    lemma_split2(b, p, enc_str(id.0) + enc_u64(id.1), enc_u64(id.2));
    lemma_split2(b, p, enc_str(id.0), enc_u64(id.1));
    lemma_dec_str(b, p, id.0);
    lemma_dec_u64(b, p + enc_str(id.0).len() as int, id.1);
    lemma_dec_u64(b, p + enc_str(id.0).len() as int + 8, id.2);
    assert((id.0, id.1, id.2) == id);
}

/// Encoded clock entries read back as themselves.
pub proof fn lemma_dec_clock_entries(b: Seq<u8>, p: int, c: Seq<(Seq<char>, u64)>)
    requires
        forall|i: int| 0 <= i < c.len() ==> (#[trigger] c[i].0).len() <= u64::MAX,
        0 <= p,
        p + enc_clock_entries(c).len() <= b.len(),
        b.subrange(p, p + enc_clock_entries(c).len() as int) == enc_clock_entries(c),
    ensures
        dec_clock_entries(b, p, c.len()) == Some((c, p + enc_clock_entries(c).len() as int)),
    decreases c.len(),
{
    lemma_auto_spec_u64_to_from_le_bytes();
    if c.len() == 0 {
        assert(Seq::<(Seq<char>, u64)>::empty() =~= c);
    } else {
        let ek = enc_str(c[0].0);
        assert(spec_u64_to_le_bytes(c[0].1).len() == 8);
        assert(b.subrange(p, p + enc_clock_entries(c).len() as int) == (ek + enc_u64(c[0].1))
            + enc_clock_entries(c.drop_first())) by {
            assert(ek + enc_u64(c[0].1) + enc_clock_entries(c.drop_first()) =~= (ek + enc_u64(
                c[0].1,
            )) + enc_clock_entries(c.drop_first()));
        }
        lemma_split2(b, p, ek + enc_u64(c[0].1), enc_clock_entries(c.drop_first()));
        lemma_split2(b, p, ek, enc_u64(c[0].1));
        lemma_dec_str(b, p, c[0].0);
        lemma_dec_u64(b, p + ek.len() as int, c[0].1);
        assert forall|i: int|
            0 <= i < c.drop_first().len() implies (#[trigger] c.drop_first()[i].0).len()
            <= u64::MAX by {
            assert(c.drop_first()[i] == c[i + 1]);
        }
        lemma_dec_clock_entries(b, p + ek.len() as int + 8, c.drop_first());
        assert(seq![(c[0].0, c[0].1)] + c.drop_first() =~= c);
        assert((c[0].0, c[0].1) == c[0]);
    }
}

/// An encoded clock reads back as itself.
pub proof fn lemma_dec_clock(b: Seq<u8>, p: int, c: Seq<(Seq<char>, u64)>)
    requires
        c.len() <= u64::MAX,
        forall|i: int| 0 <= i < c.len() ==> (#[trigger] c[i].0).len() <= u64::MAX,
        0 <= p,
        p + enc_clock(c).len() <= b.len(),
        b.subrange(p, p + enc_clock(c).len() as int) == enc_clock(c),
    ensures
        dec_clock(b, p) == Some((c, p + enc_clock(c).len() as int)),
{
    lemma_auto_spec_u64_to_from_le_bytes();
    assert(spec_u64_to_le_bytes(c.len() as u64).len() == 8);
    lemma_split2(b, p, enc_u64(c.len() as u64), enc_clock_entries(c));
    lemma_dec_u64(b, p, c.len() as u64);
    assert((c.len() as u64) as nat == c.len());
    lemma_dec_clock_entries(b, p + 8, c);
}

/// Law: decoding an encoded envelope yields the envelope back, content
/// for content.
pub proof fn law_envelope_round_trip(e: WireModel)
    requires
        wire_bounded(e),
    ensures
        dec_envelope(enc_envelope(e)) == Some(e),
{
    lemma_auto_spec_u64_to_from_le_bytes();
    let b = enc_envelope(e);
    assert(b.subrange(0, b.len() as int) =~= b);
    match e {
        WireModel::Open { id, reason } => {
            assert(b == (seq![1u8] + enc_sid(id)) + enc_str(reason)) by {
                assert(seq![1u8] + enc_sid(id) + enc_str(reason) =~= (seq![1u8] + enc_sid(id))
                    + enc_str(reason));
            }
            lemma_split2(b, 0, seq![1u8] + enc_sid(id), enc_str(reason));
            lemma_split2(b, 0, seq![1u8], enc_sid(id));
            lemma_read_byte(b, 0, b, 0);
            lemma_dec_sid(b, 1, id);
            lemma_dec_str(b, 1 + enc_sid(id).len() as int, reason);
        },
        WireModel::Accept { id } => {
            lemma_split2(b, 0, seq![2u8], enc_sid(id));
            lemma_read_byte(b, 0, b, 0);
            lemma_dec_sid(b, 1, id);
        },
        WireModel::Reject { id, reason } => {
            assert(b == (seq![3u8] + enc_sid(id)) + enc_str(reason)) by {
                assert(seq![3u8] + enc_sid(id) + enc_str(reason) =~= (seq![3u8] + enc_sid(id))
                    + enc_str(reason));
            }
            lemma_split2(b, 0, seq![3u8] + enc_sid(id), enc_str(reason));
            lemma_split2(b, 0, seq![3u8], enc_sid(id));
            lemma_read_byte(b, 0, b, 0);
            lemma_dec_sid(b, 1, id);
            lemma_dec_str(b, 1 + enc_sid(id).len() as int, reason);
        },
        WireModel::Data { id, data } => {
            assert(b == (seq![4u8] + enc_sid(id)) + enc_bytes(data)) by {
                assert(seq![4u8] + enc_sid(id) + enc_bytes(data) =~= (seq![4u8] + enc_sid(id))
                    + enc_bytes(data));
            }
            lemma_split2(b, 0, seq![4u8] + enc_sid(id), enc_bytes(data));
            lemma_split2(b, 0, seq![4u8], enc_sid(id));
            lemma_read_byte(b, 0, b, 0);
            lemma_dec_sid(b, 1, id);
            lemma_dec_bytes(b, 1 + enc_sid(id).len() as int, data);
        },
        WireModel::Close { id, reason } => {
            assert(b == (seq![5u8] + enc_sid(id)) + enc_str(reason)) by {
                assert(seq![5u8] + enc_sid(id) + enc_str(reason) =~= (seq![5u8] + enc_sid(id))
                    + enc_str(reason));
            }
            lemma_split2(b, 0, seq![5u8] + enc_sid(id), enc_str(reason));
            lemma_split2(b, 0, seq![5u8], enc_sid(id));
            lemma_read_byte(b, 0, b, 0);
            lemma_dec_sid(b, 1, id);
            lemma_dec_str(b, 1 + enc_sid(id).len() as int, reason);
        },
        WireModel::Announce { peer, data, clock } => {
            let e1 = enc_str(peer);
            let e2 = enc_json(data);
            let e3 = enc_clock(clock);
            assert(b == ((seq![6u8] + e1) + e2) + e3) by {
                assert(seq![6u8] + e1 + e2 + e3 =~= ((seq![6u8] + e1) + e2) + e3);
            }
            lemma_split2(b, 0, (seq![6u8] + e1) + e2, e3);
            lemma_split2(b, 0, seq![6u8] + e1, e2);
            lemma_split2(b, 0, seq![6u8], e1);
            lemma_read_byte(b, 0, b, 0);
            lemma_dec_str(b, 1, peer);
            lemma_dec_json(b, 1 + e1.len() as int, data);
            lemma_dec_clock(b, 1 + e1.len() as int + e2.len() as int, clock);
        },
    }
}


/// Appending a character extends the encoding at the end.
pub proof fn lemma_enc_chars_snoc(s: Seq<char>, c: char)
    ensures
        enc_chars(s.push(c)) == enc_chars(s) + enc_u32(c as u32),
    decreases s.len(),
{
    if s.len() == 0 {
        assert(s.push(c).drop_first() =~= Seq::<char>::empty());
        assert(enc_chars(Seq::<char>::empty()) == Seq::<u8>::empty());
        assert(s.push(c)[0] == c);
        assert(enc_chars(s.push(c)) =~= enc_chars(s) + enc_u32(c as u32));
    } else {
        assert(s.push(c).drop_first() =~= s.drop_first().push(c));
        lemma_enc_chars_snoc(s.drop_first(), c);
        assert(s.push(c)[0] == s[0]);
        assert(enc_chars(s.push(c)) =~= enc_chars(s) + enc_u32(c as u32));
    }
}

/// Appending an element extends the encoding at the end.
pub proof fn lemma_enc_arr_snoc(xs: Seq<Jv>, v: Jv)
    ensures
        enc_arr(xs.push(v)) == enc_arr(xs) + enc_json(v),
    decreases xs.len(),
{
    if xs.len() == 0 {
        assert(xs.push(v).drop_first() =~= Seq::<Jv>::empty());
        assert(enc_arr(Seq::<Jv>::empty()) == Seq::<u8>::empty());
        assert(xs.push(v)[0] == v);
        assert(enc_arr(xs.push(v)) =~= enc_arr(xs) + enc_json(v));
    } else {
        assert(xs.push(v).drop_first() =~= xs.drop_first().push(v));
        lemma_enc_arr_snoc(xs.drop_first(), v);
        assert(xs.push(v)[0] == xs[0]);
        assert(enc_arr(xs.push(v)) =~= enc_arr(xs) + enc_json(v));
    }
}

/// Appending an entry extends the encoding at the end.
pub proof fn lemma_enc_obj_snoc(es: Seq<(Seq<char>, Jv)>, k: Seq<char>, v: Jv)
    ensures
        enc_obj(es.push((k, v))) == enc_obj(es) + enc_str(k) + enc_json(v),
    decreases es.len(),
{
    if es.len() == 0 {
        assert(es.push((k, v)).drop_first() =~= Seq::<(Seq<char>, Jv)>::empty());
        assert(enc_obj(Seq::<(Seq<char>, Jv)>::empty()) == Seq::<u8>::empty());
        assert(es.push((k, v))[0] == (k, v));
        assert(enc_obj(es.push((k, v))) =~= enc_obj(es) + enc_str(k) + enc_json(v));
    } else {
        assert(es.push((k, v)).drop_first() =~= es.drop_first().push((k, v)));
        lemma_enc_obj_snoc(es.drop_first(), k, v);
        assert(es.push((k, v))[0] == es[0]);
        assert(enc_obj(es.push((k, v))) =~= enc_obj(es) + enc_str(k) + enc_json(v));
    }
}

/// Appending a clock entry extends the encoding at the end.
pub proof fn lemma_enc_clock_snoc(c: Seq<(Seq<char>, u64)>, k: Seq<char>, v: u64)
    ensures
        enc_clock_entries(c.push((k, v))) == enc_clock_entries(c) + enc_str(k) + enc_u64(v),
    decreases c.len(),
{
    if c.len() == 0 {
        assert(c.push((k, v)).drop_first() =~= Seq::<(Seq<char>, u64)>::empty());
        assert(enc_clock_entries(Seq::<(Seq<char>, u64)>::empty()) == Seq::<u8>::empty());
        assert(c.push((k, v))[0] == (k, v));
        assert(enc_clock_entries(c.push((k, v))) =~= enc_clock_entries(c) + enc_str(k) + enc_u64(
            v,
        ));
    } else {
        assert(c.push((k, v)).drop_first() =~= c.drop_first().push((k, v)));
        lemma_enc_clock_snoc(c.drop_first(), k, v);
        assert(c.push((k, v))[0] == c[0]);
        assert(enc_clock_entries(c.push((k, v))) =~= enc_clock_entries(c) + enc_str(k) + enc_u64(
            v,
        ));
    }
}

/// Write an integer.
fn push_u64(out: &mut Vec<u8>, n: u64)
    ensures
        final(out)@ == old(out)@ + enc_u64(n),
{
    let mut bs = vstd::bytes::u64_to_le_bytes(n);
    out.append(&mut bs);
}

/// Write a text.
#[verifier::loop_isolation(false)]
fn push_str(out: &mut Vec<u8>, s: &str)
    ensures
        final(out)@ == old(out)@ + enc_str(s@),
{
    let n = s.unicode_len();
    push_u64(out, n as u64);
    let ghost mid = out@;
    let mut i: usize = 0;
    while i < n
        invariant
            i <= n,
            n == s@.len(),
            out@ == mid + enc_chars(s@.take(i as int)),
        decreases n - i,
    {
        let c = s.get_char(i);
        let mut bs = vstd::bytes::u32_to_le_bytes(c as u32);
        out.append(&mut bs);
        proof {
            lemma_enc_chars_snoc(s@.take(i as int), c);
            assert(s@.take(i as int).push(c) =~= s@.take(i as int + 1));
        }
        i += 1;
    }
    proof {
        assert(s@.take(n as int) =~= s@);
    }
}

/// Write a payload.
fn push_bytes(out: &mut Vec<u8>, d: &Vec<u8>)
    ensures
        final(out)@ == old(out)@ + enc_bytes(d@),
{
    push_u64(out, d.len() as u64);
    out.extend_from_slice(d.as_slice());
}

/// Write a stream id.
fn push_sid(out: &mut Vec<u8>, id: &StreamId)
    ensures
        final(out)@ == old(out)@ + enc_sid(id@),
{
    push_str(out, id.initiator.as_text().as_str());
    push_u64(out, id.counter);
    push_u64(out, id.nonce);
    proof {
        assert(old(out)@ + enc_str(id@.0) + enc_u64(id@.1) + enc_u64(id@.2) =~= old(out)@
            + enc_sid(id@));
    }
}

/// Write a document.
#[verifier::loop_isolation(false)]
pub fn push_json(out: &mut Vec<u8>, v: &JsonValue)
    ensures
        final(out)@ == old(out)@ + enc_json(v@),
    decreases v,
{
    match v {
        JsonValue::Null => {
            out.push(0u8);
            proof {
                assert(out@ =~= old(out)@ + enc_json(v@));
            }
        },
        JsonValue::Bool(x) => {
            out.push(1u8);
            out.push(if *x { 1u8 } else { 0u8 });
            proof {
                assert(out@ =~= old(out)@ + enc_json(v@));
            }
        },
        JsonValue::Int(i) => {
            out.push(2u8);
            out.push(if *i < 0 { 1u8 } else { 0u8 });
            let mag: u64 = if *i < 0 {
                ((-1i64 - *i) as u64) + 1
            } else {
                *i as u64
            };
            let ghost mid = out@;
            push_u64(out, mag);
            proof {
                assert(mag as int == if v@->Int_0 < 0 { -v@->Int_0 } else { v@->Int_0 });
                assert(mid =~= old(out)@ + seq![2u8, if v@->Int_0 < 0 { 1u8 } else { 0u8 }]);
                assert(out@ =~= old(out)@ + enc_json(v@));
            }
        },
        JsonValue::Text(s) => {
            out.push(3u8);
            push_str(out, s.as_str());
            proof {
                assert(out@ =~= old(out)@ + enc_json(v@));
            }
        },
        JsonValue::Arr(xs) => {
            out.push(4u8);
            push_u64(out, xs.len() as u64);
            let ghost mid = out@;
            let ghost elems = v@->Arr_0;
            let mut i: usize = 0;
            while i < xs.len()
                invariant
                    i <= xs@.len(),
                    elems.len() == xs@.len(),
                    forall|j: int| 0 <= j < xs@.len() ==> elems[j] == #[trigger] xs@[j]@,
                    out@ == mid + enc_arr(elems.take(i as int)),
                decreases xs@.len() - i,
            {
                push_json(out, &xs[i]);
                proof {
                    lemma_enc_arr_snoc(elems.take(i as int), elems[i as int]);
                    assert(elems.take(i as int).push(elems[i as int]) =~= elems.take(
                        i as int + 1,
                    ));
                }
                i += 1;
            }
            proof {
                assert(elems.take(xs@.len() as int) =~= elems);
                assert(mid =~= old(out)@ + seq![4u8] + enc_u64(xs@.len() as u64));
                assert(out@ =~= old(out)@ + enc_json(v@));
            }
        },
        JsonValue::Obj(es) => {
            out.push(5u8);
            push_u64(out, es.len() as u64);
            let ghost mid = out@;
            let ghost entries = v@->Obj_0;
            let mut i: usize = 0;
            while i < es.len()
                invariant
                    i <= es@.len(),
                    entries.len() == es@.len(),
                    forall|j: int|
                        0 <= j < es@.len() ==> entries[j] == (#[trigger] es@[j].0@, es@[j].1@),
                    out@ == mid + enc_obj(entries.take(i as int)),
                decreases es@.len() - i,
            {
                push_str(out, es[i].0.as_str());
                push_json(out, &es[i].1);
                proof {
                    lemma_enc_obj_snoc(
                        entries.take(i as int),
                        entries[i as int].0,
                        entries[i as int].1,
                    );
                    assert(entries.take(i as int).push(
                        (entries[i as int].0, entries[i as int].1),
                    ) =~= entries.take(i as int + 1));
                    assert((entries[i as int].0, entries[i as int].1) == entries[i as int]);
                }
                i += 1;
            }
            proof {
                assert(entries.take(es@.len() as int) =~= entries);
                assert(mid =~= old(out)@ + seq![5u8] + enc_u64(es@.len() as u64));
                assert(out@ =~= old(out)@ + enc_json(v@));
            }
        },
    }
}

/// Encode one envelope for the wire.
#[verifier::loop_isolation(false)]
pub fn encode_envelope(e: &WireEnvelope) -> (r: Vec<u8>)
    ensures
        r@ == enc_envelope(e@),
{
    let mut out: Vec<u8> = Vec::new();
    match e {
        WireEnvelope::StreamOpen { id, reason } => {
            out.push(1u8);
            push_sid(&mut out, id);
            push_str(&mut out, reason.as_str());
            proof {
                assert(out@ =~= enc_envelope(e@));
            }
        },
        WireEnvelope::StreamAccept { id } => {
            out.push(2u8);
            push_sid(&mut out, id);
            proof {
                assert(out@ =~= enc_envelope(e@));
            }
        },
        WireEnvelope::StreamReject { id, reason } => {
            out.push(3u8);
            push_sid(&mut out, id);
            push_str(&mut out, reason.as_str());
            proof {
                assert(out@ =~= enc_envelope(e@));
            }
        },
        WireEnvelope::StreamData { id, data } => {
            out.push(4u8);
            push_sid(&mut out, id);
            push_bytes(&mut out, data);
            proof {
                assert(out@ =~= enc_envelope(e@));
            }
        },
        WireEnvelope::StreamClose { id, reason } => {
            out.push(5u8);
            push_sid(&mut out, id);
            push_str(&mut out, reason.as_str());
            proof {
                assert(out@ =~= enc_envelope(e@));
            }
        },
        WireEnvelope::ContextAnnounce { peer, data, clock } => {
            out.push(6u8);
            push_str(&mut out, peer.as_text().as_str());
            push_json(&mut out, data);
            push_u64(&mut out, clock.len() as u64);
            let ghost mid = out@;
            let ghost pairs = clock_pairs_view(clock@);
            let mut i: usize = 0;
            while i < clock.len()
                invariant
                    i <= clock@.len(),
                    pairs.len() == clock@.len(),
                    forall|j: int|
                        0 <= j < clock@.len() ==> pairs[j] == (#[trigger] clock@[j].0@, clock@[j].1),
                    out@ == mid + enc_clock_entries(pairs.take(i as int)),
                decreases clock@.len() - i,
            {
                push_str(&mut out, clock[i].0.as_str());
                push_u64(&mut out, clock[i].1);
                proof {
                    lemma_enc_clock_snoc(
                        pairs.take(i as int),
                        pairs[i as int].0,
                        pairs[i as int].1,
                    );
                    assert(pairs.take(i as int).push((pairs[i as int].0, pairs[i as int].1))
                        =~= pairs.take(i as int + 1));
                    assert((pairs[i as int].0, pairs[i as int].1) == pairs[i as int]);
                }
                i += 1;
            }
            proof {
                assert(pairs.take(clock@.len() as int) =~= pairs);
                assert(out@ =~= enc_envelope(e@));
            }
        },
    }
    out
}


/// Read an integer.
fn read_u64(b: &Vec<u8>, p: usize) -> (r: Option<(u64, usize)>)
    ensures
        (match r {
            Some((n, p2)) => dec_u64(b@, p as int) == Some((n, p2 as int)) && p < p2 <= b@.len(),
            None => dec_u64(b@, p as int) is None,
        }),
{
    if b.len() >= 8 && p <= b.len() - 8 {
        let s = vstd::slice::slice_subrange(b.as_slice(), p, p + 8);
        let n = vstd::bytes::u64_from_le_bytes(s);
        Some((n, p + 8))
    } else {
        None
    }
}

/// Read a character.
fn read_char(b: &Vec<u8>, p: usize) -> (r: Option<(char, usize)>)
    ensures
        (match r {
            Some((c, p2)) => dec_char(b@, p as int) == Some((c, p2 as int)) && p < p2 <= b@.len(),
            None => dec_char(b@, p as int) is None,
        }),
{
    if b.len() >= 4 && p <= b.len() - 4 {
        let s = vstd::slice::slice_subrange(b.as_slice(), p, p + 4);
        let v = vstd::bytes::u32_from_le_bytes(s);
        match crate::text::char_from_u32(v) {
            Some(c) => {
                proof {
                    vstd::utf8::char_u32_cast(c, v);
                }
                Some((c, p + 4))
            },
            None => None,
        }
    } else {
        None
    }
}

/// Read `n` characters into `acc`.
fn read_chars_into(b: &Vec<u8>, p: usize, n: u64, acc: &mut String) -> (r: Option<usize>)
    requires
        p <= b@.len(),
    ensures
        (match r {
            Some(p2) => {
                &&& dec_chars(b@, p as int, n as nat) matches Some((s, pe)) && pe == p2 as int
                    && final(acc)@ == old(acc)@ + s
                &&& p <= p2 <= b@.len()
            },
            None => dec_chars(b@, p as int, n as nat) is None,
        }),
    decreases n,
{
    if n == 0 {
        proof {
            assert(old(acc)@ + Seq::<char>::empty() =~= old(acc)@);
        }
        Some(p)
    } else {
        match read_char(b, p) {
            Some((c, p1)) => {
                crate::text::push_char(acc, c);
                let ghost mid = acc@;
                match read_chars_into(b, p1, n - 1, acc) {
                    Some(p2) => {
                        proof {
                            let (s_rest, pe) = dec_chars(b@, p1 as int, (n - 1) as nat)->Some_0;
                            assert(acc@ =~= old(acc)@ + (seq![c] + s_rest));
                        }
                        Some(p2)
                    },
                    None => None,
                }
            },
            None => None,
        }
    }
}

/// Read a text.
fn read_str(b: &Vec<u8>, p: usize) -> (r: Option<(String, usize)>)
    ensures
        (match r {
            Some((s, p2)) => dec_str(b@, p as int) == Some((s@, p2 as int)) && p < p2 <= b@.len(),
            None => dec_str(b@, p as int) is None,
        }),
{
    match read_u64(b, p) {
        Some((n, p1)) => {
            let mut acc = String::new();
            match read_chars_into(b, p1, n, &mut acc) {
                Some(p2) => {
                    proof {
                        let (s_dec, pe) = dec_chars(b@, p1 as int, n as nat)->Some_0;
                        assert(acc@ =~= s_dec);
                    }
                    Some((acc, p2))
                },
                None => None,
            }
        },
        None => None,
    }
}

/// Read a payload.
fn read_bytes(b: &Vec<u8>, p: usize) -> (r: Option<(Vec<u8>, usize)>)
    ensures
        (match r {
            Some((d, p2)) => dec_bytes(b@, p as int) == Some((d@, p2 as int)) && p < p2
                <= b@.len(),
            None => dec_bytes(b@, p as int) is None,
        }),
{
    match read_u64(b, p) {
        Some((n, p1)) => {
            if n <= (b.len() - p1) as u64 {
                let end = p1 + (n as usize);
                let s = vstd::slice::slice_subrange(b.as_slice(), p1, end);
                let d = vstd::slice::slice_to_vec(s);
                Some((d, end))
            } else {
                None
            }
        },
        None => None,
    }
}

/// Read a document.
#[verifier::loop_isolation(false)]
pub fn read_json(b: &Vec<u8>, p: usize) -> (r: Option<(JsonValue, usize)>)
    ensures
        (match r {
            Some((v, p2)) => dec_json(b@, p as int) == Some((v@, p2 as int)) && p < p2
                <= b@.len(),
            None => dec_json(b@, p as int) is None,
        }),
    decreases b@.len() - p, 0int,
{
    if p >= b.len() {
        return None;
    }
    let tag = b[p];
    if tag == 0 {
        Some((JsonValue::Null, p + 1))
    } else if tag == 1 {
        if b.len() - p >= 2 {
            Some((JsonValue::Bool(b[p + 1] != 0), p + 2))
        } else {
            None
        }
    } else if tag == 2 {
        if b.len() - p >= 2 {
            let neg = b[p + 1] != 0;
            match read_u64(b, p + 2) {
                Some((n, p1)) => {
                    if neg {
                        if n > 9223372036854775808u64 {
                            None
                        } else if n == 9223372036854775808u64 {
                            Some((JsonValue::Int(i64::MIN), p1))
                        } else {
                            Some((JsonValue::Int(-(n as i64)), p1))
                        }
                    } else {
                        if n > 9223372036854775807u64 {
                            None
                        } else {
                            Some((JsonValue::Int(n as i64), p1))
                        }
                    }
                },
                None => None,
            }
        } else {
            None
        }
    } else if tag == 3 {
        match read_str(b, p + 1) {
            Some((s, p1)) => Some((JsonValue::Text(s), p1)),
            None => None,
        }
    } else if tag == 4 {
        match read_u64(b, p + 1) {
            Some((n, p1)) => {
                let mut out: Vec<JsonValue> = Vec::new();
                match read_arr_into(b, p1, n, &mut out) {
                    Some(p2) => {
                        let r = JsonValue::Arr(out);
                        proof {
                            let (xs, pe) = dec_arr(b@, p1 as int, n as nat)->Some_0;
                            assert forall|j: int| 0 <= j < xs.len() implies r@->Arr_0[j]
                                == xs[j] by {
                                assert(r@->Arr_0[j] == out@[j]@);
                                assert(out@[0 + j]@ == xs[j]);
                            }
                            assert(r@->Arr_0 =~= xs);
                        }
                        Some((r, p2))
                    },
                    None => None,
                }
            },
            None => None,
        }
    } else if tag == 5 {
        match read_u64(b, p + 1) {
            Some((n, p1)) => {
                let mut out: Vec<(String, JsonValue)> = Vec::new();
                match read_obj_into(b, p1, n, &mut out) {
                    Some(p2) => {
                        let r = JsonValue::Obj(out);
                        proof {
                            let (es, pe) = dec_obj(b@, p1 as int, n as nat)->Some_0;
                            assert forall|j: int| 0 <= j < es.len() implies r@->Obj_0[j]
                                == es[j] by {
                                assert(r@->Obj_0[j] == (out@[j].0@, out@[j].1@));
                                assert((out@[0 + j].0@, out@[0 + j].1@) == es[j]);
                            }
                            assert(r@->Obj_0 =~= es);
                        }
                        Some((r, p2))
                    },
                    None => None,
                }
            },
            None => None,
        }
    } else {
        None
    }
}

/// Read `n` array elements into `out`.
#[verifier::loop_isolation(false)]
fn read_arr_into(b: &Vec<u8>, p: usize, n: u64, out: &mut Vec<JsonValue>) -> (r: Option<usize>)
    requires
        p <= b@.len(),
    ensures
        (match r {
            Some(p2) => {
                &&& dec_arr(b@, p as int, n as nat) matches Some((xs, pe)) && pe == p2 as int
                    && final(out)@.len() == old(out)@.len() + xs.len() && (forall|j: int|
                    0 <= j < old(out)@.len() ==> final(out)@[j] == #[trigger] old(out)@[j]) && (
                forall|j: int|
                    0 <= j < xs.len() ==> #[trigger] final(out)@[old(out)@.len() + j]@ == xs[j])
                &&& p <= p2 <= b@.len()
            },
            None => dec_arr(b@, p as int, n as nat) is None,
        }),
    decreases b@.len() - p, 1int,
{
    if n == 0 {
        proof {
            assert(dec_arr(b@, p as int, 0) == Some((Seq::<Jv>::empty(), p as int)));
        }
        Some(p)
    } else {
        match read_json(b, p) {
            Some((v, p1)) => {
                let ghost gv = v@;
                out.push(v);
                let ghost mid = out@;
                match read_arr_into(b, p1, n - 1, out) {
                    Some(p2) => {
                        proof {
                            let (xs_rest, pe) = dec_arr(b@, p1 as int, (n - 1) as nat)->Some_0;
                            let whole = seq![gv] + xs_rest;
                            assert(dec_arr(b@, p as int, n as nat) == Some(
                                (whole, pe),
                            ));
                            assert forall|j: int| 0 <= j < old(out)@.len() implies out@[j]
                                == old(out)@[j] by {
                                assert(out@[j] == mid[j]);
                            }
                            assert forall|j: int| 0 <= j < whole.len() implies #[trigger] out@[old(
                                out,
                            )@.len() + j]@ == whole[j] by {
                                if j == 0 {
                                    assert(out@[old(out)@.len() as int] == mid[old(out)@.len() as int]);
                                    assert(mid[old(out)@.len() as int]@ == gv);
                                } else {
                                    assert(out@[mid.len() as int + (j - 1)]@ == xs_rest[j - 1]);
                                }
                            }
                        }
                        Some(p2)
                    },
                    None => None,
                }
            },
            None => None,
        }
    }
}

/// Read `n` object entries into `out`.
#[verifier::loop_isolation(false)]
fn read_obj_into(b: &Vec<u8>, p: usize, n: u64, out: &mut Vec<(String, JsonValue)>) -> (r:
    Option<usize>)
    requires
        p <= b@.len(),
    ensures
        (match r {
            Some(p2) => {
                &&& dec_obj(b@, p as int, n as nat) matches Some((es, pe)) && pe == p2 as int
                    && final(out)@.len() == old(out)@.len() + es.len() && (forall|j: int|
                    0 <= j < old(out)@.len() ==> final(out)@[j] == #[trigger] old(out)@[j]) && (
                forall|j: int|
                    0 <= j < es.len() ==> (#[trigger] final(out)@[old(out)@.len() + j].0@,
                    final(out)@[old(out)@.len() + j].1@) == es[j])
                &&& p <= p2 <= b@.len()
            },
            None => dec_obj(b@, p as int, n as nat) is None,
        }),
    decreases b@.len() - p, 2int,
{
    if n == 0 {
        proof {
            assert(dec_obj(b@, p as int, 0) == Some((Seq::<(Seq<char>, Jv)>::empty(), p as int)));
        }
        Some(p)
    } else {
        match read_str(b, p) {
            Some((k, pk)) => {
                match read_json(b, pk) {
                    Some((v, pv)) => {
                        let ghost gk = k@;
                        let ghost gv = v@;
                        out.push((k, v));
                        let ghost mid = out@;
                        match read_obj_into(b, pv, n - 1, out) {
                            Some(p2) => {
                                proof {
                                    let (es_rest, pe) = dec_obj(
                                        b@,
                                        pv as int,
                                        (n - 1) as nat,
                                    )->Some_0;
                                    let whole = seq![(gk, gv)] + es_rest;
                                    assert(dec_obj(b@, p as int, n as nat) == Some((whole, pe)));
                                    assert forall|j: int|
                                        0 <= j < old(out)@.len() implies out@[j] == old(
                                        out,
                                    )@[j] by {
                                        assert(out@[j] == mid[j]);
                                    }
                                    assert forall|j: int|
                                        0 <= j < whole.len() implies (#[trigger] out@[old(
                                        out,
                                    )@.len() + j].0@, out@[old(out)@.len() + j].1@) == whole[j] by {
                                        if j == 0 {
                                            assert(out@[old(out)@.len() as int] == mid[old(out)@.len() as int]);
                                        } else {
                                            assert((out@[mid.len() as int + (j - 1)].0@, out@[mid.len() as int + (
                                            j - 1)].1@) == es_rest[j - 1]);
                                        }
                                    }
                                }
                                Some(p2)
                            },
                            None => None,
                        }
                    },
                    None => None,
                }
            },
            None => None,
        }
    }
}

/// Read a stream id.
fn read_sid(b: &Vec<u8>, p: usize) -> (r: Option<(StreamId, usize)>)
    ensures
        (match r {
            Some((id, p2)) => dec_sid(b@, p as int) == Some((id@, p2 as int)) && p < p2
                <= b@.len(),
            None => dec_sid(b@, p as int) is None,
        }),
{
    match read_str(b, p) {
        Some((s, p1)) => match read_u64(b, p1) {
            Some((c, p2)) => match read_u64(b, p2) {
                Some((x, p3)) => Some(
                    (StreamId { initiator: crate::peer::PeerId::new(s), counter: c, nonce: x }, p3),
                ),
                None => None,
            },
            None => None,
        },
        None => None,
    }
}

/// Read `n` clock entries into `out`.
fn read_clock_into(b: &Vec<u8>, p: usize, n: u64, out: &mut Vec<(String, u64)>) -> (r: Option<
    usize,
>)
    requires
        p <= b@.len(),
    ensures
        (match r {
            Some(p2) => {
                &&& dec_clock_entries(b@, p as int, n as nat) matches Some((c, pe)) && pe
                    == p2 as int && final(out)@.len() == old(out)@.len() + c.len() && (forall|
                    j: int,
                |
                    0 <= j < old(out)@.len() ==> final(out)@[j] == #[trigger] old(out)@[j]) && (
                forall|j: int|
                    0 <= j < c.len() ==> (#[trigger] final(out)@[old(out)@.len() + j].0@,
                    final(out)@[old(out)@.len() + j].1) == c[j])
                &&& p2 <= b@.len()
            },
            None => dec_clock_entries(b@, p as int, n as nat) is None,
        }),
    decreases n,
{
    if n == 0 {
        proof {
            assert(dec_clock_entries(b@, p as int, 0) == Some(
                (Seq::<(Seq<char>, u64)>::empty(), p as int),
            ));
        }
        Some(p)
    } else {
        match read_str(b, p) {
            Some((k, pk)) => match read_u64(b, pk) {
                Some((v, pv)) => {
                    let ghost gk = k@;
                    out.push((k, v));
                    let ghost mid = out@;
                    match read_clock_into(b, pv, n - 1, out) {
                        Some(p2) => {
                            proof {
                                let (c_rest, pe) = dec_clock_entries(
                                    b@,
                                    pv as int,
                                    (n - 1) as nat,
                                )->Some_0;
                                let whole = seq![(gk, v)] + c_rest;
                                assert(dec_clock_entries(b@, p as int, n as nat) == Some(
                                    (whole, pe),
                                ));
                                assert forall|j: int| 0 <= j < old(out)@.len() implies out@[j]
                                    == old(out)@[j] by {
                                    assert(out@[j] == mid[j]);
                                }
                                assert forall|j: int|
                                    0 <= j < whole.len() implies (#[trigger] out@[old(
                                    out,
                                )@.len() + j].0@, out@[old(out)@.len() + j].1) == whole[j] by {
                                    if j == 0 {
                                        assert(out@[old(out)@.len() as int] == mid[old(out)@.len() as int]);
                                    } else {
                                        assert((out@[mid.len() as int + (j - 1)].0@, out@[mid.len() as int + (j
                                            - 1)].1) == c_rest[j - 1]);
                                    }
                                }
                            }
                            Some(p2)
                        },
                        None => None,
                    }
                },
                None => None,
            },
            None => None,
        }
    }
}

/// Decode one envelope from the wire; trailing bytes or a malformed
/// frame give nothing.
#[verifier::loop_isolation(false)]
pub fn decode_envelope(b: &Vec<u8>) -> (r: Option<WireEnvelope>)
    ensures
        (match r {
            Some(e) => dec_envelope(b@) == Some(e@),
            None => dec_envelope(b@) is None,
        }),
{
    if b.len() < 1 {
        return None;
    }
    let tag = b[0];
    if tag == 1 {
        match read_sid(b, 1) {
            Some((id, p1)) => match read_str(b, p1) {
                Some((s, p2)) => if p2 == b.len() {
                    Some(WireEnvelope::StreamOpen { id, reason: s })
                } else {
                    None
                },
                None => None,
            },
            None => None,
        }
    } else if tag == 2 {
        match read_sid(b, 1) {
            Some((id, p1)) => if p1 == b.len() {
                Some(WireEnvelope::StreamAccept { id })
            } else {
                None
            },
            None => None,
        }
    } else if tag == 3 {
        match read_sid(b, 1) {
            Some((id, p1)) => match read_str(b, p1) {
                Some((s, p2)) => if p2 == b.len() {
                    Some(WireEnvelope::StreamReject { id, reason: s })
                } else {
                    None
                },
                None => None,
            },
            None => None,
        }
    } else if tag == 4 {
        match read_sid(b, 1) {
            Some((id, p1)) => match read_bytes(b, p1) {
                Some((d, p2)) => if p2 == b.len() {
                    Some(WireEnvelope::StreamData { id, data: d })
                } else {
                    None
                },
                None => None,
            },
            None => None,
        }
    } else if tag == 5 {
        match read_sid(b, 1) {
            Some((id, p1)) => match read_str(b, p1) {
                Some((s, p2)) => if p2 == b.len() {
                    Some(WireEnvelope::StreamClose { id, reason: s })
                } else {
                    None
                },
                None => None,
            },
            None => None,
        }
    } else if tag == 6 {
        match read_str(b, 1) {
            Some((peer, p1)) => match read_json(b, p1) {
                Some((data, p2)) => match read_u64(b, p2) {
                    Some((n, p3)) => {
                        let mut pairs: Vec<(String, u64)> = Vec::new();
                        match read_clock_into(b, p3, n, &mut pairs) {
                            Some(p4) => if p4 == b.len() {
                                let r = WireEnvelope::ContextAnnounce {
                                    peer: crate::peer::PeerId::new(peer),
                                    data,
                                    clock: pairs,
                                };
                                proof {
                                    let (c, pe) = dec_clock_entries(
                                        b@,
                                        p3 as int,
                                        n as nat,
                                    )->Some_0;
                                    assert forall|j: int|
                                        0 <= j < c.len() implies clock_pairs_view(pairs@)[j]
                                        == c[j] by {
                                        assert(clock_pairs_view(pairs@)[j] == (pairs@[j].0@,
                                        pairs@[j].1));
                                        assert((pairs@[0 + j].0@, pairs@[0 + j].1) == c[j]);
                                    }
                                    assert(clock_pairs_view(pairs@) =~= c);
                                }
                                Some(r)
                            } else {
                                None
                            },
                            None => None,
                        }
                    },
                    None => None,
                },
                None => None,
            },
            None => None,
        }
    } else {
        None
    }
}

} // verus!
