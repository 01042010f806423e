//! The binary codec: values, rows and pages are laid out as
//! self-describing byte sequences with MessagePack-style tags and
//! fixed-width big-endian headers.
//!
//! Every entity has a specification-level encoding (`enc_value`, `enc_row`,
//! `enc_page`); the executable encoders produce exactly those bytes, and the
//! decoders are proved to parse them back: whenever the bytes at a position
//! hold the encoding of a value, decoding returns that value and consumes
//! exactly its encoding.
use vstd::prelude::*;

use crate::value::{TableValue, ValueModel, DataType};
use crate::schema::{Column, ColumnModel, TableSerializationSize, row_matches_columns};

verus! {

broadcast use vstd::utf8::char_u32_cast;

/// Tag byte for an absent value.
pub const TAG_NIL: u8 = 0xc0;

/// Tag byte for boolean false.
pub const TAG_FALSE: u8 = 0xc2;

/// Tag byte for boolean true.
pub const TAG_TRUE: u8 = 0xc3;

/// Tag byte for a 32-bit float, stored as its bit pattern.
pub const TAG_REAL: u8 = 0xca;

/// Tag byte for a 32-bit signed integer.
pub const TAG_INT: u8 = 0xd2;

/// Tag byte for a character string with a 32-bit length.
pub const TAG_STR: u8 = 0xdb;

/// Tag byte for an array with a 32-bit element count.
pub const TAG_ARRAY: u8 = 0xdd;

/// Big-endian bytes of a 32-bit word.
pub open spec fn be4(x: u32) -> Seq<u8> {
    seq![(x >> 24) as u8, (x >> 16) as u8, (x >> 8) as u8, x as u8]
}

/// The 32-bit word with the given big-endian bytes.
pub open spec fn be4_val(b0: u8, b1: u8, b2: u8, b3: u8) -> u32 {
    (((b0 as u32) << 24) | ((b1 as u32) << 16) | ((b2 as u32) << 8) | (b3 as u32)) as u32
}

/// Reading back the big-endian bytes of a word yields the word, and the
/// bytes determine it.
pub proof fn lemma_be4_inverse(x: u32)
    ensures
        be4_val((x >> 24) as u8, (x >> 16) as u8, (x >> 8) as u8, x as u8) == x,
{
    let c0 = (x >> 24) as u8;
    let c1 = (x >> 16) as u8;
    let c2 = (x >> 8) as u8;
    let c3 = x as u8;
    lemma_be4_assemble(x, c0, c1, c2, c3);
}

/// Bit-level fact: assembling the four big-endian bytes of `x` gives `x`
/// back, and conversely the bytes of an assembled word are its parts.
proof fn lemma_be4_assemble(x: u32, c0: u8, c1: u8, c2: u8, c3: u8)
    requires
        c0 == (x >> 24) as u8,
        c1 == (x >> 16) as u8,
        c2 == (x >> 8) as u8,
        c3 == x as u8,
    ensures
        (((c0 as u32) << 24) | ((c1 as u32) << 16) | ((c2 as u32) << 8) | (c3 as u32)) as u32 == x,
{
    assert((((((x >> 24) as u8) as u32) << 24) | ((((x >> 16) as u8) as u32) << 16) | ((((x >> 8) as u8) as u32) << 8) | (((x as u8)) as u32)) as u32 == x) by (bit_vector);
}

/// Bit-level fact: the big-endian bytes of the word assembled from four
/// bytes are those bytes.
proof fn lemma_be4_disassemble(x: u32, c0: u8, c1: u8, c2: u8, c3: u8)
    requires
        x == (((c0 as u32) << 24) | ((c1 as u32) << 16) | ((c2 as u32) << 8) | (c3 as u32)) as u32,
    ensures
        (x >> 24) as u8 == c0,
        (x >> 16) as u8 == c1,
        (x >> 8) as u8 == c2,
        x as u8 == c3,
{
    let y = (((c0 as u32) << 24) | ((c1 as u32) << 16) | ((c2 as u32) << 8) | (c3 as u32)) as u32;
    assert((y >> 24) as u8 == c0 && (y >> 16) as u8 == c1 && (y >> 8) as u8 == c2 && y as u8 == c3) by (bit_vector)
        requires
            y == (((c0 as u32) << 24) | ((c1 as u32) << 16) | ((c2 as u32) << 8) | (c3 as u32)) as u32,
    ;
}

/// The bits of an `i32` read back as the same integer, and conversely.
pub proof fn lemma_i32_bits_roundtrip(x: u32)
    ensures
        (x as i32) as u32 == x,
{
    assert((x as i32) as u32 == x) by (bit_vector);
}

/// The two's-complement bits determine the integer.
pub proof fn lemma_u32_of_i32_inverse(x: u32, i: i32)
    requires
        x == i as u32,
    ensures
        x as i32 == i,
{
    assert((i as u32) as i32 == i) by (bit_vector);
}

/// A value model the codec can represent: machine-range numerics and a
/// string whose byte encoding carries a 32-bit length.
pub open spec fn valid_model(v: ValueModel) -> bool {
    match v {
        ValueModel::Boolean(_) => true,
        ValueModel::Char(s) => vstd::utf8::encode_utf8(s).len() <= u32::MAX,
        ValueModel::Int(_) => true,
        ValueModel::Real(_) => true,
        ValueModel::Null => true,
    }
}

/// Byte encoding of one value.
pub open spec fn enc_value(v: ValueModel) -> Seq<u8> {
    match v {
        ValueModel::Null => seq![TAG_NIL],
        ValueModel::Boolean(b) => if b {
            seq![TAG_TRUE]
        } else {
            seq![TAG_FALSE]
        },
        ValueModel::Int(i) => seq![TAG_INT] + be4(i as u32),
        ValueModel::Real(r) => seq![TAG_REAL] + be4(r),
        ValueModel::Char(s) => seq![TAG_STR] + be4(vstd::utf8::encode_utf8(s).len() as u32)
            + vstd::utf8::encode_utf8(s),
    }
}

/// The encoding of `e` stands in `b` at position `pos`.
pub open spec fn is_enc_at(b: Seq<u8>, pos: int, e: Seq<u8>) -> bool {
    &&& 0 <= pos
    &&& pos + e.len() <= b.len()
    &&& b.subrange(pos, pos + e.len()) == e
}

/// The decoder returned exactly the model `m`, consuming its encoding.
pub open spec fn decoded_value(r: Option<(TableValue, usize)>, pos: int, m: ValueModel) -> bool {
    match r {
        Some((v, end)) => v@ == m && end == pos + enc_value(m).len(),
        None => false,
    }
}

/// Appends the big-endian bytes of `x`.
pub fn push_be4(out: &mut Vec<u8>, x: u32)
    ensures
        final(out)@ == old(out)@ + be4(x),
{
    out.push((x >> 24) as u8);
    out.push((x >> 16) as u8);
    out.push((x >> 8) as u8);
    out.push(x as u8);
    assert(out@ =~= old(out)@ + be4(x));
}

/// Reads a big-endian 32-bit word.
pub fn read_be4(bytes: &Vec<u8>, pos: usize) -> (r: Option<(u32, usize)>)
    ensures
        match r {
            Some((x, end)) => {
                &&& pos + 4 <= bytes@.len()
                &&& end == pos + 4
                &&& bytes@.subrange(pos as int, end as int) == be4(x)
            },
            None => pos + 4 > bytes@.len(),
        },
        forall|y: u32| is_enc_at(bytes@, pos as int, be4(y)) ==> (r matches Some((x, _)) && x == y),
{
    if bytes.len() < 4 || pos > bytes.len() - 4 {
        return None;
    }
    let b0 = bytes[pos];
    let b1 = bytes[pos + 1];
    let b2 = bytes[pos + 2];
    let b3 = bytes[pos + 3];
    let x = ((b0 as u32) << 24) | ((b1 as u32) << 16) | ((b2 as u32) << 8) | (b3 as u32);
    proof {
        assert(x == be4_val(b0, b1, b2, b3));
        lemma_be4_disassemble(x, b0, b1, b2, b3);
        assert(bytes@.subrange(pos as int, pos + 4) =~= be4(x));
        assert forall|y: u32| is_enc_at(bytes@, pos as int, be4(y)) implies x == y by {
            assert(be4(y)[0] == b0 && be4(y)[1] == b1 && be4(y)[2] == b2 && be4(y)[3] == b3);
            lemma_be4_inverse(y);
        }
    }
    Some((x, pos + 4))
}

/// Relies on `String::from_utf8`: it succeeds exactly on valid UTF-8 and
/// decodes the bytes to their character sequence.
#[verifier::external_body]
fn string_from_utf8(bytes: Vec<u8>) -> (r: Option<String>)
    ensures
        match r {
            Some(s) => vstd::utf8::valid_utf8(bytes@) && s@ == vstd::utf8::decode_utf8(bytes@),
            None => !vstd::utf8::valid_utf8(bytes@),
        },
{
    match String::from_utf8(bytes) {
        Ok(s) => Some(s),
        Err(_) => None,
    }
}

/// Copies `bytes[pos .. pos + n]` into a fresh vector.
pub fn copy_range(bytes: &Vec<u8>, pos: usize, n: usize) -> (out: Vec<u8>)
    requires
        pos + n <= bytes@.len(),
    ensures
        out@ == bytes@.subrange(pos as int, pos + n),
{
    let blen = bytes.len();
    let mut out: Vec<u8> = Vec::new();
    let mut i: usize = 0;
    while i < n
        invariant
            i <= n,
            pos + n <= blen,
            blen == bytes@.len(),
            out@ =~= bytes@.subrange(pos as int, pos + i),
        decreases n - i,
    {
        out.push(bytes[pos + i]);
        assert(out@ =~= bytes@.subrange(pos as int, pos + i + 1));
        i = i + 1;
    }
    assert(out@ =~= bytes@.subrange(pos as int, pos + n));
    out
}

/// Appends the encoding of one value.
pub fn encode_value_into(out: &mut Vec<u8>, v: &TableValue)
    requires
        valid_model(v@),
    ensures
        final(out)@ == old(out)@ + enc_value(v@),
{
    match v {
        TableValue::Null => {
            out.push(TAG_NIL);
            assert(out@ =~= old(out)@ + enc_value(v@));
        },
        TableValue::Boolean(b) => {
            if *b {
                out.push(TAG_TRUE);
            } else {
                out.push(TAG_FALSE);
            }
            assert(out@ =~= old(out)@ + enc_value(v@));
        },
        TableValue::Int(i) => {
            out.push(TAG_INT);
            push_be4(out, *i as u32);
            assert(out@ =~= old(out)@ + enc_value(v@));
        },
        TableValue::Real(r) => {
            out.push(TAG_REAL);
            push_be4(out, *r);
            assert(out@ =~= old(out)@ + enc_value(v@));
        },
        TableValue::Char(s) => {
            out.push(TAG_STR);
            let sb = s.as_str().as_bytes();
            let len = sb.len();
            push_be4(out, len as u32);
            let mut i: usize = 0;
            let ghost mid = out@;
            while i < len
                invariant
                    i <= len,
                    len == sb@.len(),
                    sb@ == vstd::utf8::encode_utf8(s@),
                    out@ =~= mid + sb@.subrange(0, i as int),
                decreases len - i,
            {
                out.push(sb[i]);
                assert(out@ =~= mid + sb@.subrange(0, i + 1));
                i = i + 1;
            }
            assert(sb@.subrange(0, len as int) =~= sb@);
            assert(out@ =~= old(out)@ + enc_value(v@));
        },
    }
}

/// Decodes one value. Whenever the bytes at `pos` hold the encoding of a
/// codec-valid model, the decoder returns exactly that value; whatever it
/// returns, the consumed bytes are the encoding of the result.
#[verifier::rlimit(100)]
pub fn decode_value(bytes: &Vec<u8>, pos: usize) -> (r: Option<(TableValue, usize)>)
    ensures
        r matches Some((v, end)) ==> {
            &&& pos < end <= bytes@.len()
            &&& valid_model(v@)
            &&& bytes@.subrange(pos as int, end as int) == enc_value(v@)
        },
        forall|m: ValueModel|
            valid_model(m) && is_enc_at(bytes@, pos as int, enc_value(m)) ==> decoded_value(
                r,
                pos as int,
                m,
            ),
{
    if pos >= bytes.len() {
        proof {
            assert forall|m: ValueModel|
                valid_model(m) && is_enc_at(bytes@, pos as int, enc_value(m)) implies false by {
                assert(enc_value(m).len() >= 1);
            }
        }
        return None;
    }
    let tag = bytes[pos];
    if tag == TAG_NIL {
        proof {
            assert(bytes@.subrange(pos as int, pos + 1 as int) =~= enc_value(ValueModel::Null));
            assert forall|m: ValueModel|
                valid_model(m) && is_enc_at(bytes@, pos as int, enc_value(m)) implies decoded_value(
                Some((TableValue::Null, (pos + 1) as usize)),
                pos as int,
                m,
            ) by {
                lemma_enc_tag(m, bytes@, pos as int);
            }
        }
        Some((TableValue::Null, pos + 1))
    } else if tag == TAG_FALSE {
        proof {
            assert(bytes@.subrange(pos as int, pos + 1 as int) =~= enc_value(
                ValueModel::Boolean(false),
            ));
            assert forall|m: ValueModel|
                valid_model(m) && is_enc_at(bytes@, pos as int, enc_value(m)) implies decoded_value(
                Some((TableValue::Boolean(false), (pos + 1) as usize)),
                pos as int,
                m,
            ) by {
                lemma_enc_tag(m, bytes@, pos as int);
            }
        }
        Some((TableValue::Boolean(false), pos + 1))
    } else if tag == TAG_TRUE {
        proof {
            assert(bytes@.subrange(pos as int, pos + 1 as int) =~= enc_value(
                ValueModel::Boolean(true),
            ));
            assert forall|m: ValueModel|
                valid_model(m) && is_enc_at(bytes@, pos as int, enc_value(m)) implies decoded_value(
                Some((TableValue::Boolean(true), (pos + 1) as usize)),
                pos as int,
                m,
            ) by {
                lemma_enc_tag(m, bytes@, pos as int);
            }
        }
        Some((TableValue::Boolean(true), pos + 1))
    } else if tag == TAG_INT {
        match read_be4(bytes, pos + 1) {
            None => {
                assert forall|m: ValueModel|
                    valid_model(m) && is_enc_at(bytes@, pos as int, enc_value(m)) implies false by {
                    lemma_enc_tag(m, bytes@, pos as int);
                }
                None
            },
            Some((x, end)) => {
                let v = TableValue::Int(x as i32);
                proof {
                    lemma_i32_bits_roundtrip(x);
                    assert(bytes@.subrange(pos as int, end as int) =~= enc_value(v@));
                    assert forall|m: ValueModel|
                        valid_model(m) && is_enc_at(bytes@, pos as int, enc_value(m)) implies
                        decoded_value(Some((v, end)), pos as int, m) by {
                        lemma_enc_tag(m, bytes@, pos as int);
                        match m {
                            ValueModel::Int(i) => {
                                assert(is_enc_at(bytes@, pos + 1 as int, be4(i as u32))) by {
                                    assert(enc_value(m).subrange(1, 5) =~= be4(i as u32));
                                    assert(bytes@.subrange(pos + 1 as int, pos + 5 as int)
                                        =~= enc_value(m).subrange(1, 5));
                                }
                                lemma_u32_of_i32_inverse(x, i);
                            },
                            _ => {},
                        }
                    }
                }
                Some((v, end))
            },
        }
    } else if tag == TAG_REAL {
        match read_be4(bytes, pos + 1) {
            None => {
                assert forall|m: ValueModel|
                    valid_model(m) && is_enc_at(bytes@, pos as int, enc_value(m)) implies false by {
                    lemma_enc_tag(m, bytes@, pos as int);
                }
                None
            },
            Some((x, end)) => {
                let v = TableValue::Real(x);
                proof {
                    assert(bytes@.subrange(pos as int, end as int) =~= enc_value(v@));
                    assert forall|m: ValueModel|
                        valid_model(m) && is_enc_at(bytes@, pos as int, enc_value(m)) implies
                        decoded_value(Some((v, end)), pos as int, m) by {
                        lemma_enc_tag(m, bytes@, pos as int);
                        match m {
                            ValueModel::Real(rr) => {
                                assert(is_enc_at(bytes@, pos + 1 as int, be4(rr))) by {
                                    assert(enc_value(m).subrange(1, 5) =~= be4(rr));
                                    assert(bytes@.subrange(pos + 1 as int, pos + 5 as int)
                                        =~= enc_value(m).subrange(1, 5));
                                }
                            },
                            _ => {},
                        }
                    }
                }
                Some((v, end))
            },
        }
    } else if tag == TAG_STR {
        match read_be4(bytes, pos + 1) {
            None => {
                assert forall|m: ValueModel|
                    valid_model(m) && is_enc_at(bytes@, pos as int, enc_value(m)) implies false by {
                    lemma_enc_tag(m, bytes@, pos as int);
                }
                None
            },
            Some((len32, body)) => {
                let len = len32 as usize;
                if len > bytes.len() || body > bytes.len() - len {
                    proof {
                        assert forall|m: ValueModel|
                            valid_model(m) && is_enc_at(bytes@, pos as int, enc_value(m)) implies
                            false by {
                            lemma_enc_tag(m, bytes@, pos as int);
                            match m {
                                ValueModel::Char(s) => {
                                    lemma_enc_char_parts(m, bytes@, pos as int);
                                },
                                _ => {},
                            }
                        }
                    }
                    return None;
                }
                let sub = copy_range(bytes, body, len);
                match string_from_utf8(sub) {
                    None => {
                        proof {
                            assert forall|m: ValueModel|
                                valid_model(m) && is_enc_at(bytes@, pos as int, enc_value(m))
                                implies false by {
                                lemma_enc_tag(m, bytes@, pos as int);
                                match m {
                                    ValueModel::Char(s) => {
                                        lemma_enc_char_parts(m, bytes@, pos as int);
                                        vstd::utf8::encode_utf8_valid_utf8(s);
                                    },
                                    _ => {},
                                }
                            }
                        }
                        None
                    },
                    Some(st) => {
                        let v = TableValue::Char(st);
                        let end = body + len;
                        proof {
                            let subv = bytes@.subrange(body as int, body + len);
                            vstd::utf8::decode_utf8_encode_utf8(subv);
                            assert(vstd::utf8::encode_utf8(st@) == subv);
                            assert(bytes@.subrange(pos as int, end as int) =~= enc_value(v@));
                            assert forall|m: ValueModel|
                                valid_model(m) && is_enc_at(bytes@, pos as int, enc_value(m))
                                implies decoded_value(Some((v, end)), pos as int, m) by {
                                lemma_enc_tag(m, bytes@, pos as int);
                                match m {
                                    ValueModel::Char(s) => {
                                        lemma_enc_char_parts(m, bytes@, pos as int);
                                        vstd::utf8::encode_utf8_decode_utf8(s);
                                    },
                                    _ => {},
                                }
                            }
                        }
                        Some((v, end))
                    },
                }
            },
        }
    } else {
        proof {
            assert forall|m: ValueModel|
                valid_model(m) && is_enc_at(bytes@, pos as int, enc_value(m)) implies false by {
                lemma_enc_tag(m, bytes@, pos as int);
            }
        }
        None
    }
}

/// The first byte of a value encoding is its variant's tag, and the
/// encoding is long enough for the fields that follow.
proof fn lemma_enc_tag(m: ValueModel, b: Seq<u8>, pos: int)
    requires
        is_enc_at(b, pos, enc_value(m)),
    ensures
        b[pos] == enc_value(m)[0],
        m is Null ==> b[pos] == TAG_NIL,
        m matches ValueModel::Boolean(x) ==> b[pos] == (if x {
            TAG_TRUE
        } else {
            TAG_FALSE
        }),
        m is Int ==> b[pos] == TAG_INT && pos + 5 <= b.len(),
        m is Real ==> b[pos] == TAG_REAL && pos + 5 <= b.len(),
        m is Char ==> b[pos] == TAG_STR && pos + 5 <= b.len(),
{
    assert(b[pos] == b.subrange(pos, pos + enc_value(m).len())[0]);
}

/// Decomposes the encoding of a string value standing in `b` at `pos`:
/// the length word and the body bytes.
proof fn lemma_enc_char_parts(m: ValueModel, b: Seq<u8>, pos: int)
    requires
        is_enc_at(b, pos, enc_value(m)),
        m matches ValueModel::Char(s) && vstd::utf8::encode_utf8(s).len() <= u32::MAX,
    ensures
        m matches ValueModel::Char(s) ==> {
            let u = vstd::utf8::encode_utf8(s);
            &&& is_enc_at(b, pos + 1, be4(u.len() as u32))
            &&& pos + 5 + u.len() <= b.len()
            &&& b.subrange(pos + 5, pos + 5 + u.len()) == u
        },
{
    let s = m->Char_0;
    let u = vstd::utf8::encode_utf8(s);
    let e = enc_value(m);
    assert(e.len() == 5 + u.len());
    assert(b.subrange(pos + 1, pos + 5) =~= e.subrange(1, 5));
    assert(e.subrange(1, 5) =~= be4(u.len() as u32));
    assert(b.subrange(pos + 5, pos + 5 + u.len()) =~= e.subrange(5, e.len() as int));
    assert(e.subrange(5, e.len() as int) =~= u);
}


/// Concatenated encodings of a sequence of values.
pub open spec fn enc_values(vs: Seq<ValueModel>) -> Seq<u8>
    decreases vs.len(),
{
    if vs.len() == 0 {
        Seq::empty()
    } else {
        enc_value(vs[0]) + enc_values(vs.drop_first())
    }
}

/// A row the codec can represent.
pub open spec fn valid_row(r: Seq<ValueModel>) -> bool {
    &&& r.len() <= u32::MAX
    &&& forall|i: int| 0 <= i < r.len() ==> valid_model(#[trigger] r[i])
}

/// Byte encoding of a row: an array header, then the values.
pub open spec fn enc_row(r: Seq<ValueModel>) -> Seq<u8> {
    seq![TAG_ARRAY] + be4(r.len() as u32) + enc_values(r)
}

/// Byte encoding of a page slot: an absent row is a nil byte.
pub open spec fn enc_slot(s: Option<Seq<ValueModel>>) -> Seq<u8> {
    match s {
        None => seq![TAG_NIL],
        Some(r) => enc_row(r),
    }
}

/// Concatenated encodings of the slots of a page.
pub open spec fn enc_slots(ss: Seq<Option<Seq<ValueModel>>>) -> Seq<u8>
    decreases ss.len(),
{
    if ss.len() == 0 {
        Seq::empty()
    } else {
        enc_slot(ss[0]) + enc_slots(ss.drop_first())
    }
}

/// A page the codec can represent.
pub open spec fn valid_page(p: Seq<Option<Seq<ValueModel>>>) -> bool {
    &&& p.len() <= u32::MAX
    &&& forall|i: int| 0 <= i < p.len() ==> ((#[trigger] p[i]) matches Some(r) ==> valid_row(r))
}

/// Byte encoding of a page: an array header, then the slots.
pub open spec fn enc_page(p: Seq<Option<Seq<ValueModel>>>) -> Seq<u8> {
    seq![TAG_ARRAY] + be4(p.len() as u32) + enc_slots(p)
}

/// An encoding standing at a position splits into its two parts.
pub proof fn lemma_enc_at_concat(b: Seq<u8>, pos: int, e1: Seq<u8>, e2: Seq<u8>)
    requires
        is_enc_at(b, pos, e1 + e2),
    ensures
        is_enc_at(b, pos, e1),
        is_enc_at(b, pos + e1.len(), e2),
{
    assert(b.subrange(pos, pos + e1.len()) =~= (e1 + e2).subrange(0, e1.len() as int));
    assert((e1 + e2).subrange(0, e1.len() as int) =~= e1);
    assert(b.subrange(pos + e1.len(), pos + e1.len() + e2.len()) =~= (e1 + e2).subrange(
        e1.len() as int,
        (e1 + e2).len() as int,
    ));
    assert((e1 + e2).subrange(e1.len() as int, (e1 + e2).len() as int) =~= e2);
}

/// Two adjacent byte ranges concatenate.
pub proof fn lemma_subrange_concat(b: Seq<u8>, p1: int, p2: int, p3: int)
    requires
        0 <= p1 <= p2 <= p3 <= b.len(),
    ensures
        b.subrange(p1, p3) == b.subrange(p1, p2) + b.subrange(p2, p3),
{
    assert(b.subrange(p1, p3) =~= b.subrange(p1, p2) + b.subrange(p2, p3));
}

/// Appending one value extends the encoding of a value sequence.
pub proof fn lemma_enc_values_push(vs: Seq<ValueModel>, v: ValueModel)
    ensures
        enc_values(vs.push(v)) == enc_values(vs) + enc_value(v),
    decreases vs.len(),
{
    if vs.len() == 0 {
        assert(vs.push(v).drop_first() =~= Seq::<ValueModel>::empty());
        assert(enc_values(vs.push(v).drop_first()) == Seq::<u8>::empty());
        assert(vs =~= Seq::<ValueModel>::empty());
        assert(enc_values(vs) == Seq::<u8>::empty());
        assert(enc_values(vs.push(v)) =~= enc_value(v));
        assert(enc_values(vs) + enc_value(v) =~= enc_value(v));
    } else {
        assert(vs.push(v).drop_first() =~= vs.drop_first().push(v));
        lemma_enc_values_push(vs.drop_first(), v);
        assert(enc_values(vs.push(v)) =~= enc_values(vs) + enc_value(v));
    }
}

/// The encoding of a value sequence splits after any prefix.
pub proof fn lemma_enc_values_split(vs: Seq<ValueModel>, i: int)
    requires
        0 <= i <= vs.len(),
    ensures
        enc_values(vs) == enc_values(vs.subrange(0, i)) + enc_values(vs.subrange(i, vs.len() as int)),
    decreases i,
{
    if i == 0 {
        assert(vs.subrange(0, 0) =~= Seq::<ValueModel>::empty());
        assert(vs.subrange(0, vs.len() as int) =~= vs);
        assert(enc_values(vs.subrange(0, 0)) + enc_values(vs.subrange(0, vs.len() as int))
            =~= enc_values(vs));
    } else {
        lemma_enc_values_split(vs, i - 1);
        let a = vs.subrange(0, i - 1);
        let b = vs.subrange(i - 1, vs.len() as int);
        assert(b[0] == vs[i - 1]);
        assert(b.drop_first() =~= vs.subrange(i, vs.len() as int));
        assert(vs.subrange(0, i) =~= a.push(vs[i - 1]));
        lemma_enc_values_push(a, vs[i - 1]);
        assert(enc_values(vs) =~= enc_values(vs.subrange(0, i)) + enc_values(
            vs.subrange(i, vs.len() as int),
        ));
    }
}

/// Appending one slot extends the encoding of a slot sequence.
pub proof fn lemma_enc_slots_push(ss: Seq<Option<Seq<ValueModel>>>, s: Option<Seq<ValueModel>>)
    ensures
        enc_slots(ss.push(s)) == enc_slots(ss) + enc_slot(s),
    decreases ss.len(),
{
    if ss.len() == 0 {
        assert(ss.push(s).drop_first() =~= Seq::<Option<Seq<ValueModel>>>::empty());
        assert(enc_slots(ss.push(s).drop_first()) == Seq::<u8>::empty());
        assert(ss =~= Seq::<Option<Seq<ValueModel>>>::empty());
        assert(enc_slots(ss) == Seq::<u8>::empty());
        assert(enc_slots(ss.push(s)) =~= enc_slot(s));
        assert(enc_slots(ss) + enc_slot(s) =~= enc_slot(s));
    } else {
        assert(ss.push(s).drop_first() =~= ss.drop_first().push(s));
        lemma_enc_slots_push(ss.drop_first(), s);
        assert(enc_slots(ss.push(s)) =~= enc_slots(ss) + enc_slot(s));
    }
}

/// The encoding of a slot sequence splits after any prefix.
pub proof fn lemma_enc_slots_split(ss: Seq<Option<Seq<ValueModel>>>, i: int)
    requires
        0 <= i <= ss.len(),
    ensures
        enc_slots(ss) == enc_slots(ss.subrange(0, i)) + enc_slots(ss.subrange(i, ss.len() as int)),
    decreases i,
{
    if i == 0 {
        assert(ss.subrange(0, 0) =~= Seq::<Option<Seq<ValueModel>>>::empty());
        assert(ss.subrange(0, ss.len() as int) =~= ss);
        assert(enc_slots(ss.subrange(0, 0)) + enc_slots(ss.subrange(0, ss.len() as int))
            =~= enc_slots(ss));
    } else {
        lemma_enc_slots_split(ss, i - 1);
        let a = ss.subrange(0, i - 1);
        let b = ss.subrange(i - 1, ss.len() as int);
        assert(b[0] == ss[i - 1]);
        assert(b.drop_first() =~= ss.subrange(i, ss.len() as int));
        assert(ss.subrange(0, i) =~= a.push(ss[i - 1]));
        lemma_enc_slots_push(a, ss[i - 1]);
        assert(enc_slots(ss) =~= enc_slots(ss.subrange(0, i)) + enc_slots(
            ss.subrange(i, ss.len() as int),
        ));
    }
}

/// Appends the encoding of a row.
pub fn encode_row_into(out: &mut Vec<u8>, row: &Vec<TableValue>)
    requires
        valid_row(row.deep_view()),
    ensures
        final(out)@ == old(out)@ + enc_row(row.deep_view()),
{
    let ghost dv = row.deep_view();
    out.push(TAG_ARRAY);
    push_be4(out, row.len() as u32);
    let ghost head = old(out)@ + seq![TAG_ARRAY] + be4(row.len() as u32);
    assert(out@ =~= head);
    let n = row.len();
    let mut i: usize = 0;
    while i < n
        invariant
            i <= n,
            n == row.len(),
            dv == row.deep_view(),
            valid_row(dv),
            out@ =~= head + enc_values(dv.subrange(0, i as int)),
        decreases n - i,
    {
        proof {
            assert(valid_model(dv[i as int]));
            assert(row@[i as int]@ == dv[i as int]);
        }
        encode_value_into(out, &row[i]);
        proof {
            lemma_enc_values_push(dv.subrange(0, i as int), dv[i as int]);
            assert(dv.subrange(0, i + 1) =~= dv.subrange(0, i as int).push(dv[i as int]));
            assert(out@ =~= head + enc_values(dv.subrange(0, i + 1)));
        }
        i = i + 1;
    }
    proof {
        assert(dv.subrange(0, n as int) =~= dv);
        assert(out@ =~= old(out)@ + enc_row(dv));
    }
}

/// The decoder returned exactly the row `rm`, consuming its encoding.
pub open spec fn decoded_row(
    r: Option<(Vec<TableValue>, usize)>,
    pos: int,
    rm: Seq<ValueModel>,
) -> bool {
    match r {
        Some((row, end)) => row.deep_view() == rm && end == pos + enc_row(rm).len(),
        None => false,
    }
}

/// The head of a row encoding standing in `b`: the array tag and count.
proof fn lemma_enc_row_head(rm: Seq<ValueModel>, b: Seq<u8>, pos: int)
    requires
        is_enc_at(b, pos, enc_row(rm)),
        rm.len() <= u32::MAX,
    ensures
        b[pos] == TAG_ARRAY,
        is_enc_at(b, pos + 1, be4(rm.len() as u32)),
        is_enc_at(b, pos + 5, enc_values(rm)),
{
    assert(seq![TAG_ARRAY] + be4(rm.len() as u32) + enc_values(rm) =~= (seq![TAG_ARRAY] + be4(
        rm.len() as u32,
    )) + enc_values(rm));
    lemma_enc_at_concat(b, pos, seq![TAG_ARRAY] + be4(rm.len() as u32), enc_values(rm));
    lemma_enc_at_concat(b, pos, seq![TAG_ARRAY], be4(rm.len() as u32));
    assert(b[pos] == b.subrange(pos, pos + 1)[0]);
}

/// Decodes a row. Whenever the bytes at `pos` hold the encoding of a valid
/// row, decoding returns exactly that row; whatever it returns, the consumed
/// bytes are the encoding of the result.
#[verifier::rlimit(100)]
pub fn decode_row(bytes: &Vec<u8>, pos: usize) -> (r: Option<(Vec<TableValue>, usize)>)
    ensures
        r matches Some((row, end)) ==> {
            &&& pos < end <= bytes@.len()
            &&& valid_row(row.deep_view())
            &&& bytes@.subrange(pos as int, end as int) == enc_row(row.deep_view())
        },
        forall|rm: Seq<ValueModel>|
            valid_row(rm) && is_enc_at(bytes@, pos as int, enc_row(rm)) ==> decoded_row(
                r,
                pos as int,
                rm,
            ),
{
    if pos >= bytes.len() || bytes[pos] != TAG_ARRAY {
        proof {
            assert forall|rm: Seq<ValueModel>|
                valid_row(rm) && is_enc_at(bytes@, pos as int, enc_row(rm)) implies false by {
                lemma_enc_row_head(rm, bytes@, pos as int);
            }
        }
        return None;
    }
    let n32 = match read_be4(bytes, pos + 1) {
        None => {
            proof {
                assert forall|rm: Seq<ValueModel>|
                    valid_row(rm) && is_enc_at(bytes@, pos as int, enc_row(rm)) implies false by {
                    lemma_enc_row_head(rm, bytes@, pos as int);
                }
            }
            return None;
        },
        Some((x, _)) => x,
    };
    let n = n32 as usize;
    let mut vs: Vec<TableValue> = Vec::new();
    let mut cur: usize = pos + 5;
    let mut i: usize = 0;
    proof {
        assert(vs.deep_view() =~= Seq::<ValueModel>::empty());
        assert(enc_values(vs.deep_view()) == Seq::<u8>::empty());
        assert(bytes@.subrange(pos + 5 as int, pos + 5 as int) =~= Seq::<u8>::empty());
        assert forall|rm: Seq<ValueModel>|
            valid_row(rm) && is_enc_at(bytes@, pos as int, enc_row(rm)) implies rm.len() == n
            && rm.subrange(0, 0) == vs.deep_view() by {
            lemma_enc_row_head(rm, bytes@, pos as int);
            assert(rm.subrange(0, 0) =~= vs.deep_view());
        }
    }
    while i < n
        invariant
            i <= n,
            pos + 5 <= cur <= bytes@.len(),
            pos < bytes@.len(),
            bytes@[pos as int] == TAG_ARRAY,
            bytes@.subrange(pos + 1 as int, pos + 5 as int) == be4(n as u32),
            n <= u32::MAX,
            vs.len() == i,
            valid_row(vs.deep_view()),
            bytes@.subrange(pos + 5 as int, cur as int) == enc_values(vs.deep_view()),
            forall|rm: Seq<ValueModel>|
                valid_row(rm) && is_enc_at(bytes@, pos as int, enc_row(rm)) ==> rm.len() == n
                    && rm.subrange(0, i as int) == vs.deep_view(),
        decreases n - i,
    {
        let ghost old_vs = vs.deep_view();
        let ghost old_cur = cur as int;
        match decode_value(bytes, cur) {
            None => {
                proof {
                    assert forall|rm: Seq<ValueModel>|
                        valid_row(rm) && is_enc_at(bytes@, pos as int, enc_row(rm)) implies
                        false by {
                        lemma_row_step(rm, bytes@, pos as int, i as int, old_vs, old_cur);
                    }
                }
                return None;
            },
            Some((v, end)) => {
                proof {
                    lemma_subrange_concat(bytes@, pos + 5, old_cur, end as int);
                    lemma_enc_values_push(old_vs, v@);
                }
                vs.push(v);
                cur = end;
                proof {
                    assert(vs.deep_view() =~= old_vs.push(v@));
                    assert forall|rm: Seq<ValueModel>|
                        valid_row(rm) && is_enc_at(bytes@, pos as int, enc_row(rm)) implies
                        rm.len() == n && rm.subrange(0, i + 1) == vs.deep_view() by {
                        lemma_row_step(rm, bytes@, pos as int, i as int, old_vs, old_cur);
                        assert(decoded_value(Some((v, end)), old_cur, rm[i as int]));
                        assert(rm.subrange(0, i + 1) =~= rm.subrange(0, i as int).push(
                            rm[i as int],
                        ));
                    }
                }
            },
        }
        i = i + 1;
    }
    proof {
        lemma_subrange_concat(bytes@, pos as int, pos + 1, pos + 5);
        lemma_subrange_concat(bytes@, pos as int, pos + 5, cur as int);
        assert(bytes@.subrange(pos as int, pos + 1) =~= seq![TAG_ARRAY]);
        assert(bytes@.subrange(pos as int, cur as int) =~= enc_row(vs.deep_view()));
        assert forall|rm: Seq<ValueModel>|
            valid_row(rm) && is_enc_at(bytes@, pos as int, enc_row(rm)) implies decoded_row(
            Some((vs, cur)),
            pos as int,
            rm,
        ) by {
            assert(rm.subrange(0, rm.len() as int) =~= rm);
            lemma_enc_row_head(rm, bytes@, pos as int);
        }
    }
    Some((vs, cur))
}

/// In a row being decoded, once the first `i` values are known to match a
/// hypothesised row model, the next value's encoding stands at the cursor.
proof fn lemma_row_step(
    rm: Seq<ValueModel>,
    b: Seq<u8>,
    pos: int,
    i: int,
    done: Seq<ValueModel>,
    cur: int,
)
    requires
        valid_row(rm),
        is_enc_at(b, pos, enc_row(rm)),
        0 <= i < rm.len(),
        done == rm.subrange(0, i),
        b.subrange(pos + 5, cur) == enc_values(done),
        pos + 5 <= cur <= b.len(),
    ensures
        valid_model(rm[i]),
        is_enc_at(b, cur, enc_value(rm[i])),
        cur + enc_value(rm[i]).len() <= pos + enc_row(rm).len(),
{
    lemma_enc_row_head(rm, b, pos);
    lemma_enc_values_split(rm, i);
    let rest = rm.subrange(i, rm.len() as int);
    assert(enc_values(rm) == enc_values(done) + enc_values(rest));
    lemma_enc_at_concat(b, pos + 5, enc_values(done), enc_values(rest));
    assert(cur == pos + 5 + enc_values(done).len()) by {
        assert(b.subrange(pos + 5, cur).len() == cur - (pos + 5));
    }
    assert(rest[0] == rm[i]);
    assert(rest.drop_first() =~= rm.subrange(i + 1, rm.len() as int));
    assert(enc_values(rest) == enc_value(rm[i]) + enc_values(rm.subrange(i + 1, rm.len() as int)));
    lemma_enc_at_concat(b, cur, enc_value(rm[i]), enc_values(rm.subrange(i + 1, rm.len() as int)));
}


/// Model of one slot: the row's model where a row is present.
pub open spec fn slot_model(s: Option<Vec<TableValue>>) -> Option<Seq<ValueModel>> {
    match s {
        Some(row) => Some(row.deep_view()),
        None => None,
    }
}

/// Model of a page: one optional row per slot.
pub open spec fn page_model(p: Vec<Option<Vec<TableValue>>>) -> Seq<Option<Seq<ValueModel>>> {
    Seq::new(p@.len(), |i: int| slot_model(p@[i]))
}

/// Appends the encoding of one slot.
fn encode_slot_into(out: &mut Vec<u8>, slot: &Option<Vec<TableValue>>)
    requires
        (*slot) matches Some(row) ==> valid_row(row.deep_view()),
    ensures
        final(out)@ == old(out)@ + enc_slot(slot_model(*slot)),
{
    match slot {
        None => {
            out.push(TAG_NIL);
            assert(out@ =~= old(out)@ + seq![TAG_NIL]);
        },
        Some(row) => {
            encode_row_into(out, row);
        },
    }
}

/// Appends the encoding of a page.
pub fn encode_page_into(out: &mut Vec<u8>, page: &Vec<Option<Vec<TableValue>>>)
    requires
        valid_page(page_model(*page)),
    ensures
        final(out)@ == old(out)@ + enc_page(page_model(*page)),
{
    let ghost pm = page_model(*page);
    out.push(TAG_ARRAY);
    push_be4(out, page.len() as u32);
    let ghost head = old(out)@ + seq![TAG_ARRAY] + be4(page.len() as u32);
    assert(out@ =~= head);
    let n = page.len();
    let mut i: usize = 0;
    while i < n
        invariant
            i <= n,
            n == page.len(),
            pm == page_model(*page),
            valid_page(pm),
            out@ =~= head + enc_slots(pm.subrange(0, i as int)),
        decreases n - i,
    {
        proof {
            assert(pm[i as int] == slot_model(page@[i as int]));
        }
        encode_slot_into(out, &page[i]);
        proof {
            lemma_enc_slots_push(pm.subrange(0, i as int), pm[i as int]);
            assert(pm.subrange(0, i + 1) =~= pm.subrange(0, i as int).push(pm[i as int]));
            assert(out@ =~= head + enc_slots(pm.subrange(0, i + 1)));
        }
        i = i + 1;
    }
    proof {
        assert(pm.subrange(0, n as int) =~= pm);
        assert(out@ =~= old(out)@ + enc_page(pm));
    }
}

/// The decoder returned exactly the page `p`, consuming its encoding.
pub open spec fn decoded_page(
    r: Option<(Vec<Option<Vec<TableValue>>>, usize)>,
    pos: int,
    p: Seq<Option<Seq<ValueModel>>>,
) -> bool {
    match r {
        Some((page, end)) => page_model(page) == p && end == pos + enc_page(p).len(),
        None => false,
    }
}

/// The head of a page encoding standing in `b`: the array tag and count.
proof fn lemma_enc_page_head(p: Seq<Option<Seq<ValueModel>>>, b: Seq<u8>, pos: int)
    requires
        is_enc_at(b, pos, enc_page(p)),
        p.len() <= u32::MAX,
    ensures
        b[pos] == TAG_ARRAY,
        is_enc_at(b, pos + 1, be4(p.len() as u32)),
        is_enc_at(b, pos + 5, enc_slots(p)),
{
    assert(seq![TAG_ARRAY] + be4(p.len() as u32) + enc_slots(p) =~= (seq![TAG_ARRAY] + be4(
        p.len() as u32,
    )) + enc_slots(p));
    lemma_enc_at_concat(b, pos, seq![TAG_ARRAY] + be4(p.len() as u32), enc_slots(p));
    lemma_enc_at_concat(b, pos, seq![TAG_ARRAY], be4(p.len() as u32));
    assert(b[pos] == b.subrange(pos, pos + 1)[0]);
}

/// In a page being decoded, once the first `i` slots are known to match a
/// hypothesised page model, the next slot's encoding stands at the cursor.
proof fn lemma_page_step(
    p: Seq<Option<Seq<ValueModel>>>,
    b: Seq<u8>,
    pos: int,
    i: int,
    done: Seq<Option<Seq<ValueModel>>>,
    cur: int,
)
    requires
        valid_page(p),
        is_enc_at(b, pos, enc_page(p)),
        0 <= i < p.len(),
        done == p.subrange(0, i),
        b.subrange(pos + 5, cur) == enc_slots(done),
        pos + 5 <= cur <= b.len(),
    ensures
        p[i] matches Some(r) ==> valid_row(r),
        is_enc_at(b, cur, enc_slot(p[i])),
{
    lemma_enc_page_head(p, b, pos);
    lemma_enc_slots_split(p, i);
    let rest = p.subrange(i, p.len() as int);
    assert(enc_slots(p) == enc_slots(done) + enc_slots(rest));
    lemma_enc_at_concat(b, pos + 5, enc_slots(done), enc_slots(rest));
    assert(cur == pos + 5 + enc_slots(done).len()) by {
        assert(b.subrange(pos + 5, cur).len() == cur - (pos + 5));
    }
    assert(rest[0] == p[i]);
    assert(rest.drop_first() =~= p.subrange(i + 1, p.len() as int));
    assert(enc_slots(rest) == enc_slot(p[i]) + enc_slots(p.subrange(i + 1, p.len() as int)));
    lemma_enc_at_concat(b, cur, enc_slot(p[i]), enc_slots(p.subrange(i + 1, p.len() as int)));
}

/// Decodes one slot: a nil byte is an empty slot, anything else must be a row.
fn decode_slot(bytes: &Vec<u8>, pos: usize) -> (r: Option<(Option<Vec<TableValue>>, usize)>)
    ensures
        r matches Some((slot, end)) ==> {
            &&& pos < end <= bytes@.len()
            &&& (slot matches Some(row) ==> valid_row(row.deep_view()))
            &&& bytes@.subrange(pos as int, end as int) == enc_slot(slot_model(slot))
        },
        forall|sm: Option<Seq<ValueModel>>|
            (sm matches Some(rm) ==> valid_row(rm)) && is_enc_at(bytes@, pos as int, enc_slot(sm))
                ==> (match r {
                Some((slot, end)) => slot_model(slot) == sm && end == pos + enc_slot(sm).len(),
                None => false,
            }),
{
    if pos < bytes.len() && bytes[pos] == TAG_NIL {
        proof {
            assert(bytes@.subrange(pos as int, pos + 1 as int) =~= seq![TAG_NIL]);
            assert forall|sm: Option<Seq<ValueModel>>|
                (sm matches Some(rm) ==> valid_row(rm)) && is_enc_at(
                    bytes@,
                    pos as int,
                    enc_slot(sm),
                ) implies sm is None by {
                match sm {
                    Some(rm) => {
                        lemma_enc_row_head(rm, bytes@, pos as int);
                    },
                    None => {},
                }
            }
        }
        return Some((None, pos + 1));
    }
    proof {
        if pos < bytes@.len() {
        } else {
            assert forall|sm: Option<Seq<ValueModel>>|
                (sm matches Some(rm) ==> valid_row(rm)) && is_enc_at(
                    bytes@,
                    pos as int,
                    enc_slot(sm),
                ) implies false by {
                assert(enc_slot(sm).len() >= 1);
            }
        }
    }
    match decode_row(bytes, pos) {
        None => {
            proof {
                assert forall|sm: Option<Seq<ValueModel>>|
                    (sm matches Some(rm) ==> valid_row(rm)) && is_enc_at(
                        bytes@,
                        pos as int,
                        enc_slot(sm),
                    ) implies false by {
                    match sm {
                        Some(rm) => {},
                        None => {
                            assert(bytes@[pos as int] == bytes@.subrange(pos as int, pos + 1)[0]);
                        },
                    }
                }
            }
            None
        },
        Some((row, end)) => {
            proof {
                assert forall|sm: Option<Seq<ValueModel>>|
                    (sm matches Some(rm) ==> valid_row(rm)) && is_enc_at(
                        bytes@,
                        pos as int,
                        enc_slot(sm),
                    ) implies (Some(row.deep_view()) == sm && end == pos + enc_slot(sm).len()) by {
                    match sm {
                        Some(rm) => {},
                        None => {
                            assert(bytes@[pos as int] == bytes@.subrange(pos as int, pos + 1)[0]);
                        },
                    }
                }
            }
            Some((Some(row), end))
        },
    }
}

/// Decodes a page. Whenever the bytes at `pos` hold the encoding of a valid
/// page, decoding returns exactly that page; whatever it returns, the
/// consumed bytes are the encoding of the result.
#[verifier::rlimit(100)]
pub fn decode_page(bytes: &Vec<u8>, pos: usize) -> (r: Option<(Vec<Option<Vec<TableValue>>>, usize)>)
    ensures
        r matches Some((page, end)) ==> {
            &&& pos < end <= bytes@.len()
            &&& valid_page(page_model(page))
            &&& bytes@.subrange(pos as int, end as int) == enc_page(page_model(page))
        },
        forall|p: Seq<Option<Seq<ValueModel>>>|
            valid_page(p) && is_enc_at(bytes@, pos as int, enc_page(p)) ==> decoded_page(
                r,
                pos as int,
                p,
            ),
{
    if pos >= bytes.len() || bytes[pos] != TAG_ARRAY {
        proof {
            assert forall|p: Seq<Option<Seq<ValueModel>>>|
                valid_page(p) && is_enc_at(bytes@, pos as int, enc_page(p)) implies false by {
                lemma_enc_page_head(p, bytes@, pos as int);
            }
        }
        return None;
    }
    let n32 = match read_be4(bytes, pos + 1) {
        None => {
            proof {
                assert forall|p: Seq<Option<Seq<ValueModel>>>|
                    valid_page(p) && is_enc_at(bytes@, pos as int, enc_page(p)) implies false by {
                    lemma_enc_page_head(p, bytes@, pos as int);
                }
            }
            return None;
        },
        Some((x, _)) => x,
    };
    let n = n32 as usize;
    let mut ss: Vec<Option<Vec<TableValue>>> = Vec::new();
    let mut cur: usize = pos + 5;
    let mut i: usize = 0;
    proof {
        assert(page_model(ss) =~= Seq::<Option<Seq<ValueModel>>>::empty());
        assert(enc_slots(page_model(ss)) == Seq::<u8>::empty());
        assert(bytes@.subrange(pos + 5 as int, pos + 5 as int) =~= Seq::<u8>::empty());
        assert forall|p: Seq<Option<Seq<ValueModel>>>|
            valid_page(p) && is_enc_at(bytes@, pos as int, enc_page(p)) implies p.len() == n
            && p.subrange(0, 0) == page_model(ss) by {
            lemma_enc_page_head(p, bytes@, pos as int);
            assert(p.subrange(0, 0) =~= page_model(ss));
        }
    }
    while i < n
        invariant
            i <= n,
            pos + 5 <= cur <= bytes@.len(),
            pos < bytes@.len(),
            bytes@[pos as int] == TAG_ARRAY,
            bytes@.subrange(pos + 1 as int, pos + 5 as int) == be4(n as u32),
            n <= u32::MAX,
            ss.len() == i,
            valid_page(page_model(ss)),
            bytes@.subrange(pos + 5 as int, cur as int) == enc_slots(page_model(ss)),
            forall|p: Seq<Option<Seq<ValueModel>>>|
                valid_page(p) && is_enc_at(bytes@, pos as int, enc_page(p)) ==> p.len() == n
                    && p.subrange(0, i as int) == page_model(ss),
        decreases n - i,
    {
        let ghost old_ss = page_model(ss);
        let ghost old_cur = cur as int;
        match decode_slot(bytes, cur) {
            None => {
                proof {
                    assert forall|p: Seq<Option<Seq<ValueModel>>>|
                        valid_page(p) && is_enc_at(bytes@, pos as int, enc_page(p)) implies
                        false by {
                        lemma_page_step(p, bytes@, pos as int, i as int, old_ss, old_cur);
                    }
                }
                return None;
            },
            Some((slot, end)) => {
                let ghost sm = slot_model(slot);
                proof {
                    lemma_subrange_concat(bytes@, pos + 5, old_cur, end as int);
                    lemma_enc_slots_push(old_ss, sm);
                }
                ss.push(slot);
                cur = end;
                proof {
                    assert(page_model(ss) =~= old_ss.push(sm));
                    assert forall|p: Seq<Option<Seq<ValueModel>>>|
                        valid_page(p) && is_enc_at(bytes@, pos as int, enc_page(p)) implies p.len()
                        == n && p.subrange(0, i + 1) == page_model(ss) by {
                        lemma_page_step(p, bytes@, pos as int, i as int, old_ss, old_cur);
                        assert(p.subrange(0, i + 1) =~= p.subrange(0, i as int).push(p[i as int]));
                    }
                }
            },
        }
        i = i + 1;
    }
    proof {
        lemma_subrange_concat(bytes@, pos as int, pos + 1, pos + 5);
        lemma_subrange_concat(bytes@, pos as int, pos + 5, cur as int);
        assert(bytes@.subrange(pos as int, pos + 1) =~= seq![TAG_ARRAY]);
        assert(bytes@.subrange(pos as int, cur as int) =~= enc_page(page_model(ss)));
        assert forall|p: Seq<Option<Seq<ValueModel>>>|
            valid_page(p) && is_enc_at(bytes@, pos as int, enc_page(p)) implies decoded_page(
            Some((ss, cur)),
            pos as int,
            p,
        ) by {
            assert(p.subrange(0, p.len() as int) =~= p);
            lemma_enc_page_head(p, bytes@, pos as int);
        }
    }
    Some((ss, cur))
}


/// Largest possible encoded size of a value admissible under a column type.
pub open spec fn max_value_size(t: DataType) -> int {
    match t {
        DataType::Boolean => 1,
        DataType::Int => 5,
        DataType::Real => 5,
        DataType::Char(n) => 5 + 4 * n,
    }
}

/// Sum of the worst-case value sizes over the columns.
pub open spec fn sizes_sum(cols: Seq<ColumnModel>) -> int
    decreases cols.len(),
{
    if cols.len() == 0 {
        0
    } else {
        max_value_size(cols[0].datatype) + sizes_sum(cols.drop_first())
    }
}

/// Worst-case encoded size of one row under the columns: the array envelope
/// plus the worst case of each value.
pub open spec fn spec_row_size(cols: Seq<ColumnModel>) -> int {
    5 + sizes_sum(cols)
}

/// A scalar encodes to at most four bytes, so a string encodes to at most
/// four bytes per character.
pub proof fn lemma_utf8_len_bound(s: Seq<char>)
    ensures
        vstd::utf8::encode_utf8(s).len() <= 4 * s.len(),
    decreases s.len(),
{
    if s.len() != 0 {
        lemma_utf8_len_bound(s.drop_first());
    }
}

/// A value admissible under a column type encodes within the type's
/// worst-case size.
pub proof fn lemma_enc_value_size(v: ValueModel, t: DataType)
    requires
        crate::value::model_matches_type(v, t),
    ensures
        1 <= enc_value(v).len() <= max_value_size(t) || v is Null,
        enc_value(v).len() >= 1,
        v is Null ==> enc_value(v).len() == 1,
{
    match v {
        ValueModel::Char(cs) => {
            lemma_utf8_len_bound(cs);
        },
        _ => {},
    }
}

/// Extending the columns by one extends the size sum.
proof fn lemma_sizes_sum_push(cols: Seq<ColumnModel>, c: ColumnModel)
    ensures
        sizes_sum(cols.push(c)) == sizes_sum(cols) + max_value_size(c.datatype),
    decreases cols.len(),
{
    if cols.len() == 0 {
        assert(cols.push(c).drop_first() =~= Seq::<ColumnModel>::empty());
        assert(sizes_sum(cols.push(c).drop_first()) == 0);
    } else {
        assert(cols.push(c).drop_first() =~= cols.drop_first().push(c));
        lemma_sizes_sum_push(cols.drop_first(), c);
    }
}

/// Every worst-case value size is at least one byte, so the sum dominates
/// the column count and is monotone under prefixes.
proof fn lemma_sizes_sum_nonneg(cols: Seq<ColumnModel>)
    ensures
        sizes_sum(cols) >= cols.len(),
    decreases cols.len(),
{
    if cols.len() != 0 {
        lemma_sizes_sum_nonneg(cols.drop_first());
    }
}

/// A row admissible under the columns encodes within the worst-case row
/// size.
pub proof fn lemma_enc_row_size(row: Seq<ValueModel>, cols: Seq<ColumnModel>)
    requires
        row_matches_columns(row, cols),
    ensures
        enc_row(row).len() <= spec_row_size(cols),
    decreases row.len(),
{
    lemma_enc_values_size(row, cols);
}

/// The concatenated value encodings of an admissible row stay within the
/// size sum of the columns.
proof fn lemma_enc_values_size(row: Seq<ValueModel>, cols: Seq<ColumnModel>)
    requires
        row_matches_columns(row, cols),
    ensures
        enc_values(row).len() <= sizes_sum(cols),
    decreases row.len(),
{
    if row.len() != 0 {
        lemma_enc_value_size(row[0], cols[0].datatype);
        assert(row_matches_columns(row.drop_first(), cols.drop_first())) by {
            assert forall|i: int| 0 <= i < row.drop_first().len() implies
                crate::value::model_matches_type(
                #[trigger] row.drop_first()[i],
                cols.drop_first()[i].datatype,
            ) by {
                assert(row.drop_first()[i] == row[i + 1]);
                assert(cols.drop_first()[i] == cols[i + 1]);
            }
        }
        lemma_enc_values_size(row.drop_first(), cols.drop_first());
    }
}

/// A page of admissible slots encodes within the envelope plus one
/// worst-case row per slot.
pub proof fn lemma_enc_page_size(p: Seq<Option<Seq<ValueModel>>>, cols: Seq<ColumnModel>)
    requires
        forall|i: int| 0 <= i < p.len() ==> ((#[trigger] p[i]) matches Some(r) ==> row_matches_columns(r, cols)),
    ensures
        enc_page(p).len() <= 5 + spec_row_size(cols) * p.len(),
    decreases p.len(),
{
    lemma_enc_slots_size(p, cols);
    lemma_sizes_sum_nonneg(cols);
}

/// The concatenated slot encodings stay within one worst-case row per slot.
proof fn lemma_enc_slots_size(p: Seq<Option<Seq<ValueModel>>>, cols: Seq<ColumnModel>)
    requires
        forall|i: int| 0 <= i < p.len() ==> ((#[trigger] p[i]) matches Some(r) ==> row_matches_columns(r, cols)),
    ensures
        enc_slots(p).len() <= spec_row_size(cols) * p.len(),
    decreases p.len(),
{
    if p.len() != 0 {
        match p[0] {
            Some(r) => {
                lemma_enc_row_size(r, cols);
            },
            None => {
                lemma_sizes_sum_nonneg(cols);
            },
        }
        assert forall|i: int| 0 <= i < p.drop_first().len() implies ((#[trigger] p.drop_first()[i])
            matches Some(r) ==> row_matches_columns(r, cols)) by {
            assert(p.drop_first()[i] == p[i + 1]);
        }
        lemma_enc_slots_size(p.drop_first(), cols);
        lemma_sizes_sum_nonneg(cols);
        assert(spec_row_size(cols) * p.len() == spec_row_size(cols) * p.drop_first().len()
            + spec_row_size(cols)) by (nonlinear_arith)
            requires
                p.len() >= 1 && p.drop_first().len() == p.len() - 1,
        ;
    }
}

/// The production codec. It answers the size queries the pager needs: the
/// worst-case encoded size of one row, and the five-byte array envelope.
#[derive(Debug, Clone)]
pub struct MessagePackSerializer {}

impl MessagePackSerializer {
    /// Worst-case byte size of one row under the columns, clamped to `u64`,
    /// and the fixed envelope a row array adds.
    pub fn size(&self, columns: &Vec<Column>) -> (r: TableSerializationSize)
        ensures
            spec_row_size(columns.deep_view()) <= u64::MAX ==> r.row_size as int == spec_row_size(
                columns.deep_view(),
            ),
            spec_row_size(columns.deep_view()) > u64::MAX ==> r.row_size == u64::MAX,
            r.row_size as int <= spec_row_size(columns.deep_view()),
            r.vector_size == 5,
    {
        let ghost dv = columns.deep_view();
        let mut sum: u64 = 5;
        let n = columns.len();
        let mut i: usize = 0;
        while i < n
            invariant
                i <= n,
                n == columns.len(),
                dv == columns.deep_view(),
                sum as int == if 5 + sizes_sum(dv.subrange(0, i as int)) <= u64::MAX {
                    5 + sizes_sum(dv.subrange(0, i as int))
                } else {
                    u64::MAX as int
                },
            decreases n - i,
        {
            let col_bytes: u64 = match columns[i].datatype {
                DataType::Boolean => 1,
                DataType::Int => 5,
                DataType::Real => 5,
                DataType::Char(chars) => {
                    if chars as u64 > (u64::MAX - 5) / 4 {
                        u64::MAX
                    } else {
                        5 + 4 * (chars as u64)
                    }
                },
            };
            proof {
                assert(dv[i as int].datatype == columns@[i as int]@.datatype);
                assert(col_bytes as int == max_value_size(dv[i as int].datatype) || (col_bytes
                    == u64::MAX && max_value_size(dv[i as int].datatype) > u64::MAX));
                assert(dv.subrange(0, i + 1) =~= dv.subrange(0, i as int).push(dv[i as int]));
                lemma_sizes_sum_push(dv.subrange(0, i as int), dv[i as int]);
                lemma_sizes_sum_nonneg(dv.subrange(0, i as int));
            }
            if sum > u64::MAX - col_bytes {
                sum = u64::MAX;
            } else {
                sum = sum + col_bytes;
            }
            i = i + 1;
        }
        proof {
            assert(dv.subrange(0, n as int) =~= dv);
        }
        TableSerializationSize { row_size: sum, vector_size: 5 }
    }
}


/// The size sum is non-negative and at least the column count.
pub proof fn lemma_sizes_sum_nonneg_pub(cols: Seq<ColumnModel>)
    ensures
        sizes_sum(cols) >= cols.len(),
{
    lemma_sizes_sum_nonneg(cols);
}

/// Each column's worst-case value size is within the size sum.
pub proof fn lemma_sizes_sum_at(cols: Seq<ColumnModel>, i: int)
    requires
        0 <= i < cols.len(),
    ensures
        max_value_size(cols[i].datatype) <= sizes_sum(cols),
    decreases cols.len(),
{
    if i == 0 {
        lemma_sizes_sum_nonneg(cols.drop_first());
        assert(max_value_size(cols[0].datatype) >= 1) by {
            match cols[0].datatype {
                DataType::Char(n) => {},
                _ => {},
            }
        }
    } else {
        lemma_sizes_sum_at(cols.drop_first(), i - 1);
        assert(cols.drop_first()[i - 1] == cols[i]);
        assert(max_value_size(cols[0].datatype) >= 1) by {
            match cols[0].datatype {
                DataType::Char(n) => {},
                _ => {},
            }
        }
    }
}
} // verus!
