//! The paged store: a header page followed by fixed-size data pages, a
//! free-page list, slot allocation, and the byte image that is written to
//! and reloaded from disk.
//!
//! Page 0 holds the header, length-prefixed: one byte giving the width of
//! the length field, the little-endian length, then the encoded header.
//! Data page `i` begins at byte offset `i * page_byte_size` and holds the
//! encoded array of `page_capacity` optional rows, zero-padded to the page
//! size.
use vstd::prelude::*;

use crate::codec::{
    be4, enc_page, enc_value, is_enc_at, lemma_enc_at_concat, lemma_enc_page_size,
    lemma_subrange_concat, page_model, spec_row_size, valid_page, MessagePackSerializer,
};
use crate::schema::{row_matches_columns, schema_valid, Column, ColumnModel, Schema, SchemaModel};
use crate::value::{DataType, TableValue, ValueModel};
use crate::ErrorKind;

verus! {

/// The physical location of a row: its page and slot.
#[derive(Debug, Clone, Copy, PartialEq, Eq, Structural)]
pub struct RecordID {
    pub page_number: u32,
    pub slot: u16,
}

impl RecordID {
    /// Builds a record identifier.
    pub fn new(page_number: u32, slot: u16) -> (r: RecordID)
        ensures
            r.page_number == page_number,
            r.slot == slot,
    {
        RecordID { page_number, slot }
    }
}

/// The persistent header: the schema, the page geometry, and the numbers
/// of the pages that still have an empty slot, kept sorted ascending so
/// the largest is last.
#[derive(Debug)]
pub struct PageHeader {
    pub schema: Schema,
    pub num_pages: u32,
    pub page_byte_size: u32,
    pub page_capacity: u32,
    pub free_pages: Vec<u32>,
}

/// Mathematical model of the header.
pub struct HeaderModel {
    pub schema: SchemaModel,
    pub num_pages: u32,
    pub page_byte_size: u32,
    pub page_capacity: u32,
    pub free_pages: Seq<u32>,
}

impl View for PageHeader {
    type V = HeaderModel;

    open spec fn view(&self) -> HeaderModel {
        HeaderModel {
            schema: self.schema@,
            num_pages: self.num_pages,
            page_byte_size: self.page_byte_size,
            page_capacity: self.page_capacity,
            free_pages: self.free_pages@,
        }
    }
}

/// A header the codec can represent: a representable schema and a free
/// list short enough for its 32-bit count.
pub open spec fn header_valid(h: HeaderModel) -> bool {
    &&& vstd::utf8::encode_utf8(h.schema.table_name).len() <= u32::MAX
    &&& h.schema.columns.len() <= u32::MAX
    &&& forall|i: int| 0 <= i < h.schema.columns.len() ==> col_valid(#[trigger] h.schema.columns[i])
    &&& h.free_pages.len() <= u32::MAX
}

/// A column the codec can represent.
pub open spec fn col_valid(c: ColumnModel) -> bool {
    &&& vstd::utf8::encode_utf8(c.name).len() <= u32::MAX
    &&& (c.datatype matches DataType::Char(n) ==> n <= u32::MAX)
}

/// Byte encoding of a declared type.
pub open spec fn enc_datatype(t: DataType) -> Seq<u8> {
    match t {
        DataType::Boolean => seq![0u8],
        DataType::Int => seq![1u8],
        DataType::Real => seq![2u8],
        DataType::Char(n) => seq![3u8] + be4(n as u32),
    }
}

/// Byte encoding of one column: its name, type and primary-key flag.
pub open spec fn enc_col(c: ColumnModel) -> Seq<u8> {
    enc_value(ValueModel::Char(c.name)) + enc_datatype(c.datatype) + seq![
        if c.is_primary_key {
            1u8
        } else {
            0u8
        },
    ]
}

/// Concatenated encodings of the columns.
pub open spec fn enc_cols(cs: Seq<ColumnModel>) -> Seq<u8>
    decreases cs.len(),
{
    if cs.len() == 0 {
        Seq::empty()
    } else {
        enc_col(cs[0]) + enc_cols(cs.drop_first())
    }
}

/// Concatenated big-endian encodings of the free-page numbers.
pub open spec fn enc_frees(fs: Seq<u32>) -> Seq<u8>
    decreases fs.len(),
{
    if fs.len() == 0 {
        Seq::empty()
    } else {
        be4(fs[0]) + enc_frees(fs.drop_first())
    }
}

/// Byte encoding of the header.
pub open spec fn enc_header(h: HeaderModel) -> Seq<u8> {
    enc_value(ValueModel::Char(h.schema.table_name)) + be4(h.schema.columns.len() as u32)
        + enc_cols(h.schema.columns) + be4(h.num_pages) + be4(h.page_byte_size) + be4(
        h.page_capacity,
    ) + be4(h.free_pages.len() as u32) + enc_frees(h.free_pages)
}

/// Appending a column extends the encoding.
pub proof fn lemma_enc_cols_push(cs: Seq<ColumnModel>, c: ColumnModel)
    ensures
        enc_cols(cs.push(c)) == enc_cols(cs) + enc_col(c),
    decreases cs.len(),
{
    if cs.len() == 0 {
        assert(cs.push(c).drop_first() =~= Seq::<ColumnModel>::empty());
        assert(enc_cols(cs.push(c).drop_first()) == Seq::<u8>::empty());
        assert(cs =~= Seq::<ColumnModel>::empty());
        assert(enc_cols(cs) == Seq::<u8>::empty());
        assert(enc_cols(cs.push(c)) =~= enc_col(c));
        assert(enc_cols(cs) + enc_col(c) =~= enc_col(c));
    } else {
        assert(cs.push(c).drop_first() =~= cs.drop_first().push(c));
        lemma_enc_cols_push(cs.drop_first(), c);
        assert(enc_cols(cs.push(c)) =~= enc_cols(cs) + enc_col(c));
    }
}

/// Appending a free-page number extends the encoding.
pub proof fn lemma_enc_frees_push(fs: Seq<u32>, f: u32)
    ensures
        enc_frees(fs.push(f)) == enc_frees(fs) + be4(f),
    decreases fs.len(),
{
    if fs.len() == 0 {
        assert(fs.push(f).drop_first() =~= Seq::<u32>::empty());
        assert(enc_frees(fs.push(f).drop_first()) == Seq::<u8>::empty());
        assert(fs =~= Seq::<u32>::empty());
        assert(enc_frees(fs) == Seq::<u8>::empty());
        assert(enc_frees(fs.push(f)) =~= be4(f));
        assert(enc_frees(fs) + be4(f) =~= be4(f));
    } else {
        assert(fs.push(f).drop_first() =~= fs.drop_first().push(f));
        lemma_enc_frees_push(fs.drop_first(), f);
        assert(enc_frees(fs.push(f)) =~= enc_frees(fs) + be4(f));
    }
}


/// Little-endian bytes of a 32-bit word.
pub open spec fn le4(x: u32) -> Seq<u8> {
    seq![x as u8, (x >> 8) as u8, (x >> 16) as u8, (x >> 24) as u8]
}

/// Reading back the little-endian bytes of a word yields the word.
proof fn lemma_le4_inverse(x: u32, b0: u8, b1: u8, b2: u8, b3: u8)
    requires
        b0 == x as u8,
        b1 == (x >> 8) as u8,
        b2 == (x >> 16) as u8,
        b3 == (x >> 24) as u8,
    ensures
        ((b0 as u32) | ((b1 as u32) << 8) | ((b2 as u32) << 16) | ((b3 as u32) << 24)) as u32 == x,
{
    assert((((x as u8) as u32) | ((((x >> 8) as u8) as u32) << 8) | ((((x >> 16) as u8) as u32) << 16) | ((((x >> 24) as u8) as u32) << 24)) as u32 == x) by (bit_vector);
}

/// Appends the encoding of the header.
pub fn encode_header_into(out: &mut Vec<u8>, h: &PageHeader)
    requires
        header_valid(h@),
    ensures
        final(out)@ == old(out)@ + enc_header(h@),
{
    let ghost hm = h@;
    crate::codec::encode_value_into(out, &TableValue::Char(h.schema.table_name.clone()));
    crate::codec::push_be4(out, h.schema.columns.len() as u32);
    let ghost head1 = old(out)@ + enc_value(ValueModel::Char(hm.schema.table_name)) + be4(
        hm.schema.columns.len() as u32,
    );
    assert(out@ =~= head1);
    let n = h.schema.columns.len();
    let mut i: usize = 0;
    while i < n
        invariant
            i <= n,
            n == h.schema.columns.len(),
            hm == h@,
            header_valid(hm),
            out@ =~= head1 + enc_cols(hm.schema.columns.subrange(0, i as int)),
        decreases n - i,
    {
        let ghost cm = hm.schema.columns[i as int];
        proof {
            assert(cm == h.schema.columns@[i as int]@);
            assert(col_valid(cm));
        }
        crate::codec::encode_value_into(
            out,
            &TableValue::Char(h.schema.columns[i].name.clone()),
        );
        match h.schema.columns[i].datatype {
            DataType::Boolean => {
                out.push(0u8);
            },
            DataType::Int => {
                out.push(1u8);
            },
            DataType::Real => {
                out.push(2u8);
            },
            DataType::Char(chars) => {
                out.push(3u8);
                crate::codec::push_be4(out, chars as u32);
            },
        }
        if h.schema.columns[i].is_primary_key {
            out.push(1u8);
        } else {
            out.push(0u8);
        }
        proof {
            lemma_enc_cols_push(hm.schema.columns.subrange(0, i as int), cm);
            assert(hm.schema.columns.subrange(0, i + 1) =~= hm.schema.columns.subrange(
                0,
                i as int,
            ).push(cm));
            assert(out@ =~= head1 + enc_cols(hm.schema.columns.subrange(0, i + 1)));
        }
        i = i + 1;
    }
    proof {
        assert(hm.schema.columns.subrange(0, n as int) =~= hm.schema.columns);
    }
    crate::codec::push_be4(out, h.num_pages);
    crate::codec::push_be4(out, h.page_byte_size);
    crate::codec::push_be4(out, h.page_capacity);
    crate::codec::push_be4(out, h.free_pages.len() as u32);
    let ghost head2 = head1 + enc_cols(hm.schema.columns) + be4(hm.num_pages) + be4(
        hm.page_byte_size,
    ) + be4(hm.page_capacity) + be4(hm.free_pages.len() as u32);
    assert(out@ =~= head2);
    let m = h.free_pages.len();
    let mut j: usize = 0;
    while j < m
        invariant
            j <= m,
            m == h.free_pages.len(),
            hm == h@,
            out@ =~= head2 + enc_frees(hm.free_pages.subrange(0, j as int)),
        decreases m - j,
    {
        crate::codec::push_be4(out, h.free_pages[j]);
        proof {
            lemma_enc_frees_push(hm.free_pages.subrange(0, j as int), hm.free_pages[j as int]);
            assert(hm.free_pages.subrange(0, j + 1) =~= hm.free_pages.subrange(0, j as int).push(
                hm.free_pages[j as int],
            ));
            assert(out@ =~= head2 + enc_frees(hm.free_pages.subrange(0, j + 1)));
        }
        j = j + 1;
    }
    proof {
        assert(hm.free_pages.subrange(0, m as int) =~= hm.free_pages);
        assert(out@ =~= old(out)@ + enc_header(hm));
    }
}


/// A decode of a string value yields the `Char` constructor.
proof fn lemma_char_decode(r: Option<(TableValue, usize)>, pos: int, s: Seq<char>)
    requires
        crate::codec::decoded_value(r, pos, ValueModel::Char(s)),
    ensures
        r matches Some(p) && (p.0 matches TableValue::Char(nm) && nm@ == s && p.1 == pos
            + enc_value(ValueModel::Char(s)).len()),
{
    match r {
        Some((v, e)) => {
            match v {
                TableValue::Char(_) => {},
                _ => {},
            }
        },
        None => {},
    }
}

/// The decoder returned exactly the header `h`, consuming its encoding.
pub open spec fn decoded_header(r: Option<(PageHeader, usize)>, pos: int, h: HeaderModel) -> bool {
    match r {
        Some((ph, end)) => ph@ == h && end == pos + enc_header(h).len(),
        None => false,
    }
}

/// Offsets of the parts of a header encoding standing in `b` at `pos`.
proof fn lemma_enc_header_parts(h: HeaderModel, b: Seq<u8>, pos: int)
    requires
        is_enc_at(b, pos, enc_header(h)),
        header_valid(h),
    ensures
        ({
            let e1 = enc_value(ValueModel::Char(h.schema.table_name));
            let p2 = pos + e1.len();
            let p3 = p2 + 4;
            let p4 = p3 + enc_cols(h.schema.columns).len();
            &&& is_enc_at(b, pos, e1)
            &&& is_enc_at(b, p2, be4(h.schema.columns.len() as u32))
            &&& is_enc_at(b, p3, enc_cols(h.schema.columns))
            &&& is_enc_at(b, p4, be4(h.num_pages))
            &&& is_enc_at(b, p4 + 4, be4(h.page_byte_size))
            &&& is_enc_at(b, p4 + 8, be4(h.page_capacity))
            &&& is_enc_at(b, p4 + 12, be4(h.free_pages.len() as u32))
            &&& is_enc_at(b, p4 + 16, enc_frees(h.free_pages))
        }),
{
    let e1 = enc_value(ValueModel::Char(h.schema.table_name));
    let e2 = be4(h.schema.columns.len() as u32);
    let e3 = enc_cols(h.schema.columns);
    let e4 = be4(h.num_pages);
    let e5 = be4(h.page_byte_size);
    let e6 = be4(h.page_capacity);
    let e7 = be4(h.free_pages.len() as u32);
    let e8 = enc_frees(h.free_pages);
    assert(enc_header(h) =~= e1 + (e2 + (e3 + (e4 + (e5 + (e6 + (e7 + e8)))))));
    lemma_enc_at_concat(b, pos, e1, e2 + (e3 + (e4 + (e5 + (e6 + (e7 + e8))))));
    lemma_enc_at_concat(b, pos + e1.len(), e2, e3 + (e4 + (e5 + (e6 + (e7 + e8)))));
    lemma_enc_at_concat(b, pos + e1.len() + 4, e3, e4 + (e5 + (e6 + (e7 + e8))));
    lemma_enc_at_concat(b, pos + e1.len() + 4 + e3.len(), e4, e5 + (e6 + (e7 + e8)));
    lemma_enc_at_concat(b, pos + e1.len() + 4 + e3.len() + 4, e5, e6 + (e7 + e8));
    lemma_enc_at_concat(b, pos + e1.len() + 4 + e3.len() + 8, e6, e7 + e8);
    lemma_enc_at_concat(b, pos + e1.len() + 4 + e3.len() + 12, e7, e8);
}

/// Offsets of the parts of one column encoding standing in `b` at `pos`.
proof fn lemma_enc_col_parts(c: ColumnModel, b: Seq<u8>, pos: int)
    requires
        is_enc_at(b, pos, enc_col(c)),
        col_valid(c),
    ensures
        is_enc_at(b, pos, enc_value(ValueModel::Char(c.name))),
        is_enc_at(b, pos + enc_value(ValueModel::Char(c.name)).len(), enc_datatype(c.datatype)),
        is_enc_at(
            b,
            pos + enc_value(ValueModel::Char(c.name)).len() + enc_datatype(c.datatype).len(),
            seq![
                if c.is_primary_key {
                    1u8
                } else {
                    0u8
                },
            ],
        ),
        c.datatype matches DataType::Char(n) ==> is_enc_at(
            b,
            pos + enc_value(ValueModel::Char(c.name)).len() + 1,
            be4(n as u32),
        ),
{
    let e1 = enc_value(ValueModel::Char(c.name));
    let e2 = enc_datatype(c.datatype);
    let e3 = seq![
        if c.is_primary_key {
            1u8
        } else {
            0u8
        },
    ];
    assert(enc_col(c) =~= e1 + (e2 + e3));
    lemma_enc_at_concat(b, pos, e1, e2 + e3);
    lemma_enc_at_concat(b, pos + e1.len(), e2, e3);
    match c.datatype {
        DataType::Char(n) => {
            assert(e2 =~= seq![3u8] + be4(n as u32));
            lemma_enc_at_concat(b, pos + e1.len(), seq![3u8], be4(n as u32));
        },
        _ => {},
    }
}

/// In a column list being decoded, once the first `i` columns are known to
/// match, the next column's encoding stands at the cursor.
proof fn lemma_cols_step(
    cols: Seq<ColumnModel>,
    b: Seq<u8>,
    base: int,
    i: int,
    done: Seq<ColumnModel>,
    cur: int,
)
    requires
        forall|j: int| 0 <= j < cols.len() ==> col_valid(#[trigger] cols[j]),
        is_enc_at(b, base, enc_cols(cols)),
        0 <= i < cols.len(),
        done == cols.subrange(0, i),
        b.subrange(base, cur) == enc_cols(done),
        base <= cur <= b.len(),
    ensures
        col_valid(cols[i]),
        is_enc_at(b, cur, enc_col(cols[i])),
    decreases i,
{
    if i == 0 {
        assert(cur == base) by {
            assert(enc_cols(done).len() == 0) by {
                assert(done =~= Seq::<ColumnModel>::empty());
            }
            assert(b.subrange(base, cur).len() == cur - base);
        }
        assert(enc_cols(cols) =~= enc_col(cols[0]) + enc_cols(cols.drop_first()));
        lemma_enc_at_concat(b, base, enc_col(cols[0]), enc_cols(cols.drop_first()));
    } else {
        let t = cols.drop_first();
        assert(enc_cols(cols) =~= enc_col(cols[0]) + enc_cols(t));
        lemma_enc_at_concat(b, base, enc_col(cols[0]), enc_cols(t));
        assert forall|j: int| 0 <= j < t.len() implies col_valid(#[trigger] t[j]) by {
            assert(t[j] == cols[j + 1]);
        }
        assert(done[0] == cols[0]);
        assert(done.drop_first() =~= t.subrange(0, i - 1));
        assert(enc_cols(done) =~= enc_col(cols[0]) + enc_cols(done.drop_first()));
        let base2 = base + enc_col(cols[0]).len();
        assert(b.subrange(base2, cur) =~= enc_cols(done.drop_first())) by {
            lemma_subrange_concat(b, base, base2, cur);
            assert(b.subrange(base, cur) == b.subrange(base, base2) + b.subrange(base2, cur));
            assert(b.subrange(base, base2) == enc_col(cols[0]));
            assert forall|k: int| 0 <= k < b.subrange(base2, cur).len() implies b.subrange(
                base2,
                cur,
            )[k] == enc_cols(done.drop_first())[k] by {
                assert(b.subrange(base, cur)[enc_col(cols[0]).len() + k] == b.subrange(
                    base2,
                    cur,
                )[k]);
                assert(enc_cols(done)[enc_col(cols[0]).len() + k] == enc_cols(
                    done.drop_first(),
                )[k]);
            }
        }
        assert(t[i - 1] == cols[i]);
        lemma_cols_step(t, b, base2, i - 1, done.drop_first(), cur);
    }
}

/// Everything known about the next column while decoding the column list.
proof fn lemma_col_iter(
    h: HeaderModel,
    b: Seq<u8>,
    pos: int,
    p1: int,
    i: int,
    done: Seq<ColumnModel>,
    cur: int,
)
    requires
        header_valid(h),
        is_enc_at(b, pos, enc_header(h)),
        p1 == pos + enc_value(ValueModel::Char(h.schema.table_name)).len(),
        0 <= i < h.schema.columns.len(),
        done == h.schema.columns.subrange(0, i),
        b.subrange(p1 + 4, cur) == enc_cols(done),
        p1 + 4 <= cur <= b.len(),
    ensures
        ({
            let c = h.schema.columns[i];
            let e1 = enc_value(ValueModel::Char(c.name));
            &&& col_valid(c)
            &&& crate::codec::valid_model(ValueModel::Char(c.name))
            &&& is_enc_at(b, cur, enc_col(c))
            &&& is_enc_at(b, cur, e1)
            &&& is_enc_at(b, cur + e1.len(), enc_datatype(c.datatype))
            &&& b[cur + e1.len()] == enc_datatype(c.datatype)[0]
            &&& (c.datatype matches DataType::Char(n) ==> is_enc_at(
                b,
                cur + e1.len() + 1,
                be4(n as u32),
            ))
            &&& b[cur + e1.len() + enc_datatype(c.datatype).len()] == (if c.is_primary_key {
                1u8
            } else {
                0u8
            })
            &&& cur + enc_col(c).len() <= b.len()
        }),
{
    lemma_enc_header_parts(h, b, pos);
    lemma_cols_step(h.schema.columns, b, p1 + 4, i, done, cur);
    let c = h.schema.columns[i];
    lemma_enc_col_parts(c, b, cur);
    let e1 = enc_value(ValueModel::Char(c.name));
    assert(b[cur + e1.len()] == b.subrange(
        cur + e1.len(),
        cur + e1.len() + enc_datatype(c.datatype).len(),
    )[0]);
    let fpos = cur + e1.len() + enc_datatype(c.datatype).len();
    assert(b[fpos] == b.subrange(fpos, fpos + 1)[0]);
}

/// In a free list being decoded, once the first `i` numbers are known to
/// match, the next number's encoding stands at the cursor.
proof fn lemma_frees_step(fs: Seq<u32>, b: Seq<u8>, base: int, i: int, cur: int)
    requires
        is_enc_at(b, base, enc_frees(fs)),
        0 <= i < fs.len(),
        cur == base + 4 * i,
    ensures
        is_enc_at(b, cur, be4(fs[i])),
    decreases i,
{
    assert(enc_frees(fs) =~= be4(fs[0]) + enc_frees(fs.drop_first()));
    lemma_enc_at_concat(b, base, be4(fs[0]), enc_frees(fs.drop_first()));
    if i > 0 {
        assert(fs.drop_first()[i - 1] == fs[i]);
        lemma_frees_step(fs.drop_first(), b, base + 4, i - 1, cur);
    }
}

/// The encoding of a free list is four bytes per number.
proof fn lemma_enc_frees_len(fs: Seq<u32>)
    ensures
        enc_frees(fs).len() == 4 * fs.len(),
    decreases fs.len(),
{
    if fs.len() != 0 {
        lemma_enc_frees_len(fs.drop_first());
    }
}

/// Decodes a header. Whenever the bytes at `pos` hold the encoding of a
/// representable header, decoding returns exactly that header.
#[verifier::rlimit(100)]
#[verifier::spinoff_prover]
pub fn decode_header(bytes: &Vec<u8>, pos: usize) -> (r: Option<(PageHeader, usize)>)
    ensures
        forall|h: HeaderModel|
            header_valid(h) && is_enc_at(bytes@, pos as int, enc_header(h)) ==> decoded_header(
                r,
                pos as int,
                h,
            ),
{
    let blen = bytes.len();
    let dv0 = crate::codec::decode_value(bytes, pos);
    let name = match dv0 {
        Some((TableValue::Char(nm), p)) => (nm, p),
        _ => {
            proof {
                assert forall|h: HeaderModel|
                    header_valid(h) && is_enc_at(bytes@, pos as int, enc_header(h)) implies
                    false by {
                    lemma_enc_header_parts(h, bytes@, pos as int);
                    assert(crate::codec::valid_model(ValueModel::Char(h.schema.table_name)));
                    lemma_char_decode(dv0, pos as int, h.schema.table_name);
                }
            }
            return None;
        },
    };
    let (table_name, p1) = name;
    let ncols32 = match crate::codec::read_be4(bytes, p1) {
        Some((x, _)) => x,
        None => {
            proof {
                assert forall|h: HeaderModel|
                    header_valid(h) && is_enc_at(bytes@, pos as int, enc_header(h)) implies
                    false by {
                    lemma_enc_header_parts(h, bytes@, pos as int);
                    assert(crate::codec::valid_model(ValueModel::Char(h.schema.table_name)));
                    lemma_char_decode(dv0, pos as int, h.schema.table_name);
                }
            }
            return None;
        },
    };
    proof {
        assert forall|h: HeaderModel|
            header_valid(h) && is_enc_at(bytes@, pos as int, enc_header(h)) implies table_name@
            == h.schema.table_name && p1 == pos + enc_value(
            ValueModel::Char(h.schema.table_name),
        ).len() && ncols32 == h.schema.columns.len() by {
            lemma_enc_header_parts(h, bytes@, pos as int);
            assert(crate::codec::valid_model(ValueModel::Char(h.schema.table_name)));
            lemma_char_decode(dv0, pos as int, h.schema.table_name);
        }
    }
    let ncols = ncols32 as usize;
    let mut cols: Vec<Column> = Vec::new();
    let mut cur: usize = p1 + 4;
    let mut i: usize = 0;
    proof {
        assert(cols.deep_view() =~= Seq::<ColumnModel>::empty());
        assert(enc_cols(cols.deep_view()) == Seq::<u8>::empty());
        assert(bytes@.subrange(p1 + 4 as int, p1 + 4 as int) =~= Seq::<u8>::empty());
        assert forall|h: HeaderModel|
            header_valid(h) && is_enc_at(bytes@, pos as int, enc_header(h)) implies
            h.schema.columns.subrange(0, 0) == cols.deep_view() && bytes@.subrange(
            p1 + 4 as int,
            p1 + 4 as int,
        ) == enc_cols(cols.deep_view()) by {
            assert(h.schema.columns.subrange(0, 0) =~= cols.deep_view());
        }
    }
    while i < ncols
        invariant
            i <= ncols,
            p1 + 4 <= cur <= bytes@.len(),
            cols.len() == i,
            forall|h: HeaderModel|
                header_valid(h) && is_enc_at(bytes@, pos as int, enc_header(h)) ==> {
                    &&& p1 == pos + enc_value(ValueModel::Char(h.schema.table_name)).len()
                    &&& ncols == h.schema.columns.len()
                    &&& h.schema.columns.subrange(0, i as int) == cols.deep_view()
                    &&& bytes@.subrange(p1 + 4 as int, cur as int) == enc_cols(cols.deep_view())
                },
        decreases ncols - i,
    {
        let ghost old_cols = cols.deep_view();
        let ghost old_cur = cur as int;
        let dvc = crate::codec::decode_value(bytes, cur);
        let cname = match dvc {
            Some((TableValue::Char(nm), p)) => (nm, p),
            _ => {
                proof {
                    assert forall|h: HeaderModel|
                        header_valid(h) && is_enc_at(bytes@, pos as int, enc_header(h)) implies
                        false by {
                        lemma_col_iter(h, bytes@, pos as int, p1 as int, i as int, old_cols, old_cur);
                        lemma_char_decode(dvc, old_cur, h.schema.columns[i as int].name);
                    }
                }
                return None;
            },
        };
        let (col_name, pn) = cname;
        if pn >= bytes.len() {
            proof {
                assert forall|h: HeaderModel|
                    header_valid(h) && is_enc_at(bytes@, pos as int, enc_header(h)) implies
                    false by {
                    lemma_col_iter(h, bytes@, pos as int, p1 as int, i as int, old_cols, old_cur);
                    lemma_char_decode(dvc, old_cur, h.schema.columns[i as int].name);
                }
            }
            return None;
        }
        let dt_tag = bytes[pn];
        let dt = if dt_tag == 0 {
            (DataType::Boolean, pn + 1)
        } else if dt_tag == 1 {
            (DataType::Int, pn + 1)
        } else if dt_tag == 2 {
            (DataType::Real, pn + 1)
        } else if dt_tag == 3 {
            match crate::codec::read_be4(bytes, pn + 1) {
                Some((n, pend)) => (DataType::Char(n as usize), pend),
                None => {
                    proof {
                        assert forall|h: HeaderModel|
                            header_valid(h) && is_enc_at(bytes@, pos as int, enc_header(h)) implies
                            false by {
                            lemma_col_iter(h, bytes@, pos as int, p1 as int, i as int, old_cols, old_cur);
                            lemma_char_decode(dvc, old_cur, h.schema.columns[i as int].name);
                        }
                    }
                    return None;
                },
            }
        } else {
            proof {
                assert forall|h: HeaderModel|
                    header_valid(h) && is_enc_at(bytes@, pos as int, enc_header(h)) implies
                    false by {
                    lemma_col_iter(h, bytes@, pos as int, p1 as int, i as int, old_cols, old_cur);
                    lemma_char_decode(dvc, old_cur, h.schema.columns[i as int].name);
                }
            }
            return None;
        };
        let (datatype, pd) = dt;
        if pd >= bytes.len() {
            proof {
                assert forall|h: HeaderModel|
                    header_valid(h) && is_enc_at(bytes@, pos as int, enc_header(h)) implies
                    false by {
                    lemma_col_iter(h, bytes@, pos as int, p1 as int, i as int, old_cols, old_cur);
                    lemma_char_decode(dvc, old_cur, h.schema.columns[i as int].name);
                }
            }
            return None;
        }
        let flag = bytes[pd];
        if flag > 1 {
            proof {
                assert forall|h: HeaderModel|
                    header_valid(h) && is_enc_at(bytes@, pos as int, enc_header(h)) implies
                    false by {
                    lemma_col_iter(h, bytes@, pos as int, p1 as int, i as int, old_cols, old_cur);
                    lemma_char_decode(dvc, old_cur, h.schema.columns[i as int].name);
                }
            }
            return None;
        }
        let col = Column { name: col_name, datatype, is_primary_key: flag == 1 };
        let ghost cm = col@;
        cols.push(col);
        cur = pd + 1;
        proof {
            assert(cols.deep_view() =~= old_cols.push(cm));
            assert forall|h: HeaderModel|
                header_valid(h) && is_enc_at(bytes@, pos as int, enc_header(h)) implies
                h.schema.columns.subrange(0, i + 1) == cols.deep_view() && bytes@.subrange(
                p1 + 4 as int,
                cur as int,
            ) == enc_cols(cols.deep_view()) by {
                lemma_col_iter(h, bytes@, pos as int, p1 as int, i as int, old_cols, old_cur);
                let hc = h.schema.columns[i as int];
                let e1 = enc_value(ValueModel::Char(hc.name));
                lemma_char_decode(dvc, old_cur, hc.name);
                assert(pn == old_cur + e1.len());
                assert(bytes@[pn as int] == enc_datatype(hc.datatype)[0]);
                match hc.datatype {
                    DataType::Char(n) => {
                        assert(dt_tag == 3);
                        assert(cm == hc);
                        assert(pd == pn + 5);
                    },
                    _ => {
                        assert(cm == hc);
                        assert(pd == pn + 1);
                    },
                }
                assert(bytes@.subrange(old_cur, cur as int) == enc_col(hc)) by {
                    assert(bytes@.subrange(old_cur, pn as int) == e1);
                    assert(bytes@.subrange(pn as int, pd as int) == enc_datatype(hc.datatype)) by {
                        match hc.datatype {
                            DataType::Char(n) => {
                                assert(bytes@.subrange(pn + 1 as int, pd as int) == be4(
                                    n as u32,
                                ));
                                assert(bytes@.subrange(pn as int, pd as int) =~= seq![3u8] + be4(
                                    n as u32,
                                ));
                            },
                            _ => {
                                assert(bytes@.subrange(pn as int, pd as int) =~= enc_datatype(
                                    hc.datatype,
                                ));
                            },
                        }
                    }
                    assert(bytes@.subrange(pd as int, cur as int) =~= seq![
                        if hc.is_primary_key {
                            1u8
                        } else {
                            0u8
                        },
                    ]);
                    lemma_subrange_concat(bytes@, old_cur, pn as int, pd as int);
                    lemma_subrange_concat(bytes@, old_cur, pd as int, cur as int);
                    assert(enc_col(hc) =~= e1 + enc_datatype(hc.datatype) + seq![
                        if hc.is_primary_key {
                            1u8
                        } else {
                            0u8
                        },
                    ]);
                }
                assert(h.schema.columns.subrange(0, i + 1) =~= old_cols.push(hc));
                lemma_enc_cols_push(old_cols, hc);
                lemma_subrange_concat(bytes@, p1 + 4, old_cur, cur as int);
            }
        }
        i = i + 1;
    }
    let num_pages = match crate::codec::read_be4(bytes, cur) {
        Some((x, _)) => x,
        None => {
            proof {
                assert forall|h: HeaderModel|
                    header_valid(h) && is_enc_at(bytes@, pos as int, enc_header(h)) implies
                    false by {
                    lemma_enc_header_parts(h, bytes@, pos as int);
                    assert(h.schema.columns.subrange(0, ncols as int) =~= h.schema.columns);
                }
            }
            return None;
        },
    };
    proof {
        assert forall|h: HeaderModel|
            header_valid(h) && is_enc_at(bytes@, pos as int, enc_header(h)) implies cur == p1 + 4
            + enc_cols(h.schema.columns).len() by {
            assert(h.schema.columns.subrange(0, ncols as int) =~= h.schema.columns);
            assert(bytes@.subrange(p1 + 4 as int, cur as int).len() == cur - (p1 + 4));
        }
    }
    let pbs = match crate::codec::read_be4(bytes, cur + 4) {
        Some((x, _)) => x,
        None => {
            proof {
                assert forall|h: HeaderModel|
                    header_valid(h) && is_enc_at(bytes@, pos as int, enc_header(h)) implies
                    false by {
                    lemma_enc_header_parts(h, bytes@, pos as int);
                }
            }
            return None;
        },
    };
    let cap = match crate::codec::read_be4(bytes, cur + 8) {
        Some((x, _)) => x,
        None => {
            proof {
                assert forall|h: HeaderModel|
                    header_valid(h) && is_enc_at(bytes@, pos as int, enc_header(h)) implies
                    false by {
                    lemma_enc_header_parts(h, bytes@, pos as int);
                }
            }
            return None;
        },
    };
    let nfree32 = match crate::codec::read_be4(bytes, cur + 12) {
        Some((x, _)) => x,
        None => {
            proof {
                assert forall|h: HeaderModel|
                    header_valid(h) && is_enc_at(bytes@, pos as int, enc_header(h)) implies
                    false by {
                    lemma_enc_header_parts(h, bytes@, pos as int);
                }
            }
            return None;
        },
    };
    let nfree = nfree32 as usize;
    let fbase = cur + 16;
    let mut frees: Vec<u32> = Vec::new();
    let mut j: usize = 0;
    let mut cur2: usize = fbase;
    let blen_bound = bytes.len();
    proof {
        assert(blen_bound == bytes@.len());
        assert(bytes@.len() <= usize::MAX);
        assert forall|h: HeaderModel|
            header_valid(h) && is_enc_at(bytes@, pos as int, enc_header(h)) implies nfree
            == h.free_pages.len() && is_enc_at(bytes@, fbase as int, enc_frees(h.free_pages))
            && frees@ == h.free_pages.subrange(0, 0) by {
            lemma_enc_header_parts(h, bytes@, pos as int);
            assert(frees@ =~= h.free_pages.subrange(0, 0));
        }
    }
    while j < nfree
        invariant
            j <= nfree,
            nfree <= u32::MAX,
            frees.len() == j,
            fbase == cur + 16,
            cur2 == fbase + 4 * j,
            cur2 <= bytes@.len() || j == 0,
            bytes@.len() <= usize::MAX,
            forall|h: HeaderModel|
                header_valid(h) && is_enc_at(bytes@, pos as int, enc_header(h)) ==> {
                    &&& nfree == h.free_pages.len()
                    &&& is_enc_at(bytes@, fbase as int, enc_frees(h.free_pages))
                    &&& frees@ == h.free_pages.subrange(0, j as int)
                },
        decreases nfree - j,
    {
        if fbase > usize::MAX - 4 || j > (usize::MAX - fbase - 4) / 4 {
            proof {
                assert forall|h: HeaderModel|
                    header_valid(h) && is_enc_at(bytes@, pos as int, enc_header(h)) implies
                    false by {
                    lemma_enc_frees_len(h.free_pages);
                    assert(fbase + 4 * nfree <= bytes@.len());
                    assert(4 * j + 4 <= 4 * nfree) by (nonlinear_arith)
                        requires
                            j < nfree,
                    ;
                    assert(j <= (usize::MAX - fbase - 4) / 4) by (nonlinear_arith)
                        requires
                            4 * j <= usize::MAX - fbase - 4,
                    ;
                }
            }
            return None;
        }
        match crate::codec::read_be4(bytes, fbase + 4 * j) {
            Some((f, fin)) => {
                cur2 = fin;
                frees.push(f);
                proof {
                    assert forall|h: HeaderModel|
                        header_valid(h) && is_enc_at(bytes@, pos as int, enc_header(h)) implies
                        frees@ == h.free_pages.subrange(0, j + 1) by {
                        lemma_frees_step(h.free_pages, bytes@, fbase as int, j as int, fbase + 4 * j);
                        assert(h.free_pages.subrange(0, j + 1) =~= h.free_pages.subrange(
                            0,
                            j as int,
                        ).push(h.free_pages[j as int]));
                    }
                }
            },
            None => {
                proof {
                    assert forall|h: HeaderModel|
                        header_valid(h) && is_enc_at(bytes@, pos as int, enc_header(h)) implies
                        false by {
                        lemma_frees_step(h.free_pages, bytes@, fbase as int, j as int, fbase + 4 * j);
                    }
                }
                return None;
            },
        }
        j = j + 1;
    }
    let header = PageHeader {
        schema: Schema { table_name, columns: cols },
        num_pages,
        page_byte_size: pbs,
        page_capacity: cap,
        free_pages: frees,
    };
    let end = cur2;
    proof {
        assert forall|h: HeaderModel|
            header_valid(h) && is_enc_at(bytes@, pos as int, enc_header(h)) implies decoded_header(
            Some((header, end)),
            pos as int,
            h,
        ) by {
            lemma_enc_header_parts(h, bytes@, pos as int);
            lemma_enc_frees_len(h.free_pages);
            assert(h.free_pages.subrange(0, nfree as int) =~= h.free_pages);
            assert(h.schema.columns.subrange(0, ncols as int) =~= h.schema.columns);
            assert(header@.schema.columns =~= h.schema.columns);
            assert(num_pages == h.num_pages);
            assert(pbs == h.page_byte_size);
            assert(cap == h.page_capacity);
            assert(header@ == h);
            assert(end == pos + enc_header(h).len());
        }
    }
    Some((header, end))
}


/// A run of zero bytes.
pub open spec fn zeros(n: int) -> Seq<u8> {
    Seq::new(if n >= 0 {
        n as nat
    } else {
        0
    }, |i: int| 0u8)
}

/// A byte run padded with zeros to a region size.
pub open spec fn pad_to(e: Seq<u8>, n: int) -> Seq<u8> {
    e + zeros(n - e.len())
}

/// The header region: the length-prefixed header, zero-padded to one page.
pub open spec fn header_region_spec(h: HeaderModel, pbs: int) -> Seq<u8> {
    pad_to(seq![4u8] + le4(enc_header(h).len() as u32) + enc_header(h), pbs)
}

/// The data page regions, each an encoded page zero-padded to the page size.
pub open spec fn page_regions(ps: Seq<Vec<Option<Vec<TableValue>>>>, pbs: int) -> Seq<u8>
    decreases ps.len(),
{
    if ps.len() == 0 {
        Seq::empty()
    } else {
        pad_to(enc_page(page_model(ps[0])), pbs) + page_regions(ps.drop_first(), pbs)
    }
}

/// The pager: the header and the in-memory data pages; `pages[i]` is page
/// number `i + 1`.
#[derive(Debug)]
pub struct Pager {
    pub header: PageHeader,
    pub pages: Vec<Vec<Option<Vec<TableValue>>>>,
}

/// The whole on-disk image of the store.
pub open spec fn spec_file_image(q: Pager) -> Seq<u8> {
    header_region_spec(q.header@, q.header.page_byte_size as int) + page_regions(
        q.pages@,
        q.header.page_byte_size as int,
    )
}

/// A page of the store has an empty slot.
pub open spec fn page_has_empty(p: Seq<Option<Seq<ValueModel>>>) -> bool {
    exists|s: int| 0 <= s < p.len() && p[s] is None
}

/// The free list holds a page number.
pub open spec fn free_contains(fs: Seq<u32>, p: int) -> bool {
    exists|i: int| 0 <= i < fs.len() && fs[i] == p
}

/// Well-formedness of the pager: a valid, representable schema; one
/// in-memory page per allocated page number, each with `page_capacity`
/// slots whose rows match the schema; a capacity that keeps every encoded
/// page within the page size and every slot number within its 16-bit
/// field; and a strictly ascending free list holding exactly the pages
/// that still have an empty slot.
pub open spec fn pager_wf(q: Pager) -> bool {
    let h = q.header@;
    &&& schema_valid(h.schema)
    &&& header_valid(h)
    &&& crate::value::lower_seq(h.schema.table_name) == h.schema.table_name
    &&& h.num_pages as int == q.pages@.len()
    &&& 1 <= h.page_capacity <= u16::MAX
    &&& 5 + spec_row_size(h.schema.columns) * (h.page_capacity as int) <= h.page_byte_size as int
    &&& forall|i: int| 0 <= i < q.pages@.len() ==> (#[trigger] page_model(q.pages@[i])).len()
        == h.page_capacity
    &&& forall|i: int, s: int|
        0 <= i < q.pages@.len() && 0 <= s < page_model(q.pages@[i]).len() ==> ((
        #[trigger] page_model(q.pages@[i])[s]) matches Some(r) ==> row_matches_columns(
            r,
            h.schema.columns,
        ))
    &&& forall|a: int, b: int| 0 <= a < b < h.free_pages.len() ==> h.free_pages[a]
        < h.free_pages[b]
    &&& forall|i: int| 0 <= i < h.free_pages.len() ==> 1 <= #[trigger] h.free_pages[i]
        <= h.num_pages
    &&& forall|p: int| 1 <= p <= h.num_pages ==> (page_has_empty(
        page_model(q.pages@[p - 1]),
    ) <==> free_contains(h.free_pages, p))
}

/// The shape the table layer maintains: pages fill front to back, a page
/// is allocated only when none is free, so at most the last page has empty
/// slots and every page is a run of rows followed by a run of empty slots.
pub open spec fn append_shape(q: Pager) -> bool {
    &&& (q.header@.free_pages.len() == 0 || (q.header@.free_pages.len() == 1
        && q.header@.free_pages[0] == q.header@.num_pages))
    &&& forall|i: int, s1: int, s2: int|
        0 <= i < q.pages@.len() && 0 <= s1 < s2 < page_model(q.pages@[i]).len() ==> ((
        #[trigger] page_model(q.pages@[i])[s2]) is Some ==> (#[trigger] page_model(
            q.pages@[i],
        )[s1]) is Some)
}

/// The rows of one page, in slot order.
pub open spec fn page_rows(p: Seq<Option<Seq<ValueModel>>>) -> Seq<Seq<ValueModel>>
    decreases p.len(),
{
    if p.len() == 0 {
        Seq::empty()
    } else {
        match p[0] {
            Some(r) => seq![r] + page_rows(p.drop_first()),
            None => page_rows(p.drop_first()),
        }
    }
}

/// All stored rows, in ascending page and slot order.
pub open spec fn pager_rows(q: Pager) -> Seq<Seq<ValueModel>>
    decreases q.pages@.len(),
{
    pages_rows(q.pages@)
}

/// The rows of a run of pages, in order.
pub open spec fn pages_rows(ps: Seq<Vec<Option<Vec<TableValue>>>>) -> Seq<Seq<ValueModel>>
    decreases ps.len(),
{
    if ps.len() == 0 {
        Seq::empty()
    } else {
        page_rows(page_model(ps[0])) + pages_rows(ps.drop_first())
    }
}

/// Under a schema admitted by the capacity bound, every admissible row and
/// page is codec-representable.
pub proof fn lemma_wf_page_valid(q: Pager, i: int)
    requires
        pager_wf(q),
        0 <= i < q.pages@.len(),
    ensures
        valid_page(page_model(q.pages@[i])),
        enc_page(page_model(q.pages@[i])).len() <= q.header.page_byte_size as int,
{
    let h = q.header@;
    let pm = page_model(q.pages@[i]);
    assert forall|s: int| 0 <= s < pm.len() implies ((#[trigger] pm[s]) matches Some(r)
        ==> crate::codec::valid_row(r)) by {
        match pm[s] {
            Some(r) => {
                assert(row_matches_columns(r, h.schema.columns));
                lemma_row_valid(r, h.schema.columns, h.page_byte_size as int, h.page_capacity as int);
            },
            None => {},
        }
    }
    assert(spec_row_size(h.schema.columns) >= 0) by {
        crate::codec::lemma_sizes_sum_nonneg_pub(h.schema.columns);
    }
    lemma_enc_page_size(pm, h.schema.columns);
    assert(spec_row_size(h.schema.columns) * pm.len() <= spec_row_size(h.schema.columns) * (
    h.page_capacity as int)) by (nonlinear_arith)
        requires
            pm.len() <= h.page_capacity as int,
            spec_row_size(h.schema.columns) >= 0,
    ;
}

/// A row matching columns whose worst-case size fits a 32-bit page is
/// codec-representable.
pub proof fn lemma_row_valid(
    r: Seq<ValueModel>,
    cols: Seq<ColumnModel>,
    pbs: int,
    cap: int,
)
    requires
        row_matches_columns(r, cols),
        cap >= 1,
        5 + spec_row_size(cols) * cap <= pbs,
        pbs <= u32::MAX,
    ensures
        crate::codec::valid_row(r),
{
    crate::codec::lemma_sizes_sum_nonneg_pub(cols);
    assert(spec_row_size(cols) <= spec_row_size(cols) * cap) by (nonlinear_arith)
        requires
            cap >= 1,
            spec_row_size(cols) >= 0,
    ;
    assert forall|i: int| 0 <= i < r.len() implies crate::codec::valid_model(#[trigger] r[i]) by {
        assert(crate::value::model_matches_type(r[i], cols[i].datatype));
        crate::codec::lemma_sizes_sum_at(cols, i);
        match r[i] {
            ValueModel::Char(cs) => {
                crate::codec::lemma_utf8_len_bound(cs);
                assert(cs.len() <= crate::codec::max_value_size(cols[i].datatype));
            },
            _ => {},
        }
    }
}


/// Largest admissible slot count for one page: the most rows whose worst
/// case fits beside the array envelope, bounded by the 16-bit slot field.
pub open spec fn capacity_spec(row_size: int, pbs: int) -> int {
    if (pbs - 5) / row_size < u16::MAX as int {
        (pbs - 5) / row_size
    } else {
        u16::MAX as int
    }
}

/// Computes the page capacity: `Some` exactly when at least one worst-case
/// row fits in a page beside the five-byte envelope.
pub fn compute_capacity(row_size: u64, pbs: u32) -> (r: Option<u32>)
    requires
        row_size >= 1,
    ensures
        r is Some <==> 5 + row_size <= pbs,
        r matches Some(c) ==> {
            &&& c as int == capacity_spec(row_size as int, pbs as int)
            &&& 1 <= c <= u16::MAX
            &&& 5 + (row_size as int) * (c as int) <= pbs
            &&& (c < u16::MAX ==> 5 + (row_size as int) * (c as int + 1) > pbs)
        },
{
    if (pbs as u64) < 5 || row_size > (pbs as u64) - 5 {
        proof {
            if 5 + row_size <= pbs {
                assert(false);
            }
        }
        return None;
    }
    let c0 = ((pbs as u64) - 5) / row_size;
    let c: u64 = if c0 < (u16::MAX as u64) {
        c0
    } else {
        u16::MAX as u64
    };
    proof {
        let rs = row_size as int;
        let b = pbs as int - 5;
        assert(c0 as int == b / rs);
        assert(rs * (b / rs) <= b) by (nonlinear_arith)
            requires
                rs >= 1,
                b >= 0,
        ;
        assert(rs * (b / rs + 1) > b) by (nonlinear_arith)
            requires
                rs >= 1,
                b >= 0,
        ;
        assert(c0 >= 1);
        if c < c0 {
            assert(rs * (c as int) <= rs * (b / rs)) by (nonlinear_arith)
                requires
                    rs >= 1,
                    c as int <= b / rs,
            ;
        }
    }
    Some(c as u32)
}

/// Law: capacity grows with the page size. If two page sizes both admit a
/// schema, the smaller page never holds more rows than the larger.
pub proof fn lemma_capacity_monotonic(row_size: int, pbs1: int, pbs2: int)
    requires
        row_size >= 1,
        pbs1 <= pbs2,
        5 + row_size <= pbs1,
    ensures
        capacity_spec(row_size, pbs1) <= capacity_spec(row_size, pbs2),
{
    assert((pbs1 - 5) / row_size <= (pbs2 - 5) / row_size) by (nonlinear_arith)
        requires
            row_size >= 1,
            0 <= pbs1 - 5 <= pbs2 - 5,
    ;
}

/// The rows of a run of pages extend page by page.
pub proof fn lemma_pages_rows_push(ps: Seq<Vec<Option<Vec<TableValue>>>>, p: Vec<Option<Vec<TableValue>>>)
    ensures
        pages_rows(ps.push(p)) == pages_rows(ps) + page_rows(page_model(p)),
    decreases ps.len(),
{
    if ps.len() == 0 {
        assert(ps.push(p).drop_first() =~= Seq::<Vec<Option<Vec<TableValue>>>>::empty());
        assert(pages_rows(ps.push(p).drop_first()) == Seq::<Seq<ValueModel>>::empty());
        assert(ps =~= Seq::<Vec<Option<Vec<TableValue>>>>::empty());
        assert(pages_rows(ps) == Seq::<Seq<ValueModel>>::empty());
        assert(pages_rows(ps.push(p)) =~= page_rows(page_model(p)));
        assert(pages_rows(ps) + page_rows(page_model(p)) =~= page_rows(page_model(p)));
    } else {
        assert(ps.push(p).drop_first() =~= ps.drop_first().push(p));
        lemma_pages_rows_push(ps.drop_first(), p);
        assert(pages_rows(ps.push(p)) =~= pages_rows(ps) + page_rows(page_model(p)));
    }
}

/// An all-empty page stores no rows.
pub proof fn lemma_empty_page_rows(p: Seq<Option<Seq<ValueModel>>>)
    requires
        forall|s: int| 0 <= s < p.len() ==> (#[trigger] p[s]) is None,
    ensures
        page_rows(p) == Seq::<Seq<ValueModel>>::empty(),
    decreases p.len(),
{
    if p.len() != 0 {
        assert forall|s: int| 0 <= s < p.drop_first().len() implies (
        #[trigger] p.drop_first()[s]) is None by {
            assert(p.drop_first()[s] == p[s + 1]);
        }
        lemma_empty_page_rows(p.drop_first());
    }
}

/// A strictly ascending list of page numbers starting at one cannot be
/// longer than its largest entry.
proof fn lemma_free_index_bound(fs: Seq<u32>, i: int)
    requires
        forall|a: int, b: int| 0 <= a < b < fs.len() ==> fs[a] < fs[b],
        forall|k: int| 0 <= k < fs.len() ==> 1 <= #[trigger] fs[k],
        0 <= i < fs.len(),
    ensures
        fs[i] >= i + 1,
    decreases i,
{
    if i > 0 {
        lemma_free_index_bound(fs, i - 1);
    }
}

impl Pager {
    /// Creates the store for a schema: validates it, derives the page
    /// capacity, and checks that the header fits one page. Fails with
    /// `SchemaInvalid` on a bad schema and `PageTooSmall` when the page
    /// size cannot hold one worst-case row or the header.
    pub fn new(schema: Schema, page_byte_size: u32) -> (r: Result<Pager, ErrorKind>)
        ensures
            r is Ok <==> pager_new_ok(schema@, page_byte_size),
            r matches Err(e) ==> e is SchemaInvalid || e is PageTooSmall,
            header_valid_schema(schema@) && 5 + spec_row_size(schema@.columns) > page_byte_size
                ==> (r matches Err(e) && e is PageTooSmall),
            pager_new_sized(schema@, page_byte_size) && !schema_valid(schema@) ==> (r matches Err(
                e,
            ) && e is SchemaInvalid),
            r matches Ok(q) ==> {
                &&& pager_wf(q)
                &&& q.header@ == new_header_model(lowered_schema(schema@), page_byte_size)
                &&& q.header@.schema.table_name == crate::value::lower_seq(schema@.table_name)
                &&& q.header@.schema.columns == schema@.columns
                &&& q.header.num_pages == 0
                &&& q.header.page_byte_size == page_byte_size
                &&& q.header.page_capacity as int == capacity_spec(
                    spec_row_size(schema@.columns),
                    page_byte_size as int,
                )
                &&& q.header@.free_pages.len() == 0
                &&& q.pages@.len() == 0
                &&& pager_rows(q) == Seq::<Seq<ValueModel>>::empty()
            },
    {
        // Size and representability come first: a page too small for the
        // schema is reported before the schema rules are judged.
        if schema.table_name.as_str().as_bytes().len() > 0xffff_ffff {
            return Err(ErrorKind::SchemaInvalid(crate::SchemaFault::NameTooLong));
        }
        if schema.columns.len() > 0xffff_ffff {
            return Err(ErrorKind::SchemaInvalid(crate::SchemaFault::NameTooLong));
        }
        let mut ci: usize = 0;
        while ci < schema.columns.len()
            invariant
                ci <= schema.columns.len(),
                schema@.columns.len() <= u32::MAX,
                vstd::utf8::encode_utf8(schema@.table_name).len() <= u32::MAX,
                forall|j: int| 0 <= j < ci ==> col_valid(#[trigger] schema@.columns[j]),
            decreases schema.columns.len() - ci,
        {
            proof {
                assert(schema@.columns[ci as int] == schema.columns@[ci as int]@);
            }
            if schema.columns[ci].name.as_str().as_bytes().len() > 0xffff_ffff {
                proof {
                    assert(!col_valid(schema@.columns[ci as int]));
                    assert(!header_valid_schema(schema@));
                }
                return Err(ErrorKind::SchemaInvalid(crate::SchemaFault::NameTooLong));
            }
            match schema.columns[ci].datatype {
                DataType::Char(n) => {
                    if n > 0xffff_ffff {
                        proof {
                            assert(!col_valid(schema@.columns[ci as int]));
                            assert(!header_valid_schema(schema@));
                        }
                        return Err(ErrorKind::PageTooSmall);
                    }
                },
                _ => {},
            }
            proof {
                assert(col_valid(schema@.columns[ci as int]));
            }
            ci = ci + 1;
        }
        proof {
            assert(header_valid_schema(schema@));
        }
        let ser = MessagePackSerializer {};
        let sizes = ser.size(&schema.columns);
        proof {
            crate::codec::lemma_sizes_sum_nonneg_pub(schema@.columns);
            assert(sizes.row_size >= 1);
        }
        let cap = match compute_capacity(if sizes.row_size >= 1 {
            sizes.row_size
        } else {
            1
        }, page_byte_size) {
            Some(c) => c,
            None => {
                proof {
                    assert(5 + spec_row_size(schema@.columns) > page_byte_size) by {
                        if spec_row_size(schema@.columns) <= u64::MAX {
                            assert(sizes.row_size as int == spec_row_size(schema@.columns));
                        }
                    }
                }
                return Err(ErrorKind::PageTooSmall);
            },
        };
        proof {
            crate::codec::lemma_sizes_sum_nonneg_pub(schema@.columns);
            assert(sizes.row_size as int == spec_row_size(schema@.columns)) by {
                if spec_row_size(schema@.columns) > u64::MAX {
                    assert(sizes.row_size == u64::MAX);
                }
            }
        }
        let ghost orig = schema@;
        // The table name is stored lower-cased.
        let Schema { table_name, columns } = schema;
        let lowered_name = crate::value::ascii_lowercase(table_name.as_str());
        let stored = Schema { table_name: lowered_name, columns };
        proof {
            assert(stored@ == lowered_schema(orig));
            crate::value::lemma_lower_utf8_len(orig.table_name);
            crate::value::lemma_lower_idempotent(orig.table_name);
        }
        let header = PageHeader {
            schema: stored,
            num_pages: 0,
            page_byte_size,
            page_capacity: cap,
            free_pages: Vec::new(),
        };
        proof {
            assert(header@ =~= new_header_model(lowered_schema(orig), page_byte_size)) by {
                assert(header@.free_pages =~= Seq::<u32>::empty());
            }
            assert(header_valid(header@));
        }
        let mut hb: Vec<u8> = Vec::new();
        encode_header_into(&mut hb, &header);
        if hb.len() > (page_byte_size as usize) || 5 > (page_byte_size as usize) - hb.len() {
            proof {
                assert(5 + enc_header(new_header_model(lowered_schema(orig), page_byte_size)).len()
                    > page_byte_size);
            }
            return Err(ErrorKind::PageTooSmall);
        }
        // Only now are the schema rules judged, so that a page too small
        // is reported first, as the store's creation pipeline has it.
        match header.schema.validate() {
            Err(e) => {
                proof {
                    assert(!schema_valid(orig)) by {
                        assert(crate::value::lower_seq(orig.table_name).len()
                            == orig.table_name.len());
                    }
                }
                return Err(e);
            },
            Ok(()) => {},
        }
        let q = Pager { header, pages: Vec::new() };
        proof {
            assert(pager_rows(q) =~= Seq::<Seq<ValueModel>>::empty());
            let cols = q.header@.schema.columns;
            assert(q.header@.free_pages.len() == 0);
            assert(header_valid(q.header@));
            assert(5 + spec_row_size(cols) * (q.header.page_capacity as int)
                <= q.header.page_byte_size as int);
            assert(schema_valid(orig)) by {
                assert(crate::value::lower_seq(orig.table_name).len() == orig.table_name.len());
            }
            assert(pager_wf(q));
        }
        Ok(q)
    }

    /// Whether some allocated page still has an empty slot.
    pub fn has_free_pages(&self) -> (r: bool)
        ensures
            r == (self.header@.free_pages.len() > 0),
    {
        self.header.free_pages.len() > 0
    }

    /// The schema this store was created for.
    pub fn schema(&self) -> (s: &Schema)
        ensures
            s@ == self.header@.schema,
    {
        &self.header.schema
    }

    /// Decides whether the store has the append shape: at most the last
    /// page free, every page a run of rows before a run of empty slots.
    pub fn is_append_shaped(&self) -> (r: bool)
        ensures
            r == append_shape(*self),
    {
        if self.header.free_pages.len() > 1 {
            return false;
        }
        if self.header.free_pages.len() == 1 && self.header.free_pages[0]
            != self.header.num_pages {
            return false;
        }
        let n = self.pages.len();
        let mut i: usize = 0;
        while i < n
            invariant
                i <= n,
                n == self.pages@.len(),
                forall|t: int, s1: int, s2: int|
                    0 <= t < i && 0 <= s1 < s2 < page_model(self.pages@[t]).len() ==> ((
                    #[trigger] page_model(self.pages@[t])[s2]) is Some ==> (#[trigger] page_model(
                        self.pages@[t],
                    )[s1]) is Some),
            decreases n - i,
        {
            let ghost pm = page_model(self.pages@[i as int]);
            let cap = self.pages[i].len();
            let mut sl: usize = 0;
            let mut seen_none = false;
            let ghost mut b: int = 0;
            while sl < cap
                invariant
                    sl <= cap,
                    i < n,
                    n == self.pages@.len(),
                    cap == self.pages@[i as int]@.len(),
                    pm == page_model(self.pages@[i as int]),
                    0 <= b <= sl as int,
                    seen_none <==> b < sl as int,
                    forall|t: int| 0 <= t < b ==> (#[trigger] pm[t]) is Some,
                    forall|t: int| b <= t < sl as int ==> !((#[trigger] pm[t]) is Some),
                decreases cap - sl,
            {
                proof {
                    assert(pm[sl as int] == slot_model_of(self.pages@[i as int]@[sl as int]));
                }
                match &self.pages[i][sl] {
                    None => {
                        seen_none = true;
                    },
                    Some(_) => {
                        if seen_none {
                            proof {
                                assert(!(pm[b] is Some) && pm[sl as int] is Some && b < sl as int);
                            }
                            return false;
                        }
                        proof {
                            b = sl + 1;
                        }
                    },
                }
                sl = sl + 1;
            }
            proof {
                assert forall|s1: int, s2: int|
                    0 <= s1 < s2 < pm.len() && (#[trigger] pm[s2]) is Some implies (
                #[trigger] pm[s1]) is Some by {
                    assert(s2 < b);
                }
            }
            i = i + 1;
        }
        true
    }

    /// Allocates one more page: an empty page is appended and its number
    /// joins the free list. Fails with `Full` when the page counter is
    /// exhausted.
    pub fn allocate_page(&mut self) -> (r: Result<(), ErrorKind>)
        requires
            pager_wf(*old(self)),
        ensures
            pager_wf(*final(self)),
            old(self).header.num_pages == u32::MAX <==> r is Err,
            r matches Err(e) ==> e is Full,
            r is Ok ==> {
                &&& final(self).header.num_pages == old(self).header.num_pages + 1
                &&& final(self).header@.schema == old(self).header@.schema
                &&& final(self).header.page_byte_size == old(self).header.page_byte_size
                &&& final(self).header.page_capacity == old(self).header.page_capacity
                &&& final(self).header@.free_pages == old(self).header@.free_pages.push(
                    (old(self).header.num_pages + 1) as u32,
                )
                &&& pager_rows(*final(self)) == pager_rows(*old(self))
                &&& final(self).pages@.len() == old(self).pages@.len() + 1
                &&& (forall|i: int|
                    0 <= i < old(self).pages@.len() ==> #[trigger] final(self).pages@[i] == old(
                        self,
                    ).pages@[i])
                &&& page_model(final(self).pages@[old(self).pages@.len() as int]).len() == old(
                    self,
                ).header.page_capacity
                &&& (forall|sl: int|
                    0 <= sl < old(self).header.page_capacity ==> (#[trigger] page_model(
                        final(self).pages@[old(self).pages@.len() as int],
                    )[sl]) is None)
            },
            r is Err ==> *final(self) == *old(self),
    {
        if self.header.num_pages == u32::MAX {
            return Err(ErrorKind::Full);
        }
        let new_page_number = self.header.num_pages + 1;
        let page: Vec<Option<Vec<TableValue>>> = vec_of_none(self.header.page_capacity as usize);
        let ghost old_pages = self.pages@;
        let ghost old_free = self.header.free_pages@;
        self.pages.push(page);
        self.header.num_pages = new_page_number;
        self.header.free_pages.push(new_page_number);
        proof {
            let q = *self;
            let h = q.header@;
            lemma_pages_rows_push(old_pages, q.pages@[old_pages.len() as int]);
            lemma_empty_page_rows(page_model(q.pages@[old_pages.len() as int]));
            assert(pager_rows(q) =~= pager_rows(*old(self)));
            assert forall|a: int, b: int| 0 <= a < b < h.free_pages.len() implies h.free_pages[a]
                < h.free_pages[b] by {
                if b < old_free.len() {
                } else {
                    assert(h.free_pages[b] == new_page_number);
                    if a < old_free.len() {
                        assert(h.free_pages[a] == old_free[a]);
                        assert(old_free[a] <= old(self).header.num_pages);
                    }
                }
            }
            assert forall|p: int| 1 <= p <= h.num_pages implies (page_has_empty(
                page_model(q.pages@[p - 1]),
            ) <==> free_contains(h.free_pages, p)) by {
                if p <= old_pages.len() {
                    assert(q.pages@[p - 1] == old_pages[p - 1]);
                    assert(page_has_empty(page_model(old_pages[p - 1])) <==> free_contains(
                        old_free,
                        p,
                    ));
                    if free_contains(old_free, p) {
                        let w = choose|w: int| 0 <= w < old_free.len() && old_free[w] == p;
                        assert(h.free_pages[w] == p);
                    }
                    if free_contains(h.free_pages, p) {
                        let w = choose|w: int|
                            0 <= w < h.free_pages.len() && h.free_pages[w] == p;
                        assert(w < old_free.len());
                        assert(old_free[w] == p);
                    }
                } else {
                    assert(p == new_page_number);
                    assert(page_model(q.pages@[p - 1]).len() == h.page_capacity);
                    assert(page_model(q.pages@[p - 1])[0] is None);
                    assert(page_has_empty(page_model(q.pages@[p - 1])));
                    assert(h.free_pages[old_free.len() as int] == p);
                    assert(free_contains(h.free_pages, p));
                }
            }
            assert forall|i: int| 0 <= i < q.pages@.len() implies (#[trigger] page_model(
                q.pages@[i],
            )).len() == h.page_capacity by {
                if i < old_pages.len() {
                    assert(q.pages@[i] == old_pages[i]);
                }
            }
            assert forall|i: int, sl: int|
                0 <= i < q.pages@.len() && 0 <= sl < page_model(q.pages@[i]).len() implies ((
            #[trigger] page_model(q.pages@[i])[sl]) matches Some(rr) ==> row_matches_columns(
                rr,
                h.schema.columns,
            )) by {
                if i < old_pages.len() {
                    assert(q.pages@[i] == old_pages[i]);
                }
            }
            assert forall|i: int| 0 <= i < h.free_pages.len() implies 1 <= #[trigger] h.free_pages[i]
                <= h.num_pages by {
                if i < old_free.len() {
                    assert(h.free_pages[i] == old_free[i]);
                } else {
                    assert(h.free_pages[i] == new_page_number);
                }
            }
            assert(h.free_pages.len() <= u32::MAX) by {
                if h.free_pages.len() > u32::MAX {
                    lemma_free_index_bound(h.free_pages, u32::MAX as int);
                }
            }
            assert(pager_wf(q));
        }
        Ok(())
    }
}

/// A page of `n` empty slots.
fn vec_of_none(n: usize) -> (v: Vec<Option<Vec<TableValue>>>)
    ensures
        v@.len() == n,
        forall|i: int| 0 <= i < n ==> (#[trigger] v@[i]) is None,
        forall|i: int| 0 <= i < n ==> (#[trigger] page_model(v)[i]) is None,
        page_model(v).len() == n,
{
    let mut v: Vec<Option<Vec<TableValue>>> = Vec::new();
    let mut i: usize = 0;
    while i < n
        invariant
            i <= n,
            v@.len() == i,
            forall|j: int| 0 <= j < i ==> (#[trigger] v@[j]) is None,
        decreases n - i,
    {
        v.push(None);
        i = i + 1;
    }
    v
}

/// A schema whose names and character capacities fit the codec's 32-bit
/// length fields.
pub open spec fn header_valid_schema(s: SchemaModel) -> bool {
    &&& vstd::utf8::encode_utf8(s.table_name).len() <= u32::MAX
    &&& s.columns.len() <= u32::MAX
    &&& forall|i: int| 0 <= i < s.columns.len() ==> col_valid(#[trigger] s.columns[i])
}

/// The header a fresh store for the schema carries: no pages, an empty
/// free list, and the largest admissible page capacity.
pub open spec fn new_header_model(s: SchemaModel, pbs: u32) -> HeaderModel {
    HeaderModel {
        schema: s,
        num_pages: 0,
        page_byte_size: pbs,
        page_capacity: capacity_spec(spec_row_size(s.columns), pbs as int) as u32,
        free_pages: Seq::empty(),
    }
}

/// The schema as the store records it: the table name lower-cased, the
/// columns as given.
pub open spec fn lowered_schema(s: SchemaModel) -> SchemaModel {
    SchemaModel { table_name: crate::value::lower_seq(s.table_name), columns: s.columns }
}

/// The size conditions of store creation, checked before the schema rules:
/// the schema is representable, one worst-case row fits a page beside the
/// array envelope, and the encoded header fits its page.
pub open spec fn pager_new_sized(s: SchemaModel, pbs: u32) -> bool {
    &&& header_valid_schema(s)
    &&& 5 + spec_row_size(s.columns) <= pbs
    &&& 5 + enc_header(new_header_model(lowered_schema(s), pbs)).len() <= pbs
}

/// Exactly when creating a store for the schema succeeds: the sizes fit
/// and the schema is valid.
pub open spec fn pager_new_ok(s: SchemaModel, pbs: u32) -> bool {
    &&& pager_new_sized(s, pbs)
    &&& schema_valid(s)
}


/// The rows of a page extend slot by slot.
proof fn lemma_page_rows_push(pm: Seq<Option<Seq<ValueModel>>>, sl: Option<Seq<ValueModel>>)
    ensures
        page_rows(pm.push(sl)) == page_rows(pm) + (match sl {
            Some(r) => seq![r],
            None => Seq::<Seq<ValueModel>>::empty(),
        }),
    decreases pm.len(),
{
    if pm.len() == 0 {
        assert(pm.push(sl).drop_first() =~= Seq::<Option<Seq<ValueModel>>>::empty());
        assert(page_rows(pm.push(sl).drop_first()) == Seq::<Seq<ValueModel>>::empty());
        assert(pm =~= Seq::<Option<Seq<ValueModel>>>::empty());
        assert(page_rows(pm) == Seq::<Seq<ValueModel>>::empty());
        match sl {
            Some(r) => {
                assert(page_rows(pm.push(sl)) =~= seq![r]);
                assert(page_rows(pm) + seq![r] =~= seq![r]);
            },
            None => {
                assert(page_rows(pm.push(sl)) =~= Seq::<Seq<ValueModel>>::empty());
            },
        }
    } else {
        assert(pm.push(sl).drop_first() =~= pm.drop_first().push(sl));
        lemma_page_rows_push(pm.drop_first(), sl);
        match pm[0] {
            Some(r0) => {
                assert(page_rows(pm.push(sl)) =~= page_rows(pm) + (match sl {
                    Some(r) => seq![r],
                    None => Seq::<Seq<ValueModel>>::empty(),
                }));
            },
            None => {
                assert(page_rows(pm.push(sl)) =~= page_rows(pm) + (match sl {
                    Some(r) => seq![r],
                    None => Seq::<Seq<ValueModel>>::empty(),
                }));
            },
        }
    }
}

impl Pager {
    /// Stores a row in the page on top of the free list, at its lowest
    /// empty slot; a page that thereby becomes full leaves the free list.
    /// Fails with `Full` exactly when no page has an empty slot.
    #[verifier::rlimit(100)]
    #[verifier::spinoff_prover]
    pub fn insert(&mut self, row: Vec<TableValue>) -> (r: Result<RecordID, ErrorKind>)
        requires
            pager_wf(*old(self)),
            row_matches_columns(row.deep_view(), old(self).header@.schema.columns),
        ensures
            pager_wf(*final(self)),
            r is Err <==> old(self).header@.free_pages.len() == 0,
            r matches Err(e) ==> e is Full && *final(self) == *old(self),
            r matches Ok(rid) ==> ({
                let h = old(self).header@;
                let p = h.free_pages.last() as int;
                let pm = page_model(old(self).pages@[p - 1]);
                let npm = pm.update(rid.slot as int, Some(row.deep_view()));
                &&& rid.page_number as int == p
                &&& 1 <= p <= h.num_pages
                &&& 0 <= rid.slot < pm.len()
                &&& pm[rid.slot as int] is None
                &&& (forall|t: int| 0 <= t < rid.slot ==> !((#[trigger] pm[t]) is None))
                &&& final(self).pages@.len() == old(self).pages@.len()
                &&& page_model(final(self).pages@[p - 1]) == npm
                &&& (forall|i: int|
                    0 <= i < old(self).pages@.len() && i != p - 1
                        ==> final(self).pages@[i] == old(self).pages@[i])
                &&& final(self).header@.schema == h.schema
                &&& final(self).header.num_pages == h.num_pages
                &&& final(self).header.page_byte_size == h.page_byte_size
                &&& final(self).header.page_capacity == h.page_capacity
                &&& final(self).header@.free_pages == (if page_has_empty(npm) {
                    h.free_pages
                } else {
                    h.free_pages.drop_last()
                })
            }),
    {
        let ghost h = self.header@;
        if self.header.free_pages.len() == 0 {
            return Err(ErrorKind::Full);
        }
        let p = self.header.free_pages[self.header.free_pages.len() - 1];
        let idx = (p - 1) as usize;
        proof {
            assert(free_contains(h.free_pages, p as int)) by {
                assert(h.free_pages[h.free_pages.len() - 1] == p);
            }
            assert(page_has_empty(page_model(self.pages@[p - 1])));
        }
        let ghost pm = page_model(self.pages@[p - 1]);
        let cap = self.pages[idx].len();
        let mut s: usize = 0;
        let mut found: bool = false;
        while s < cap && !found
            invariant
                s <= cap,
                idx < self.pages@.len(),
                cap == self.pages@[idx as int]@.len(),
                pm == page_model(self.pages@[idx as int]),
                !found ==> forall|t: int| 0 <= t < s ==> !((#[trigger] pm[t]) is None),
                found ==> s < cap && pm[s as int] is None && (forall|t: int|
                    0 <= t < s ==> !((#[trigger] pm[t]) is None)),
            decreases cap - s, (if found { 0int } else { 1int }),
        {
            let is_none = match &self.pages[idx][s] {
                None => true,
                Some(_) => false,
            };
            if is_none {
                found = true;
            } else {
                proof {
                    assert(pm[s as int] == slot_model_of(self.pages@[idx as int]@[s as int]));
                }
                s = s + 1;
            }
        }
        if !found {
            // Unreachable: a page on the free list has an empty slot.
            proof {
                assert(forall|t: int| 0 <= t < pm.len() ==> !((#[trigger] pm[t]) is None));
                assert(!page_has_empty(pm));
                assert(false);
            }
            return Err(ErrorKind::Full);
        }
        let ghost old_pages = self.pages@;
        let ghost old_free = self.header.free_pages@;
        self.pages[idx][s] = Some(row);
        let ghost npm = page_model(self.pages@[idx as int]);
        proof {
            assert(self.pages@ =~= old_pages.update(idx as int, self.pages@[idx as int]));
            assert(npm =~= pm.update(s as int, Some(row.deep_view())));
        }
        // Does the page still have an empty slot?
        let mut t: usize = 0;
        let mut still_free: bool = false;
        while t < cap && !still_free
            invariant
                t <= cap,
                idx < self.pages@.len(),
                cap == self.pages@[idx as int]@.len(),
                npm == page_model(self.pages@[idx as int]),
                !still_free ==> forall|u: int| 0 <= u < t ==> !((#[trigger] npm[u]) is None),
                still_free ==> t < cap && npm[t as int] is None,
            decreases cap - t, (if still_free { 0int } else { 1int }),
        {
            let is_none = match &self.pages[idx][t] {
                None => true,
                Some(_) => false,
            };
            if is_none {
                still_free = true;
            } else {
                proof {
                    assert(npm[t as int] == slot_model_of(self.pages@[idx as int]@[t as int]));
                }
                t = t + 1;
            }
        }
        if !still_free {
            let popped = self.header.free_pages.pop();
            proof {
                assert(!page_has_empty(npm));
                assert(self.header.free_pages@ =~= old_free.drop_last());
            }
        } else {
            proof {
                assert(page_has_empty(npm));
            }
        }
        proof {
            lemma_insert_wf(*old(self), *self, p as int, s as int, row.deep_view());
        }
        Ok(RecordID { page_number: p, slot: s as u16 })
    }
}

/// Model of one slot of a page vector.
pub open spec fn slot_model_of(s: Option<Vec<TableValue>>) -> Option<Seq<ValueModel>> {
    match s {
        Some(r) => Some(r.deep_view()),
        None => None,
    }
}

/// Storing an admissible row in the lowest empty slot of the top free
/// page, and dropping the page from the free list when it became full,
/// preserves the store invariant.
#[verifier::rlimit(100)]
#[verifier::spinoff_prover]
proof fn lemma_insert_wf(old_q: Pager, q: Pager, p: int, s: int, rv: Seq<ValueModel>)
    requires
        pager_wf(old_q),
        row_matches_columns(rv, old_q.header@.schema.columns),
        old_q.header@.free_pages.len() >= 1,
        p == old_q.header@.free_pages.last(),
        0 <= s < page_model(old_q.pages@[p - 1]).len(),
        page_model(old_q.pages@[p - 1])[s] is None,
        q.pages@ == old_q.pages@.update(p - 1, q.pages@[p - 1]),
        page_model(q.pages@[p - 1]) == page_model(old_q.pages@[p - 1]).update(s, Some(rv)),
        q.header.schema == old_q.header.schema,
        q.header.num_pages == old_q.header.num_pages,
        q.header.page_byte_size == old_q.header.page_byte_size,
        q.header.page_capacity == old_q.header.page_capacity,
        q.header@.free_pages == (if page_has_empty(page_model(q.pages@[p - 1])) {
            old_q.header@.free_pages
        } else {
            old_q.header@.free_pages.drop_last()
        }),
    ensures
        pager_wf(q),
{
    let h = old_q.header@;
    let nh = q.header@;
    let pm = page_model(old_q.pages@[p - 1]);
    let npm = page_model(q.pages@[p - 1]);
    assert(1 <= p <= h.num_pages) by {
        assert(h.free_pages[h.free_pages.len() - 1] == p);
    }
    assert forall|i: int| 0 <= i < q.pages@.len() implies (#[trigger] page_model(
        q.pages@[i],
    )).len() == nh.page_capacity by {
        if i != p - 1 {
            assert(q.pages@[i] == old_q.pages@[i]);
        }
    }
    assert forall|i: int, sl: int|
        0 <= i < q.pages@.len() && 0 <= sl < page_model(q.pages@[i]).len() implies ((
    #[trigger] page_model(q.pages@[i])[sl]) matches Some(rr) ==> row_matches_columns(
        rr,
        nh.schema.columns,
    )) by {
        if i != p - 1 {
            assert(q.pages@[i] == old_q.pages@[i]);
        } else {
            if sl != s {
                assert(npm[sl] == pm[sl]);
            }
        }
    }
    if page_has_empty(npm) {
        assert forall|pp: int| 1 <= pp <= nh.num_pages implies (page_has_empty(
            page_model(q.pages@[pp - 1]),
        ) <==> free_contains(nh.free_pages, pp)) by {
            if pp != p {
                assert(q.pages@[pp - 1] == old_q.pages@[pp - 1]);
            }
        }
    } else {
        assert forall|pp: int| 1 <= pp <= nh.num_pages implies (page_has_empty(
            page_model(q.pages@[pp - 1]),
        ) <==> free_contains(nh.free_pages, pp)) by {
            if pp != p {
                assert(q.pages@[pp - 1] == old_q.pages@[pp - 1]);
                if free_contains(h.free_pages, pp) {
                    let w = choose|w: int|
                        0 <= w < h.free_pages.len() && h.free_pages[w] == pp;
                    assert(w < h.free_pages.len() - 1) by {
                        if w == h.free_pages.len() - 1 {
                            assert(h.free_pages[w] == p);
                        }
                    }
                    assert(nh.free_pages[w] == pp);
                }
                if free_contains(nh.free_pages, pp) {
                    let w = choose|w: int|
                        0 <= w < nh.free_pages.len() && nh.free_pages[w] == pp;
                    assert(h.free_pages[w] == pp);
                }
            } else {
                assert(!page_has_empty(npm));
                if free_contains(nh.free_pages, p) {
                    let w = choose|w: int|
                        0 <= w < nh.free_pages.len() && nh.free_pages[w] == p;
                    assert(h.free_pages[w] == p);
                    assert(w < h.free_pages.len() - 1);
                    assert(h.free_pages[w] < h.free_pages[h.free_pages.len() - 1]);
                }
            }
        }
        assert forall|a: int, b: int| 0 <= a < b < nh.free_pages.len() implies nh.free_pages[a]
            < nh.free_pages[b] by {
            assert(nh.free_pages[a] == h.free_pages[a]);
            assert(nh.free_pages[b] == h.free_pages[b]);
        }
        assert forall|i: int| 0 <= i < nh.free_pages.len() implies 1 <= #[trigger] nh.free_pages[i]
            <= nh.num_pages by {
            assert(nh.free_pages[i] == h.free_pages[i]);
        }
    }
    assert(pager_wf(q));
}


/// The regions of a run of pages extend page by page.
proof fn lemma_page_regions_push(
    ps: Seq<Vec<Option<Vec<TableValue>>>>,
    p: Vec<Option<Vec<TableValue>>>,
    pbs: int,
)
    ensures
        page_regions(ps.push(p), pbs) == page_regions(ps, pbs) + pad_to(
            enc_page(page_model(p)),
            pbs,
        ),
    decreases ps.len(),
{
    if ps.len() == 0 {
        assert(ps.push(p).drop_first() =~= Seq::<Vec<Option<Vec<TableValue>>>>::empty());
        assert(page_regions(ps.push(p).drop_first(), pbs) == Seq::<u8>::empty());
        assert(ps =~= Seq::<Vec<Option<Vec<TableValue>>>>::empty());
        assert(page_regions(ps, pbs) == Seq::<u8>::empty());
        assert(page_regions(ps.push(p), pbs) =~= pad_to(enc_page(page_model(p)), pbs));
        assert(page_regions(ps, pbs) + pad_to(enc_page(page_model(p)), pbs) =~= pad_to(
            enc_page(page_model(p)),
            pbs,
        ));
    } else {
        assert(ps.push(p).drop_first() =~= ps.drop_first().push(p));
        lemma_page_regions_push(ps.drop_first(), p, pbs);
        assert(page_regions(ps.push(p), pbs) =~= page_regions(ps, pbs) + pad_to(
            enc_page(page_model(p)),
            pbs,
        ));
    }
}

/// Pushes zero bytes until the buffer reaches the target length.
fn pad_out(out: &mut Vec<u8>, target: usize)
    requires
        old(out)@.len() <= target,
    ensures
        final(out)@ == old(out)@ + zeros(target - old(out)@.len()),
        final(out)@.len() == target,
{
    while out.len() < target
        invariant
            old(out)@.len() <= out@.len() <= target,
            out@ =~= old(out)@ + zeros(out@.len() - old(out)@.len()),
        decreases target - out@.len(),
    {
        out.push(0u8);
        proof {
            assert(out@ =~= old(out)@ + zeros(out@.len() - old(out)@.len()));
        }
    }
    proof {
        assert(out@ =~= old(out)@ + zeros(target - old(out)@.len()));
    }
}

/// Appends all bytes of a buffer.
fn extend_bytes(out: &mut Vec<u8>, src: &Vec<u8>)
    ensures
        final(out)@ == old(out)@ + src@,
{
    let n = src.len();
    let mut i: usize = 0;
    while i < n
        invariant
            i <= n,
            n == src@.len(),
            out@ =~= old(out)@ + src@.subrange(0, i as int),
        decreases n - i,
    {
        out.push(src[i]);
        proof {
            assert(out@ =~= old(out)@ + src@.subrange(0, i + 1));
        }
        i = i + 1;
    }
    proof {
        assert(src@.subrange(0, n as int) =~= src@);
    }
}

impl Pager {
    /// One copy of every stored row, in ascending page and slot order.
    pub fn rows(&self) -> (out: Vec<Vec<TableValue>>)
        ensures
            out.deep_view() == pager_rows(*self),
    {
        let mut out: Vec<Vec<TableValue>> = Vec::new();
        let n = self.pages.len();
        let mut i: usize = 0;
        proof {
            assert(pages_rows(self.pages@.subrange(0, 0)) == Seq::<Seq<ValueModel>>::empty()) by {
                assert(self.pages@.subrange(0, 0) =~= Seq::<Vec<Option<Vec<TableValue>>>>::empty());
            }
            assert(out.deep_view() =~= pages_rows(self.pages@.subrange(0, 0)));
        }
        while i < n
            invariant
                i <= n,
                n == self.pages@.len(),
                out.deep_view() =~= pages_rows(self.pages@.subrange(0, i as int)),
            decreases n - i,
        {
            let ghost pm = page_model(self.pages@[i as int]);
            let cap = self.pages[i].len();
            let mut s: usize = 0;
            proof {
                assert(page_rows(pm.subrange(0, 0)) == Seq::<Seq<ValueModel>>::empty()) by {
                    assert(pm.subrange(0, 0) =~= Seq::<Option<Seq<ValueModel>>>::empty());
                }
                assert(out.deep_view() =~= pages_rows(self.pages@.subrange(0, i as int))
                    + page_rows(pm.subrange(0, 0)));
            }
            while s < cap
                invariant
                    s <= cap,
                    i < n,
                    n == self.pages@.len(),
                    cap == self.pages@[i as int]@.len(),
                    pm == page_model(self.pages@[i as int]),
                    out.deep_view() =~= pages_rows(self.pages@.subrange(0, i as int)) + page_rows(
                        pm.subrange(0, s as int),
                    ),
                decreases cap - s,
            {
                proof {
                    assert(pm[s as int] == slot_model_of(self.pages@[i as int]@[s as int]));
                    assert(pm.subrange(0, s + 1) =~= pm.subrange(0, s as int).push(pm[s as int]));
                    lemma_page_rows_push(pm.subrange(0, s as int), pm[s as int]);
                }
                match &self.pages[i][s] {
                    Some(rr) => {
                        let d = crate::value::row_dup(rr);
                        let ghost dvv = d.deep_view();
                        let ghost pre = out.deep_view();
                        out.push(d);
                        proof {
                            assert(out.deep_view() =~= pre + seq![dvv]);
                        }
                    },
                    None => {},
                }
                s = s + 1;
            }
            proof {
                assert(pm.subrange(0, cap as int) =~= pm);
                assert(self.pages@.subrange(0, i + 1) =~= self.pages@.subrange(0, i as int).push(
                    self.pages@[i as int],
                ));
                lemma_pages_rows_push(self.pages@.subrange(0, i as int), self.pages@[i as int]);
                assert(out.deep_view() =~= pages_rows(self.pages@.subrange(0, i + 1)));
            }
            i = i + 1;
        }
        proof {
            assert(self.pages@.subrange(0, n as int) =~= self.pages@);
            assert(out.deep_view() =~= pager_rows(*self));
        }
        out
    }

    /// The byte image of the whole store: the length-prefixed header
    /// padded to one page, then each encoded page padded to the page size.
    /// Fails with `PageTooSmall` exactly when the header, whose free list
    /// has grown since creation, no longer fits its page.
    pub fn flush(&self) -> (r: Result<Vec<u8>, ErrorKind>)
        requires
            pager_wf(*self),
        ensures
            r matches Ok(img) ==> img@ == spec_file_image(*self),
            r is Ok <==> 5 + enc_header(self.header@).len() <= self.header.page_byte_size && (
            self.pages@.len() + 1) * (self.header.page_byte_size as int) <= usize::MAX,
            r matches Err(e) ==> e is PageTooSmall,
    {
        let mut hb: Vec<u8> = Vec::new();
        encode_header_into(&mut hb, &self.header);
        let pbs = self.header.page_byte_size as usize;
        if hb.len() > pbs || 5 > pbs - hb.len() {
            return Err(ErrorKind::PageTooSmall);
        }
        let total_pages = self.pages.len();
        proof {
            assert(self.pages@.len() <= u32::MAX);
            assert((total_pages as int + 1) * (pbs as int) <= 0x1_0000_0000 * 0xffff_ffff)
                by (nonlinear_arith)
                requires
                    0 <= total_pages as int + 1 <= 0x1_0000_0000,
                    0 <= pbs as int <= 0xffff_ffff,
            ;
        }
        if (total_pages as u64 + 1) * (pbs as u64) > (usize::MAX as u64) {
            return Err(ErrorKind::PageTooSmall);
        }
        let mut out: Vec<u8> = Vec::new();
        proof {
            assert((1int) * (pbs as int) == pbs as int) by (nonlinear_arith);
            assert((total_pages as int + 1) * (pbs as int) >= (1int) * (pbs as int))
                by (nonlinear_arith)
                requires
                    pbs as int >= 0,
                    total_pages as int >= 0,
            ;
        }
        out.push(4u8);
        let hlen = hb.len() as u32;
        out.push(hlen as u8);
        out.push((hlen >> 8) as u8);
        out.push((hlen >> 16) as u8);
        out.push((hlen >> 24) as u8);
        extend_bytes(&mut out, &hb);
        proof {
            assert(out@ =~= seq![4u8] + le4(hlen) + enc_header(self.header@));
        }
        pad_out(&mut out, pbs);
        proof {
            assert(out@ =~= header_region_spec(self.header@, pbs as int));
            assert(page_regions(self.pages@.subrange(0, 0), pbs as int) == Seq::<u8>::empty()) by {
                assert(self.pages@.subrange(0, 0) =~= Seq::<Vec<Option<Vec<TableValue>>>>::empty());
            }
            assert(out@ =~= header_region_spec(self.header@, pbs as int) + page_regions(
                self.pages@.subrange(0, 0),
                pbs as int,
            ));
        }
        let n = self.pages.len();
        let mut i: usize = 0;
        while i < n
            invariant
                i <= n,
                n == self.pages@.len(),
                pbs == self.header.page_byte_size as usize,
                pager_wf(*self),
                out@.len() == (1 + i as int) * (pbs as int),
                (n as int + 1) * (pbs as int) <= usize::MAX,
                out@ =~= header_region_spec(self.header@, pbs as int) + page_regions(
                    self.pages@.subrange(0, i as int),
                    pbs as int,
                ),
            decreases n - i,
        {
            proof {
                assert((1 + i as int) * (pbs as int) + pbs as int == (2 + i as int) * (
                pbs as int)) by (nonlinear_arith);
                assert((2 + i as int) * (pbs as int) <= (n as int + 1) * (pbs as int))
                    by (nonlinear_arith)
                    requires
                        i as int + 2 <= n as int + 1,
                        pbs as int >= 0,
                ;
            }
            proof {
                lemma_wf_page_valid(*self, i as int);
            }
            let mut tmp: Vec<u8> = Vec::new();
            crate::codec::encode_page_into(&mut tmp, &self.pages[i]);
            let before = out.len();
            extend_bytes(&mut out, &tmp);
            proof {
                assert(out@.len() + (pbs - tmp@.len()) == before + pbs);
            }
            pad_out(&mut out, before + pbs);
            proof {
                let ghost pmv = page_model(self.pages@[i as int]);
                assert(out@ =~= header_region_spec(self.header@, pbs as int) + page_regions(
                    self.pages@.subrange(0, i as int),
                    pbs as int,
                ) + (tmp@ + zeros(pbs - tmp@.len())));
                assert(tmp@ + zeros(pbs - tmp@.len()) =~= pad_to(enc_page(pmv), pbs as int));
                lemma_page_regions_push(
                    self.pages@.subrange(0, i as int),
                    self.pages@[i as int],
                    pbs as int,
                );
                assert(self.pages@.subrange(0, i + 1) =~= self.pages@.subrange(0, i as int).push(
                    self.pages@[i as int],
                ));
                assert(out@ =~= header_region_spec(self.header@, pbs as int) + page_regions(
                    self.pages@.subrange(0, i + 1),
                    pbs as int,
                ));
            }
            i = i + 1;
        }
        proof {
            assert(self.pages@.subrange(0, n as int) =~= self.pages@);
            assert(out@ =~= spec_file_image(*self));
        }
        Ok(out)
    }
}


/// The hypothesis of the reload law: the bytes are the flushed image of a
/// well-formed store whose header fits its page.
pub open spec fn load_hyp(bytes: Seq<u8>, q0: Pager) -> bool {
    &&& pager_wf(q0)
    &&& 5 + enc_header(q0.header@).len() <= q0.header.page_byte_size
    &&& bytes == spec_file_image(q0)
}

/// The conclusion of the reload law: loading returned a store with the
/// same header and the same page contents.
pub open spec fn loaded_like(r: Result<Pager, ErrorKind>, q0: Pager) -> bool {
    match r {
        Ok(q) => {
            &&& q.header@ == q0.header@
            &&& q.pages@.len() == q0.pages@.len()
            &&& forall|i: int|
                0 <= i < q.pages@.len() ==> #[trigger] page_model(q.pages@[i]) == page_model(
                    q0.pages@[i],
                )
        },
        Err(_) => false,
    }
}

/// The facts the reload hypothesis yields about the bytes and the store.
proof fn lemma_load_facts(bytes: Seq<u8>, q0: Pager)
    requires
        load_hyp(bytes, q0),
    ensures
        bytes.len() == (q0.pages@.len() + 1) * (q0.header.page_byte_size as int),
        bytes.len() >= q0.header.page_byte_size,
        q0.header.page_byte_size >= 11,
        bytes[0] == 4u8,
        is_enc_at(bytes, 5, enc_header(q0.header@)),
        header_valid(q0.header@),
        schema_valid(q0.header@.schema),
        spec_row_size(q0.header@.schema.columns) >= 6,
        forall|t: int|
            0 <= t < q0.pages@.len() ==> is_enc_at(
                bytes,
                (t + 1) * (q0.header.page_byte_size as int),
                enc_page(page_model(#[trigger] q0.pages@[t])),
            ),
{
    lemma_image_round_trip(q0);
    let cols = q0.header@.schema.columns;
    crate::codec::lemma_sizes_sum_nonneg_pub(cols);
    assert(spec_row_size(cols) * (q0.header.page_capacity as int) >= 6) by (nonlinear_arith)
        requires
            spec_row_size(cols) >= 6,
            q0.header.page_capacity as int >= 1,
    ;
    assert(bytes.len() >= q0.header.page_byte_size) by (nonlinear_arith)
        requires
            bytes.len() == (q0.pages@.len() + 1) * (q0.header.page_byte_size as int),
            q0.pages@.len() >= 0,
            q0.header.page_byte_size >= 0,
    ;
}

/// A free list holds the number.
pub open spec fn seq_has(s: Seq<u32>, x: u32) -> bool {
    exists|i: int| 0 <= i < s.len() && s[i] == x
}

/// Two strictly ascending lists with the same members are equal.
proof fn lemma_sorted_unique_eq(a: Seq<u32>, b: Seq<u32>)
    requires
        forall|i: int, j: int| 0 <= i < j < a.len() ==> a[i] < a[j],
        forall|i: int, j: int| 0 <= i < j < b.len() ==> b[i] < b[j],
        forall|x: u32| seq_has(a, x) <==> seq_has(b, x),
    ensures
        a == b,
    decreases a.len(),
{
    if a.len() == 0 {
        if b.len() > 0 {
            assert(seq_has(b, b[0]));
            assert(seq_has(a, b[0]));
            assert(false);
        }
        assert(a =~= b);
    } else {
        assert(seq_has(a, a[0]));
        assert(seq_has(b, a[0]));
        assert(b.len() > 0);
        assert(seq_has(b, b[0]));
        assert(seq_has(a, b[0]));
        assert(a[0] == b[0]) by {
            let j = choose|j: int| 0 <= j < b.len() && b[j] == a[0];
            if j > 0 {
                assert(b[0] < b[j]);
            }
            let i = choose|i: int| 0 <= i < a.len() && a[i] == b[0];
            if i > 0 {
                assert(a[0] < a[i]);
            }
        }
        let ta = a.drop_first();
        let tb = b.drop_first();
        assert forall|x: u32| seq_has(ta, x) implies seq_has(tb, x) by {
            let i = choose|i: int| 0 <= i < ta.len() && ta[i] == x;
            assert(ta[i] == a[i + 1]);
            assert(a[0] < a[i + 1]);
            assert(seq_has(a, x)) by {
                assert(a[i + 1] == x);
            }
            let j = choose|j: int| 0 <= j < b.len() && b[j] == x;
            assert(j > 0) by {
                if j == 0 {
                    assert(b[0] == x);
                }
            }
            assert(tb[j - 1] == x);
        }
        assert forall|x: u32| seq_has(tb, x) implies seq_has(ta, x) by {
            let i = choose|i: int| 0 <= i < tb.len() && tb[i] == x;
            assert(tb[i] == b[i + 1]);
            assert(b[0] < b[i + 1]);
            assert(seq_has(b, x)) by {
                assert(b[i + 1] == x);
            }
            let j = choose|j: int| 0 <= j < a.len() && a[j] == x;
            assert(j > 0) by {
                if j == 0 {
                    assert(a[0] == x);
                }
            }
            assert(ta[j - 1] == x);
        }
        assert forall|i: int, j: int| 0 <= i < j < ta.len() implies ta[i] < ta[j] by {
            assert(ta[i] == a[i + 1] && ta[j] == a[j + 1]);
        }
        assert forall|i: int, j: int| 0 <= i < j < tb.len() implies tb[i] < tb[j] by {
            assert(tb[i] == b[i + 1] && tb[j] == b[j + 1]);
        }
        lemma_sorted_unique_eq(ta, tb);
        assert forall|k: int| 0 <= k < a.len() implies a[k] == b[k] by {
            if k > 0 {
                assert(ta[k - 1] == tb[k - 1]);
            }
        }
        assert(a =~= b);
    }
}

impl Pager {
    /// Rebuilds the store from its byte image: the length-prefixed header
    /// at page zero, then one encoded page per allocated page number.
    /// Every invariant of the store is checked against the decoded data;
    /// bytes that fail to parse or to validate yield `Corrupt` — and the
    /// image `flush` wrote for any well-formed store loads back to a store
    /// with the same header and pages.
    #[verifier::rlimit(100)]
    #[verifier::spinoff_prover]
    pub fn load_from(bytes: &Vec<u8>) -> (r: Result<Pager, ErrorKind>)
        ensures
            r matches Ok(q) ==> pager_wf(q),
            forall|q0: Pager| #[trigger] load_hyp(bytes@, q0) ==> loaded_like(r, q0),
    {
        if bytes.len() < 5 || bytes[0] != 4 {
            proof {
                assert forall|q0: Pager| load_hyp(bytes@, q0) implies false by {
                    lemma_load_facts(bytes@, q0);
                }
            }
            return Err(ErrorKind::Corrupt);
        }
        let decoded = decode_header(bytes, 5);
        let hp = match decoded {
            Some(x) => x,
            None => {
                proof {
                    assert forall|q0: Pager| load_hyp(bytes@, q0) implies false by {
                        lemma_load_facts(bytes@, q0);
                        assert(decoded_header(decoded, 5, q0.header@));
                    }
                }
                return Err(ErrorKind::Corrupt);
            },
        };
        let (header, _hend) = hp;
        proof {
            assert forall|q0: Pager| load_hyp(bytes@, q0) implies header@ == q0.header@ by {
                lemma_load_facts(bytes@, q0);
                assert(decoded_header(decoded, 5, q0.header@));
            }
        }
        match header.schema.validate() {
            Err(_) => {
                proof {
                    assert forall|q0: Pager| load_hyp(bytes@, q0) implies false by {
                        lemma_load_facts(bytes@, q0);
                    }
                }
                return Err(ErrorKind::Corrupt);
            },
            Ok(()) => {},
        }
        if header.schema.table_name.as_str().as_bytes().len() > 0xffff_ffff {
            proof {
                assert forall|q0: Pager| load_hyp(bytes@, q0) implies false by {
                    lemma_load_facts(bytes@, q0);
                }
            }
            return Err(ErrorKind::Corrupt);
        }
        if header.schema.columns.len() > 0xffff_ffff {
            proof {
                assert forall|q0: Pager| load_hyp(bytes@, q0) implies false by {
                    lemma_load_facts(bytes@, q0);
                }
            }
            return Err(ErrorKind::Corrupt);
        }
        let mut ci: usize = 0;
        while ci < header.schema.columns.len()
            invariant
                ci <= header.schema.columns.len(),
                forall|j: int| 0 <= j < ci ==> col_valid(#[trigger] header.schema@.columns[j]),
                forall|q0: Pager| #[trigger] load_hyp(bytes@, q0) ==> header@ == q0.header@,
            decreases header.schema.columns.len() - ci,
        {
            if header.schema.columns[ci].name.as_str().as_bytes().len() > 0xffff_ffff {
                proof {
                    assert forall|q0: Pager| load_hyp(bytes@, q0) implies false by {
                        lemma_load_facts(bytes@, q0);
                        assert(header.schema@.columns[ci as int] == header.schema.columns@[
                            ci as int]@);
                    }
                }
                return Err(ErrorKind::Corrupt);
            }
            match header.schema.columns[ci].datatype {
                DataType::Char(n) => {
                    if n > 0xffff_ffff {
                        proof {
                            assert forall|q0: Pager| load_hyp(bytes@, q0) implies false by {
                                lemma_load_facts(bytes@, q0);
                                assert(header.schema@.columns[ci as int] == header.schema.columns@[
                                    ci as int]@);
                            }
                        }
                        return Err(ErrorKind::Corrupt);
                    }
                },
                _ => {},
            }
            proof {
                assert(header.schema@.columns[ci as int] == header.schema.columns@[ci as int]@);
            }
            ci = ci + 1;
        }
        let ser = MessagePackSerializer {};
        let sizes = ser.size(&header.schema.columns);
        let cap = header.page_capacity;
        if cap < 1 || cap > (u16::MAX as u32) {
            proof {
                assert forall|q0: Pager| load_hyp(bytes@, q0) implies false by {
                    lemma_load_facts(bytes@, q0);
                }
            }
            return Err(ErrorKind::Corrupt);
        }
        if sizes.row_size > u32::MAX as u64 {
            proof {
                assert forall|q0: Pager| load_hyp(bytes@, q0) implies false by {
                    lemma_load_facts(bytes@, q0);
                    assert(header@ == q0.header@);
                    let cols0 = q0.header@.schema.columns;
                    assert(spec_row_size(cols0) <= spec_row_size(cols0) * (
                    q0.header.page_capacity as int)) by (nonlinear_arith)
                        requires
                            q0.header.page_capacity as int >= 1,
                            spec_row_size(cols0) >= 0,
                    ;
                    assert(spec_row_size(header.schema@.columns) <= u64::MAX);
                    assert(sizes.row_size as int == spec_row_size(header.schema@.columns));
                }
            }
            return Err(ErrorKind::Corrupt);
        }
        let pbs64 = header.page_byte_size as u64;
        proof {
            assert(0 <= (sizes.row_size as int) * (cap as int) <= 0xffff_ffff * 0x1_0000)
                by (nonlinear_arith)
                requires
                    0 <= sizes.row_size as int <= 0xffff_ffff,
                    0 <= cap as int <= 0x1_0000,
            ;
        }
        if 5 + (sizes.row_size as u64) * (cap as u64) > pbs64 {
            proof {
                assert forall|q0: Pager| load_hyp(bytes@, q0) implies false by {
                    lemma_load_facts(bytes@, q0);
                    assert(sizes.row_size as int == spec_row_size(header.schema@.columns)) by {
                        crate::codec::lemma_sizes_sum_nonneg_pub(header.schema@.columns);
                        if spec_row_size(header.schema@.columns) > u64::MAX {
                            assert(sizes.row_size == u64::MAX);
                        }
                    }
                }
            }
            return Err(ErrorKind::Corrupt);
        }
        proof {
            crate::codec::lemma_sizes_sum_nonneg_pub(header.schema@.columns);
            assert(sizes.row_size as int == spec_row_size(header.schema@.columns)) by {
                if spec_row_size(header.schema@.columns) > u64::MAX {
                    assert(sizes.row_size == u64::MAX);
                }
            }
        }
        let blen = bytes.len();
        if (header.num_pages as u64) >= (usize::MAX as u64) {
            proof {
                assert forall|q0: Pager| load_hyp(bytes@, q0) implies false by {
                    lemma_load_facts(bytes@, q0);
                    assert((q0.pages@.len() + 1) * (q0.header.page_byte_size as int)
                        >= q0.pages@.len() + 1) by (nonlinear_arith)
                        requires
                            q0.header.page_byte_size >= 1,
                            q0.pages@.len() >= 0,
                    ;
                    assert(q0.pages@.len() + 1 <= blen);
                }
            }
            return Err(ErrorKind::Corrupt);
        }
        let np = header.num_pages as usize;
        let pbs = header.page_byte_size as usize;
        let mut pages: Vec<Vec<Option<Vec<TableValue>>>> = Vec::new();
        let mut p: usize = 1;
        while p <= np
            invariant
                1 <= p <= np + 1,
                np < usize::MAX,
                pbs <= u32::MAX,
                5 <= pbs,
                np == header.num_pages,
                pbs == header.page_byte_size,
                cap == header.page_capacity,
                blen == bytes@.len(),
                pages@.len() == p - 1,
                forall|i: int| 0 <= i < pages@.len() ==> (#[trigger] page_model(pages@[i])).len()
                    == cap,
                forall|i: int, sl: int|
                    0 <= i < pages@.len() && 0 <= sl < page_model(pages@[i]).len() ==> ((
                    #[trigger] page_model(pages@[i])[sl]) matches Some(rr) ==> row_matches_columns(
                        rr,
                        header.schema@.columns,
                    )),
                forall|q0: Pager|
                    #[trigger] load_hyp(bytes@, q0) ==> header@ == q0.header@ && (forall|t: int|
                        0 <= t < pages@.len() ==> #[trigger] page_model(pages@[t]) == page_model(
                            q0.pages@[t],
                        )),
            decreases np + 1 - p,
        {
            if p > usize::MAX / pbs {
                proof {
                    assert forall|q0: Pager| load_hyp(bytes@, q0) implies false by {
                        lemma_load_facts(bytes@, q0);
                        assert(p * pbs <= (np as int + 1) * pbs) by (nonlinear_arith)
                            requires
                                1 <= p as int <= np as int,
                                pbs >= 1,
                        ;
                        assert(p <= usize::MAX / pbs) by (nonlinear_arith)
                            requires
                                pbs >= 1,
                                0 <= p as int,
                                p * pbs <= usize::MAX,
                        ;
                    }
                }
                return Err(ErrorKind::Corrupt);
            }
            proof {
                assert(p * pbs <= (usize::MAX as int / pbs as int) * pbs) by (nonlinear_arith)
                    requires
                        pbs as int >= 1,
                        0 <= p as int <= usize::MAX as int / pbs as int,
                ;
                assert((usize::MAX as int / pbs as int) * pbs <= usize::MAX) by (nonlinear_arith)
                    requires
                        pbs as int >= 1,
                ;
            }
            let off = p * pbs;
            let dp = crate::codec::decode_page(bytes, off);
            let page = match dp {
                Some((pg, _)) => pg,
                None => {
                    proof {
                        assert forall|q0: Pager| load_hyp(bytes@, q0) implies false by {
                            lemma_load_facts(bytes@, q0);
                            lemma_wf_page_valid(q0, p - 1);
                            assert(crate::codec::decoded_page(
                                dp,
                                off as int,
                                page_model(q0.pages@[p - 1]),
                            ));
                        }
                    }
                    return Err(ErrorKind::Corrupt);
                },
            };
            proof {
                assert forall|q0: Pager| load_hyp(bytes@, q0) implies page_model(page)
                    == page_model(q0.pages@[p - 1]) by {
                    lemma_load_facts(bytes@, q0);
                    lemma_wf_page_valid(q0, p - 1);
                    assert(crate::codec::decoded_page(
                        dp,
                        off as int,
                        page_model(q0.pages@[p - 1]),
                    ));
                }
            }
            if page.len() != cap as usize {
                proof {
                    assert forall|q0: Pager| load_hyp(bytes@, q0) implies false by {
                        assert(page_model(page) == page_model(q0.pages@[p - 1]));
                        assert(page_model(q0.pages@[p - 1]).len() == q0.header.page_capacity);
                    }
                }
                return Err(ErrorKind::Corrupt);
            }
            let ghost pmv = page_model(page);
            let mut sl: usize = 0;
            while sl < page.len()
                invariant
                    sl <= page.len(),
                    pmv == page_model(page),
                    pmv.len() == page@.len(),
                    1 <= p <= np,
                    np == header.num_pages,
                    forall|t: int| 0 <= t < sl ==> ((#[trigger] pmv[t]) matches Some(rr)
                        ==> row_matches_columns(rr, header.schema@.columns)),
                    forall|q0: Pager|
                        #[trigger] load_hyp(bytes@, q0) ==> header@ == q0.header@ && pmv
                            == page_model(q0.pages@[p - 1]),
                decreases page.len() - sl,
            {
                proof {
                    assert(pmv[sl as int] == slot_model_of(page@[sl as int]));
                }
                match &page[sl] {
                    Some(rr) => {
                        if !header.schema.row_matches(rr) {
                            proof {
                                assert forall|q0: Pager| load_hyp(bytes@, q0) implies false by {
                                    assert(header@ == q0.header@);
                                    assert(pmv == page_model(q0.pages@[p - 1]));
                                    assert(q0.pages@.len() == q0.header.num_pages);
                                    assert(0 <= p - 1 < q0.pages@.len());
                                    assert(pmv[sl as int] == Some(rr.deep_view()));
                                    assert(page_model(q0.pages@[p - 1])[sl as int] matches Some(
                                        r0,
                                    ) ==> row_matches_columns(r0, q0.header@.schema.columns));
                                    assert(row_matches_columns(
                                        rr.deep_view(),
                                        header.schema@.columns,
                                    ));
                                }
                            }
                            return Err(ErrorKind::Corrupt);
                        }
                    },
                    None => {},
                }
                sl = sl + 1;
            }
            pages.push(page);
            p = p + 1;
        }
        // The free list must hold exactly the pages with an empty slot,
        // in ascending order.
        let mut expected: Vec<u32> = Vec::new();
        let mut q: usize = 0;
        while q < pages.len()
            invariant
                q <= pages@.len(),
                pages@.len() == np <= u32::MAX,
                forall|a: int, b: int| 0 <= a < b < expected@.len() ==> expected@[a] < expected@[b],
                forall|i: int| 0 <= i < expected@.len() ==> 1 <= #[trigger] expected@[i] <= q,
                forall|pp: int| 1 <= pp <= q ==> (page_has_empty(page_model(pages@[pp - 1]))
                    <==> free_contains(expected@, pp)),
            decreases pages@.len() - q,
        {
            let ghost pmv = page_model(pages@[q as int]);
            let cap2 = pages[q].len();
            let mut sl: usize = 0;
            let mut has_empty = false;
            while sl < cap2 && !has_empty
                invariant
                    sl <= cap2,
                    q < pages@.len(),
                    cap2 == pages@[q as int]@.len(),
                    pmv == page_model(pages@[q as int]),
                    !has_empty ==> forall|t: int| 0 <= t < sl ==> !((#[trigger] pmv[t]) is None),
                    has_empty ==> sl < cap2 && pmv[sl as int] is None,
                decreases cap2 - sl, (if has_empty { 0int } else { 1int }),
            {
                let is_none = match &pages[q][sl] {
                    None => true,
                    Some(_) => false,
                };
                proof {
                    assert(pmv[sl as int] == slot_model_of(pages@[q as int]@[sl as int]));
                }
                if is_none {
                    has_empty = true;
                } else {
                    sl = sl + 1;
                }
            }
            let ghost old_expected = expected@;
            if has_empty {
                expected.push((q + 1) as u32);
            }
            proof {
                assert forall|pp: int| 1 <= pp <= q + 1 implies (page_has_empty(
                    page_model(pages@[pp - 1]),
                ) <==> free_contains(expected@, pp)) by {
                    if pp <= q {
                        if free_contains(old_expected, pp) {
                            let w = choose|w: int|
                                0 <= w < old_expected.len() && old_expected[w] == pp;
                            assert(expected@[w] == pp);
                        }
                        if free_contains(expected@, pp) {
                            let w = choose|w: int|
                                0 <= w < expected@.len() && expected@[w] == pp;
                            assert(w < old_expected.len() || expected@[w] == q + 1);
                            if w < old_expected.len() {
                                assert(old_expected[w] == pp);
                            }
                        }
                    } else {
                        if has_empty {
                            assert(expected@[expected@.len() - 1] == q + 1);
                            assert(free_contains(expected@, pp));
                        } else {
                            assert(!page_has_empty(pmv));
                            if free_contains(expected@, pp) {
                                let w = choose|w: int|
                                    0 <= w < expected@.len() && expected@[w] == pp;
                                assert(expected@[w] <= q);
                            }
                        }
                    }
                }
            }
            q = q + 1;
        }
        // Under the reload hypothesis the decoded free list is exactly the
        // rebuilt one, because both list the same pages in ascending order.
        proof {
            assert forall|q0: Pager| load_hyp(bytes@, q0) implies expected@
                == header.free_pages@ by {
                lemma_load_facts(bytes@, q0);
                assert(header@ == q0.header@);
                assert(header.free_pages@ == q0.header@.free_pages);
                assert forall|x: u32| seq_has(expected@, x) implies seq_has(
                    header.free_pages@,
                    x,
                ) by {
                    let w = choose|w: int| 0 <= w < expected@.len() && expected@[w] == x;
                    assert(free_contains(expected@, x as int));
                    assert(page_has_empty(page_model(pages@[x - 1])));
                    assert(page_model(pages@[x - 1]) == page_model(q0.pages@[x - 1]));
                    assert(free_contains(q0.header@.free_pages, x as int));
                    let w2 = choose|w2: int|
                        0 <= w2 < q0.header@.free_pages.len() && q0.header@.free_pages[w2]
                            == x as int;
                    assert(header.free_pages@[w2] == x);
                }
                assert forall|x: u32| seq_has(header.free_pages@, x) implies seq_has(
                    expected@,
                    x,
                ) by {
                    let w = choose|w: int|
                        0 <= w < header.free_pages@.len() && header.free_pages@[w] == x;
                    assert(free_contains(q0.header@.free_pages, x as int));
                    assert(1 <= x as int <= q0.header@.num_pages);
                    assert(page_has_empty(page_model(q0.pages@[x - 1])));
                    assert(page_model(pages@[x - 1]) == page_model(q0.pages@[x - 1]));
                    assert(free_contains(expected@, x as int));
                    let w2 = choose|w2: int|
                        0 <= w2 < expected@.len() && expected@[w2] == x as int;
                    assert(expected@[w2] == x);
                }
                lemma_sorted_unique_eq(expected@, header.free_pages@);
            }
        }
        if expected.len() != header.free_pages.len() {
            proof {
                assert forall|q0: Pager| load_hyp(bytes@, q0) implies false by {
                    assert(expected@ == header.free_pages@);
                }
            }
            return Err(ErrorKind::Corrupt);
        }
        let mut k: usize = 0;
        while k < expected.len()
            invariant
                k <= expected@.len(),
                expected@.len() == header.free_pages@.len(),
                forall|t: int| 0 <= t < k ==> expected@[t] == header.free_pages@[t],
                forall|q0: Pager| #[trigger] load_hyp(bytes@, q0) ==> expected@
                    == header.free_pages@,
            decreases expected@.len() - k,
        {
            if expected[k] != header.free_pages[k] {
                proof {
                    assert forall|q0: Pager| load_hyp(bytes@, q0) implies false by {
                        assert(expected@ == header.free_pages@);
                    }
                }
                return Err(ErrorKind::Corrupt);
            }
            k = k + 1;
        }
        proof {
            assert(expected@ =~= header.free_pages@);
        }
        // The stored table name must be lower-cased.
        let name_chars = header.schema.table_name.as_str().unicode_len();
        let mut ni: usize = 0;
        while ni < name_chars
            invariant
                ni <= name_chars,
                name_chars == header.schema@.table_name.len(),
                forall|t: int| 0 <= t < ni ==> crate::value::lower_char(
                    #[trigger] header.schema@.table_name[t],
                ) == header.schema@.table_name[t],
                forall|q0: Pager| #[trigger] load_hyp(bytes@, q0) ==> header@ == q0.header@,
            decreases name_chars - ni,
        {
            let c = header.schema.table_name.as_str().get_char(ni);
            let lc = crate::value::lower_char_of(c);
            if lc != c {
                proof {
                    assert forall|q0: Pager| load_hyp(bytes@, q0) implies false by {
                        assert(header@ == q0.header@);
                        assert(crate::value::lower_seq(q0.header@.schema.table_name)
                            == q0.header@.schema.table_name);
                        assert(crate::value::lower_seq(header.schema@.table_name)[ni as int]
                            == header.schema@.table_name[ni as int]);
                    }
                }
                return Err(ErrorKind::Corrupt);
            }
            ni = ni + 1;
        }
        proof {
            assert(crate::value::lower_seq(header.schema@.table_name)
                =~= header.schema@.table_name);
        }
        let out = Pager { header, pages };
        proof {
            assert(out.header@.free_pages.len() <= u32::MAX) by {
                if out.header@.free_pages.len() > u32::MAX {
                    lemma_free_index_bound(out.header@.free_pages, u32::MAX as int);
                }
            }
            assert(pager_wf(out));
            assert forall|q0: Pager| #[trigger] load_hyp(bytes@, q0) implies loaded_like(
                Ok::<Pager, ErrorKind>(out),
                q0,
            ) by {
                assert(out.header@ == q0.header@);
            }
        }
        Ok(out)
    }
}


/// Each row of a page comes from one of its filled slots.
proof fn lemma_page_rows_from(pm: Seq<Option<Seq<ValueModel>>>, i: int)
    requires
        0 <= i < page_rows(pm).len(),
    ensures
        exists|sl: int| 0 <= sl < pm.len() && pm[sl] == Some(page_rows(pm)[i]),
    decreases pm.len(),
{
    match pm[0] {
        Some(r0) => {
            if i == 0 {
                assert(pm[0] == Some(page_rows(pm)[0]));
            } else {
                lemma_page_rows_from(pm.drop_first(), i - 1);
                let sl = choose|sl: int|
                    0 <= sl < pm.drop_first().len() && pm.drop_first()[sl] == Some(
                        page_rows(pm.drop_first())[i - 1],
                    );
                assert(pm[sl + 1] == Some(page_rows(pm)[i]));
            }
        },
        None => {
            lemma_page_rows_from(pm.drop_first(), i);
            let sl = choose|sl: int|
                0 <= sl < pm.drop_first().len() && pm.drop_first()[sl] == Some(
                    page_rows(pm.drop_first())[i],
                );
            assert(pm[sl + 1] == Some(page_rows(pm)[i]));
        },
    }
}

/// Each stored row comes from a filled slot of one of the pages.
proof fn lemma_pages_rows_from(ps: Seq<Vec<Option<Vec<TableValue>>>>, i: int)
    requires
        0 <= i < pages_rows(ps).len(),
    ensures
        exists|pg: int, sl: int|
            0 <= pg < ps.len() && 0 <= sl < page_model(ps[pg]).len() && page_model(ps[pg])[sl]
                == Some(pages_rows(ps)[i]),
    decreases ps.len(),
{
    let head = page_rows(page_model(ps[0]));
    if i < head.len() {
        lemma_page_rows_from(page_model(ps[0]), i);
        let sl = choose|sl: int|
            0 <= sl < page_model(ps[0]).len() && page_model(ps[0])[sl] == Some(head[i]);
        assert(page_model(ps[0])[sl] == Some(pages_rows(ps)[i]));
    } else {
        lemma_pages_rows_from(ps.drop_first(), i - head.len());
        let (pg, sl) = choose|pg: int, sl: int|
            0 <= pg < ps.drop_first().len() && 0 <= sl < page_model(ps.drop_first()[pg]).len()
                && page_model(ps.drop_first()[pg])[sl] == Some(
                pages_rows(ps.drop_first())[i - head.len()],
            );
        assert(ps.drop_first()[pg] == ps[pg + 1]);
        assert(page_model(ps[pg + 1])[sl] == Some(pages_rows(ps)[i]));
    }
}

/// Every stored row of a well-formed store matches the schema.
pub proof fn lemma_rows_match(q: Pager, i: int)
    requires
        pager_wf(q),
        0 <= i < pager_rows(q).len(),
    ensures
        row_matches_columns(pager_rows(q)[i], q.header@.schema.columns),
        pager_rows(q)[i].len() == q.header@.schema.columns.len(),
{
    lemma_pages_rows_from(q.pages@, i);
}

/// An encoding standing in a prefix also stands in the whole.
proof fn lemma_enc_at_prefix(a: Seq<u8>, b: Seq<u8>, p: int, e: Seq<u8>)
    requires
        is_enc_at(a, p, e),
    ensures
        is_enc_at(a + b, p, e),
{
    assert((a + b).subrange(p, p + e.len()) =~= a.subrange(p, p + e.len()));
}

/// An encoding standing in a suffix stands in the whole, shifted.
proof fn lemma_enc_at_suffix(a: Seq<u8>, b: Seq<u8>, p: int, e: Seq<u8>)
    requires
        is_enc_at(b, p, e),
    ensures
        is_enc_at(a + b, a.len() + p, e),
{
    assert((a + b).subrange(a.len() + p, a.len() + p + e.len()) =~= b.subrange(p, p + e.len()));
}

/// The page regions of a well-formed store are one page each.
proof fn lemma_page_regions_len(ps: Seq<Vec<Option<Vec<TableValue>>>>, pbs: int)
    requires
        forall|i: int| 0 <= i < ps.len() ==> enc_page(page_model(#[trigger] ps[i])).len() <= pbs,
    ensures
        page_regions(ps, pbs).len() == ps.len() * pbs,
    decreases ps.len(),
{
    if ps.len() == 0 {
        assert(ps.len() * pbs == 0) by (nonlinear_arith)
            requires
                ps.len() == 0,
        ;
    } else {
        assert forall|i: int| 0 <= i < ps.drop_first().len() implies enc_page(
            page_model(#[trigger] ps.drop_first()[i]),
        ).len() <= pbs by {
            assert(ps.drop_first()[i] == ps[i + 1]);
        }
        lemma_page_regions_len(ps.drop_first(), pbs);
        assert(pad_to(enc_page(page_model(ps[0])), pbs).len() == pbs);
        assert(pbs + (ps.len() - 1) * pbs == ps.len() * pbs) by (nonlinear_arith);
    }
}

/// Each encoded page stands in the page regions at its page-aligned
/// offset.
proof fn lemma_regions_at(ps: Seq<Vec<Option<Vec<TableValue>>>>, pbs: int, i: int)
    requires
        forall|t: int| 0 <= t < ps.len() ==> enc_page(page_model(#[trigger] ps[t])).len() <= pbs,
        0 <= i < ps.len(),
    ensures
        is_enc_at(page_regions(ps, pbs), i * pbs, enc_page(page_model(ps[i]))),
    decreases i,
{
    let head = pad_to(enc_page(page_model(ps[0])), pbs);
    assert(head.len() == pbs);
    if i == 0 {
        assert(is_enc_at(head, 0, enc_page(page_model(ps[0])))) by {
            assert(head.subrange(0, enc_page(page_model(ps[0])).len() as int) =~= enc_page(
                page_model(ps[0]),
            ));
        }
        lemma_enc_at_prefix(head, page_regions(ps.drop_first(), pbs), 0, enc_page(
            page_model(ps[0]),
        ));
        assert(0 * pbs == 0) by (nonlinear_arith);
    } else {
        assert forall|t: int| 0 <= t < ps.drop_first().len() implies enc_page(
            page_model(#[trigger] ps.drop_first()[t]),
        ).len() <= pbs by {
            assert(ps.drop_first()[t] == ps[t + 1]);
        }
        lemma_regions_at(ps.drop_first(), pbs, i - 1);
        assert(ps.drop_first()[i - 1] == ps[i]);
        lemma_enc_at_suffix(
            head,
            page_regions(ps.drop_first(), pbs),
            (i - 1) * pbs,
            enc_page(page_model(ps[i])),
        );
        assert(pbs + (i - 1) * pbs == i * pbs) by (nonlinear_arith);
    }
}

/// Law: what `flush` writes is exactly what loading reads back. In the
/// byte image of a well-formed store whose header fits its page, the
/// encoded header stands at position five behind its length prefix, and
/// the encoding of page `p` stands at offset `p * page_byte_size`. By the
/// decoders' contracts, decoding the image therefore returns exactly the
/// stored header and pages.
pub proof fn lemma_image_round_trip(q: Pager)
    requires
        pager_wf(q),
        5 + enc_header(q.header@).len() <= q.header.page_byte_size,
    ensures
        ({
            let img = spec_file_image(q);
            let pbs = q.header.page_byte_size as int;
            &&& img.len() == (q.pages@.len() + 1) * pbs
            &&& img[0] == 4u8
            &&& is_enc_at(img, 1, le4(enc_header(q.header@).len() as u32))
            &&& is_enc_at(img, 5, enc_header(q.header@))
            &&& forall|p: int| 0 <= p < q.pages@.len() ==> is_enc_at(
                img,
                (p + 1) * pbs,
                enc_page(page_model(#[trigger] q.pages@[p])),
            )
        }),
{
    let img = spec_file_image(q);
    let pbs = q.header.page_byte_size as int;
    let ench = enc_header(q.header@);
    let hr = header_region_spec(q.header@, pbs);
    let body = seq![4u8] + le4(ench.len() as u32) + ench;
    assert(hr == body + zeros(pbs - body.len()));
    assert(hr.len() == pbs);
    assert forall|t: int| 0 <= t < q.pages@.len() implies enc_page(
        page_model(#[trigger] q.pages@[t]),
    ).len() <= pbs by {
        lemma_wf_page_valid(q, t);
    }
    lemma_page_regions_len(q.pages@, pbs);
    assert(img.len() == (q.pages@.len() + 1) * pbs) by (nonlinear_arith)
        requires
            img.len() == pbs + q.pages@.len() * pbs,
    ;
    assert(is_enc_at(hr, 0, body)) by {
        assert(hr.subrange(0, body.len() as int) =~= body);
    }
    assert(body =~= seq![4u8] + (le4(ench.len() as u32) + ench));
    lemma_enc_at_concat(hr, 0, seq![4u8], le4(ench.len() as u32) + ench);
    lemma_enc_at_concat(hr, 1, le4(ench.len() as u32), ench);
    lemma_enc_at_prefix(hr, page_regions(q.pages@, pbs), 1, le4(ench.len() as u32));
    lemma_enc_at_prefix(hr, page_regions(q.pages@, pbs), 5, ench);
    assert(img[0] == hr[0]);
    assert(hr[0] == body[0]);
    assert forall|p: int| 0 <= p < q.pages@.len() implies is_enc_at(
        img,
        (p + 1) * pbs,
        enc_page(page_model(#[trigger] q.pages@[p])),
    ) by {
        lemma_regions_at(q.pages@, pbs, p);
        lemma_enc_at_suffix(hr, page_regions(q.pages@, pbs), p * pbs, enc_page(
            page_model(q.pages@[p]),
        ));
        assert(pbs + p * pbs == (p + 1) * pbs) by (nonlinear_arith);
    }
}

} // verus!
