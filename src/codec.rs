//! The byte layout of a row.
//!
//! A row is its field count (four bytes, little-endian) followed by its
//! fields in order. A field is its name as text, then its value. Text is its
//! UTF-8 length (four bytes) and its UTF-8 bytes. A value is a tag byte: 1 and
//! a text, or 0 and a number: a sign byte (1 for negative), the exponent
//! (eight bytes, two's complement), the digit count (four bytes) and one byte
//! per digit.
use vstd::bytes::*;
use vstd::prelude::*;
use vstd::slice::*;
use vstd::utf8::*;

use crate::error::RowSerializerError;
use crate::row::{
    field_view, lemma_rows_same_map, names_in_order, names_sorted, row_map, row_wf, RowView,
    StoredRow,
};
use crate::value::{canonical, text_equal, Decimal, DecimalView, Value, ValueView};

verus! {

// ---------------------------------------------------------------------------
// Encoding
// ---------------------------------------------------------------------------

pub open spec fn encode_text(s: Seq<char>) -> Seq<u8> {
    spec_u32_to_le_bytes(encode_utf8(s).len() as u32) + encode_utf8(s)
}

pub open spec fn sign_byte(negative: bool) -> u8 {
    if negative {
        1
    } else {
        0
    }
}

pub open spec fn encode_number(d: DecimalView) -> Seq<u8> {
    seq![sign_byte(d.negative)] + spec_u64_to_le_bytes(d.exponent as i64 as u64)
        + spec_u32_to_le_bytes(d.digits.len() as u32) + d.digits
}

pub open spec fn encode_value(v: ValueView) -> Seq<u8> {
    match v {
        ValueView::Number(d) => seq![0u8] + encode_number(d),
        ValueView::Text(s) => seq![1u8] + encode_text(s),
    }
}

pub open spec fn encode_field(f: (Seq<char>, ValueView)) -> Seq<u8> {
    encode_text(f.0) + encode_value(f.1)
}

pub open spec fn encode_fields(fs: RowView) -> Seq<u8>
    decreases fs.len(),
{
    if fs.len() == 0 {
        Seq::empty()
    } else {
        encode_fields(fs.drop_last()) + encode_field(fs.last())
    }
}

/// The bytes of a row.
pub open spec fn encode_row(r: RowView) -> Seq<u8> {
    spec_u32_to_le_bytes(r.len() as u32) + encode_fields(r)
}

pub open spec fn text_fits(s: Seq<char>) -> bool {
    encode_utf8(s).len() <= u32::MAX
}

pub open spec fn value_fits(v: ValueView) -> bool {
    match v {
        ValueView::Number(d) => d.digits.len() <= u32::MAX,
        ValueView::Text(s) => text_fits(s),
    }
}

/// Every length in the row fits its four-byte field.
pub open spec fn encodable(r: RowView) -> bool {
    &&& r.len() <= u32::MAX
    &&& forall|i: int| 0 <= i < r.len() ==> text_fits(#[trigger] r[i].0) && value_fits(r[i].1)
}

// ---------------------------------------------------------------------------
// Decoding
// ---------------------------------------------------------------------------

pub open spec fn parse_u32(b: Seq<u8>, p: int) -> Option<(u32, int)> {
    if 0 <= p && p + 4 <= b.len() {
        Some((spec_u32_from_le_bytes(b.subrange(p, p + 4)), p + 4))
    } else {
        None
    }
}

pub open spec fn parse_u64(b: Seq<u8>, p: int) -> Option<(u64, int)> {
    if 0 <= p && p + 8 <= b.len() {
        Some((spec_u64_from_le_bytes(b.subrange(p, p + 8)), p + 8))
    } else {
        None
    }
}

pub open spec fn parse_text(b: Seq<u8>, p: int) -> Option<(Seq<char>, int)> {
    match parse_u32(b, p) {
        Some((n, q)) => if q + n <= b.len() && valid_utf8(b.subrange(q, q + n)) {
            Some((decode_utf8(b.subrange(q, q + n)), q + n))
        } else {
            None
        },
        None => None,
    }
}

pub open spec fn parse_number(b: Seq<u8>, p: int) -> Option<(DecimalView, int)> {
    if 0 <= p < b.len() && b[p] <= 1 {
        match parse_u64(b, p + 1) {
            Some((e, q)) => match parse_u32(b, q) {
                Some((n, r)) => if r + n <= b.len() {
                    let d = DecimalView {
                        negative: b[p] == 1,
                        digits: b.subrange(r, r + n),
                        exponent: e as i64 as int,
                    };
                    if canonical(d) {
                        Some((d, r + n))
                    } else {
                        None
                    }
                } else {
                    None
                },
                None => None,
            },
            None => None,
        }
    } else {
        None
    }
}

pub open spec fn parse_value(b: Seq<u8>, p: int) -> Option<(ValueView, int)> {
    if 0 <= p < b.len() && b[p] == 0 {
        match parse_number(b, p + 1) {
            Some((d, q)) => Some((ValueView::Number(d), q)),
            None => None,
        }
    } else if 0 <= p < b.len() && b[p] == 1 {
        match parse_text(b, p + 1) {
            Some((s, q)) => Some((ValueView::Text(s), q)),
            None => None,
        }
    } else {
        None
    }
}

pub open spec fn parse_field(b: Seq<u8>, p: int) -> Option<((Seq<char>, ValueView), int)> {
    match parse_text(b, p) {
        Some((name, q)) => match parse_value(b, q) {
            Some((v, r)) => Some(((name, v), r)),
            None => None,
        },
        None => None,
    }
}

/// The first `n` fields from position `p`, and the position after them.
pub open spec fn parse_fields(b: Seq<u8>, p: int, n: nat) -> Option<(RowView, int)>
    decreases n,
{
    if n == 0 {
        Some((Seq::empty(), p))
    } else {
        match parse_fields(b, p, (n - 1) as nat) {
            Some((fs, q)) => match parse_field(b, q) {
                Some((f, r)) => Some((fs.push(f), r)),
                None => None,
            },
            None => None,
        }
    }
}

/// The row that `b` holds: all of `b` must be used, and the names must
/// strictly increase.
pub open spec fn decode_row(b: Seq<u8>) -> Option<RowView> {
    match parse_u32(b, 0) {
        Some((n, p)) => match parse_fields(b, p, n as nat) {
            Some((fs, q)) => if q == b.len() && names_sorted(fs) {
                Some(fs)
            } else {
                None
            },
            None => None,
        },
        None => None,
    }
}

// ---------------------------------------------------------------------------
// Round trip
// ---------------------------------------------------------------------------

/// `b` holds `x` at position `p`.
pub open spec fn holds_at(b: Seq<u8>, p: int, x: Seq<u8>) -> bool {
    0 <= p && p + x.len() <= b.len() && b.subrange(p, p + x.len()) == x
}

proof fn lemma_holds_split(b: Seq<u8>, p: int, x: Seq<u8>, y: Seq<u8>)
    requires
        holds_at(b, p, x + y),
    ensures
        holds_at(b, p, x),
        holds_at(b, p + x.len(), y),
{
    let w = b.subrange(p, p + (x + y).len());
    assert(w == x + y);
    assert(b.subrange(p, p + x.len()) =~= w.subrange(0, x.len() as int));
    assert(w.subrange(0, x.len() as int) =~= x);
    assert(b.subrange(p + x.len(), p + x.len() + y.len()) =~= w.subrange(
        x.len() as int,
        (x.len() + y.len()) as int,
    ));
    assert(w.subrange(x.len() as int, (x.len() + y.len()) as int) =~= y);
}

proof fn lemma_parse_u32_at(b: Seq<u8>, p: int, x: u32)
    requires
        holds_at(b, p, spec_u32_to_le_bytes(x)),
    ensures
        parse_u32(b, p) == Some((x, p + 4)),
{
    lemma_auto_spec_u32_to_from_le_bytes();
}

proof fn lemma_parse_u64_at(b: Seq<u8>, p: int, x: u64)
    requires
        holds_at(b, p, spec_u64_to_le_bytes(x)),
    ensures
        parse_u64(b, p) == Some((x, p + 8)),
{
    lemma_auto_spec_u64_to_from_le_bytes();
}

proof fn lemma_parse_text_at(b: Seq<u8>, p: int, s: Seq<char>)
    requires
        text_fits(s),
        holds_at(b, p, encode_text(s)),
    ensures
        parse_text(b, p) == Some((s, p + encode_text(s).len())),
{
    lemma_auto_spec_u32_to_from_le_bytes();
    let e = encode_utf8(s);
    lemma_holds_split(b, p, spec_u32_to_le_bytes(e.len() as u32), e);
    lemma_parse_u32_at(b, p, e.len() as u32);
    encode_utf8_valid_utf8(s);
    encode_utf8_decode_utf8(s);
}

proof fn lemma_parse_number_at(b: Seq<u8>, p: int, d: DecimalView)
    requires
        canonical(d),
        d.digits.len() <= u32::MAX,
        holds_at(b, p, encode_number(d)),
    ensures
        parse_number(b, p) == Some((d, p + encode_number(d).len())),
{
    lemma_auto_spec_u32_to_from_le_bytes();
    lemma_auto_spec_u64_to_from_le_bytes();
    let s = seq![sign_byte(d.negative)];
    let eb = spec_u64_to_le_bytes(d.exponent as i64 as u64);
    let nb = spec_u32_to_le_bytes(d.digits.len() as u32);
    assert(encode_number(d) == s + eb + nb + d.digits);
    lemma_holds_split(b, p, s + eb + nb, d.digits);
    lemma_holds_split(b, p, s + eb, nb);
    lemma_holds_split(b, p, s, eb);
    assert(b[p] == b.subrange(p, p + 1)[0]);
    lemma_parse_u64_at(b, p + 1, d.exponent as i64 as u64);
    lemma_parse_u32_at(b, p + 9, d.digits.len() as u32);
    let e = d.exponent as i64;
    assert((e as u64) as i64 == e) by (bit_vector);
}

proof fn lemma_parse_value_at(b: Seq<u8>, p: int, v: ValueView)
    requires
        crate::value::value_wf(v),
        value_fits(v),
        holds_at(b, p, encode_value(v)),
    ensures
        parse_value(b, p) == Some((v, p + encode_value(v).len())),
{
    match v {
        ValueView::Number(d) => {
            lemma_holds_split(b, p, seq![0u8], encode_number(d));
            assert(b[p] == b.subrange(p, p + 1)[0]);
            lemma_parse_number_at(b, p + 1, d);
        },
        ValueView::Text(s) => {
            lemma_holds_split(b, p, seq![1u8], encode_text(s));
            assert(b[p] == b.subrange(p, p + 1)[0]);
            lemma_parse_text_at(b, p + 1, s);
        },
    }
}

proof fn lemma_parse_field_at(b: Seq<u8>, p: int, f: (Seq<char>, ValueView))
    requires
        crate::value::value_wf(f.1),
        text_fits(f.0),
        value_fits(f.1),
        holds_at(b, p, encode_field(f)),
    ensures
        parse_field(b, p) == Some((f, p + encode_field(f).len())),
{
    lemma_holds_split(b, p, encode_text(f.0), encode_value(f.1));
    lemma_parse_text_at(b, p, f.0);
    lemma_parse_value_at(b, p + encode_text(f.0).len(), f.1);
}

proof fn lemma_encodable_init(fs: RowView)
    requires
        encodable(fs),
        fs.len() > 0,
    ensures
        encodable(fs.drop_last()),
{
    let init = fs.drop_last();
    assert(forall|j: int| 0 <= j < fs.len() ==> text_fits(#[trigger] fs[j].0) && value_fits(fs[j].1));
    assert forall|i: int| 0 <= i < init.len() implies text_fits(#[trigger] init[i].0)
        && value_fits(init[i].1) by {
        assert(0 <= i < fs.len());
        let f = fs[i];
        assert(text_fits(f.0) && value_fits(f.1));
        assert(init[i] == f);
    }
}

proof fn lemma_parse_fields_at(b: Seq<u8>, p: int, fs: RowView)
    requires
        row_wf(fs),
        encodable(fs),
        holds_at(b, p, encode_fields(fs)),
    ensures
        parse_fields(b, p, fs.len()) == Some((fs, p + encode_fields(fs).len())),
    decreases fs.len(),
{
    if fs.len() == 0 {
    } else {
        let init = fs.drop_last();
        assert(row_wf(init)) by {
            assert forall|i: int| 0 <= i < init.len() implies crate::value::value_wf(
                #[trigger] init[i].1,
            ) by {
                assert(init[i] == fs[i]);
            }
        }
        lemma_encodable_init(fs);
        lemma_holds_split(b, p, encode_fields(init), encode_field(fs.last()));
        lemma_parse_fields_at(b, p, init);
        assert(fs.len() - 1 == init.len());
        lemma_parse_field_at(b, p + encode_fields(init).len(), fs.last());
        assert(init.push(fs.last()) =~= fs);
    }
}

/// The bytes of a valid row depend on its mapping from column names to
/// values alone: valid rows with equal mappings are the same row and encode
/// to the same bytes, whatever order their fields were given in.
pub proof fn law_encoding_follows_mapping(r1: RowView, r2: RowView)
    requires
        row_wf(r1),
        row_wf(r2),
        row_map(r1) == row_map(r2),
    ensures
        r1 == r2,
        encode_row(r1) == encode_row(r2),
{
    lemma_rows_same_map(r1, r2);
}

/// Decoding the bytes of a valid row gives the row back.
pub proof fn law_round_trip(r: RowView)
    requires
        row_wf(r),
        encodable(r),
    ensures
        decode_row(encode_row(r)) == Some(r),
{
    let b = encode_row(r);
    assert(holds_at(b, 0, b)) by {
        assert(b.subrange(0, b.len() as int) =~= b);
    }
    lemma_holds_split(b, 0, spec_u32_to_le_bytes(r.len() as u32), encode_fields(r));
    lemma_parse_u32_at(b, 0, r.len() as u32);
    lemma_auto_spec_u32_to_from_le_bytes();
    lemma_parse_fields_at(b, 4, r);
}

// ---------------------------------------------------------------------------
// Executable encoder and decoder
// ---------------------------------------------------------------------------

/// Relies on `String::from_utf8`: it accepts exactly the valid UTF-8 byte
/// sequences, and the string holds the characters they encode.
#[verifier::external_body]
fn string_from_utf8(b: Vec<u8>) -> (r: Option<String>)
    ensures
        match r {
            Some(s) => valid_utf8(b@) && s@ == decode_utf8(b@),
            None => !valid_utf8(b@),
        },
{
    String::from_utf8(b).ok()
}

fn append_bytes(out: &mut Vec<u8>, b: &[u8])
    ensures
        final(out)@ == old(out)@ + b@,
{
    let mut i: usize = 0;
    while i < b.len()
        invariant
            0 <= i <= b@.len(),
            out@ == old(out)@ + b@.subrange(0, i as int),
        decreases b@.len() - i,
    {
        out.push(b[i]);
        i = i + 1;
        assert(out@ =~= old(out)@ + b@.subrange(0, i as int));
    }
    assert(b@.subrange(0, i as int) =~= b@);
}

fn write_text(out: &mut Vec<u8>, s: &String) -> (ok: bool)
    ensures
        ok == text_fits(s@),
        ok ==> final(out)@ == old(out)@ + encode_text(s@),
{
    let b = s.as_str().as_bytes();
    if b.len() > u32::MAX as usize {
        return false;
    }
    let n = u32_to_le_bytes(b.len() as u32);
    append_bytes(out, n.as_slice());
    append_bytes(out, b);
    assert(final(out)@ =~= old(out)@ + encode_text(s@));
    true
}

fn write_value(out: &mut Vec<u8>, v: &Value) -> (ok: bool)
    ensures
        ok == value_fits(v@),
        ok ==> final(out)@ == old(out)@ + encode_value(v@),
{
    match v {
        Value::Number(d) => {
            if d.digits.len() > u32::MAX as usize {
                return false;
            }
            out.push(0u8);
            out.push(if d.negative { 1u8 } else { 0u8 });
            let e = u64_to_le_bytes(d.exponent as u64);
            append_bytes(out, e.as_slice());
            let n = u32_to_le_bytes(d.digits.len() as u32);
            append_bytes(out, n.as_slice());
            append_bytes(out, d.digits.as_slice());
            assert(final(out)@ =~= old(out)@ + encode_value(v@));
            true
        },
        Value::String(s) => {
            out.push(1u8);
            let ok = write_text(out, s);
            assert(ok ==> final(out)@ =~= old(out)@ + encode_value(v@));
            ok
        },
    }
}

fn write_field(out: &mut Vec<u8>, f: &(String, Value)) -> (ok: bool)
    ensures
        ok == (text_fits(field_view(*f).0) && value_fits(field_view(*f).1)),
        ok ==> final(out)@ == old(out)@ + encode_field(field_view(*f)),
{
    if !write_text(out, &f.0) {
        return false;
    }
    if !write_value(out, &f.1) {
        return false;
    }
    assert(final(out)@ =~= old(out)@ + encode_field(field_view(*f)));
    true
}

/// Encodes a row; fails where a length does not fit its four bytes.
pub fn encode(row: &StoredRow) -> (r: Result<Vec<u8>, RowSerializerError>)
    ensures
        match r {
            Ok(b) => encodable(row@) && b@ == encode_row(row@),
            Err(e) => !encodable(row@) && e is ErrRowSerialize,
        },
{
    let n = row.row.len();
    if n > u32::MAX as usize {
        return Err(RowSerializerError::ErrRowSerialize("too many fields".to_owned()));
    }
    let mut out = u32_to_le_bytes(n as u32);
    let mut i: usize = 0;
    assert(row@.subrange(0, 0) =~= Seq::<(Seq<char>, ValueView)>::empty());
    while i < n
        invariant
            n == row@.len(),
            n <= u32::MAX,
            0 <= i <= n,
            out@ == spec_u32_to_le_bytes(n as u32) + encode_fields(row@.subrange(0, i as int)),
            forall|j: int|
                0 <= j < i ==> text_fits(#[trigger] row@[j].0) && value_fits(row@[j].1),
        decreases n - i,
    {
        assert(row@[i as int] == field_view(row.row@[i as int]));
        if !write_field(&mut out, &row.row[i]) {
            assert(!encodable(row@));
            return Err(RowSerializerError::ErrRowSerialize("field too long".to_owned()));
        }
        assert(text_fits(row@[i as int].0) && value_fits(row@[i as int].1));
        assert forall|j: int| 0 <= j < i + 1 implies text_fits(#[trigger] row@[j].0) && value_fits(
            row@[j].1,
        ) by {
            if j == i {
                assert(text_fits(row@[i as int].0));
            }
        }
        proof {
            let s = row@.subrange(0, i + 1);
            assert(s.drop_last() =~= row@.subrange(0, i as int));
            assert(s.last() == row@[i as int]);
            assert(out@ =~= spec_u32_to_le_bytes(n as u32) + encode_fields(s));
        }
        i = i + 1;
    }
    assert(row@.subrange(0, n as int) =~= row@);
    Ok(out)
}

fn read_u32(b: &[u8], p: usize) -> (r: Option<(u32, usize)>)
    ensures
        match r {
            Some((x, q)) => parse_u32(b@, p as int) == Some((x, q as int)),
            None => parse_u32(b@, p as int) is None,
        },
{
    if p <= b.len() && b.len() - p >= 4 {
        let x = u32_from_le_bytes(slice_subrange(b, p, p + 4));
        Some((x, p + 4))
    } else {
        None
    }
}

fn read_u64(b: &[u8], p: usize) -> (r: Option<(u64, usize)>)
    ensures
        match r {
            Some((x, q)) => parse_u64(b@, p as int) == Some((x, q as int)),
            None => parse_u64(b@, p as int) is None,
        },
{
    if p <= b.len() && b.len() - p >= 8 {
        let x = u64_from_le_bytes(slice_subrange(b, p, p + 8));
        Some((x, p + 8))
    } else {
        None
    }
}

fn read_text(b: &[u8], p: usize) -> (r: Option<(String, usize)>)
    ensures
        match r {
            Some((s, q)) => parse_text(b@, p as int) == Some((s@, q as int)),
            None => parse_text(b@, p as int) is None,
        },
{
    match read_u32(b, p) {
        Some((n, q)) => {
            if n as usize <= b.len() - q {
                let bytes = slice_to_vec(slice_subrange(b, q, q + n as usize));
                match string_from_utf8(bytes) {
                    Some(s) => Some((s, q + n as usize)),
                    None => None,
                }
            } else {
                None
            }
        },
        None => None,
    }
}

fn read_number(b: &[u8], p: usize) -> (r: Option<(Decimal, usize)>)
    ensures
        match r {
            Some((d, q)) => parse_number(b@, p as int) == Some((d@, q as int)) && d.wf(),
            None => parse_number(b@, p as int) is None,
        },
{
    if p < b.len() && b[p] <= 1 {
        let negative = b[p] == 1;
        match read_u64(b, p + 1) {
            Some((e, q)) => match read_u32(b, q) {
                Some((n, r)) => {
                    if n as usize <= b.len() - r {
                        let digits = slice_to_vec(slice_subrange(b, r, r + n as usize));
                        let d = Decimal { negative, digits, exponent: e as i64 };
                        if d.is_canonical() {
                            Some((d, r + n as usize))
                        } else {
                            None
                        }
                    } else {
                        None
                    }
                },
                None => None,
            },
            None => None,
        }
    } else {
        None
    }
}

fn read_value(b: &[u8], p: usize) -> (r: Option<(Value, usize)>)
    ensures
        match r {
            Some((v, q)) => parse_value(b@, p as int) == Some((v@, q as int)) && v.wf(),
            None => parse_value(b@, p as int) is None,
        },
{
    if p < b.len() && b[p] == 0 {
        match read_number(b, p + 1) {
            Some((d, q)) => Some((Value::Number(d), q)),
            None => None,
        }
    } else if p < b.len() && b[p] == 1 {
        match read_text(b, p + 1) {
            Some((s, q)) => Some((Value::String(s), q)),
            None => None,
        }
    } else {
        None
    }
}

fn read_field(b: &[u8], p: usize) -> (r: Option<((String, Value), usize)>)
    ensures
        match r {
            Some((f, q)) => parse_field(b@, p as int) == Some((field_view(f), q as int))
                && f.1.wf(),
            None => parse_field(b@, p as int) is None,
        },
{
    match read_text(b, p) {
        Some((name, q)) => match read_value(b, q) {
            Some((v, r)) => Some(((name, v), r)),
            None => None,
        },
        None => None,
    }
}

proof fn lemma_parse_fields_none(b: Seq<u8>, p: int, k: nat, m: nat)
    requires
        parse_fields(b, p, k) is None,
        k <= m,
    ensures
        parse_fields(b, p, m) is None,
    decreases m,
{
    if k < m {
        lemma_parse_fields_none(b, p, k, (m - 1) as nat);
    }
}

/// A row's bytes and their count.
#[derive(Debug)]
pub struct Chunk {
    pub size: usize,
    pub data: Vec<u8>,
}

/// Turning rows into bytes and back.
pub trait RowSerializer {
    fn to_bytes(&self) -> Result<Chunk, RowSerializerError>;

    fn from_bytes(bytes: &[u8]) -> Result<Self, RowSerializerError> where Self: Sized;
}

impl StoredRow {
    /// Whether the row is valid: fields in the order of their names (so no
    /// name repeats) and well-formed values.
    pub fn is_valid(&self) -> (r: bool)
        ensures
            r == row_wf(self@),
    {
        let n = self.row.len();
        let mut i: usize = 0;
        while i < n
            invariant
                n == self.row@.len(),
                0 <= i <= n,
                forall|j: int| 0 <= j < i ==> crate::value::value_wf(#[trigger] self@[j].1),
            decreases n - i,
        {
            assert(self@[i as int] == field_view(self.row@[i as int]));
            if !self.row[i].1.is_wf() {
                assert(!crate::value::value_wf(self@[i as int].1));
                assert(!row_wf(self@));
                return false;
            }
            i = i + 1;
        }
        names_in_order(&self.row)
    }

    /// The row's bytes. For valid rows they depend on the mapping alone
    /// (`law_encoding_follows_mapping`).
    pub fn to_bytes(&self) -> (r: Result<Chunk, RowSerializerError>)
        ensures
            match r {
                Ok(c) => encodable(self@) && c.data@ == encode_row(self@) && c.size == c.data@.len(),
                Err(e) => !encodable(self@) && e is ErrRowSerialize,
            },
    {
        match encode(self) {
            Ok(data) => Ok(Chunk { size: data.len(), data }),
            Err(e) => Err(e),
        }
    }

    /// The row that `bytes` hold.
    pub fn from_bytes(bytes: &[u8]) -> (r: Result<StoredRow, RowSerializerError>)
        ensures
            match r {
                Ok(row) => decode_row(bytes@) == Some(row@) && row_wf(row@),
                Err(e) => decode_row(bytes@) is None && e is ErrRowDeserialize,
            },
    {
        decode(bytes)
    }
}

impl RowSerializer for StoredRow {
    fn to_bytes(&self) -> Result<Chunk, RowSerializerError> {
        StoredRow::to_bytes(self)
    }

    fn from_bytes(bytes: &[u8]) -> Result<StoredRow, RowSerializerError> {
        StoredRow::from_bytes(bytes)
    }
}

/// Decodes a row; fails exactly where the bytes hold no row.
pub fn decode(b: &[u8]) -> (r: Result<StoredRow, RowSerializerError>)
    ensures
        match r {
            Ok(row) => decode_row(b@) == Some(row@) && row_wf(row@),
            Err(e) => decode_row(b@) is None && e is ErrRowDeserialize,
        },
{
    let (n, p0) = match read_u32(b, 0) {
        Some(x) => x,
        None => return Err(RowSerializerError::ErrRowDeserialize("truncated row".to_owned())),
    };
    let mut fields: Vec<(String, Value)> = Vec::new();
    let mut pos: usize = p0;
    let mut i: u32 = 0;
    assert(fields@.map_values(|f: (String, Value)| field_view(f)) =~= Seq::<
        (Seq<char>, ValueView),
    >::empty());
    while i < n
        invariant
            0 <= i <= n,
            parse_u32(b@, 0) == Some((n, p0 as int)),
            parse_fields(b@, p0 as int, i as nat) == Some(
                (fields@.map_values(|f: (String, Value)| field_view(f)), pos as int),
            ),
            forall|k: int| 0 <= k < fields@.len() ==> (#[trigger] fields@[k]).1.wf(),
        decreases n - i,
    {
        match read_field(b, pos) {
            Some((f, q)) => {
                let ghost before = fields@;
                fields.push(f);
                assert(fields@.map_values(|f: (String, Value)| field_view(f)) =~= before.map_values(
                    |f: (String, Value)| field_view(f),
                ).push(field_view(f)));
                pos = q;
                i = i + 1;
            },
            None => {
                proof {
                    assert(((i + 1) as nat - 1) as nat == i as nat);
                    assert(parse_fields(b@, p0 as int, (i + 1) as nat) is None);
                    lemma_parse_fields_none(b@, p0 as int, (i + 1) as nat, n as nat);
                    assert(parse_u32(b@, 0) == Some((n, p0 as int)));
                    assert(parse_fields(b@, p0 as int, n as nat) is None);
                    assert(decode_row(b@) is None);
                }
                return Err(RowSerializerError::ErrRowDeserialize("malformed field".to_owned()));
            },
        }
    }
    if pos != b.len() {
        return Err(RowSerializerError::ErrRowDeserialize("trailing bytes".to_owned()));
    }
    if !names_in_order(&fields) {
        return Err(RowSerializerError::ErrRowDeserialize("repeated column".to_owned()));
    }
    let row = StoredRow { row: fields };
    assert forall|k: int| 0 <= k < row@.len() implies crate::value::value_wf(#[trigger] row@[k].1) by {
        assert(row.row@[k].1.wf());
    }
    Ok(row)
}

} // verus!
