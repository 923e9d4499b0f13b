use crate::error::DbError;
use crate::header::{DatabaseHeader, TextEncoding};
use crate::varint::{lemma_varint_size_bounds, varint_of, varint_size, varint_value, Varint};
use vstd::prelude::*;
use vstd::slice::{slice_subrange, slice_to_vec};
use vstd::utf8::{decode_utf8, valid_utf8};

verus! {

/// One column value of a row, tagged by how it was stored.
#[derive(Debug, Clone, PartialEq)]
pub enum RecordSerial {
    Null,
    I8(i8),
    I16(i16),
    I24(i32),
    I32(i32),
    I48(i64),
    I64(i64),
    /// An IEEE-754 double, kept as its 64-bit pattern.
    F64(u64),
    Zero,
    One,
    Reserved1,
    Reserved2,
    Blob(Vec<u8>),
    String(String),
}

/// What a column value holds; text is given by its Unicode scalar values.
pub enum SerialView {
    Null,
    I8(i8),
    I16(i16),
    I24(i32),
    I32(i32),
    I48(i64),
    I64(i64),
    F64(u64),
    Zero,
    One,
    Reserved1,
    Reserved2,
    Blob(Seq<u8>),
    Text(Seq<u32>),
}

pub open spec fn scalars(s: Seq<char>) -> Seq<u32> {
    s.map_values(|c: char| c as u32)
}

impl View for RecordSerial {
    type V = SerialView;

    open spec fn view(&self) -> SerialView {
        match self {
            RecordSerial::Null => SerialView::Null,
            RecordSerial::I8(v) => SerialView::I8(*v),
            RecordSerial::I16(v) => SerialView::I16(*v),
            RecordSerial::I24(v) => SerialView::I24(*v),
            RecordSerial::I32(v) => SerialView::I32(*v),
            RecordSerial::I48(v) => SerialView::I48(*v),
            RecordSerial::I64(v) => SerialView::I64(*v),
            RecordSerial::F64(v) => SerialView::F64(*v),
            RecordSerial::Zero => SerialView::Zero,
            RecordSerial::One => SerialView::One,
            RecordSerial::Reserved1 => SerialView::Reserved1,
            RecordSerial::Reserved2 => SerialView::Reserved2,
            RecordSerial::Blob(b) => SerialView::Blob(b@),
            RecordSerial::String(s) => SerialView::Text(scalars(s@)),
        }
    }
}

/// A decoded row payload: the length of its header and its column values in
/// header order.
#[derive(Debug, Clone)]
pub struct Record {
    pub header_size: Varint,
    pub content: Vec<RecordSerial>,
}

impl View for Record {
    type V = Seq<SerialView>;

    open spec fn view(&self) -> Seq<SerialView> {
        self.content@.map_values(|v: RecordSerial| v@)
    }
}

/// `256` raised to the power `k`.
pub open spec fn pow256(k: nat) -> nat
    decreases k,
{
    if k == 0 {
        1
    } else {
        256 * pow256((k - 1) as nat)
    }
}

/// The unsigned big-endian number that `s` spells.
pub open spec fn be_uint(s: Seq<u8>) -> nat
    decreases s.len(),
{
    if s.len() == 0 {
        0
    } else {
        be_uint(s.drop_last()) * 256 + s.last() as nat
    }
}

/// The two's complement big-endian number that `s` spells.
pub open spec fn be_signed(s: Seq<u8>) -> int {
    let u = be_uint(s);
    if 2 * u >= pow256(s.len()) {
        u - pow256(s.len())
    } else {
        u as int
    }
}

/// Number of content bytes that a value of serial type `t` occupies.
pub open spec fn content_width(t: int) -> int {
    if t == 0 || (8 <= t && t <= 11) {
        0
    } else if 1 <= t && t <= 4 {
        t
    } else if t == 5 {
        6
    } else if t == 6 || t == 7 {
        8
    } else if t % 2 == 0 {
        (t - 12) / 2
    } else {
        (t - 13) / 2
    }
}

/// The 16-bit code units of `b`, two bytes each, low byte first.
pub open spec fn units_le(b: Seq<u8>) -> Seq<u16> {
    Seq::new(b.len() / 2, |i: int| (b[2 * i + 1] as nat * 256 + b[2 * i] as nat) as u16)
}

/// The 16-bit code units of `b`, two bytes each, high byte first.
pub open spec fn units_be(b: Seq<u8>) -> Seq<u16> {
    Seq::new(b.len() / 2, |i: int| (b[2 * i] as nat * 256 + b[2 * i + 1] as nat) as u16)
}

/// The Unicode scalar values that UTF-16 code units stand for, or `None`
/// where a surrogate is not part of a high/low pair.
pub open spec fn utf16_scalars(u: Seq<u16>) -> Option<Seq<u32>>
    decreases u.len(),
{
    if u.len() == 0 {
        Some(seq![])
    } else if u[0] < 0xD800 || u[0] >= 0xE000 {
        match utf16_scalars(u.drop_first()) {
            Some(rest) => Some(seq![u[0] as u32] + rest),
            None => None,
        }
    } else if u[0] < 0xDC00 && u.len() >= 2 && 0xDC00 <= u[1] && u[1] < 0xE000 {
        match utf16_scalars(u.subrange(2, u.len() as int)) {
            Some(rest) => Some(
                seq![(0x10000 + (u[0] - 0xD800) * 0x400 + (u[1] - 0xDC00)) as u32] + rest,
            ),
            None => None,
        }
    } else {
        None
    }
}

/// The scalar values of text stored as `b` under `enc`, or `None` where the
/// bytes are not valid text.
pub open spec fn text_scalars(b: Seq<u8>, enc: TextEncoding) -> Option<Seq<u32>> {
    match enc {
        TextEncoding::UTF8 => if valid_utf8(b) {
            Some(scalars(decode_utf8(b)))
        } else {
            None
        },
        TextEncoding::UTF16LE => if b.len() % 2 != 0 {
            None
        } else {
            utf16_scalars(units_le(b))
        },
        TextEncoding::UTF16BE => if b.len() % 2 != 0 {
            None
        } else {
            utf16_scalars(units_be(b))
        },
    }
}

/// The value of serial type `t` whose content bytes are `b`.
pub open spec fn value_of(b: Seq<u8>, t: int, enc: TextEncoding) -> Result<SerialView, DbError> {
    if t == 0 {
        Ok(SerialView::Null)
    } else if t == 1 {
        Ok(SerialView::I8(be_signed(b) as i8))
    } else if t == 2 {
        Ok(SerialView::I16(be_signed(b) as i16))
    } else if t == 3 {
        Ok(SerialView::I24(be_signed(b) as i32))
    } else if t == 4 {
        Ok(SerialView::I32(be_signed(b) as i32))
    } else if t == 5 {
        Ok(SerialView::I48(be_signed(b) as i64))
    } else if t == 6 {
        Ok(SerialView::I64(be_signed(b) as i64))
    } else if t == 7 {
        Ok(SerialView::F64(be_uint(b) as u64))
    } else if t == 8 {
        Ok(SerialView::Zero)
    } else if t == 9 {
        Ok(SerialView::One)
    } else if t == 10 {
        Ok(SerialView::Reserved1)
    } else if t == 11 {
        Ok(SerialView::Reserved2)
    } else if t % 2 == 0 {
        Ok(SerialView::Blob(b))
    } else {
        match text_scalars(b, enc) {
            Some(s) => Ok(SerialView::Text(s)),
            None => Err(DbError::Decode),
        }
    }
}

/// The number an integer value holds, whatever width stored it.
pub open spec fn integer_of(v: SerialView) -> Option<int> {
    match v {
        SerialView::I8(x) => Some(x as int),
        SerialView::I16(x) => Some(x as int),
        SerialView::I24(x) => Some(x as int),
        SerialView::I32(x) => Some(x as int),
        SerialView::I48(x) => Some(x as int),
        SerialView::I64(x) => Some(x as int),
        _ => None,
    }
}

/// `n` bytes of `0xFF`.
pub open spec fn all_ones(n: nat) -> Seq<u8> {
    Seq::new(n, |i: int| 0xFFu8)
}

proof fn lemma_all_ones_uint(n: nat)
    ensures
        be_uint(all_ones(n)) + 1 == pow256(n),
    decreases n,
{
    if n > 0 {
        assert(all_ones(n).drop_last() == all_ones((n - 1) as nat));
        lemma_all_ones_uint((n - 1) as nat);
    }
}

/// Sign extension at every integer width: content bytes that are all `0xFF`
/// decode to `-1` under each of the integer serial types.
pub proof fn lemma_minus_one_every_width(t: int, enc: TextEncoding)
    requires
        1 <= t <= 6,
    ensures
        value_of(all_ones(content_width(t) as nat), t, enc) is Ok,
        integer_of(value_of(all_ones(content_width(t) as nat), t, enc)->Ok_0) == Some(-1int),
{
    let n = content_width(t) as nat;
    lemma_all_ones_uint(n);
    lemma_pow256_facts();
    assert(all_ones(n).len() == n);
}

/// A value of serial type 0, 8, 9, 10 or 11 takes no content bytes: the
/// value after it is read from the same content position.
pub proof fn lemma_zero_width_types(
    buf: Seq<u8>,
    hdr: int,
    hdr_end: int,
    cur: int,
    enc: TextEncoding,
)
    requires
        0 <= hdr < hdr_end,
        hdr < buf.len(),
        0 <= cur <= buf.len(),
        ({
            let t = varint_value(buf.subrange(hdr, buf.len() as int));
            t == 0 || (8 <= t && t <= 11)
        }),
    ensures
        ({
            let tag = buf.subrange(hdr, buf.len() as int);
            let t = varint_value(tag);
            &&& content_width(t) == 0
            &&& value_of(seq![], t, enc) is Ok
            &&& record_values(buf, hdr, hdr_end, cur, enc) == prepend(
                seq![value_of(seq![], t, enc)->Ok_0],
                record_values(buf, hdr + varint_size(tag), hdr_end, cur, enc),
            )
        }),
{
    assert(buf.subrange(cur, cur) == Seq::<u8>::empty());
}

/// `done` followed by the values of `rest`, if `rest` succeeded.
pub open spec fn prepend(
    done: Seq<SerialView>,
    rest: Result<Seq<SerialView>, DbError>,
) -> Result<Seq<SerialView>, DbError> {
    match rest {
        Ok(r) => Ok(done + r),
        Err(e) => Err(e),
    }
}

/// The values described by the serial types at `buf[hdr..hdr_end]`, whose
/// contents start at `buf[cur]` and follow one another in header order.
pub open spec fn record_values(
    buf: Seq<u8>,
    hdr: int,
    hdr_end: int,
    cur: int,
    enc: TextEncoding,
) -> Result<Seq<SerialView>, DbError>
    decreases buf.len() - hdr,
    via record_values_decreases
{
    if hdr >= hdr_end {
        Ok(seq![])
    } else {
        let tag = buf.subrange(hdr, buf.len() as int);
        let t = varint_value(tag);
        let w = content_width(t);
        if hdr < 0 || hdr >= buf.len() || t < 0 || cur + w > buf.len() {
            Err(DbError::Format)
        } else {
            match value_of(buf.subrange(cur, cur + w), t, enc) {
                Err(e) => Err(e),
                Ok(v) => prepend(
                    seq![v],
                    record_values(buf, hdr + varint_size(tag), hdr_end, cur + w, enc),
                ),
            }
        }
    }
}

#[via_fn]
proof fn record_values_decreases(
    buf: Seq<u8>,
    hdr: int,
    hdr_end: int,
    cur: int,
    enc: TextEncoding,
) {
    if 0 <= hdr < buf.len() {
        lemma_varint_size_bounds(buf.subrange(hdr, buf.len() as int));
    }
}

/// The header-length varint (its value and its own byte length) and the
/// values of the record at `buf[pos]`. Its header starts with its own
/// length, which must cover that varint and stay within `buf`.
pub open spec fn record_spec(buf: Seq<u8>, pos: int, enc: TextEncoding) -> Result<
    (Varint, Seq<SerialView>),
    DbError,
> {
    let head = buf.subrange(pos, buf.len() as int);
    let hs = varint_value(head);
    let hsz = varint_size(head);
    if pos >= buf.len() || hs < hsz || pos + hs > buf.len() {
        Err(DbError::Format)
    } else {
        match record_values(buf, pos + hsz, pos + hs, pos + hs, enc) {
            Ok(v) => Ok((Varint { value: hs as i64, size: hsz as u8 }, v)),
            Err(e) => Err(e),
        }
    }
}

/// Relies on `String::from_utf8`: it accepts exactly the valid UTF-8 byte
/// sequences and decodes them.
#[verifier::external_body]
fn utf8_to_string(bytes: Vec<u8>) -> (r: Option<String>)
    ensures
        r is Some <==> valid_utf8(bytes@),
        r is Some ==> r->Some_0@ == decode_utf8(bytes@),
{
    String::from_utf8(bytes).ok()
}

/// Relies on `String::from_utf16`: it decodes surrogate pairs and rejects
/// unpaired surrogates.
#[verifier::external_body]
fn utf16_to_string(units: &[u16]) -> (r: Option<String>)
    ensures
        r is Some <==> utf16_scalars(units@) is Some,
        r is Some ==> scalars(r->Some_0@) == utf16_scalars(units@)->Some_0,
{
    String::from_utf16(units).ok()
}

proof fn lemma_pow256_facts()
    ensures
        pow256(1) == 0x100,
        pow256(2) == 0x1_0000,
        pow256(3) == 0x100_0000,
        pow256(4) == 0x1_0000_0000,
        pow256(6) == 0x1_0000_0000_0000,
        pow256(8) == 0x1_0000_0000_0000_0000,
{
    reveal_with_fuel(pow256, 9);
}

/// The unsigned big-endian number at `buf[at..at + n]`.
fn read_be(buf: &[u8], at: usize, n: usize) -> (r: u64)
    requires
        n <= 8,
        at + n <= buf@.len(),
    ensures
        r as nat == be_uint(buf@.subrange(at as int, at + n)),
        (r as nat) < pow256(n as nat),
{
    let mut acc: u64 = 0;
    let mut i: usize = 0;
    let len = buf.len();
    proof {
        lemma_pow256_facts();
    }
    while i < n
        invariant
            len == buf@.len(),
            i <= n,
            n <= 8,
            at + n <= buf@.len(),
            acc as nat == be_uint(buf@.subrange(at as int, at + i)),
            (acc as nat) < pow256(i as nat),
            pow256(8) == 0x1_0000_0000_0000_0000,
        decreases n - i,
    {
        let b = buf[at + i];
        proof {
            lemma_pow256_monotone((i + 1) as nat, 8);
        }
        assert(acc * 256 + b < pow256((i + 1) as nat)) by (nonlinear_arith)
            requires
                acc < pow256(i as nat),
                b < 256,
                pow256((i + 1) as nat) == 256 * pow256(i as nat),
        ;
        assert(buf@.subrange(at as int, at + i + 1).drop_last() == buf@.subrange(
            at as int,
            at + i,
        ));
        acc = acc * 256 + b as u64;
        i += 1;
    }
    acc
}

proof fn lemma_pow256_monotone(j: nat, k: nat)
    requires
        j <= k,
    ensures
        pow256(j) <= pow256(k),
    decreases k,
{
    if j < k {
        lemma_pow256_monotone(j, (k - 1) as nat);
    }
}

/// The two's complement big-endian number at `buf[at..at + n]`.
fn read_signed(buf: &[u8], at: usize, n: usize) -> (r: i64)
    requires
        1 <= n <= 8,
        at + n <= buf@.len(),
    ensures
        r as int == be_signed(buf@.subrange(at as int, at + n)),
        -(pow256(n as nat) as int) <= 2 * r < pow256(n as nat),
{
    let u = read_be(buf, at, n);
    let mut full: u128 = 1;
    let mut i: usize = 0;
    while i < n
        invariant
            i <= n <= 8,
            full as nat == pow256(i as nat),
        decreases n - i,
    {
        proof {
            lemma_pow256_monotone((i + 1) as nat, 8);
            lemma_pow256_facts();
        }
        full = full * 256;
        i += 1;
    }
    proof {
        lemma_pow256_monotone(n as nat, 8);
        lemma_pow256_facts();
    }
    assert(buf@.subrange(at as int, at + n).len() == n);
    if (u as u128) * 2 >= full {
        ((u as i128) - (full as i128)) as i64
    } else {
        u as i64
    }
}

/// Copies `b` into 16-bit code units, low byte first when `little` holds.
fn code_units(b: &[u8], little: bool) -> (r: Vec<u16>)
    ensures
        little ==> r@ == units_le(b@),
        !little ==> r@ == units_be(b@),
{
    let len = b.len();
    let n = len / 2;
    let mut units: Vec<u16> = Vec::new();
    let mut i: usize = 0;
    while i < n
        invariant
            len == b@.len(),
            n == b@.len() / 2,
            i <= n,
            units@.len() == i,
            little ==> forall|j: int| 0 <= j < i ==> units@[j] == units_le(b@)[j],
            !little ==> forall|j: int| 0 <= j < i ==> units@[j] == units_be(b@)[j],
        decreases n - i,
    {
        let lo = b[2 * i];
        let hi = b[2 * i + 1];
        if little {
            units.push(hi as u16 * 256 + lo as u16);
        } else {
            units.push(lo as u16 * 256 + hi as u16);
        }
        i += 1;
    }
    if little {
        assert(units@ == units_le(b@));
    } else {
        assert(units@ == units_be(b@));
    }
    units
}

/// Decodes text stored as `b` under `enc`.
pub fn decode_text(b: &[u8], enc: TextEncoding) -> (r: Option<String>)
    ensures
        r is Some <==> text_scalars(b@, enc) is Some,
        r is Some ==> scalars(r->Some_0@) == text_scalars(b@, enc)->Some_0,
{
    match enc {
        TextEncoding::UTF8 => utf8_to_string(slice_to_vec(b)),
        TextEncoding::UTF16LE => {
            if b.len() % 2 != 0 {
                None
            } else {
                let units = code_units(b, true);
                utf16_to_string(units.as_slice())
            }
        },
        TextEncoding::UTF16BE => {
            if b.len() % 2 != 0 {
                None
            } else {
                let units = code_units(b, false);
                utf16_to_string(units.as_slice())
            }
        },
    }
}

/// Number of content bytes that a value of serial type `t` occupies.
pub fn serial_width(t: i64) -> (w: u64)
    requires
        t >= 0,
    ensures
        w as int == content_width(t as int),
{
    if t == 0 || (8 <= t && t <= 11) {
        0
    } else if 1 <= t && t <= 4 {
        t as u64
    } else if t == 5 {
        6
    } else if t == 6 || t == 7 {
        8
    } else if t % 2 == 0 {
        ((t - 12) / 2) as u64
    } else {
        ((t - 13) / 2) as u64
    }
}

/// Decodes the value of serial type `t` whose content starts at `buf[at]`.
pub fn decode_value(buf: &[u8], at: usize, t: i64, enc: TextEncoding) -> (r: Result<
    RecordSerial,
    DbError,
>)
    requires
        t >= 0,
        at + content_width(t as int) <= buf@.len(),
    ensures
        ({
            let b = buf@.subrange(at as int, at + content_width(t as int));
            match value_of(b, t as int, enc) {
                Ok(v) => r is Ok && r->Ok_0@ == v,
                Err(e) => r == Err::<RecordSerial, DbError>(e),
            }
        }),
{
    let len = buf.len();
    proof {
        lemma_pow256_facts();
    }
    if t == 0 {
        Ok(RecordSerial::Null)
    } else if t == 1 {
        Ok(RecordSerial::I8(read_signed(buf, at, 1) as i8))
    } else if t == 2 {
        Ok(RecordSerial::I16(read_signed(buf, at, 2) as i16))
    } else if t == 3 {
        Ok(RecordSerial::I24(read_signed(buf, at, 3) as i32))
    } else if t == 4 {
        Ok(RecordSerial::I32(read_signed(buf, at, 4) as i32))
    } else if t == 5 {
        Ok(RecordSerial::I48(read_signed(buf, at, 6)))
    } else if t == 6 {
        Ok(RecordSerial::I64(read_signed(buf, at, 8)))
    } else if t == 7 {
        Ok(RecordSerial::F64(read_be(buf, at, 8)))
    } else if t == 8 {
        Ok(RecordSerial::Zero)
    } else if t == 9 {
        Ok(RecordSerial::One)
    } else if t == 10 {
        Ok(RecordSerial::Reserved1)
    } else if t == 11 {
        Ok(RecordSerial::Reserved2)
    } else if t % 2 == 0 {
        let w = serial_width(t) as usize;
        Ok(RecordSerial::Blob(slice_to_vec(slice_subrange(buf, at, at + w))))
    } else {
        let w = serial_width(t) as usize;
        match decode_text(slice_subrange(buf, at, at + w), enc) {
            Some(s) => Ok(RecordSerial::String(s)),
            None => Err(DbError::Decode),
        }
    }
}

/// Decodes the varint at `buf[at]`.
pub(crate) fn varint_at(buf: &[u8], at: usize) -> (r: Varint)
    requires
        at <= buf@.len(),
    ensures
        r.size as nat == varint_size(buf@.subrange(at as int, buf@.len() as int)),
        r.value as int == varint_value(buf@.subrange(at as int, buf@.len() as int)),
        r == varint_of(buf@.subrange(at as int, buf@.len() as int)),
        at + r.size <= buf@.len(),
        at < buf@.len() ==> 1 <= r.size <= 9,
{
    Varint::from_bytes(slice_subrange(buf, at, buf.len()))
}

impl Record {
    /// Decodes the record whose header starts at `buf[position]`, reading
    /// text under the file's encoding.
    pub fn from_bytes(buf: &[u8], position: usize, db_header: &DatabaseHeader) -> (r: Result<
        Self,
        DbError,
    >)
        ensures
            match record_spec(buf@, position as int, db_header.text_encoding) {
                Ok((h, values)) => r is Ok && r->Ok_0.header_size == h && r->Ok_0@ == values,
                Err(e) => r == Err::<Record, DbError>(e),
            },
    {
        let enc = db_header.text_encoding;
        if position >= buf.len() {
            return Err(DbError::Format);
        }
        let header_size = varint_at(buf, position);
        let hs = header_size.value;
        if hs < header_size.size as i64 || hs as u64 > (buf.len() - position) as u64 {
            return Err(DbError::Format);
        }
        let header_end: usize = position + hs as usize;
        let mut header_current: usize = position + header_size.size as usize;
        let mut current: usize = header_end;
        let mut content: Vec<RecordSerial> = Vec::new();
        let ghost h0 = header_current as int;
        while header_current < header_end
            invariant
                enc == db_header.text_encoding,
                position < buf@.len(),
                header_size.size as nat == varint_size(buf@.subrange(position as int, buf@.len() as int)),
                header_size.value as int == varint_value(buf@.subrange(position as int, buf@.len() as int)),
                header_size.value >= header_size.size,
                h0 == position + header_size.size,
                header_end == position + header_size.value,
                header_end <= buf@.len(),
                current <= buf@.len(),
                record_values(buf@, h0, header_end as int, header_end as int, enc) == prepend(
                    content@.map_values(|v: RecordSerial| v@),
                    record_values(buf@, header_current as int, header_end as int, current as int, enc),
                ),
                header_current <= buf@.len(),
            decreases buf@.len() - header_current,
        {
            let serial = varint_at(buf, header_current);
            let t = serial.value;
            if t < 0 {
                return Err(DbError::Format);
            }
            let w = serial_width(t);
            if w > (buf.len() - current) as u64 {
                return Err(DbError::Format);
            }
            let value = decode_value(buf, current, t, enc);
            match value {
                Err(e) => {
                    return Err(e);
                },
                Ok(v) => {
                    let ghost before = content@.map_values(|v: RecordSerial| v@);
                    let ghost rest = record_values(
                        buf@,
                        header_current + serial.size,
                        header_end as int,
                        current + w,
                        enc,
                    );
                    content.push(v);
                    assert(content@.map_values(|v: RecordSerial| v@) == before.push(v@));
                    proof {
                        if rest is Ok {
                            let rs = rest->Ok_0;
                            assert(before + (seq![v@] + rs) == before.push(v@) + rs);
                        }
                    }
                    header_current = header_current + serial.size as usize;
                    current = current + w as usize;
                },
            }
        }
        assert(content@.map_values(|v: RecordSerial| v@) + seq![] == content@.map_values(
            |v: RecordSerial| v@,
        ));
        Ok(Record { header_size, content })
    }
}

} // verus!
