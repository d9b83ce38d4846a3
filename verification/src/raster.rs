//! The `.vrast` raster artifact: a 24-byte little-endian header (magic,
//! format version, dtype tag, width, height, cell size in cm) followed by
//! the row-major little-endian payload.

use vstd::prelude::*;

use crate::sealed::Sealed;

verus! {

/// Little-endian bytes of a 32-bit word.
pub open spec fn le32(x: u32) -> Seq<u8> {
    seq![
        (x & 0xff) as u8,
        ((x >> 8u32) & 0xff) as u8,
        ((x >> 16u32) & 0xff) as u8,
        ((x >> 24u32) & 0xff) as u8,
    ]
}

/// The 32-bit word whose little-endian bytes are the first four of `s`.
pub open spec fn u32_of(s: Seq<u8>) -> u32 {
    (s[0] as u32) | ((s[1] as u32) << 8u32) | ((s[2] as u32) << 16u32) | ((s[3] as u32) << 24u32)
}

/// Little-endian bytes of a 64-bit word.
pub open spec fn le64(x: u64) -> Seq<u8> {
    le32((x & 0xffff_ffff) as u32) + le32((x >> 32u64) as u32)
}

/// The 64-bit word whose little-endian bytes are the first eight of `s`.
pub open spec fn u64_of(s: Seq<u8>) -> u64 {
    (u32_of(s) as u64) | ((u32_of(s.subrange(4, 8)) as u64) << 32u64)
}

pub proof fn lemma_u32_roundtrip(x: u32)
    ensures
        le32(x).len() == 4,
        u32_of(le32(x)) == x,
{
    let b0 = (x & 0xff) as u8;
    let b1 = ((x >> 8u32) & 0xff) as u8;
    let b2 = ((x >> 16u32) & 0xff) as u8;
    let b3 = ((x >> 24u32) & 0xff) as u8;
    assert(((b0 as u32) | ((b1 as u32) << 8u32) | ((b2 as u32) << 16u32) | ((b3 as u32) << 24u32))
        == x) by (bit_vector)
        requires
            b0 == (x & 0xff) as u8,
            b1 == ((x >> 8u32) & 0xff) as u8,
            b2 == ((x >> 16u32) & 0xff) as u8,
            b3 == ((x >> 24u32) & 0xff) as u8,
    ;
}

pub proof fn lemma_u64_roundtrip(x: u64)
    ensures
        le64(x).len() == 8,
        u64_of(le64(x)) == x,
{
    let lo = (x & 0xffff_ffff) as u32;
    let hi = (x >> 32u64) as u32;
    lemma_u32_roundtrip(lo);
    lemma_u32_roundtrip(hi);
    assert(le64(x).subrange(0, 4) =~= le32(lo));
    assert(le64(x).subrange(4, 8) =~= le32(hi));
    assert(u32_of(le64(x)) == u32_of(le32(lo)));
    assert(((lo as u64) | ((hi as u64) << 32u64)) == x) by (bit_vector)
        requires
            lo == (x & 0xffff_ffff) as u32,
            hi == (x >> 32u64) as u32,
    ;
}

/// Four bytes read as a word and written back are the same bytes.
pub proof fn lemma_u32_bytes(s: Seq<u8>)
    requires
        s.len() == 4,
    ensures
        le32(u32_of(s)) == s,
{
    let b0 = s[0];
    let b1 = s[1];
    let b2 = s[2];
    let b3 = s[3];
    let x = u32_of(s);
    assert(x == (b0 as u32) | ((b1 as u32) << 8u32) | ((b2 as u32) << 16u32) | ((b3 as u32) << 24u32));
    assert((x & 0xff) as u8 == b0 && ((x >> 8u32) & 0xff) as u8 == b1 && ((x >> 16u32) & 0xff) as u8 == b2 && ((x
        >> 24u32) & 0xff) as u8 == b3) by (bit_vector)
        requires
            x == (b0 as u32) | ((b1 as u32) << 8u32) | ((b2 as u32) << 16u32) | ((b3 as u32) << 24u32),
    ;
    assert(le32(x) =~= s);
}

/// Eight bytes read as a 64-bit word and written back are the same bytes.
pub proof fn lemma_u64_bytes(s: Seq<u8>)
    requires
        s.len() == 8,
    ensures
        le64(u64_of(s)) == s,
{
    let lo = u32_of(s);
    let hi = u32_of(s.subrange(4, 8));
    let x = u64_of(s);
    assert(x == (lo as u64) | ((hi as u64) << 32u64));
    assert((x & 0xffff_ffff) as u32 == lo && (x >> 32u64) as u32 == hi) by (bit_vector)
        requires
            x == (lo as u64) | ((hi as u64) << 32u64),
    ;
    assert(u32_of(s) == u32_of(s.subrange(0, 4)));
    lemma_u32_bytes(s.subrange(0, 4));
    lemma_u32_bytes(s.subrange(4, 8));
    assert(le64(x) =~= s.subrange(0, 4) + s.subrange(4, 8));
    assert(s.subrange(0, 4) + s.subrange(4, 8) =~= s);
}

/// Append the little-endian bytes of `x`.
fn push_le32(out: &mut Vec<u8>, x: u32)
    ensures
        final(out)@ == old(out)@ + le32(x),
{
    out.push((x & 0xff) as u8);
    out.push(((x >> 8) & 0xff) as u8);
    out.push(((x >> 16) & 0xff) as u8);
    out.push(((x >> 24) & 0xff) as u8);
    assert(out@ =~= old(out)@ + le32(x));
}

/// Read the little-endian word at `at`.
fn read_u32_at(bytes: &[u8], at: usize) -> (r: u32)
    requires
        at + 4 <= bytes@.len(),
    ensures
        r == u32_of(bytes@.subrange(at as int, at + 4)),
{
    let r = (bytes[at] as u32) | ((bytes[at + 1] as u32) << 8) | ((bytes[at + 2] as u32) << 16)
        | ((bytes[at + 3] as u32) << 24);
    let ghost s = bytes@.subrange(at as int, at + 4);
    assert(s[0] == bytes@[at as int] && s[1] == bytes@[at + 1] && s[2] == bytes@[at + 2] && s[3]
        == bytes@[at + 3]);
    r
}

/// Scalar types storable in a `.vrast` raster. Sealed: the format admits
/// exactly four element types, each with a fixed dtype tag and width.
pub trait Scalar: Sealed + Copy + Sized {
    const DTYPE: u32;
    const SIZE: usize;

    /// The little-endian encoding of one value.
    spec fn le_bytes(self) -> Seq<u8>;

    /// The value encoded by `SIZE` little-endian bytes.
    spec fn from_le(bytes: Seq<u8>) -> Self;

    proof fn lemma_le_roundtrip(self)
        ensures
            self.le_bytes().len() == Self::SIZE,
            Self::from_le(self.le_bytes()) == self,
    ;

    proof fn lemma_size()
        ensures
            1 <= Self::SIZE <= 8,
    ;

    /// Every `SIZE` bytes encode a value, and that value's encoding is
    /// those bytes.
    proof fn lemma_bytes_roundtrip(bytes: Seq<u8>)
        requires
            bytes.len() == Self::SIZE,
        ensures
            Self::from_le(bytes).le_bytes() == bytes,
    ;

    fn write_le(&self, out: &mut Vec<u8>)
        ensures
            final(out)@ == old(out)@ + self.le_bytes(),
    ;

    fn read_le(bytes: &[u8]) -> (r: Self)
        requires
            bytes@.len() == Self::SIZE,
        ensures
            r == Self::from_le(bytes@),
    ;

    fn read_le_at(bytes: &[u8], at: usize) -> (r: Self)
        requires
            at + Self::SIZE <= bytes@.len(),
        ensures
            r == Self::from_le(bytes@.subrange(at as int, at + Self::SIZE)),
    ;
}

/// The bit pattern of an IEEE-754 single, as stored in dtype-4 rasters.
#[derive(Clone, Copy, Debug, PartialEq, Eq)]
pub struct F32Bits(pub u32);

impl Sealed for i32 {}
impl Sealed for u32 {}
impl Sealed for u64 {}
impl Sealed for F32Bits {}

impl Scalar for u32 {
    const DTYPE: u32 = 2;
    const SIZE: usize = 4;

    open spec fn le_bytes(self) -> Seq<u8> {
        le32(self)
    }

    open spec fn from_le(bytes: Seq<u8>) -> u32 {
        u32_of(bytes)
    }

    proof fn lemma_size() {
    }

    proof fn lemma_le_roundtrip(self) {
        lemma_u32_roundtrip(self);
    }

    proof fn lemma_bytes_roundtrip(bytes: Seq<u8>) {
        lemma_u32_bytes(bytes);
    }

    fn write_le(&self, out: &mut Vec<u8>) {
        push_le32(out, *self);
    }

    fn read_le(bytes: &[u8]) -> (r: u32) {
        let r = read_u32_at(bytes, 0);
        assert(bytes@.subrange(0, 4) =~= bytes@);
        r
    }

    fn read_le_at(bytes: &[u8], at: usize) -> (r: u32) {
        read_u32_at(bytes, at)
    }
}

impl Scalar for i32 {
    const DTYPE: u32 = 1;
    const SIZE: usize = 4;

    open spec fn le_bytes(self) -> Seq<u8> {
        le32(self as u32)
    }

    open spec fn from_le(bytes: Seq<u8>) -> i32 {
        u32_of(bytes) as i32
    }

    proof fn lemma_size() {
    }

    proof fn lemma_le_roundtrip(self) {
        lemma_u32_roundtrip(self as u32);
        let x = self;
        assert(((x as u32) as i32) == x) by (bit_vector);
    }

    proof fn lemma_bytes_roundtrip(bytes: Seq<u8>) {
        lemma_u32_bytes(bytes);
        let y = u32_of(bytes);
        assert(((y as i32) as u32) == y) by (bit_vector);
    }

    fn write_le(&self, out: &mut Vec<u8>) {
        push_le32(out, *self as u32);
    }

    fn read_le(bytes: &[u8]) -> (r: i32) {
        let r = read_u32_at(bytes, 0) as i32;
        assert(bytes@.subrange(0, 4) =~= bytes@);
        r
    }

    fn read_le_at(bytes: &[u8], at: usize) -> (r: i32) {
        read_u32_at(bytes, at) as i32
    }
}

impl Scalar for F32Bits {
    const DTYPE: u32 = 4;
    const SIZE: usize = 4;

    open spec fn le_bytes(self) -> Seq<u8> {
        le32(self.0)
    }

    open spec fn from_le(bytes: Seq<u8>) -> F32Bits {
        F32Bits(u32_of(bytes))
    }

    proof fn lemma_size() {
    }

    proof fn lemma_le_roundtrip(self) {
        lemma_u32_roundtrip(self.0);
    }

    proof fn lemma_bytes_roundtrip(bytes: Seq<u8>) {
        lemma_u32_bytes(bytes);
    }

    fn write_le(&self, out: &mut Vec<u8>) {
        push_le32(out, self.0);
    }

    fn read_le(bytes: &[u8]) -> (r: F32Bits) {
        let r = F32Bits(read_u32_at(bytes, 0));
        assert(bytes@.subrange(0, 4) =~= bytes@);
        r
    }

    fn read_le_at(bytes: &[u8], at: usize) -> (r: F32Bits) {
        F32Bits(read_u32_at(bytes, at))
    }
}

impl Scalar for u64 {
    const DTYPE: u32 = 3;
    const SIZE: usize = 8;

    open spec fn le_bytes(self) -> Seq<u8> {
        le64(self)
    }

    open spec fn from_le(bytes: Seq<u8>) -> u64 {
        u64_of(bytes)
    }

    proof fn lemma_size() {
    }

    proof fn lemma_le_roundtrip(self) {
        lemma_u64_roundtrip(self);
    }

    proof fn lemma_bytes_roundtrip(bytes: Seq<u8>) {
        lemma_u64_bytes(bytes);
    }

    fn write_le(&self, out: &mut Vec<u8>) {
        push_le32(out, (*self & 0xffff_ffff) as u32);
        push_le32(out, (*self >> 32) as u32);
        assert(final(out)@ =~= old(out)@ + le64(*self));
    }

    fn read_le(bytes: &[u8]) -> (r: u64) {
        let r = Self::read_le_at(bytes, 0);
        assert(bytes@.subrange(0, 8) =~= bytes@);
        r
    }

    fn read_le_at(bytes: &[u8], at: usize) -> (r: u64) {
        assert(Self::SIZE == 8);
        let len = bytes.len();
        assert(at + 8 <= len);
        let lo = read_u32_at(bytes, at);
        let hi = read_u32_at(bytes, at + 4);
        let ghost s = bytes@.subrange(at as int, at + 8);
        assert(s.subrange(0, 4) =~= bytes@.subrange(at as int, at + 4));
        assert(s.subrange(4, 8) =~= bytes@.subrange(at + 4, at + 8));
        assert(u32_of(s) == u32_of(s.subrange(0, 4)));
        (lo as u64) | ((hi as u64) << 32)
    }
}

} // verus!

verus! {

/// The four magic bytes that open every `.vrast` file ("VRAS").
pub const MAGIC: [u8; 4] = [0x56u8, 0x52u8, 0x41u8, 0x53u8];

/// The only format version this codec reads and writes.
pub const FORMAT_VERSION: u32 = 1;

/// Length of the fixed header in bytes.
pub const HEADER_LEN: usize = 24;

pub open spec fn magic_bytes() -> Seq<u8> {
    seq![0x56u8, 0x52u8, 0x41u8, 0x53u8]
}

/// A row-major grid of scalars with physical cell size. The unit of the
/// values is the owning stage's business.
#[derive(Clone, Debug, PartialEq)]
pub struct Raster<T> {
    pub width: u32,
    pub height: u32,
    pub cell_size_cm: u32,
    pub data: Vec<T>,
}

/// The mathematical content of a raster.
pub struct RasterView<T> {
    pub width: u32,
    pub height: u32,
    pub cell_size_cm: u32,
    pub data: Seq<T>,
}

impl<T> View for Raster<T> {
    type V = RasterView<T>;

    open spec fn view(&self) -> RasterView<T> {
        RasterView {
            width: self.width,
            height: self.height,
            cell_size_cm: self.cell_size_cm,
            data: self.data@,
        }
    }
}

/// Why a byte string is not a `.vrast` raster of the requested type.
#[derive(Clone, Copy, Debug, PartialEq, Eq)]
pub enum DecodeError {
    TooShort,
    BadMagic,
    UnsupportedVersion,
    DtypeMismatch,
    DimensionsOverflow,
    PayloadSizeOverflow,
    PayloadLengthMismatch,
}

/// The diagnostic text of each decode error.
pub open spec fn error_message(e: DecodeError) -> Seq<char> {
    match e {
        DecodeError::TooShort => "raster too short for header"@,
        DecodeError::BadMagic => "bad magic"@,
        DecodeError::UnsupportedVersion => "unsupported format version"@,
        DecodeError::DtypeMismatch => "dtype mismatch"@,
        DecodeError::DimensionsOverflow => "dimensions overflow"@,
        DecodeError::PayloadSizeOverflow => "payload size overflows"@,
        DecodeError::PayloadLengthMismatch => "payload length mismatch"@,
    }
}

impl DecodeError {
    /// The diagnostic text for this error.
    pub fn message(&self) -> (r: &'static str)
        ensures
            r@ == error_message(*self),
    {
        match self {
            DecodeError::TooShort => "raster too short for header",
            DecodeError::BadMagic => "bad magic",
            DecodeError::UnsupportedVersion => "unsupported format version",
            DecodeError::DtypeMismatch => "dtype mismatch",
            DecodeError::DimensionsOverflow => "dimensions overflow",
            DecodeError::PayloadSizeOverflow => "payload size overflows",
            DecodeError::PayloadLengthMismatch => "payload length mismatch",
        }
    }
}

/// The 24-byte header of a raster of element type `T`.
pub open spec fn spec_header<T: Scalar>(width: u32, height: u32, cell_size_cm: u32) -> Seq<u8> {
    magic_bytes() + le32(FORMAT_VERSION) + le32(T::DTYPE) + le32(width) + le32(height) + le32(
        cell_size_cm,
    )
}

/// The row-major payload: the elements' little-endian encodings, in order.
pub open spec fn spec_payload<T: Scalar>(data: Seq<T>) -> Seq<u8>
    decreases data.len(),
{
    if data.len() == 0 {
        Seq::empty()
    } else {
        spec_payload(data.drop_last()) + data.last().le_bytes()
    }
}

/// The serialized bytes of a raster: header, then payload.
pub open spec fn spec_encode<T: Scalar>(r: RasterView<T>) -> Seq<u8> {
    spec_header::<T>(r.width, r.height, r.cell_size_cm) + spec_payload(r.data)
}

/// The header word at byte offset `i`.
pub open spec fn header_word(bytes: Seq<u8>, i: int) -> u32 {
    u32_of(bytes.subrange(i, i + 4))
}

/// The `k`-th element of a payload that starts at byte 24.
pub open spec fn payload_elem<T: Scalar>(bytes: Seq<u8>, k: int) -> T {
    T::from_le(bytes.subrange(24 + k * T::SIZE, 24 + (k + 1) * T::SIZE))
}

/// What decoding `bytes` as a raster of `T` yields: the first failing
/// check, or the raster the header and payload describe.
pub open spec fn spec_decode<T: Scalar>(bytes: Seq<u8>) -> Result<RasterView<T>, DecodeError> {
    if bytes.len() < 24 {
        Err(DecodeError::TooShort)
    } else if bytes.subrange(0, 4) != magic_bytes() {
        Err(DecodeError::BadMagic)
    } else if header_word(bytes, 4) != FORMAT_VERSION {
        Err(DecodeError::UnsupportedVersion)
    } else if header_word(bytes, 8) != T::DTYPE {
        Err(DecodeError::DtypeMismatch)
    } else {
        let w = header_word(bytes, 12);
        let h = header_word(bytes, 16);
        let n = w * h;
        if n > usize::MAX {
            Err(DecodeError::DimensionsOverflow)
        } else if n * T::SIZE > usize::MAX {
            Err(DecodeError::PayloadSizeOverflow)
        } else if bytes.len() - 24 != n * T::SIZE {
            Err(DecodeError::PayloadLengthMismatch)
        } else {
            Ok(
                RasterView {
                    width: w,
                    height: h,
                    cell_size_cm: header_word(bytes, 20),
                    data: Seq::new(n as nat, |k: int| payload_elem::<T>(bytes, k)),
                },
            )
        }
    }
}

proof fn lemma_mul_step(i: int, s: int, n: int)
    requires
        0 <= i < n,
        0 <= s,
    ensures
        (i + 1) * s == i * s + s,
        (i + 1) * s <= n * s,
        0 <= i * s,
{
    assert((i + 1) * s == i * s + s) by (nonlinear_arith);
    assert((i + 1) * s <= n * s) by (nonlinear_arith)
        requires
            i + 1 <= n,
            0 <= s,
    ;
    assert(0 <= i * s) by (nonlinear_arith)
        requires
            0 <= i,
            0 <= s,
    ;
}

pub proof fn lemma_payload_len<T: Scalar>(data: Seq<T>)
    ensures
        spec_payload(data).len() == data.len() * T::SIZE,
    decreases data.len(),
{
    if data.len() > 0 {
        lemma_payload_len(data.drop_last());
        data.last().lemma_le_roundtrip();
        lemma_mul_step(data.len() - 1, T::SIZE as int, data.len() as int);
    }
}

pub proof fn lemma_payload_elem<T: Scalar>(data: Seq<T>, k: int)
    requires
        0 <= k < data.len(),
    ensures
        spec_payload(data).subrange(k * T::SIZE, (k + 1) * T::SIZE) == data[k].le_bytes(),
    decreases data.len(),
{
    let s = T::SIZE as int;
    let prefix = data.drop_last();
    lemma_payload_len(prefix);
    lemma_payload_len(data);
    data.last().lemma_le_roundtrip();
    lemma_mul_step(k, s, data.len() as int);
    if k < data.len() - 1 {
        lemma_payload_elem(prefix, k);
        lemma_mul_step(k, s, data.len() - 1);
        assert(spec_payload(data).subrange(k * s, (k + 1) * s) =~= spec_payload(prefix).subrange(
            k * s,
            (k + 1) * s,
        ));
    } else {
        assert(spec_payload(data).subrange(k * s, (k + 1) * s) =~= data.last().le_bytes());
    }
}

/// Decoding a well-formed raster's encoding gives the raster back.
pub proof fn lemma_decode_encode<T: Scalar>(r: RasterView<T>)
    requires
        r.data.len() == r.width * r.height,
        r.width * r.height * T::SIZE <= usize::MAX,
    ensures
        spec_decode::<T>(spec_encode(r)) == Ok::<RasterView<T>, DecodeError>(r),
{
    let b = spec_encode(r);
    let hd = spec_header::<T>(r.width, r.height, r.cell_size_cm);
    let n = r.width * r.height;
    lemma_payload_len(r.data);
    lemma_u32_roundtrip(FORMAT_VERSION);
    lemma_u32_roundtrip(T::DTYPE);
    lemma_u32_roundtrip(r.width);
    lemma_u32_roundtrip(r.height);
    lemma_u32_roundtrip(r.cell_size_cm);
    assert(hd.len() == 24);
    assert(b.subrange(0, 4) =~= magic_bytes());
    assert(b.subrange(4, 8) =~= le32(FORMAT_VERSION));
    assert(b.subrange(8, 12) =~= le32(T::DTYPE));
    assert(b.subrange(12, 16) =~= le32(r.width));
    assert(b.subrange(16, 20) =~= le32(r.height));
    assert(b.subrange(20, 24) =~= le32(r.cell_size_cm));
    assert(n * T::SIZE <= usize::MAX);
    let d = Seq::new(n as nat, |k: int| payload_elem::<T>(b, k));
    assert forall|k: int| 0 <= k < n implies d[k] == r.data[k] by {
        let s = T::SIZE as int;
        lemma_payload_elem(r.data, k);
        lemma_mul_step(k, s, n as int);
        assert(b.subrange(24 + k * s, 24 + (k + 1) * s) =~= spec_payload(r.data).subrange(
            k * s,
            (k + 1) * s,
        ));
        r.data[k].lemma_le_roundtrip();
    }
    assert(d =~= r.data);
    assert(header_word(b, 4) == FORMAT_VERSION);
    assert(header_word(b, 8) == T::DTYPE);
    assert(header_word(b, 12) == r.width);
    assert(header_word(b, 16) == r.height);
    assert(header_word(b, 20) == r.cell_size_cm);
    assert(b.len() - 24 == n * T::SIZE);
    let v = RasterView { width: r.width, height: r.height, cell_size_cm: r.cell_size_cm, data: d };
    assert(v == r);
    assert(b.len() >= 24);
    assert(b.subrange(0, 4) == magic_bytes());
    T::lemma_size();
    assert(n <= n * T::SIZE) by (nonlinear_arith)
        requires
            n >= 0,
            T::SIZE >= 1,
    ;
    assert(spec_decode::<T>(b) == Ok::<RasterView<T>, DecodeError>(v));
}

/// The dtype tag and element width of each scalar type.
pub proof fn lemma_scalar_tags()
    ensures
        <i32 as Scalar>::DTYPE == 1 && <i32 as Scalar>::SIZE == 4,
        <u32 as Scalar>::DTYPE == 2 && <u32 as Scalar>::SIZE == 4,
        <u64 as Scalar>::DTYPE == 3 && <u64 as Scalar>::SIZE == 8,
        <F32Bits as Scalar>::DTYPE == 4 && <F32Bits as Scalar>::SIZE == 4,
{
}

/// The first `m` elements of a decoded payload encode back to the first
/// `m * SIZE` payload bytes.
proof fn lemma_payload_bytes<T: Scalar>(bytes: Seq<u8>, n: int, m: int)
    requires
        0 <= m <= n,
        bytes.len() == 24 + n * T::SIZE,
    ensures
        spec_payload(Seq::new(n as nat, |k: int| payload_elem::<T>(bytes, k)).take(m)) == bytes.subrange(
            24,
            24 + m * T::SIZE,
        ),
    decreases m,
{
    let d = Seq::new(n as nat, |k: int| payload_elem::<T>(bytes, k));
    let sz = T::SIZE as int;
    if m == 0 {
        assert(d.take(0) =~= Seq::<T>::empty());
        assert(bytes.subrange(24, 24) =~= Seq::<u8>::empty());
    } else {
        lemma_payload_bytes::<T>(bytes, n, m - 1);
        lemma_mul_step(m - 1, sz, n);
        assert(d.take(m).drop_last() =~= d.take(m - 1));
        assert(d.take(m).last() == d[m - 1]);
        let chunk = bytes.subrange(24 + (m - 1) * sz, 24 + m * sz);
        T::lemma_bytes_roundtrip(chunk);
        assert(d[m - 1] == T::from_le(chunk));
        assert(bytes.subrange(24, 24 + (m - 1) * sz) + chunk =~= bytes.subrange(24, 24 + m * sz));
    }
}

/// What decodes re-encodes to the same bytes: no byte is dropped and no
/// field is lost.
pub proof fn lemma_encode_decode<T: Scalar>(bytes: Seq<u8>)
    requires
        spec_decode::<T>(bytes) is Ok,
    ensures
        spec_encode(spec_decode::<T>(bytes)->Ok_0) == bytes,
{
    let r = spec_decode::<T>(bytes)->Ok_0;
    let n = r.width * r.height;
    let sz = T::SIZE as int;
    assert(bytes.len() == 24 + n * sz);
    lemma_payload_bytes::<T>(bytes, n as int, n as int);
    assert(r.data.take(n as int) =~= r.data);
    lemma_u32_bytes(bytes.subrange(4, 8));
    lemma_u32_bytes(bytes.subrange(8, 12));
    lemma_u32_bytes(bytes.subrange(12, 16));
    lemma_u32_bytes(bytes.subrange(16, 20));
    lemma_u32_bytes(bytes.subrange(20, 24));
    let hd = spec_header::<T>(r.width, r.height, r.cell_size_cm);
    assert(hd =~= bytes.subrange(0, 24));
    assert(bytes.subrange(0, 24) + bytes.subrange(24, 24 + n * sz) =~= bytes);
}

/// A raster encoded for one dtype never decodes as another.
pub proof fn lemma_dtype_mismatch_rejected<T: Scalar, U: Scalar>(r: RasterView<T>)
    requires
        T::DTYPE != U::DTYPE,
    ensures
        spec_decode::<U>(spec_encode(r)) == Err::<RasterView<U>, DecodeError>(
            DecodeError::DtypeMismatch,
        ),
{
    let b = spec_encode(r);
    lemma_payload_len(r.data);
    lemma_u32_roundtrip(FORMAT_VERSION);
    lemma_u32_roundtrip(T::DTYPE);
    assert(b.subrange(0, 4) =~= magic_bytes());
    assert(b.subrange(4, 8) =~= le32(FORMAT_VERSION));
    assert(b.subrange(8, 12) =~= le32(T::DTYPE));
}

} // verus!

verus! {

/// What `blake3::hash` returns for `data`: its 32-byte digest.
pub uninterp spec fn blake3_digest(data: Seq<u8>) -> Seq<u8>;

/// Calls `blake3::hash` and returns the digest bytes (`Hash::as_bytes`).
/// The contract names the digest; the crate's type fixes its length at 32.
#[verifier::external_body]
fn blake3_hash(data: &[u8]) -> (r: [u8; 32])
    ensures
        r@ == blake3_digest(data@),
{
    *blake3::hash(data).as_bytes()
}

/// Appends one character (`String::push`).
#[verifier::external_body]
pub(crate) fn string_push(s: &mut String, c: char)
    ensures
        final(s)@ == old(s)@.push(c),
{
    s.push(c);
}

/// The lower-case hexadecimal digit of a nibble.
pub open spec fn hex_digit(v: u8) -> char {
    if v < 10 {
        ((v + 48) as u8) as char
    } else {
        ((v + 87) as u8) as char
    }
}

/// Two lower-case hex digits per byte, high nibble first.
pub open spec fn spec_hex_lower(bytes: Seq<u8>) -> Seq<char>
    decreases bytes.len(),
{
    if bytes.len() == 0 {
        Seq::empty()
    } else {
        spec_hex_lower(bytes.drop_last()) + seq![
            hex_digit(bytes.last() / 16),
            hex_digit(bytes.last() % 16),
        ]
    }
}

proof fn lemma_hex_len(bytes: Seq<u8>)
    ensures
        spec_hex_lower(bytes).len() == 2 * bytes.len(),
    decreases bytes.len(),
{
    if bytes.len() > 0 {
        lemma_hex_len(bytes.drop_last());
    }
}

fn hex_char(v: u8) -> (c: char)
    requires
        v < 16,
    ensures
        c == hex_digit(v),
{
    if v < 10 {
        ((v + 48) as u8) as char
    } else {
        ((v + 87) as u8) as char
    }
}

/// Lower-case hex encoding, as `blake3::Hash::to_hex` writes it.
pub fn to_hex_lower(bytes: &[u8]) -> (r: String)
    ensures
        r@ == spec_hex_lower(bytes@),
        r@.len() == 2 * bytes@.len(),
{
    let mut s = String::new();
    let mut i: usize = 0;
    while i < bytes.len()
        invariant
            i <= bytes@.len(),
            s@ == spec_hex_lower(bytes@.subrange(0, i as int)),
        decreases bytes@.len() - i,
    {
        let b = bytes[i];
        string_push(&mut s, hex_char(b / 16));
        string_push(&mut s, hex_char(b % 16));
        proof {
            let pre = bytes@.subrange(0, i + 1);
            assert(pre.drop_last() =~= bytes@.subrange(0, i as int));
            assert(pre.last() == b);
        }
        i = i + 1;
        assert(s@ =~= spec_hex_lower(bytes@.subrange(0, i as int)));
    }
    proof {
        assert(bytes@.subrange(0, bytes@.len() as int) =~= bytes@);
        lemma_hex_len(bytes@);
    }
    s
}

impl<T: Scalar> Raster<T> {
    /// A `width × height` raster filled with `fill`.
    pub fn new(width: u32, height: u32, cell_size_cm: u32, fill: T) -> (r: Self)
        requires
            width * height <= usize::MAX,
        ensures
            r.width == width,
            r.height == height,
            r.cell_size_cm == cell_size_cm,
            r.data@ == Seq::new((width * height) as nat, |i: int| fill),
    {
        let n = (width as usize) * (height as usize);
        let mut data: Vec<T> = Vec::new();
        let mut i: usize = 0;
        while i < n
            invariant
                i <= n,
                data@ == Seq::new(i as nat, |k: int| fill),
            decreases n - i,
        {
            data.push(fill);
            i = i + 1;
            assert(data@ =~= Seq::new(i as nat, |k: int| fill));
        }
        Raster { width, height, cell_size_cm, data }
    }

    /// A raster over existing row-major data of exactly `width × height`
    /// values.
    pub fn from_data(width: u32, height: u32, cell_size_cm: u32, data: Vec<T>) -> (r: Self)
        requires
            data@.len() == width * height,
        ensures
            r.width == width,
            r.height == height,
            r.cell_size_cm == cell_size_cm,
            r.data@ == data@,
    {
        Raster { width, height, cell_size_cm, data }
    }

    /// Serialized bytes: header then row-major little-endian payload.
    pub fn encode(&self) -> (out: Vec<u8>)
        ensures
            out@ == spec_encode(self@),
    {
        let mut out: Vec<u8> = Vec::new();
        out.push(MAGIC[0]);
        out.push(MAGIC[1]);
        out.push(MAGIC[2]);
        out.push(MAGIC[3]);
        assert(out@ =~= magic_bytes());
        push_le32(&mut out, FORMAT_VERSION);
        push_le32(&mut out, T::DTYPE);
        push_le32(&mut out, self.width);
        push_le32(&mut out, self.height);
        push_le32(&mut out, self.cell_size_cm);
        let ghost hd = out@;
        assert(hd == spec_header::<T>(self.width, self.height, self.cell_size_cm));
        let mut i: usize = 0;
        while i < self.data.len()
            invariant
                i <= self.data@.len(),
                hd == spec_header::<T>(self.width, self.height, self.cell_size_cm),
                out@ == hd + spec_payload(self.data@.subrange(0, i as int)),
            decreases self.data@.len() - i,
        {
            let v = self.data[i];
            v.write_le(&mut out);
            proof {
                let pre = self.data@.subrange(0, i + 1);
                assert(pre.drop_last() =~= self.data@.subrange(0, i as int));
                assert(pre.last() == v);
            }
            i = i + 1;
            assert(out@ =~= hd + spec_payload(self.data@.subrange(0, i as int)));
        }
        assert(self.data@.subrange(0, self.data@.len() as int) =~= self.data@);
        out
    }

    /// Decode a raster of element type `T`. Every dimension computation
    /// is checked: a crafted header yields an error, never a panic.
    pub fn decode(bytes: &[u8]) -> (res: Result<Self, DecodeError>)
        ensures
            match res {
                Ok(r) => spec_decode::<T>(bytes@) == Ok::<RasterView<T>, DecodeError>(r@),
                Err(e) => spec_decode::<T>(bytes@) == Err::<RasterView<T>, DecodeError>(e),
            },
    {
        let len = bytes.len();
        if len < HEADER_LEN {
            return Err(DecodeError::TooShort);
        }
        if bytes[0] != MAGIC[0] || bytes[1] != MAGIC[1] || bytes[2] != MAGIC[2] || bytes[3]
            != MAGIC[3] {
            proof {
                assert(bytes@.subrange(0, 4) != magic_bytes()) by {
                    if bytes@.subrange(0, 4) == magic_bytes() {
                        assert(bytes@.subrange(0, 4)[0] == bytes@[0]);
                        assert(bytes@.subrange(0, 4)[1] == bytes@[1]);
                        assert(bytes@.subrange(0, 4)[2] == bytes@[2]);
                        assert(bytes@.subrange(0, 4)[3] == bytes@[3]);
                    }
                }
            }
            return Err(DecodeError::BadMagic);
        }
        assert(bytes@.subrange(0, 4) =~= magic_bytes());
        if read_u32_at(bytes, 4) != FORMAT_VERSION {
            return Err(DecodeError::UnsupportedVersion);
        }
        if read_u32_at(bytes, 8) != T::DTYPE {
            return Err(DecodeError::DtypeMismatch);
        }
        let width = read_u32_at(bytes, 12);
        let height = read_u32_at(bytes, 16);
        let cell_size_cm = read_u32_at(bytes, 20);
        let n = match (width as usize).checked_mul(height as usize) {
            Some(n) => n,
            None => return Err(DecodeError::DimensionsOverflow),
        };
        let expected = match n.checked_mul(T::SIZE) {
            Some(e) => e,
            None => return Err(DecodeError::PayloadSizeOverflow),
        };
        if len - HEADER_LEN != expected {
            return Err(DecodeError::PayloadLengthMismatch);
        }
        proof {
            T::lemma_size();
        }
        let mut data: Vec<T> = Vec::new();
        let mut i: usize = 0;
        let mut off: usize = HEADER_LEN;
        while i < n
            invariant
                i <= n,
                n == width * height,
                expected == n * T::SIZE,
                len == bytes@.len(),
                len == 24 + expected,
                1 <= T::SIZE <= 8,
                off == 24 + i * T::SIZE,
                data@.len() == i,
                forall|k: int| 0 <= k < i ==> data@[k] == payload_elem::<T>(bytes@, k),
            decreases n - i,
        {
            proof {
                lemma_mul_step(i as int, T::SIZE as int, n as int);
            }
            let v = T::read_le_at(bytes, off);
            data.push(v);
            off = off + T::SIZE;
            i = i + 1;
        }
        let r = Raster { width, height, cell_size_cm, data };
        assert(r.data@ =~= Seq::new((width * height) as nat, |k: int| payload_elem::<T>(bytes@, k)));
        Ok(r)
    }

    /// Content hash of the encoded raster (blake3, lower-case hex): the
    /// determinism witness.
    pub fn blake3_hex(&self) -> (r: String)
        ensures
            r@ == spec_hex_lower(blake3_digest(spec_encode(self@))),
            r@.len() == 64,
    {
        let bytes = self.encode();
        let digest = blake3_hash(bytes.as_slice());
        to_hex_lower(&digest)
    }
}

/// Two artifacts of one run directory describe different grids.
#[derive(Clone, Copy, Debug, PartialEq, Eq)]
pub struct GridMismatch {
    pub width: u32,
    pub height: u32,
    pub cell_size_cm: u32,
    pub expected_width: u32,
    pub expected_height: u32,
    pub expected_cell_size_cm: u32,
}

/// The artifact grids of a run directory must agree; a mismatch means a
/// stale or mixed directory, and the error carries both grids for the
/// diagnosis.
pub fn ensure_grid<T, U>(r: &Raster<T>, base: &Raster<U>) -> (res: Result<(), GridMismatch>)
    ensures
        res is Ok <==> (r.width == base.width && r.height == base.height && r.cell_size_cm
            == base.cell_size_cm),
        res matches Err(e) ==> e == (GridMismatch {
            width: r.width,
            height: r.height,
            cell_size_cm: r.cell_size_cm,
            expected_width: base.width,
            expected_height: base.height,
            expected_cell_size_cm: base.cell_size_cm,
        }),
{
    if r.width != base.width || r.height != base.height || r.cell_size_cm != base.cell_size_cm {
        Err(
            GridMismatch {
                width: r.width,
                height: r.height,
                cell_size_cm: r.cell_size_cm,
                expected_width: base.width,
                expected_height: base.height,
                expected_cell_size_cm: base.cell_size_cm,
            },
        )
    } else {
        Ok(())
    }
}

} // verus!
