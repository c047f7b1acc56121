//! Byte-level primitives shared by both codecs: big-endian integers, UTF-8
//! payloads, and a cursor over a byte slice.

use vstd::prelude::*;
use vstd::slice::slice_subrange;
use vstd::slice::slice_to_vec;
use vstd::utf8::decode_utf8;
use vstd::utf8::valid_utf8;
use byteorder::BigEndian;
use byteorder::ByteOrder;
use crate::error::DecodeError;
use crate::error::DecodeErrorView;
use crate::error::IoError;

verus! {

/// The number that two bytes spell in big-endian order.
pub open spec fn be_u16(b: Seq<u8>) -> u16
    recommends
        b.len() == 2,
{
    (b[0] as int * 0x100 + b[1] as int) as u16
}

/// The number that four bytes spell in big-endian order.
pub open spec fn be_u32(b: Seq<u8>) -> u32
    recommends
        b.len() == 4,
{
    (((b[0] as int * 0x100 + b[1] as int) * 0x100 + b[2] as int) * 0x100 + b[3] as int) as u32
}

/// The number that eight bytes spell in big-endian order.
pub open spec fn be_u64(b: Seq<u8>) -> u64
    recommends
        b.len() == 8,
{
    (be_u32(b.subrange(0, 4)) as int * 0x1_0000_0000 + be_u32(b.subrange(4, 8)) as int) as u64
}

/// The two bytes of a number, most significant first.
pub open spec fn u16_be(n: u16) -> Seq<u8> {
    seq![(n / 0x100) as u8, (n % 0x100) as u8]
}

/// The four bytes of a number, most significant first.
pub open spec fn u32_be(n: u32) -> Seq<u8> {
    seq![
        (n / 0x100_0000) as u8,
        (n / 0x1_0000 % 0x100) as u8,
        (n / 0x100 % 0x100) as u8,
        (n % 0x100) as u8,
    ]
}

/// The eight bytes of a number, most significant first.
pub open spec fn u64_be(n: u64) -> Seq<u8> {
    u32_be((n / 0x1_0000_0000) as u32) + u32_be((n % 0x1_0000_0000) as u32)
}

/// The signed number with the same 32 bits, in two's complement.
pub open spec fn i32_of_bits(n: u32) -> i32 {
    if n < 0x8000_0000 {
        n as i32
    } else {
        (n - 0x1_0000_0000) as i32
    }
}

/// The 32 bits of a signed number, in two's complement.
pub open spec fn bits_of_i32(n: i32) -> u32 {
    if n >= 0 {
        n as u32
    } else {
        (n + 0x1_0000_0000) as u32
    }
}

// The nine functions that follow call into `byteorder` and into `String`.
// Their contracts restate what the documentation of those functions says;
// they are taken on trust, and everything else in this crate is proved from
// them.

/// `byteorder::BigEndian::read_u16`: the first two bytes of the buffer,
/// read as a big-endian number. It panics on a shorter buffer.
#[verifier::external_body]
fn read_be_u16(buf: &[u8]) -> (n: u16)
    requires
        buf@.len() >= 2,
    ensures
        n == be_u16(buf@.subrange(0, 2)),
{
    BigEndian::read_u16(buf)
}

/// `byteorder::BigEndian::read_u32`: the first four bytes of the buffer,
/// read as a big-endian number. It panics on a shorter buffer.
#[verifier::external_body]
fn read_be_u32(buf: &[u8]) -> (n: u32)
    requires
        buf@.len() >= 4,
    ensures
        n == be_u32(buf@.subrange(0, 4)),
{
    BigEndian::read_u32(buf)
}

/// `byteorder::BigEndian::read_i32`: the first four bytes of the buffer,
/// read as a big-endian number in two's complement. It panics on a shorter
/// buffer.
#[verifier::external_body]
fn read_be_i32(buf: &[u8]) -> (n: i32)
    requires
        buf@.len() >= 4,
    ensures
        n == i32_of_bits(be_u32(buf@.subrange(0, 4))),
{
    BigEndian::read_i32(buf)
}

/// `byteorder::BigEndian::read_u64`: the first eight bytes of the buffer,
/// read as a big-endian number. It panics on a shorter buffer.
#[verifier::external_body]
fn read_be_u64(buf: &[u8]) -> (n: u64)
    requires
        buf@.len() >= 8,
    ensures
        n == be_u64(buf@.subrange(0, 8)),
{
    BigEndian::read_u64(buf)
}

/// `byteorder::BigEndian::write_u16` on a buffer of two bytes: the bytes of
/// the number, most significant first.
#[verifier::external_body]
fn be_u16_bytes(n: u16) -> (b: [u8; 2])
    ensures
        b@ == u16_be(n),
{
    let mut buf = [0u8; 2];
    BigEndian::write_u16(&mut buf, n);
    buf
}

/// `byteorder::BigEndian::write_u32` on a buffer of four bytes: the bytes of
/// the number, most significant first.
#[verifier::external_body]
fn be_u32_bytes(n: u32) -> (b: [u8; 4])
    ensures
        b@ == u32_be(n),
{
    let mut buf = [0u8; 4];
    BigEndian::write_u32(&mut buf, n);
    buf
}

/// `byteorder::BigEndian::write_i32` on a buffer of four bytes: the bytes of
/// the number in two's complement, most significant first.
#[verifier::external_body]
fn be_i32_bytes(n: i32) -> (b: [u8; 4])
    ensures
        b@ == u32_be(bits_of_i32(n)),
{
    let mut buf = [0u8; 4];
    BigEndian::write_i32(&mut buf, n);
    buf
}

/// `byteorder::BigEndian::write_u64` on a buffer of eight bytes: the bytes
/// of the number, most significant first.
#[verifier::external_body]
fn be_u64_bytes(n: u64) -> (b: [u8; 8])
    ensures
        b@ == u64_be(n),
{
    let mut buf = [0u8; 8];
    BigEndian::write_u64(&mut buf, n);
    buf
}

/// `String::from_utf8`: the string that the bytes spell in UTF-8, or an
/// error exactly when they are not valid UTF-8.
#[verifier::external_body]
fn string_from_utf8(bytes: Vec<u8>) -> (r: Result<String, std::string::FromUtf8Error>)
    ensures
        r.is_ok() <==> valid_utf8(bytes@),
        r matches Ok(s) ==> s@ == decode_utf8(bytes@),
{
    String::from_utf8(bytes)
}

/// Appends `bytes` to `out`.
pub fn put_bytes(out: &mut Vec<u8>, bytes: &[u8])
    ensures
        final(out)@ == old(out)@ + bytes@,
{
    let n: usize = bytes.len();
    let mut i: usize = 0;
    while i < n
        invariant
            n == bytes@.len(),
            i <= n,
            out@ == old(out)@ + bytes@.subrange(0, i as int),
        decreases n - i,
    {
        out.push(bytes[i]);
        i += 1;
        assert(out@ =~= old(out)@ + bytes@.subrange(0, i as int));
    }
    assert(bytes@.subrange(0, n as int) =~= bytes@);
}

/// Appends the two big-endian bytes of `n` to `out`.
pub fn put_u16(out: &mut Vec<u8>, n: u16)
    ensures
        final(out)@ == old(out)@ + u16_be(n),
{
    let b: [u8; 2] = be_u16_bytes(n);
    put_bytes(out, b.as_slice());
}

/// Appends the four big-endian bytes of `n` to `out`.
pub fn put_u32(out: &mut Vec<u8>, n: u32)
    ensures
        final(out)@ == old(out)@ + u32_be(n),
{
    let b: [u8; 4] = be_u32_bytes(n);
    put_bytes(out, b.as_slice());
}

/// Appends the four big-endian bytes of `n`, in two's complement, to `out`.
pub fn put_i32(out: &mut Vec<u8>, n: i32)
    ensures
        final(out)@ == old(out)@ + u32_be(bits_of_i32(n)),
{
    let b: [u8; 4] = be_i32_bytes(n);
    put_bytes(out, b.as_slice());
}

/// Appends the eight big-endian bytes of `n` to `out`.
pub fn put_u64(out: &mut Vec<u8>, n: u64)
    ensures
        final(out)@ == old(out)@ + u64_be(n),
{
    let b: [u8; 8] = be_u64_bytes(n);
    put_bytes(out, b.as_slice());
}

/// Whether `n` bytes can be read at `pos`.
pub open spec fn has_bytes(bytes: Seq<u8>, pos: int, n: int) -> bool {
    0 <= pos && 0 <= n && pos + n <= bytes.len()
}

/// The `n` bytes that stand at `pos`.
pub open spec fn bytes_at(bytes: Seq<u8>, pos: int, n: int) -> Seq<u8>
    recommends
        has_bytes(bytes, pos, n),
{
    bytes.subrange(pos, pos + n)
}

/// The text that the `n` bytes at `pos` spell in UTF-8: an I/O error where
/// fewer bytes are left, a string error where they are not valid UTF-8.
pub open spec fn text_at(bytes: Seq<u8>, pos: int, n: int) -> Result<Seq<char>, DecodeErrorView> {
    if !has_bytes(bytes, pos, n) {
        Err(DecodeErrorView::Io)
    } else if !valid_utf8(bytes_at(bytes, pos, n)) {
        Err(DecodeErrorView::String)
    } else {
        Ok(decode_utf8(bytes_at(bytes, pos, n)))
    }
}

/// A read position in a byte slice.
#[derive(Clone, Copy, Debug)]
pub struct Cursor<'a> {
    pub bytes: &'a [u8],
    pub pos: usize,
}

impl<'a> Cursor<'a> {
    /// The position lies within the slice, or at its end.
    pub open spec fn wf(&self) -> bool {
        self.pos <= self.bytes@.len()
    }

    /// A cursor at the start of `bytes`.
    pub fn new(bytes: &'a [u8]) -> (c: Self)
        ensures
            c.wf(),
            c.bytes@ == bytes@,
            c.pos == 0,
    {
        Cursor { bytes, pos: 0 }
    }

    /// Whether `n` more bytes can be read.
    pub fn has(&self, n: usize) -> (b: bool)
        requires
            self.wf(),
        ensures
            b == has_bytes(self.bytes@, self.pos as int, n as int),
            b ==> self.pos + n <= usize::MAX,
    {
        n <= self.bytes.len() - self.pos
    }

    /// Reads one byte.
    pub fn read_u8(&mut self) -> (r: Result<u8, DecodeError>)
        requires
            old(self).wf(),
        ensures
            final(self).wf(),
            final(self).bytes == old(self).bytes,
            has_bytes(old(self).bytes@, old(self).pos as int, 1) ==> r == Ok::<u8, DecodeError>(
                old(self).bytes@[old(self).pos as int],
            ) && final(self).pos == old(self).pos + 1,
            !has_bytes(old(self).bytes@, old(self).pos as int, 1) ==> r == Err::<u8, DecodeError>(
                DecodeError::Io(IoError::UnexpectedEof),
            ) && final(self).pos == old(self).pos,
    {
        if !self.has(1) {
            return Err(DecodeError::Io(IoError::UnexpectedEof));
        }
        let b: u8 = self.bytes[self.pos];
        self.pos = self.pos + 1;
        Ok(b)
    }

    /// Reads a big-endian number of two bytes.
    pub fn read_u16(&mut self) -> (r: Result<u16, DecodeError>)
        requires
            old(self).wf(),
        ensures
            final(self).wf(),
            final(self).bytes == old(self).bytes,
            has_bytes(old(self).bytes@, old(self).pos as int, 2) ==> r == Ok::<u16, DecodeError>(
                be_u16(bytes_at(old(self).bytes@, old(self).pos as int, 2)),
            ) && final(self).pos == old(self).pos + 2,
            !has_bytes(old(self).bytes@, old(self).pos as int, 2) ==> r == Err::<u16, DecodeError>(
                DecodeError::Io(IoError::UnexpectedEof),
            ) && final(self).pos == old(self).pos,
    {
        if !self.has(2) {
            return Err(DecodeError::Io(IoError::UnexpectedEof));
        }
        let window: &[u8] = slice_subrange(self.bytes, self.pos, self.pos + 2);
        let n: u16 = read_be_u16(window);
        assert(window@.subrange(0, 2) =~= window@);
        self.pos = self.pos + 2;
        Ok(n)
    }

    /// Reads a big-endian number of four bytes.
    pub fn read_u32(&mut self) -> (r: Result<u32, DecodeError>)
        requires
            old(self).wf(),
        ensures
            final(self).wf(),
            final(self).bytes == old(self).bytes,
            has_bytes(old(self).bytes@, old(self).pos as int, 4) ==> r == Ok::<u32, DecodeError>(
                be_u32(bytes_at(old(self).bytes@, old(self).pos as int, 4)),
            ) && final(self).pos == old(self).pos + 4,
            !has_bytes(old(self).bytes@, old(self).pos as int, 4) ==> r == Err::<u32, DecodeError>(
                DecodeError::Io(IoError::UnexpectedEof),
            ) && final(self).pos == old(self).pos,
    {
        if !self.has(4) {
            return Err(DecodeError::Io(IoError::UnexpectedEof));
        }
        let window: &[u8] = slice_subrange(self.bytes, self.pos, self.pos + 4);
        let n: u32 = read_be_u32(window);
        assert(window@.subrange(0, 4) =~= window@);
        self.pos = self.pos + 4;
        Ok(n)
    }

    /// Reads a big-endian number of four bytes in two's complement.
    pub fn read_i32(&mut self) -> (r: Result<i32, DecodeError>)
        requires
            old(self).wf(),
        ensures
            final(self).wf(),
            final(self).bytes == old(self).bytes,
            has_bytes(old(self).bytes@, old(self).pos as int, 4) ==> r == Ok::<i32, DecodeError>(
                i32_of_bits(be_u32(bytes_at(old(self).bytes@, old(self).pos as int, 4))),
            ) && final(self).pos == old(self).pos + 4,
            !has_bytes(old(self).bytes@, old(self).pos as int, 4) ==> r == Err::<i32, DecodeError>(
                DecodeError::Io(IoError::UnexpectedEof),
            ) && final(self).pos == old(self).pos,
    {
        if !self.has(4) {
            return Err(DecodeError::Io(IoError::UnexpectedEof));
        }
        let window: &[u8] = slice_subrange(self.bytes, self.pos, self.pos + 4);
        let n: i32 = read_be_i32(window);
        assert(window@.subrange(0, 4) =~= window@);
        self.pos = self.pos + 4;
        Ok(n)
    }

    /// Reads a big-endian number of eight bytes.
    pub fn read_u64(&mut self) -> (r: Result<u64, DecodeError>)
        requires
            old(self).wf(),
        ensures
            final(self).wf(),
            final(self).bytes == old(self).bytes,
            has_bytes(old(self).bytes@, old(self).pos as int, 8) ==> r == Ok::<u64, DecodeError>(
                be_u64(bytes_at(old(self).bytes@, old(self).pos as int, 8)),
            ) && final(self).pos == old(self).pos + 8,
            !has_bytes(old(self).bytes@, old(self).pos as int, 8) ==> r == Err::<u64, DecodeError>(
                DecodeError::Io(IoError::UnexpectedEof),
            ) && final(self).pos == old(self).pos,
    {
        if !self.has(8) {
            return Err(DecodeError::Io(IoError::UnexpectedEof));
        }
        let window: &[u8] = slice_subrange(self.bytes, self.pos, self.pos + 8);
        let n: u64 = read_be_u64(window);
        assert(window@.subrange(0, 8) =~= window@);
        self.pos = self.pos + 8;
        Ok(n)
    }

    /// Reads `len` bytes.
    pub fn read_bytes(&mut self, len: usize) -> (r: Result<Vec<u8>, DecodeError>)
        requires
            old(self).wf(),
        ensures
            final(self).wf(),
            final(self).bytes == old(self).bytes,
            has_bytes(old(self).bytes@, old(self).pos as int, len as int) ==> (r matches Ok(v)
                && v@ == bytes_at(old(self).bytes@, old(self).pos as int, len as int))
                && final(self).pos == old(self).pos + len,
            !has_bytes(old(self).bytes@, old(self).pos as int, len as int) ==> r == Err::<
                Vec<u8>,
                DecodeError,
            >(DecodeError::Io(IoError::UnexpectedEof)) && final(self).pos == old(self).pos,
    {
        if !self.has(len) {
            return Err(DecodeError::Io(IoError::UnexpectedEof));
        }
        let window: &[u8] = slice_subrange(self.bytes, self.pos, self.pos + len);
        let v: Vec<u8> = slice_to_vec(window);
        self.pos = self.pos + len;
        Ok(v)
    }

    /// Reads `len` bytes and takes them as UTF-8 text.
    pub fn read_utf8(&mut self, len: usize) -> (r: Result<String, DecodeError>)
        requires
            old(self).wf(),
        ensures
            final(self).wf(),
            final(self).bytes == old(self).bytes,
            match text_at(old(self).bytes@, old(self).pos as int, len as int) {
                Ok(text) => r matches Ok(s) && s@ == text && final(self).pos == old(self).pos + len,
                Err(DecodeErrorView::String) => r matches Err(e) && e@ == DecodeErrorView::String
                    && final(self).pos == old(self).pos + len,
                Err(e) => r == Err::<String, DecodeError>(DecodeError::Io(IoError::UnexpectedEof))
                    && final(self).pos == old(self).pos,
            },
    {
        let v: Vec<u8> = self.read_bytes(len)?;
        match string_from_utf8(v) {
            Ok(s) => Ok(s),
            Err(e) => Err(DecodeError::String(e)),
        }
    }
}

/// Whether the bytes `enc` stand in `bytes` from `pos` on.
pub open spec fn holds(bytes: Seq<u8>, pos: int, enc: Seq<u8>) -> bool {
    0 <= pos && pos + enc.len() <= bytes.len() && bytes.subrange(pos, pos + enc.len()) == enc
}

/// Where two pieces stand one after the other, each of them stands in its
/// place.
pub proof fn lemma_holds_split(bytes: Seq<u8>, pos: int, a: Seq<u8>, b: Seq<u8>)
    requires
        holds(bytes, pos, a + b),
    ensures
        holds(bytes, pos, a),
        holds(bytes, pos + a.len(), b),
{
    let whole = bytes.subrange(pos, pos + (a + b).len());
    assert(bytes.subrange(pos, pos + a.len()) =~= whole.subrange(0, a.len() as int));
    assert(whole.subrange(0, a.len() as int) =~= a);
    assert(bytes.subrange(pos + a.len(), pos + a.len() + b.len()) =~= whole.subrange(
        a.len() as int,
        (a + b).len() as int,
    ));
    assert(whole.subrange(a.len() as int, (a + b).len() as int) =~= b);
}

/// What stands in the input can be read there, byte for byte.
pub proof fn lemma_holds_bytes(bytes: Seq<u8>, pos: int, enc: Seq<u8>)
    requires
        holds(bytes, pos, enc),
    ensures
        has_bytes(bytes, pos, enc.len() as int),
        bytes_at(bytes, pos, enc.len() as int) == enc,
        forall|i: int| 0 <= i < enc.len() ==> bytes[pos + i] == #[trigger] enc[i],
{
    assert forall|i: int| 0 <= i < enc.len() implies bytes[pos + i] == #[trigger] enc[i] by {
        assert(bytes.subrange(pos, pos + enc.len())[i] == bytes[pos + i]);
    }
}

/// Two bytes written in big-endian order are read back as the number.
pub proof fn lemma_u16_round_trip(n: u16)
    ensures
        u16_be(n).len() == 2,
        be_u16(u16_be(n)) == n,
{
}

/// Four bytes written in big-endian order are read back as the number.
pub proof fn lemma_u32_round_trip(n: u32)
    ensures
        u32_be(n).len() == 4,
        be_u32(u32_be(n)) == n,
{
}

/// Eight bytes written in big-endian order are read back as the number.
pub proof fn lemma_u64_round_trip(n: u64)
    ensures
        u64_be(n).len() == 8,
        be_u64(u64_be(n)) == n,
{
    let hi = (n / 0x1_0000_0000) as u32;
    let lo = (n % 0x1_0000_0000) as u32;
    lemma_u32_round_trip(hi);
    lemma_u32_round_trip(lo);
    assert(u64_be(n).subrange(0, 4) =~= u32_be(hi));
    assert(u64_be(n).subrange(4, 8) =~= u32_be(lo));
}

/// A signed number is read back from its 32 bits.
pub proof fn lemma_i32_round_trip(n: i32)
    ensures
        i32_of_bits(bits_of_i32(n)) == n,
{
}

/// A part of what stands in the input stands in its place.
pub proof fn lemma_holds_part(bytes: Seq<u8>, pos: int, enc: Seq<u8>, lo: int, hi: int)
    requires
        holds(bytes, pos, enc),
        0 <= lo <= hi <= enc.len(),
    ensures
        holds(bytes, pos + lo, enc.subrange(lo, hi)),
{
    assert(bytes.subrange(pos + lo, pos + hi) =~= bytes.subrange(pos, pos + enc.len()).subrange(
        lo,
        hi,
    ));
}

} // verus!
