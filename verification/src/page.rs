//! An in-memory byte buffer with bounds-checked typed accessors.
//!
//! A `Page` mirrors one disk block (or holds one decoded log record).
//! Two encodings are supported: a 4-byte big-endian two's-complement
//! integer at any offset, and a length-prefixed blob (4-byte integer
//! length header followed by the raw bytes), which is also how strings
//! are stored, UTF-8 encoded.

use vstd::prelude::*;
use vstd::utf8::{decode_utf8, encode_utf8, valid_utf8};

verus! {

/// Failure of a page accessor.
#[derive(Debug, Clone, Copy, PartialEq, Eq, Structural)]
pub enum PageError {
    /// The requested range would read or write past the buffer end.
    BufferSizeExceeded,
    /// A decoded blob did not hold valid UTF-8.
    InvalidUtf8,
}

/// The 4-byte big-endian encoding of a 32-bit integer.
pub open spec fn spec_i32_to_be(n: i32) -> Seq<u8> {
    seq![
        ((n as u32) >> 24) as u8,
        ((n as u32) >> 16) as u8,
        ((n as u32) >> 8) as u8,
        (n as u32) as u8,
    ]
}

/// The 32-bit integer read from 4 big-endian bytes.
pub open spec fn spec_be_to_i32(b: Seq<u8>) -> i32 {
    ((((b[0] as u32) << 24) | ((b[1] as u32) << 16) | ((b[2] as u32) << 8) | (b[3] as u32))
        as i32)
}

/// The integer stored at `off` in buffer `s`.
pub open spec fn int_at(s: Seq<u8>, off: int) -> i32 {
    spec_be_to_i32(s.subrange(off, off + 4))
}

/// The blob stored at `off` in buffer `s`: its length header is `int_at(s, off)`.
pub open spec fn bytes_at(s: Seq<u8>, off: int) -> Seq<u8> {
    s.subrange(off + 4, off + 4 + int_at(s, off))
}

/// `s` with the range starting at `off` overwritten by `data`.
pub open spec fn spec_write(s: Seq<u8>, off: int, data: Seq<u8>) -> Seq<u8> {
    s.take(off) + data + s.skip(off + data.len())
}

/// Whether an integer write at `off` fits a buffer of length `len`.
pub open spec fn int_fits(off: int, len: int) -> bool {
    off + 4 <= len
}

/// Whether a blob of `n` bytes written at `off` fits a buffer of length `len`.
pub open spec fn bytes_fit(off: int, n: int, len: int) -> bool {
    off + 4 + n <= len
}

proof fn lemma_be_round_trip_u32(n: i32)
    by (bit_vector)
    ensures
        (((((n as u32) >> 24) as u8 as u32) << 24) | ((((n as u32) >> 16) as u8 as u32) << 16)
            | ((((n as u32) >> 8) as u8 as u32) << 8) | ((n as u32) as u8 as u32)) as i32 == n,
{
}

/// Decoding the big-endian bytes of `n` yields `n` again.
pub proof fn lemma_i32_be_round_trip(n: i32)
    ensures
        spec_be_to_i32(spec_i32_to_be(n)) == n,
{
    lemma_be_round_trip_u32(n);
}

/// Reading an integer back from the range an integer write filled yields
/// the written value.
pub proof fn lemma_int_round_trip(s: Seq<u8>, off: int, n: i32)
    requires
        0 <= off,
        int_fits(off, s.len() as int),
    ensures
        int_at(spec_write(s, off, spec_i32_to_be(n)), off) == n,
        spec_write(s, off, spec_i32_to_be(n)).len() == s.len(),
{
    assert(spec_write(s, off, spec_i32_to_be(n)).subrange(off, off + 4) =~= spec_i32_to_be(n));
    lemma_i32_be_round_trip(n);
}

/// Reading a blob back from the range a blob write filled yields the
/// written bytes.
pub proof fn lemma_bytes_round_trip(s: Seq<u8>, off: int, data: Seq<u8>)
    requires
        0 <= off,
        data.len() <= i32::MAX,
        bytes_fit(off, data.len() as int, s.len() as int),
    ensures
        int_at(spec_write(s, off, spec_i32_to_be(data.len() as i32) + data), off) == data.len(),
        bytes_at(spec_write(s, off, spec_i32_to_be(data.len() as i32) + data), off) == data,
{
    let w = spec_write(s, off, spec_i32_to_be(data.len() as i32) + data);
    assert(w.subrange(off, off + 4) =~= spec_i32_to_be(data.len() as i32));
    lemma_i32_be_round_trip(data.len() as i32);
    assert(w.subrange(off + 4, off + 4 + data.len()) =~= data);
}

/// Reading a string back from the range a string write filled yields the
/// written text: the stored blob is the text's UTF-8 encoding, which is
/// valid UTF-8 and decodes to the original characters.
pub proof fn lemma_string_round_trip(s: Seq<u8>, off: int, text: Seq<char>)
    requires
        0 <= off,
        encode_utf8(text).len() <= i32::MAX,
        bytes_fit(off, encode_utf8(text).len() as int, s.len() as int),
    ensures
        bytes_at(
            spec_write(s, off, spec_i32_to_be(encode_utf8(text).len() as i32) + encode_utf8(text)),
            off,
        ) == encode_utf8(text),
        valid_utf8(encode_utf8(text)),
        decode_utf8(
            bytes_at(
                spec_write(
                    s,
                    off,
                    spec_i32_to_be(encode_utf8(text).len() as i32) + encode_utf8(text),
                ),
                off,
            ),
        ) == text,
{
    lemma_bytes_round_trip(s, off, encode_utf8(text));
    vstd::utf8::encode_utf8_valid_utf8(text);
    vstd::utf8::encode_utf8_decode_utf8(text);
}

/// One contiguous byte buffer of fixed length.
pub struct Page {
    /// The buffer's bytes.
    pub bb: Vec<u8>,
}

impl View for Page {
    type V = Seq<u8>;

    open spec fn view(&self) -> Seq<u8> {
        self.bb@
    }
}

impl Page {
    /// Wraps existing bytes, e.g. one log record blob, as a page.
    pub fn new_from_bytes(b: Vec<u8>) -> (p: Page)
        ensures
            p@ == b@,
    {
        Page { bb: b }
    }

    /// A zero-filled page of `blocksize` bytes.
    pub fn new_from_size(blocksize: usize) -> (p: Page)
        ensures
            p@ == Seq::new(blocksize as nat, |i: int| 0u8),
    {
        let bb: Vec<u8> = vec![0u8; blocksize];
        proof {
            assert(bb@ =~= Seq::new(blocksize as nat, |i: int| 0u8));
        }
        Page { bb }
    }

    /// Reads the 4-byte big-endian integer at `offset`.
    pub fn get_int(&self, offset: usize) -> (r: Result<i32, PageError>)
        ensures
            r is Ok <==> int_fits(offset as int, self@.len() as int),
            r is Ok ==> r->Ok_0 == int_at(self@, offset as int),
            r is Err ==> r->Err_0 == PageError::BufferSizeExceeded,
    {
        if self.bb.len() >= 4 && offset <= self.bb.len() - 4 {
            let b0: u8 = self.bb[offset];
            let b1: u8 = self.bb[offset + 1];
            let b2: u8 = self.bb[offset + 2];
            let b3: u8 = self.bb[offset + 3];
            let u: u32 = ((b0 as u32) << 24) | ((b1 as u32) << 16) | ((b2 as u32) << 8) | (b3
                as u32);
            proof {
                assert(self@.subrange(offset as int, offset as int + 4) =~= seq![b0, b1, b2, b3]);
            }
            Ok(u as i32)
        } else {
            Err(PageError::BufferSizeExceeded)
        }
    }

    /// Writes `n` at `offset` as 4 big-endian bytes; on success returns the
    /// offset just past the written range. A failed write leaves the page
    /// unchanged.
    pub fn set_int(&mut self, offset: usize, n: i32) -> (r: Result<usize, PageError>)
        ensures
            r is Ok <==> int_fits(offset as int, old(self)@.len() as int),
            r is Ok ==> final(self)@ == spec_write(old(self)@, offset as int, spec_i32_to_be(n))
                && r->Ok_0 == offset + 4,
            r is Err ==> *final(self) == *old(self) && r->Err_0 == PageError::BufferSizeExceeded,
    {
        if self.bb.len() >= 4 && offset <= self.bb.len() - 4 {
            let u: u32 = n as u32;
            self.bb[offset] = (u >> 24) as u8;
            self.bb[offset + 1] = (u >> 16) as u8;
            self.bb[offset + 2] = (u >> 8) as u8;
            self.bb[offset + 3] = u as u8;
            proof {
                assert(self@ =~= spec_write(old(self)@, offset as int, spec_i32_to_be(n)));
            }
            Ok(offset + 4)
        } else {
            Err(PageError::BufferSizeExceeded)
        }
    }

    /// Reads the length-prefixed blob at `offset`.
    pub fn get_bytes(&self, offset: usize) -> (r: Result<Vec<u8>, PageError>)
        ensures
            r is Ok <==> int_fits(offset as int, self@.len() as int)
                && int_at(self@, offset as int) >= 0
                && bytes_fit(offset as int, int_at(self@, offset as int) as int, self@.len() as int),
            r is Ok ==> r->Ok_0@ == bytes_at(self@, offset as int),
            r is Err ==> r->Err_0 == PageError::BufferSizeExceeded,
    {
        let len_header: i32 = match self.get_int(offset) {
            Ok(n) => n,
            Err(e) => {
                return Err(e);
            },
        };
        if len_header < 0 {
            return Err(PageError::BufferSizeExceeded);
        }
        let len: usize = len_header as usize;
        let buflen: usize = self.bb.len();
        let new_offset: usize = offset + 4;
        if len <= buflen - new_offset {
            let mut out: Vec<u8> = Vec::new();
            let mut i: usize = 0;
            while i < len
                invariant
                    i <= len,
                    new_offset == offset + 4,
                    buflen == self.bb@.len(),
                    new_offset + len <= buflen,
                    out@ =~= self@.subrange(new_offset as int, new_offset + i),
                decreases len - i,
            {
                out.push(self.bb[new_offset + i]);
                i = i + 1;
            }
            proof {
                assert(out@ =~= bytes_at(self@, offset as int));
            }
            Ok(out)
        } else {
            Err(PageError::BufferSizeExceeded)
        }
    }

    /// Writes `b` at `offset` as a length-prefixed blob; on success returns
    /// the offset just past the written range. A failed write leaves the
    /// page unchanged.
    pub fn set_bytes(&mut self, offset: usize, b: &Vec<u8>) -> (r: Result<usize, PageError>)
        ensures
            r is Ok <==> bytes_fit(offset as int, b@.len() as int, old(self)@.len() as int)
                && b@.len() <= i32::MAX,
            r is Ok ==> final(self)@ == spec_write(
                old(self)@,
                offset as int,
                spec_i32_to_be(b@.len() as i32) + b@,
            ) && r->Ok_0 == offset + 4 + b@.len(),
            r is Err ==> *final(self) == *old(self) && r->Err_0 == PageError::BufferSizeExceeded,
    {
        if self.bb.len() >= 4 && offset <= self.bb.len() - 4 && b.len() <= self.bb.len() - 4
            - offset && b.len() <= 0x7fff_ffff {
            let new_offset: usize = match self.set_int(offset, b.len() as i32) {
                Ok(o) => o,
                Err(_) => {
                    proof {
                        assert(false);
                    }
                    return Err(PageError::BufferSizeExceeded);
                },
            };
            let buflen: usize = self.bb.len();
            let mut i: usize = 0;
            while i < b.len()
                invariant
                    i <= b@.len(),
                    b@.len() <= i32::MAX,
                    new_offset == offset + 4,
                    buflen == self.bb@.len(),
                    new_offset + b@.len() <= buflen,
                    self.bb@.len() == old(self).bb@.len(),
                    self@ =~= spec_write(
                        old(self)@,
                        offset as int,
                        spec_i32_to_be(b@.len() as i32) + b@.take(i as int),
                    ).take(new_offset + i) + old(self)@.skip(new_offset + i),
                decreases b@.len() - i,
            {
                self.bb[new_offset + i] = b[i];
                i = i + 1;
            }
            proof {
                assert(self@ =~= spec_write(
                    old(self)@,
                    offset as int,
                    spec_i32_to_be(b@.len() as i32) + b@,
                ));
            }
            Ok(new_offset + b.len())
        } else {
            Err(PageError::BufferSizeExceeded)
        }
    }

    /// Reads the blob at `offset` and decodes it as UTF-8.
    pub fn get_string(&self, offset: usize) -> (r: Result<String, PageError>)
        ensures
            r is Ok <==> int_fits(offset as int, self@.len() as int)
                && int_at(self@, offset as int) >= 0
                && bytes_fit(offset as int, int_at(self@, offset as int) as int, self@.len() as int)
                && valid_utf8(bytes_at(self@, offset as int)),
            r is Ok ==> r->Ok_0@ == decode_utf8(bytes_at(self@, offset as int)),
            r is Err ==> (r->Err_0 == PageError::BufferSizeExceeded || r->Err_0
                == PageError::InvalidUtf8),
            r is Err && int_fits(offset as int, self@.len() as int) && int_at(self@, offset as int)
                >= 0 && bytes_fit(
                offset as int,
                int_at(self@, offset as int) as int,
                self@.len() as int,
            ) ==> r->Err_0 == PageError::InvalidUtf8,
    {
        let bytes: Vec<u8> = match self.get_bytes(offset) {
            Ok(b) => b,
            Err(e) => {
                return Err(e);
            },
        };
        match string_from_utf8(bytes) {
            Some(s) => Ok(s),
            None => Err(PageError::InvalidUtf8),
        }
    }

    /// UTF-8-encodes `s` and writes it at `offset` as a length-prefixed
    /// blob; on success returns the offset just past the written range.
    pub fn set_string(&mut self, offset: usize, s: String) -> (r: Result<usize, PageError>)
        ensures
            r is Ok <==> bytes_fit(
                offset as int,
                encode_utf8(s@).len() as int,
                old(self)@.len() as int,
            ) && encode_utf8(s@).len() <= i32::MAX,
            r is Ok ==> final(self)@ == spec_write(
                old(self)@,
                offset as int,
                spec_i32_to_be(encode_utf8(s@).len() as i32) + encode_utf8(s@),
            ) && r->Ok_0 == offset + 4 + encode_utf8(s@).len(),
            r is Err ==> *final(self) == *old(self) && r->Err_0 == PageError::BufferSizeExceeded,
    {
        let bytes: Vec<u8> = string_to_utf8(&s);
        self.set_bytes(offset, &bytes)
    }

    /// The number of page bytes needed to store a blob of `strlen` bytes:
    /// the 4-byte length header plus the bytes themselves.
    pub fn max_length(strlen: usize) -> (r: usize)
        requires
            strlen + 4 <= usize::MAX,
        ensures
            r == strlen + 4,
    {
        4 + strlen
    }

    /// The page's raw bytes.
    pub fn contents(&self) -> (r: &Vec<u8>)
        ensures
            r@ == self@,
    {
        &self.bb
    }
}

/// Relies on `str::as_bytes`: the bytes of a string slice are the UTF-8
/// encoding of its characters.
#[verifier::external_body]
pub fn string_to_utf8(s: &str) -> (r: Vec<u8>)
    ensures
        r@ == encode_utf8(s@),
{
    s.as_bytes().to_vec()
}

/// Relies on `String::from_utf8`: it succeeds exactly on valid UTF-8 input
/// and then returns the string those bytes encode.
#[verifier::external_body]
pub fn string_from_utf8(bytes: Vec<u8>) -> (r: Option<String>)
    ensures
        r is Some <==> valid_utf8(bytes@),
        r is Some ==> r->0@ == decode_utf8(bytes@),
{
    String::from_utf8(bytes).ok()
}

} // verus!
