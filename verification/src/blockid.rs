//! A value identifying one fixed-size block: a file name and a zero-based
//! block number within that file.

use vstd::prelude::*;
use vstd::utf8::{
    encode_utf8, encode_utf8_decode_utf8, encode_utf8_valid_utf8, is_ascii_chars,
    is_ascii_chars_encode_utf8,
};
use crate::page::{string_from_utf8, string_to_utf8};

verus! {

/// The decimal digits of `n`, most significant first, without leading
/// zeroes (`0` itself renders as one digit).
pub open spec fn spec_u64_digits(n: u64) -> Seq<char>
    decreases n,
{
    if n < 10 {
        seq![((48 + n) as u8) as char]
    } else {
        spec_u64_digits(n / 10).push(((48 + n % 10) as u8) as char)
    }
}

/// The UTF-8 (here: ASCII) bytes of the decimal digits of `n`.
pub open spec fn spec_u64_digit_bytes(n: u64) -> Seq<u8>
    decreases n,
{
    if n < 10 {
        seq![(48 + n) as u8]
    } else {
        spec_u64_digit_bytes(n / 10).push((48 + n % 10) as u8)
    }
}

/// The printable rendering of a block identifier, character by
/// character.
pub open spec fn spec_display_chars(filename: Seq<char>, blknum: u64) -> Seq<char> {
    "[file "@ + filename + ", block "@ + spec_u64_digits(blknum) + "]"@
}

/// UTF-8 encoding distributes over concatenation of character sequences.
proof fn lemma_encode_utf8_concat(a: Seq<char>, b: Seq<char>)
    ensures
        encode_utf8(a + b) == encode_utf8(a) + encode_utf8(b),
    decreases a.len(),
{
    if a.len() == 0 {
        assert(a + b =~= b);
        assert(encode_utf8(a) + encode_utf8(b) =~= encode_utf8(b));
    } else {
        assert((a + b).drop_first() =~= a.drop_first() + b);
        lemma_encode_utf8_concat(a.drop_first(), b);
        assert(encode_utf8(a + b) =~= encode_utf8(a) + encode_utf8(b));
    }
}

/// A digit sequence is ASCII, so it encodes to its own bytes.
proof fn lemma_digits_encode(n: u64)
    ensures
        encode_utf8(spec_u64_digits(n)) == spec_u64_digit_bytes(n),
        is_ascii_chars(spec_u64_digits(n)),
    decreases n,
{
    if n < 10 {
        let c = ((48 + n) as u8) as char;
        assert('\0' <= c <= '\u{7f}');
        is_ascii_chars_encode_utf8(seq![c]);
        assert(encode_utf8(seq![c]) =~= seq![(48 + n) as u8]);
    } else {
        lemma_digits_encode(n / 10);
        let c = ((48 + n % 10) as u8) as char;
        assert('\0' <= c <= '\u{7f}');
        assert(spec_u64_digits(n) =~= spec_u64_digits(n / 10) + seq![c]);
        lemma_encode_utf8_concat(spec_u64_digits(n / 10), seq![c]);
        is_ascii_chars_encode_utf8(seq![c]);
        assert(encode_utf8(seq![c]) =~= seq![(48 + n % 10) as u8]);
        assert(encode_utf8(spec_u64_digits(n)) =~= spec_u64_digit_bytes(n));
        assert forall|i: int|
            0 <= i < spec_u64_digits(n).len() implies '\0' <= #[trigger] spec_u64_digits(n)[i]
            <= '\u{7f}' by {
            if i < spec_u64_digits(n / 10).len() {
                assert(spec_u64_digits(n)[i] == spec_u64_digits(n / 10)[i]);
            }
        }
    }
}

/// The decimal digits of `n`, as ASCII bytes, most significant first.
fn u64_digit_bytes(n: u64) -> (r: Vec<u8>)
    ensures
        r@ == spec_u64_digit_bytes(n),
    decreases n,
{
    if n < 10 {
        let mut v: Vec<u8> = Vec::new();
        v.push(48 + n as u8);
        proof {
            assert(v@ =~= spec_u64_digit_bytes(n));
        }
        v
    } else {
        let mut v = u64_digit_bytes(n / 10);
        v.push(48 + (n % 10) as u8);
        proof {
            assert(v@ =~= spec_u64_digit_bytes(n));
        }
        v
    }
}

/// Identifies a block regardless of whether it is currently loaded in
/// memory; never owns the block's bytes.
#[derive(Debug, Clone, Hash)]
pub struct BlockId {
    /// Name of the file the block belongs to.
    pub filename: String,
    /// Zero-based index of the block within the file.
    pub blknum: u64,
}

impl PartialEq for BlockId {
    fn eq(&self, other: &BlockId) -> (r: bool) {
        self.filename == other.filename && self.blknum == other.blknum
    }
}

impl Eq for BlockId {

}

impl vstd::std_specs::cmp::PartialEqSpecImpl for BlockId {
    open spec fn obeys_eq_spec() -> bool {
        true
    }

    open spec fn eq_spec(&self, other: &BlockId) -> bool {
        self.filename@ == other.filename@ && self.blknum == other.blknum
    }
}

impl BlockId {
    /// Makes the identifier for block `blknum` of file `filename`.
    pub fn new(filename: &str, blknum: u64) -> (b: BlockId)
        ensures
            b.filename@ == filename@,
            b.blknum == blknum,
    {
        BlockId { filename: filename.to_owned(), blknum }
    }

    /// The name of the file the block belongs to.
    pub fn filename(&self) -> (r: &str)
        ensures
            r@ == self.filename@,
    {
        self.filename.as_str()
    }

    /// The block's index within its file.
    pub fn number(&self) -> (r: u64)
        ensures
            r == self.blknum,
    {
        self.blknum
    }

    /// A printable rendering of the identifier, in the form
    /// `[file name, block number]` with the block number in decimal.
    pub fn to_display_string(&self) -> (r: String)
        ensures
            r@ == spec_display_chars(self.filename@, self.blknum),
    {
        let ghost chars = spec_display_chars(self.filename@, self.blknum);
        let mut bytes: Vec<u8> = string_to_utf8("[file ");
        let mut part: Vec<u8> = string_to_utf8(self.filename.as_str());
        bytes.append(&mut part);
        let mut part2: Vec<u8> = string_to_utf8(", block ");
        bytes.append(&mut part2);
        let mut digits: Vec<u8> = u64_digit_bytes(self.blknum);
        bytes.append(&mut digits);
        let mut close: Vec<u8> = string_to_utf8("]");
        bytes.append(&mut close);
        proof {
            lemma_digits_encode(self.blknum);
            lemma_encode_utf8_concat("[file "@, self.filename@);
            lemma_encode_utf8_concat("[file "@ + self.filename@, ", block "@);
            lemma_encode_utf8_concat(
                "[file "@ + self.filename@ + ", block "@,
                spec_u64_digits(self.blknum),
            );
            lemma_encode_utf8_concat(
                "[file "@ + self.filename@ + ", block "@ + spec_u64_digits(self.blknum),
                "]"@,
            );
            assert(chars =~= "[file "@ + self.filename@ + ", block "@ + spec_u64_digits(
                self.blknum,
            ) + "]"@);
            assert(bytes@ =~= encode_utf8(chars));
            encode_utf8_valid_utf8(chars);
            encode_utf8_decode_utf8(chars);
        }
        match string_from_utf8(bytes) {
            Some(s) => s,
            None => {
                proof {
                    assert(false);
                }
                String::new()
            },
        }
    }
}

} // verus!
