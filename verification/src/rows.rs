//! Row tokens: the scanlines of a pixel buffer, each as base64 text that is
//! compared in place of its bytes.

use vstd::prelude::*;
use vstd::slice::slice_subrange;
use vstd::std_specs::cmp::PartialEqSpecImpl;

verus! {

/// The standard base64 text of `bytes`, with padding.
pub uninterp spec fn base64_text(bytes: Seq<u8>) -> Seq<char>;

/// The bytes that `text` is the standard base64 text of, if it is such text.
pub uninterp spec fn base64_bytes(text: Seq<char>) -> Option<Seq<u8>>;

/// Why `text` is not the standard base64 text of any bytes, if it is not:
/// the error that `base64::decode` gives for it.
pub uninterp spec fn base64_failure(text: Seq<char>) -> Option<DecodeFailure>;

/// Why a text is not the base64 text of any bytes.
#[derive(Debug, Clone, Copy, PartialEq, Eq, Structural)]
pub enum DecodeFailure {
    /// The byte at `offset` is not in the base64 alphabet.
    InvalidByte { offset: usize, byte: u8 },
    /// The text has a length that no base64 text has.
    InvalidLength,
    /// The last symbol, at `offset`, has bits set that stand for no byte.
    InvalidLastSymbol { offset: usize, byte: u8 },
}

/// `base64::encode`: the standard base64 text of `bytes`, and the claim that
/// `base64::decode` turns that text back into `bytes`, which the tests of
/// that crate hold it to. The call panics where the length of the text
/// overflows a `usize`: it is at most four bytes for every three of `bytes`
/// and four more, and no slice is longer than `isize::MAX`.
#[verifier::external_body]
fn encode_bytes(bytes: &[u8]) -> (text: String)
    ensures
        text@ == base64_text(bytes@),
        base64_bytes(text@) == Some(bytes@),
{
    base64::encode(bytes)
}

/// `base64::decode`: the bytes that `text` stands for, or the error where it
/// is no standard base64 text, with the variant of `base64::DecodeError` and
/// what it carries as a `DecodeFailure`. The call panics where the length
/// of `text` and seven more overflow a `usize`, and no `str` is longer than
/// `isize::MAX`.
#[verifier::external_body]
fn decode_text(text: &str) -> (decoded: Result<Vec<u8>, DecodeFailure>)
    ensures
        decoded matches Ok(bytes) ==> base64_bytes(text@) == Some(bytes@) && base64_failure(text@) is None,
        decoded matches Err(failure) ==> base64_bytes(text@) is None && base64_failure(text@) == Some(failure),
{
    match base64::decode(text) {
        Ok(bytes) => Ok(bytes),
        Err(base64::DecodeError::InvalidByte(offset, byte)) => Err(DecodeFailure::InvalidByte { offset, byte }),
        Err(base64::DecodeError::InvalidLength) => Err(DecodeFailure::InvalidLength),
        Err(base64::DecodeError::InvalidLastSymbol(offset, byte)) => Err(
            DecodeFailure::InvalidLastSymbol { offset, byte },
        ),
    }
}

/// One scanline as a token: the base64 text of its bytes. Two tokens are
/// equal where their texts are.
#[derive(Debug)]
pub struct RowToken {
    text: String,
}

impl View for RowToken {
    type V = Seq<char>;

    closed spec fn view(&self) -> Seq<char> {
        self.text@
    }
}

impl PartialEq for RowToken {
    fn eq(&self, other: &RowToken) -> (same: bool) {
        self.text == other.text
    }
}

impl PartialEqSpecImpl for RowToken {
    open spec fn obeys_eq_spec() -> bool {
        true
    }

    open spec fn eq_spec(&self, other: &RowToken) -> bool {
        self@ == other@
    }
}

impl RowToken {
    /// A token with the given text, which need not be the text of any
    /// scanline.
    pub fn new(text: String) -> (token: RowToken)
        ensures
            token@ == text@,
    {
        RowToken { text }
    }

    /// The token of a scanline.
    pub fn encode(bytes: &[u8]) -> (token: RowToken)
        ensures
            token@ == base64_text(bytes@),
            base64_bytes(token@) == Some(bytes@),
    {
        RowToken { text: encode_bytes(bytes) }
    }

    /// The text of the token.
    pub fn as_str(&self) -> (text: &str)
        ensures
            text@ == self@,
    {
        self.text.as_str()
    }
}

/// Turns a token's text back into the bytes of its scanline. It fails where
/// the text is no base64 text, and only there, and says why.
pub fn decode_row(text: &str) -> (decoded: Result<Vec<u8>, DecodeFailure>)
    ensures
        decoded matches Ok(bytes) ==> base64_bytes(text@) == Some(bytes@) && base64_failure(text@) is None,
        decoded matches Err(failure) ==> base64_bytes(text@) is None && base64_failure(text@) == Some(failure),
{
    decode_text(text)
}

/// The number of rows of `stride` bytes that a buffer of `len` bytes holds,
/// a shorter last one counted.
pub open spec fn row_count(len: int, stride: int) -> int {
    if len % stride == 0 {
        len / stride
    } else {
        len / stride + 1
    }
}

/// Row `r` of a buffer that is cut into rows of `stride` bytes: the last row
/// is shorter where the buffer does not end on a row.
pub open spec fn row_bytes(bytes: Seq<u8>, stride: int, r: int) -> Seq<u8> {
    bytes.subrange(
        r * stride,
        if (r + 1) * stride <= bytes.len() {
            (r + 1) * stride
        } else {
            bytes.len() as int
        },
    )
}

/// A buffer of `rows` whole rows and `rest` more bytes, fewer than a row,
/// has `rows` rows, and one more if `rest` is not zero.
pub proof fn lemma_row_count(len: int, stride: int, rows: int, rest: int)
    requires
        0 < stride,
        0 <= rest < stride,
        len == rows * stride + rest,
    ensures
        row_count(len, stride) == if rest == 0 {
            rows
        } else {
            rows + 1
        },
{
    vstd::arithmetic::div_mod::lemma_fundamental_div_mod_converse(len, stride, rows, rest);
}

/// Cuts a pixel buffer into rows of `stride` bytes and gives the token of
/// each, from the top. Where the buffer does not end on a row, what is left
/// is a row too.
pub fn extract_rows(bytes: &[u8], stride: usize) -> (rows: Vec<RowToken>)
    requires
        stride > 0,
    ensures
        rows.len() == row_count(bytes.len() as int, stride as int),
        forall|r: int|
            0 <= r < rows.len() ==> (#[trigger] rows[r])@ == base64_text(row_bytes(bytes@, stride as int, r)),
        forall|r: int|
            0 <= r < rows.len() ==> base64_bytes((#[trigger] rows[r])@) == Some(
                row_bytes(bytes@, stride as int, r),
            ),
{
    let len = bytes.len();
    let mut rows: Vec<RowToken> = Vec::new();
    let mut start: usize = 0;
    proof {
        assert(0 * stride == 0) by (nonlinear_arith);
        lemma_row_count(0, stride as int, 0, 0);
    }
    while start < len
        invariant
            0 < stride,
            len == bytes.len(),
            start <= len,
            start == rows.len() * stride || start == len,
            start == len ==> rows.len() == row_count(len as int, stride as int),
            forall|r: int|
                0 <= r < rows.len() ==> (#[trigger] rows[r])@ == base64_text(
                    row_bytes(bytes@, stride as int, r),
                ),
            forall|r: int|
                0 <= r < rows.len() ==> base64_bytes((#[trigger] rows[r])@) == Some(
                    row_bytes(bytes@, stride as int, r),
                ),
        decreases len - start,
    {
        let end = if len - start >= stride {
            start + stride
        } else {
            len
        };
        let ghost done = rows.len() as int;
        proof {
            assert((done + 1) * stride == done * stride + stride) by (nonlinear_arith);
            if end == len {
                lemma_row_count(
                    len as int,
                    stride as int,
                    if len - start == stride {
                        done + 1
                    } else {
                        done
                    },
                    if len - start == stride {
                        0
                    } else {
                        len - start
                    },
                );
            }
        }
        rows.push(RowToken::encode(slice_subrange(bytes, start, end)));
        start = end;
    }
    rows
}

} // verus!
