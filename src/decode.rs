//! Turning the bytes of one line into text: UTF-8 first, WINDOWS-1252 when
//! the bytes are not UTF-8.
use vstd::prelude::*;
use crate::error::MyError;

verus! {

/// The text that UTF-8 decoding gives for `b`, if `b` is UTF-8.
pub uninterp spec fn utf8_text(b: Seq<u8>) -> Option<Seq<char>>;

/// The text that WINDOWS-1252 decoding gives for `b`, if it succeeds.
pub uninterp spec fn windows_1252_text(b: Seq<u8>) -> Option<Seq<char>>;

/// Relies on `std::str::from_utf8`: succeeds exactly on UTF-8 input, and the
/// text depends on the bytes alone.
#[verifier::external_body]
fn decode_utf8(b: &[u8]) -> (r: Result<String, String>)
    ensures
        r is Ok <==> utf8_text(b@) is Some,
        r is Ok ==> r->Ok_0@ == utf8_text(b@)->0,
{
    match std::str::from_utf8(b) {
        Ok(s) => Ok(s.to_string()),
        Err(e) => Err(e.to_string()),
    }
}

/// Relies on encoding_rs_io's `DecodeReaderBytes`, built with encoding_rs's
/// `WINDOWS_1252`, read to the end: the outcome depends on the bytes alone.
#[verifier::external_body]
fn decode_windows_1252(b: &[u8]) -> (r: Result<String, String>)
    ensures
        r is Ok <==> windows_1252_text(b@) is Some,
        r is Ok ==> r->Ok_0@ == windows_1252_text(b@)->0,
{
    let mut reader = encoding_rs_io::DecodeReaderBytesBuilder::new().encoding(
        Some(encoding_rs::WINDOWS_1252),
    ).build(b);
    let mut text = String::new();
    match std::io::Read::read_to_string(&mut reader, &mut text) {
        Ok(_) => Ok(text),
        Err(e) => Err(e.to_string()),
    }
}

/// The text of a line: its UTF-8 reading, else its WINDOWS-1252 reading.
pub open spec fn decoded(b: Seq<u8>) -> Option<Seq<char>> {
    if utf8_text(b) is Some {
        utf8_text(b)
    } else {
        windows_1252_text(b)
    }
}

/// Decodes the bytes of line `line_number` of `filename`; fails with
/// `EncodingError` where neither encoding reads them.
pub fn get_string_utf8(slice_bytes: &[u8], line_number: usize, filename: &str) -> (r: Result<
    String,
    MyError,
>)
    ensures
        decoded(slice_bytes@) is Some ==> r is Ok && r->Ok_0@ == decoded(slice_bytes@)->0,
        decoded(slice_bytes@) is None ==> r is Err && r->Err_0 is EncodingError
            && r->Err_0->EncodingError_0@ == filename@ && r->Err_0->EncodingError_1
            == line_number,
{
    match decode_utf8(slice_bytes) {
        Ok(s) => Ok(s),
        Err(error1) => match decode_windows_1252(slice_bytes) {
            Ok(s) => Ok(s),
            Err(error2) => Err(
                MyError::EncodingError(filename.to_owned(), line_number, error1, error2),
            ),
        },
    }
}

/// ASCII whitespace as `u8::is_ascii_whitespace` has it.
pub open spec fn is_ascii_space(b: u8) -> bool {
    b == 0x20 || b == 0x09 || b == 0x0a || b == 0x0c || b == 0x0d
}

/// `s` without leading ASCII whitespace.
pub open spec fn trim_ascii_start(s: Seq<u8>) -> Seq<u8>
    decreases s.len(),
{
    if s.len() > 0 && is_ascii_space(s[0]) {
        trim_ascii_start(s.drop_first())
    } else {
        s
    }
}

/// `s` without trailing ASCII whitespace.
pub open spec fn trim_ascii_end(s: Seq<u8>) -> Seq<u8>
    decreases s.len(),
{
    if s.len() > 0 && is_ascii_space(s.last()) {
        trim_ascii_end(s.drop_last())
    } else {
        s
    }
}

/// `s` without ASCII whitespace at either end.
pub open spec fn trim_ascii(s: Seq<u8>) -> Seq<u8> {
    trim_ascii_end(trim_ascii_start(s))
}

/// Bounds `(a, b)` such that `s[a..b]` is `s[lo..hi]` without ASCII
/// whitespace at either end.
pub fn trim_ascii_bounds(s: &[u8], lo: usize, hi: usize) -> (r: (usize, usize))
    requires
        lo <= hi <= s@.len(),
    ensures
        lo <= r.0 <= r.1 <= hi,
        s@.subrange(r.0 as int, r.1 as int) == trim_ascii(s@.subrange(lo as int, hi as int)),
{
    let mut a = lo;
    while a < hi && (s[a] == 0x20 || s[a] == 0x09 || s[a] == 0x0a || s[a] == 0x0c || s[a] == 0x0d)
        invariant
            lo <= a <= hi <= s@.len(),
            trim_ascii_start(s@.subrange(lo as int, hi as int)) == trim_ascii_start(
                s@.subrange(a as int, hi as int),
            ),
        decreases hi - a,
    {
        assert(s@.subrange(a as int, hi as int).drop_first() =~= s@.subrange(a + 1, hi as int));
        a = a + 1;
    }
    let mut b = hi;
    while b > a && (s[b - 1] == 0x20 || s[b - 1] == 0x09 || s[b - 1] == 0x0a || s[b - 1] == 0x0c
        || s[b - 1] == 0x0d)
        invariant
            lo <= a <= b <= hi <= s@.len(),
            trim_ascii_end(s@.subrange(a as int, hi as int)) == trim_ascii_end(
                s@.subrange(a as int, b as int),
            ),
        decreases b - a,
    {
        assert(s@.subrange(a as int, b as int).drop_last() =~= s@.subrange(a as int, b - 1));
        b = b - 1;
    }
    (a, b)
}

} // verus!
