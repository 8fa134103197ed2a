//! What to extract, chosen from the command's counts, and the failures an
//! extraction reports.
use vstd::prelude::*;

verus! {

/// The unit and count of an extraction.
#[derive(PartialEq, Eq, Structural, Clone, Copy, Debug)]
pub enum Mode {
    /// The last so many lines.
    Lines(usize),
    /// The last so many bytes.
    Bytes(usize),
}

/// Why an extraction failed.
#[derive(PartialEq, Eq, Structural, Clone, Copy, Debug)]
pub enum TailError {
    /// The line count is zero.
    InvalidArgument,
    /// The named source could not be opened.
    SourceOpenFailure,
    /// A seek or read failed part way.
    SourceIOFailure,
    /// In line mode, the output is not valid UTF-8 text.
    EncodingFailure,
}

/// Picks the extraction from a line count and a byte count, where a byte
/// count of 0 means that none was given. A line count of 0 is refused, in
/// either mode.
pub fn select_mode(lines: u32, chars: u32) -> (r: Result<Mode, TailError>)
    ensures
        lines == 0 ==> r == Err::<Mode, TailError>(TailError::InvalidArgument),
        lines > 0 && chars == 0 ==> r == Ok::<Mode, TailError>(Mode::Lines(lines as usize)),
        lines > 0 && chars > 0 ==> r == Ok::<Mode, TailError>(Mode::Bytes(chars as usize)),
{
    if lines == 0 {
        Err(TailError::InvalidArgument)
    } else if chars == 0 {
        Ok(Mode::Lines(lines as usize))
    } else {
        Ok(Mode::Bytes(chars as usize))
    }
}

/// Relies on std::str::from_utf8: it succeeds exactly on valid UTF-8.
#[verifier::external_body]
fn is_utf8(b: &Vec<u8>) -> (r: bool)
    ensures
        r == vstd::utf8::valid_utf8(b@),
{
    std::str::from_utf8(b.as_slice()).is_ok()
}

/// Line-mode output, passed on where it is valid UTF-8 text.
pub fn text_output(out: Vec<u8>) -> (r: Result<Vec<u8>, TailError>)
    ensures
        vstd::utf8::valid_utf8(out@) ==> r.is_ok() && r.unwrap()@ == out@,
        !vstd::utf8::valid_utf8(out@) ==> r == Err::<Vec<u8>, TailError>(
            TailError::EncodingFailure,
        ),
{
    if is_utf8(&out) {
        Ok(out)
    } else {
        Err(TailError::EncodingFailure)
    }
}

} // verus!
