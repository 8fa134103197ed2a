//! Prints the final lines or bytes of a byte source, the way `tail` does.
//!
//! The library holds the extraction logic only: backward chunked scans for
//! sources that can be read at any offset, and circular buffers for sources
//! that can only be read forward once. The caller performs the reads and hands
//! the bytes in; every extractor's result is proved equal to the mathematical
//! model in [`model`].
use vstd::prelude::*;

pub mod backward;
pub mod bytes;
pub mod mode;
pub mod model;
pub mod ring;
pub mod streams;

use crate::backward::{tail_seekable, tailc_seekable};
use crate::model::{tail_bytes, tail_lines};
use crate::streams::{tail_non_seekable, tailc_non_seekable};

verus! {

/// The last `count` lines of `src`: read backward in chunks where the source
/// is `seekable`, else in one forward pass. Both give the same bytes.
pub fn tail(src: &Vec<u8>, seekable: bool, count: usize) -> (r: Vec<u8>)
    requires
        count >= 1,
    ensures
        r@ == tail_lines(src@, count as nat),
{
    if seekable {
        tail_seekable(src, count)
    } else {
        tail_non_seekable(src, count)
    }
}

/// The last `count` bytes of `src`: read backward in chunks where the source
/// is `seekable`, else in one forward pass. Both give the same bytes.
pub fn tailc(src: &Vec<u8>, seekable: bool, count: usize) -> (r: Vec<u8>)
    requires
        count >= 1,
    ensures
        r@ == tail_bytes(src@, count as nat),
{
    if seekable {
        tailc_seekable(src, count)
    } else {
        tailc_non_seekable(src, count)
    }
}

} // verus!
