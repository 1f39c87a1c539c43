//! Layout stream reading: format detection and the GDSII record layer.
use vstd::prelude::*;

pub mod gds;
pub mod stroke;
pub mod element;
pub mod library;
pub mod writer;
pub mod hierarchy;
pub mod flatten;
pub mod round_trip;
pub mod reparse;
pub mod strict;

use gds::LayoutError;

verus! {

/// Container format of a layout byte stream.
#[derive(Clone, Copy, Debug, PartialEq, Eq, Structural)]
pub enum LayoutFormat {
    Gds,
    Oasis,
}

/// Reading error, tagged by format; OASIS errors carry their message.
pub enum ReadError {
    Gds(LayoutError),
    Oasis(String),
}

/// The OASIS magic `%SEMI-OASIS\r\n`.
pub open spec fn oasis_magic() -> Seq<u8> {
    seq![0x25u8, 0x53, 0x45, 0x4d, 0x49, 0x2d, 0x4f, 0x41, 0x53, 0x49, 0x53, 0x0d, 0x0a]
}

/// OASIS when the stream starts with the OASIS magic, otherwise GDSII (whose
/// record validation rejects anything else).
pub fn detect_format(bytes: &[u8]) -> (f: LayoutFormat)
    ensures
        f == (if bytes@.len() >= 13 && bytes@.take(13) == oasis_magic() { LayoutFormat::Oasis } else { LayoutFormat::Gds }),
{
    let magic: [u8; 13] = [0x25, 0x53, 0x45, 0x4d, 0x49, 0x2d, 0x4f, 0x41, 0x53, 0x49, 0x53, 0x0d, 0x0a];
    assert(magic@ =~= oasis_magic());
    if bytes.len() < 13 {
        return LayoutFormat::Gds;
    }
    let mut i: usize = 0;
    while i < 13
        invariant
            i <= 13,
            bytes@.len() >= 13,
            magic@ == oasis_magic(),
            forall|j: int| 0 <= j < i ==> bytes@[j] == oasis_magic()[j],
        decreases 13 - i,
    {
        if bytes[i] != magic[i] {
            assert(bytes@.take(13)[i as int] != oasis_magic()[i as int]);
            return LayoutFormat::Gds;
        }
        i = i + 1;
    }
    assert(bytes@.take(13) =~= oasis_magic());
    LayoutFormat::Oasis
}

} // verus!
