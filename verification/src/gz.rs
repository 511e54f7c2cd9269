//! Detection of gzip-compressed content.

use vstd::prelude::*;

verus! {

/// Tells whether the two first bytes of a content are the gzip magic number.
pub fn is_gz(magic: [u8; 2]) -> (r: bool)
    ensures
        r == (magic[0] == 0x1F && magic[1] == 0x8B),
{
    magic[0] == 0x1F && magic[1] == 0x8B
}

} // verus!
