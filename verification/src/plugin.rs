//! Transcoding for length-prefixed text payloads: the container stores text
//! as a 32-bit big-endian byte count followed by the text's bytes.

use crate::be::{push_u32_be, spec_u32_be};
use vstd::prelude::*;

verus! {

/// The transcoder for text payloads stored behind a length prefix.
pub struct FilePluginLengthText;

impl FilePluginLengthText {
    /// Frame raw text bytes for the container: the byte count as a
    /// big-endian `u32`, then the bytes themselves.
    pub fn import_data(&self, input: &[u8]) -> (r: Vec<u8>)
        requires
            input@.len() <= u32::MAX,
        ensures
            r@ == spec_u32_be(input@.len() as u32) + input@,
    {
        let mut out: Vec<u8> = Vec::new();
        push_u32_be(&mut out, input.len() as u32);
        out.extend_from_slice(input);
        proof {
            assert(out@ =~= spec_u32_be(input@.len() as u32) + input@);
        }
        out
    }

    /// Unframe a container text payload: drop the four-byte length prefix
    /// and return the remaining bytes. A payload shorter than its own prefix
    /// is rejected.
    pub fn export_data(&self, input: &[u8]) -> (r: Option<Vec<u8>>)
        ensures
            input@.len() >= 4 ==> (r matches Some(v) && v@ == input@.skip(4)),
            input@.len() < 4 ==> r is None,
    {
        if input.len() < 4 {
            return None;
        }
        let mut out: Vec<u8> = Vec::new();
        let mut i: usize = 4;
        while i < input.len()
            invariant
                4 <= i <= input@.len(),
                out@ == input@.subrange(4, i as int),
            decreases input@.len() - i,
        {
            out.push(input[i]);
            proof {
                assert(out@ =~= input@.subrange(4, i as int + 1));
            }
            i = i + 1;
        }
        proof {
            assert(out@ =~= input@.skip(4));
        }
        Some(out)
    }

    /// The plugin type string.
    pub fn get_plugin_string(&self) -> (r: &'static str)
        ensures
            r@ == "length-text"@,
    {
        "length-text"
    }
}

} // verus!
