//! The echo service: whatever a client sends until it closes its side is
//! sent back.
use vstd::prelude::*;
use vstd::utf8::encode_utf8;
use crate::errors::ProtoHackersError;

verus! {

/// What the echo service sends back, given what reading the client's data
/// gave: the data itself with its byte count, or, when reading failed, a
/// fixed complaint counted as zero bytes read.
pub fn echo_reply(received: Result<(usize, Vec<u8>), ProtoHackersError>) -> (res: (usize, Vec<u8>))
    ensures
        match received {
            Ok((n, data)) => res.0 == n && res.1@ == data@,
            Err(_) => res.0 == 0 && res.1@ == encode_utf8("Failed to parse request"@),
        },
{
    match received {
        Ok((n, data)) => (n, data),
        Err(_) => (0, vstd::slice::slice_to_vec("Failed to parse request".as_bytes())),
    }
}

} // verus!
