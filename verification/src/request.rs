//! The session envelope the transport hands to the core: an opaque session
//! key plus the raw payload bytes, typed by the payload the operation
//! expects.

use vstd::prelude::*;

verus! {

/// The header carried on every non-login request: the session key.
pub struct SyncHeader {
    pub sync_key: String,
}

/// A request as the core receives it: raw payload bytes and the session key,
/// tagged with the payload type the operation expects. The key is empty on a
/// HostKey request, non-empty on every other.
pub struct SyncRequest<T> {
    pub data: Vec<u8>,
    pub json_output_type: core::marker::PhantomData<T>,
    pub sync_key: String,
}

impl<T> SyncRequest<T> {
    /// Assemble an envelope from its header and its body bytes.
    pub fn from_header_and_body(sync_header: SyncHeader, body: Vec<u8>) -> (r: SyncRequest<T>)
        ensures
            r.data == body,
            r.sync_key == sync_header.sync_key,
    {
        SyncRequest {
            data: body,
            json_output_type: core::marker::PhantomData,
            sync_key: sync_header.sync_key,
        }
    }

    /// Given a generic envelope, retag it with the payload type the routed
    /// operation expects; the bytes and the key carry over unchanged.
    pub fn into_output_type<O>(self) -> (r: SyncRequest<O>)
        ensures
            r.data == self.data,
            r.sync_key == self.sync_key,
    {
        SyncRequest {
            data: self.data,
            json_output_type: core::marker::PhantomData,
            sync_key: self.sync_key,
        }
    }
}

} // verus!
