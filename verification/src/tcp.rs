//! Stream buffer sizing: the connection-level write cap and the read-side
//! chunk budget derived from a socket's receive buffer.

use vstd::prelude::*;

verus! {

/// Connection-level flow cap on buffered stream writes.
pub const STREAM_WRITE_BUFFER_BYTES: usize = 8388608;

/// Smallest read-side buffer the chunk budget assumes.
pub const STREAM_READ_BUFFER_MIN_BYTES: usize = 4194304;

/// Largest read-side buffer the chunk budget assumes.
pub const STREAM_READ_BUFFER_MAX_BYTES: usize = 16777216;

/// A buffer size clamped into the assumed read-side range.
pub open spec fn spec_clamp_read_buffer(bytes: usize) -> usize {
    if bytes < STREAM_READ_BUFFER_MIN_BYTES {
        STREAM_READ_BUFFER_MIN_BYTES
    } else if bytes > STREAM_READ_BUFFER_MAX_BYTES {
        STREAM_READ_BUFFER_MAX_BYTES
    } else {
        bytes
    }
}

/// Clamps a buffer size into the assumed read-side range.
pub fn clamp_stream_read_buffer_bytes(bytes: usize) -> (r: usize)
    ensures
        r == spec_clamp_read_buffer(bytes),
{
    if bytes < STREAM_READ_BUFFER_MIN_BYTES {
        STREAM_READ_BUFFER_MIN_BYTES
    } else if bytes > STREAM_READ_BUFFER_MAX_BYTES {
        STREAM_READ_BUFFER_MAX_BYTES
    } else {
        bytes
    }
}

/// The bounded-channel size for a stream reader: the socket's receive
/// buffer (or the default when unknown), clamped, in chunks; at least one.
pub fn stream_read_limit_chunks(
    recv_buffer_bytes: Option<usize>,
    default_buffer_bytes: usize,
    chunk_bytes: usize,
) -> (r: usize)
    requires
        chunk_bytes > 0,
    ensures
        ({
            let buffer = spec_clamp_read_buffer(
                match recv_buffer_bytes {
                    Some(b) => b,
                    None => default_buffer_bytes,
                },
            );
            r == if buffer / chunk_bytes == 0 {
                1int
            } else {
                (buffer / chunk_bytes) as int
            }
        }),
{
    let buffer_bytes = match recv_buffer_bytes {
        Some(b) => b,
        None => default_buffer_bytes,
    };
    let buffer_bytes = clamp_stream_read_buffer_bytes(buffer_bytes);
    let chunks = buffer_bytes / chunk_bytes;
    if chunks == 0 {
        1
    } else {
        chunks
    }
}

/// Whether queued writes plus the incoming bytes stay under the
/// connection-level cap.
pub fn within_stream_buffer(queued_bytes: usize, incoming_len: usize) -> (r: bool)
    ensures
        r <==> queued_bytes + incoming_len <= STREAM_WRITE_BUFFER_BYTES,
{
    if queued_bytes > usize::MAX - incoming_len {
        return false;
    }
    queued_bytes + incoming_len <= STREAM_WRITE_BUFFER_BYTES
}

} // verus!
