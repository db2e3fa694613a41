use vstd::prelude::*;
use vstd::utf8::{decode_utf8, valid_utf8};

use crate::path::FsError;

verus! {

/// Bytes at the start of a file that are looked at to tell binary from text.
pub const PROBE_BYTES: usize = 8192;

/// Byte limit of a read when the caller gives none.
pub const DEFAULT_MAX_READ_BYTES: u64 = 204800;

/// The text of a file that passed every check of a read.
#[derive(Clone, Debug)]
pub struct FileReadResult {
    pub content: String,
    pub size_bytes: u64,
    /// Always false: a file is returned whole or refused.
    pub truncated: bool,
}

/// The probed bytes `probe` hold a null byte among their first `PROBE_BYTES`.
pub open spec fn has_null_in_probe(probe: Seq<u8>) -> bool {
    exists|i: int| 0 <= i < probe.len() && i < PROBE_BYTES && probe[i] == 0
}

/// The byte limit that applies to a read.
pub open spec fn limit_of(max_bytes: Option<u64>) -> u64 {
    match max_bytes {
        Some(m) => m,
        None => DEFAULT_MAX_READ_BYTES,
    }
}

/// The checks that a file must pass before its bytes are decoded, in order.
pub open spec fn read_gate(is_file: bool, size: u64, max_bytes: Option<u64>, probe: Option<Seq<u8>>) -> Result<(), FsError> {
    if !is_file {
        Err(FsError::NotAFile)
    } else if size > limit_of(max_bytes) {
        Err(FsError::TooLarge { size, max: limit_of(max_bytes) })
    } else if probe is Some && has_null_in_probe(probe->Some_0) {
        Err(FsError::BinaryContent)
    } else {
        Ok(())
    }
}

/// Classifies a file as binary when a null byte occurs in the first
/// `PROBE_BYTES` bytes of `probe`, which holds the start of the file.
pub fn is_binary_file(probe: &[u8]) -> (r: bool)
    ensures
        r == has_null_in_probe(probe@),
{
    let n: usize = if probe.len() < PROBE_BYTES { probe.len() } else { PROBE_BYTES };
    let mut i: usize = 0;
    while i < n
        invariant
            n <= probe@.len(),
            n <= PROBE_BYTES,
            n == probe@.len() || n == PROBE_BYTES,
            i <= n,
            forall|j: int| 0 <= j < i ==> probe@[j] != 0,
        decreases n - i,
    {
        if probe[i] == 0 {
            return true;
        }
        i = i + 1;
    }
    false
}

/// Decides whether a read goes on to decode the file: it must be a regular
/// file, no larger than the limit (`DEFAULT_MAX_READ_BYTES` where none is
/// given), and its probed prefix must hold no null byte. `probe` is `None`
/// where the prefix could not be read; the file then counts as text.
pub fn check_read(is_file: bool, size: u64, max_bytes: Option<u64>, probe: &Option<Vec<u8>>) -> (r: Result<(), FsError>)
    ensures
        r == read_gate(is_file, size, max_bytes, match probe { Some(p) => Some(p@), None => None }),
{
    if !is_file {
        return Err(FsError::NotAFile);
    }
    let max = match max_bytes {
        Some(m) => m,
        None => DEFAULT_MAX_READ_BYTES,
    };
    if size > max {
        return Err(FsError::TooLarge { size, max });
    }
    match probe {
        Some(p) => {
            if is_binary_file(p.as_slice()) {
                return Err(FsError::BinaryContent);
            }
        },
        None => {},
    }
    Ok(())
}

/// Relies on String::from_utf8: it succeeds exactly on valid UTF-8 and then
/// holds the decoded characters.
#[verifier::external_body]
fn utf8_string(bytes: Vec<u8>) -> (r: Option<String>)
    ensures
        r is Some <==> valid_utf8(bytes@),
        r is Some ==> r->Some_0@ == decode_utf8(bytes@),
{
    String::from_utf8(bytes).ok()
}

/// Turns the whole content of a file that passed `check_read` into the
/// result of the read, or refuses it with `Decode` where it is not UTF-8.
pub fn decode_text(bytes: Vec<u8>) -> (r: Result<FileReadResult, FsError>)
    requires
        bytes@.len() <= u64::MAX,
    ensures
        valid_utf8(bytes@) <==> r is Ok,
        r is Ok ==> r->Ok_0.content@ == decode_utf8(bytes@) && r->Ok_0.size_bytes
            == bytes@.len() && !r->Ok_0.truncated,
        r is Err ==> r == Err::<FileReadResult, FsError>(FsError::Decode),
{
    let size = bytes.len() as u64;
    match utf8_string(bytes) {
        Some(content) => Ok(FileReadResult { content, size_bytes: size, truncated: false }),
        None => Err(FsError::Decode),
    }
}

/// A regular file of exactly the byte limit passes the size check, and one
/// byte more is refused as too large, whatever the limit.
pub proof fn lemma_size_limit_is_inclusive(max: u64, probe: Option<Seq<u8>>)
    requires
        max < u64::MAX,
        probe is Some ==> !has_null_in_probe(probe->Some_0),
    ensures
        read_gate(true, max, Some(max), probe) == Ok::<(), FsError>(()),
        read_gate(true, (max + 1) as u64, Some(max), probe) == Err::<(), FsError>(
            FsError::TooLarge { size: (max + 1) as u64, max },
        ),
{
}

/// A regular file within the limit whose first `PROBE_BYTES` bytes hold a
/// null byte is refused as binary.
pub proof fn lemma_null_byte_is_binary(size: u64, max_bytes: Option<u64>, probe: Seq<u8>, at: int)
    requires
        size <= limit_of(max_bytes),
        0 <= at < probe.len(),
        at < PROBE_BYTES,
        probe[at] == 0,
    ensures
        read_gate(true, size, max_bytes, Some(probe)) == Err::<(), FsError>(FsError::BinaryContent),
{
}

} // verus!
