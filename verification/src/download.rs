//! Resumable, checksummed downloads with mirror fallback: the decisions. The transfers
//! themselves are left to the caller.

use vstd::prelude::*;
use crate::text::{lower_char, push_str, u64_to_string, decimal};

verus! {

/// How many times a download is attempted before giving up.
pub const MAX_ATTEMPTS: u32 = 6;

#[derive(Debug, Clone, Copy, PartialEq, Eq)]
pub enum Transfer {
    Downloading { done: u64, total: Option<u64> },
    Verifying { done: u64, total: u64 },
}

/// A download: mirrors tried in order, the destination, the expected MD5 and, when known,
/// the size.
pub struct Request<'a> {
    /// Tried in order, rotating on failure.
    pub urls: &'a [String],
    pub dest: &'a str,
    pub md5: &'a str,
    pub size: Option<u64>,
}

/// Where a download in progress is kept: the destination with `.part` appended.
pub fn part_path(dest: &str) -> (r: String)
    ensures
        r@ == dest@ + ".part"@,
{
    let mut s = String::new();
    push_str(&mut s, dest);
    push_str(&mut s, ".part");
    s
}

/// The mirror used by attempt `attempt`: the mirrors in turn.
pub fn mirror_for(url_count: usize, attempt: u32) -> (r: usize)
    requires
        url_count > 0,
    ensures
        r == attempt as int % url_count as int,
        r < url_count,
{
    (attempt as usize) % url_count
}

/// Seconds to wait before attempt `attempt`: `2^attempt`, at most 16 (1, 2, 4, 8, 16, 16, ...).
pub fn backoff_secs(attempt: u32) -> (r: u64)
    ensures
        r == vstd::arithmetic::power2::pow2(if attempt < 4 { attempt as nat } else { 4 }),
{
    let e: u32 = if attempt < 4 { attempt } else { 4 };
    proof {
        vstd::arithmetic::power2::lemma2_to64();
    }
    if e == 0 {
        1
    } else if e == 1 {
        2
    } else if e == 2 {
        4
    } else if e == 3 {
        8
    } else {
        16
    }
}

/// Whether a computed MD5 matches the expected one, which may be written in either case.
pub fn md5_matches(actual: &str, expected: &str) -> (r: bool)
    ensures
        r == (actual@ == expected@.map_values(|c: char| lower_char(c))),
{
    let a = crate::text::chars_of(actual);
    let e = crate::text::chars_of(expected);
    if a.len() != e.len() {
        assert(actual@.len() != expected@.map_values(|c: char| lower_char(c)).len());
        return false;
    }
    let mut i: usize = 0;
    while i < a.len()
        invariant
            i <= a@.len(),
            a@.len() == e@.len(),
            a@ == actual@,
            e@ == expected@,
            forall|j: int| 0 <= j < i ==> a@[j] == lower_char(#[trigger] e@[j]),
        decreases a@.len() - i,
    {
        if a[i] != crate::text::lower_ascii(e[i]) {
            assert(actual@[i as int] != expected@.map_values(|c: char| lower_char(c))[i as int]);
            return false;
        }
        i += 1;
    }
    assert(actual@ =~= expected@.map_values(|c: char| lower_char(c)));
    true
}

/// Where a resumed download starts, from the bytes already in the `.part` file: from
/// scratch when they are more than the expected size. `None` when the file is already
/// complete.
pub fn resume_from(existing: u64, size: Option<u64>) -> (r: Option<u64>)
    ensures
        r == {
            let start = match size {
                Some(s) => if existing > s { 0 } else { existing },
                None => existing,
            };
            if size == Some(start) && start > 0 {
                None
            } else {
                Some(start)
            }
        },
{
    let mut start = existing;
    if let Some(s) = size {
        if start > s {
            start = 0;
        }
    }
    if size == Some(start) && start > 0 {
        return None;
    }
    Some(start)
}

/// The `Range` header value that asks for the rest of the file from `start`.
pub fn range_header(start: u64) -> (r: String)
    ensures
        r@ == "bytes="@ + decimal(start as nat) + "-"@,
{
    let mut s = String::new();
    push_str(&mut s, "bytes=");
    push_str(&mut s, u64_to_string(start).as_str());
    push_str(&mut s, "-");
    s
}

/// When the server rejects the resume range: whether what is on disk is complete (the
/// size is unknown or equals the bytes there); otherwise the part file is restarted.
pub fn range_rejected_complete(start: u64, size: Option<u64>) -> (r: bool)
    ensures
        r == match size {
            None => true,
            Some(s) => s == start,
        },
{
    match size {
        None => true,
        Some(s) => s == start,
    }
}

/// The size a transfer is expected to reach: the known size, else what the server
/// announces plus the bytes already there.
pub fn transfer_total(size: Option<u64>, content_length: Option<u64>, start: u64) -> (r: Option<u64>)
    requires
        content_length matches Some(l) ==> l + start <= u64::MAX,
    ensures
        r == match size {
            Some(s) => Some(s),
            None => match content_length {
                Some(l) => Some((l + start) as u64),
                None => None,
            },
        },
{
    match size {
        Some(s) => Some(s),
        None => match content_length {
            Some(l) => Some(l + start),
            None => None,
        },
    }
}

/// The message for a transfer that stopped before its expected size.
pub fn ended_early_message(done: u64, total: u64) -> (r: String)
    ensures
        r@ == "download ended early ("@ + decimal(done as nat) + " of "@ + decimal(total as nat) + " bytes)"@,
{
    let mut s = String::new();
    push_str(&mut s, "download ended early (");
    push_str(&mut s, u64_to_string(done).as_str());
    push_str(&mut s, " of ");
    push_str(&mut s, u64_to_string(total).as_str());
    push_str(&mut s, " bytes)");
    s
}

/// Where the written data starts once the server has answered with `status`: at `start`
/// when it honoured the range (206), else from the beginning, as the whole file is coming.
pub fn start_after_response(start: u64, status: u16) -> (r: u64)
    ensures
        r == if status == 206 { start } else { 0 },
{
    if status == 206 { start } else { 0 }
}

/// Whether a transfer stopped short: its total is known and not reached.
pub fn ended_early(done: u64, total: Option<u64>) -> (r: bool)
    ensures
        r == (total matches Some(t) && done < t),
{
    match total {
        Some(t) => done < t,
        None => false,
    }
}

} // verus!
