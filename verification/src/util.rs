//! Counting helpers over the raw text of dependency files.

use std::borrow::{Cow, ToOwned};
use vstd::prelude::*;
use vstd::string::StringSliceAdditionalSpecFns;

verus! {

/// Number of escape sequences in `bytes[off..]` as counted by [`count_escapes`]:
/// a backslash followed by a backslash is skipped as a pair, any other backslash
/// that is not the very last byte counts once.
pub open spec fn spec_count_escapes_from(bytes: Seq<u8>, off: int) -> nat
    decreases bytes.len() - off,
{
    if off < 0 || off + 1 >= bytes.len() {
        0
    } else if bytes[off] == 0x5c && bytes[off + 1] == 0x5c {
        spec_count_escapes_from(bytes, off + 2)
    } else if bytes[off] == 0x5c {
        1 + spec_count_escapes_from(bytes, off + 1)
    } else {
        spec_count_escapes_from(bytes, off + 1)
    }
}

/// The number of escape sequences counted by [`count_escapes`] on `bytes`.
pub open spec fn spec_count_escapes(bytes: Seq<u8>) -> nat {
    spec_count_escapes_from(bytes, 0)
}

proof fn lemma_count_escapes_bound(bytes: Seq<u8>, off: int)
    requires
        0 <= off,
    ensures
        spec_count_escapes_from(bytes, off) <= if off < bytes.len() { bytes.len() - off } else { 0 },
    decreases bytes.len() - off,
{
    if off + 1 >= bytes.len() {
    } else if bytes[off] == 0x5c && bytes[off + 1] == 0x5c {
        lemma_count_escapes_bound(bytes, off + 2);
    } else {
        lemma_count_escapes_bound(bytes, off + 1);
    }
}

/// No backslash from `off` on, nothing counted from `off` on.
proof fn lemma_count_escapes_none_from(bytes: Seq<u8>, off: int)
    requires
        0 <= off,
        forall|i: int| off <= i < bytes.len() ==> bytes[i] != 0x5c,
    ensures
        spec_count_escapes_from(bytes, off) == 0,
    decreases bytes.len() - off,
{
    if off + 1 < bytes.len() {
        lemma_count_escapes_none_from(bytes, off + 1);
    }
}

/// A text without a backslash holds no escape; one whose only backslash is
/// followed by another byte holds exactly one.
pub proof fn lemma_count_escapes_lone_backslash(bytes: Seq<u8>, k: int)
    ensures
        (forall|i: int| 0 <= i < bytes.len() ==> bytes[i] != 0x5c) ==> spec_count_escapes(bytes) == 0,
        0 <= k && k + 1 < bytes.len() && bytes[k] == 0x5c
            && (forall|i: int| 0 <= i < bytes.len() && i != k ==> bytes[i] != 0x5c)
            ==> spec_count_escapes(bytes) == 1,
{
    if forall|i: int| 0 <= i < bytes.len() ==> bytes[i] != 0x5c {
        lemma_count_escapes_none_from(bytes, 0);
    }
    if 0 <= k && k + 1 < bytes.len() && bytes[k] == 0x5c
        && (forall|i: int| 0 <= i < bytes.len() && i != k ==> bytes[i] != 0x5c) {
        lemma_count_escapes_none_from(bytes, k + 1);
        lemma_count_escapes_before(bytes, 0, k);
    }
}

/// Bytes before `k` that are no backslash add nothing to the count.
proof fn lemma_count_escapes_before(bytes: Seq<u8>, off: int, k: int)
    requires
        0 <= off <= k,
        k + 1 < bytes.len(),
        forall|i: int| off <= i < k ==> bytes[i] != 0x5c,
    ensures
        spec_count_escapes_from(bytes, off) == spec_count_escapes_from(bytes, k),
    decreases k - off,
{
    if off < k {
        lemma_count_escapes_before(bytes, off + 1, k);
    }
}

/// Counts the backslash escapes in `str`, treating `\\` as one escaped backslash
/// that is not counted.
pub fn count_escapes(str: &str) -> (count: u64)
    ensures
        count == spec_count_escapes(str.spec_bytes()),
{
    let bytes = str.as_bytes();
    let len = bytes.len();
    let mut off: usize = 0;
    let mut count: u64 = 0;
    proof {
        lemma_count_escapes_bound(bytes@, 0);
    }
    if len > 1 {
        while off < len - 1
            invariant
                len == bytes@.len(),
                len > 1,
                off <= len,
                count + spec_count_escapes_from(bytes@, off as int) == spec_count_escapes(bytes@),
                count <= off,
            decreases len - off,
        {
            if bytes[off] == 0x5c && bytes[off + 1] == 0x5c {
                off = off + 1;
            } else if bytes[off] == 0x5c {
                count = count + 1;
            }
            off = off + 1;
        }
    }
    count
}

/// The state reached by the scan of [`count_escaped_strings`] outside of a quoted
/// string at offset `off`, with `strings` strings and `escaped` strings that held
/// an escape counted so far; `None` where the scan reads past the end of the text.
pub open spec fn spec_scan_outside(bytes: Seq<u8>, off: int, strings: nat, escaped: nat) -> Option<(nat, nat)>
    decreases bytes.len() + 2 - off, 1int,
{
    if off < 0 || !(off < bytes.len() - 1) {
        Some((strings, escaped))
    } else if bytes[off] == 0x22 {
        spec_scan_inside(bytes, off + 1, false, strings, escaped)
    } else {
        spec_scan_outside(bytes, off + 1, strings, escaped)
    }
}

/// The scan of [`count_escaped_strings`] inside a quoted string at offset `off`.
pub open spec fn spec_scan_inside(bytes: Seq<u8>, off: int, has_escape: bool, strings: nat, escaped: nat) -> Option<(nat, nat)>
    decreases bytes.len() + 2 - off, 0int,
{
    if off < 1 || off >= bytes.len() {
        None
    } else if bytes[off] == 0x5c {
        if off + 1 >= bytes.len() {
            None
        } else {
            spec_scan_inside(bytes, off + 2, has_escape || bytes[off + 1] != 0x5c, strings, escaped)
        }
    } else if bytes[off] == 0x22 {
        spec_scan_outside(bytes, off + 2, strings + 1, escaped + if has_escape { 1nat } else { 0nat })
    } else {
        spec_scan_inside(bytes, off + 1, has_escape, strings, escaped)
    }
}

/// The pair returned by [`count_escaped_strings`] on `bytes`: the number of quoted
/// strings and the number of those that hold an escape other than `\\`; `None`
/// where a quoted string is not closed, on which the count is undefined.
pub open spec fn spec_count_escaped_strings(bytes: Seq<u8>) -> Option<(nat, nat)> {
    spec_scan_outside(bytes, 0, 0, 0)
}

/// Counts the quoted strings of `str` and, among them, those that hold an escape
/// sequence other than an escaped backslash.
pub fn count_escaped_strings(str: &str) -> (res: (u64, u64))
    requires
        spec_count_escaped_strings(str.spec_bytes()) is Some,
    ensures
        spec_count_escaped_strings(str.spec_bytes()) == Some((res.0 as nat, res.1 as nat)),
{
    let bytes = str.as_bytes();
    let len = bytes.len();
    let mut off: usize = 0;
    let mut num_strings: u64 = 0;
    let mut num_escaped: u64 = 0;
    if len > 1 {
        while off < len - 1
            invariant
                len == bytes@.len(),
                len > 1,
                off <= len + 1,
                num_escaped <= num_strings <= off,
                spec_scan_outside(bytes@, off as int, num_strings as nat, num_escaped as nat)
                    == spec_count_escaped_strings(bytes@),
                spec_count_escaped_strings(bytes@) is Some,
            decreases len + 2 - off,
        {
            if bytes[off] == 0x22 {
                off = off + 1;
                let ghost start = off;
                let mut escaped = false;
                loop
                    invariant_except_break
                        num_escaped <= num_strings < off,
                        spec_scan_inside(bytes@, off as int, escaped, num_strings as nat, num_escaped as nat)
                            == spec_count_escaped_strings(bytes@),
                    invariant
                        len == bytes@.len(),
                        len > 1,
                        1 <= start <= off,
                        spec_count_escaped_strings(bytes@) is Some,
                    ensures
                        start <= off <= len,
                        num_escaped <= num_strings <= off,
                        spec_scan_outside(bytes@, off + 1, num_strings as nat, num_escaped as nat)
                            == spec_count_escaped_strings(bytes@),
                    decreases len + 2 - off,
                {
                    if bytes[off] == 0x5c {
                        off = off + 1;
                        if bytes[off] != 0x5c {
                            escaped = true;
                        }
                    } else if bytes[off] == 0x22 {
                        num_strings = num_strings + 1;
                        if escaped {
                            num_escaped = num_escaped + 1;
                        }
                        off = off + 1;
                        break;
                    }
                    off = off + 1;
                }
            }
            // Past the end the scan stops either way; clamping keeps the offset in range.
            off = if off < len { off + 1 } else { len };
        }
    }
    (num_strings, num_escaped)
}

/// Whether `cow` owns its value, rather than borrowing it.
pub fn cow_is_owned<'a, B: ?Sized + ToOwned>(cow: &Cow<'a, B>) -> (owned: bool)
    ensures
        owned == (*cow is Owned),
{
    match cow {
        Cow::Owned(_) => true,
        Cow::Borrowed(_) => false,
    }
}

} // verus!
