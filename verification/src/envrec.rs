//! Search of a NUL-delimited `KEY=VALUE` environment record.
//!
//! The record is raw kernel-provided bytes: entries are the stretches
//! between NUL bytes. A variable `name` matches the first entry that
//! starts with `name` immediately followed by `=`; the value is the rest
//! of that entry, decoded leniently to text. Arbitrary binary content is
//! tolerated: at worst the variable is not found.

use vstd::prelude::*;
use vstd::slice::slice_subrange;
use crate::classify::{EnvVal, EnvClass};

verus! {

/// End of the record segment running from `i`: the position of the first
/// NUL byte at or after `i`, or the end of the record.
pub open spec fn seg_end(buf: Seq<u8>, i: int) -> int
    decreases buf.len() - i,
{
    if i < 0 || i >= buf.len() {
        buf.len() as int
    } else if buf[i] == 0 {
        i
    } else {
        seg_end(buf, i + 1)
    }
}

/// An entry matching `name` starts at position `i` of the record: `i`
/// opens a segment, and the segment starts with `name` (free of NUL
/// bytes) immediately followed by `=`.
pub open spec fn entry_matches(buf: Seq<u8>, name: Seq<u8>, i: int) -> bool {
    &&& 0 <= i
    &&& i + name.len() + 1 <= buf.len()
    &&& (i == 0 || buf[i - 1] == 0)
    &&& buf.subrange(i, i + name.len()) == name
    &&& (forall|k: int| i <= k < i + name.len() ==> buf[k] != 0)
    &&& buf[i + name.len()] == 61
}

/// The first position at or after `i` where an entry matches `name`.
pub open spec fn match_from(buf: Seq<u8>, name: Seq<u8>, i: int) -> Option<int>
    decreases buf.len() - i + 1,
{
    if i > buf.len() {
        None
    } else if entry_matches(buf, name, i) {
        Some(i)
    } else {
        match_from(buf, name, i + 1)
    }
}

/// The raw value bytes of `name` in the record: the rest of the first
/// matching entry, after the `=` that closes the name.
pub open spec fn env_lookup(buf: Seq<u8>, name: Seq<u8>) -> Option<Seq<u8>> {
    match match_from(buf, name, 0) {
        Some(i) => Some(
            buf.subrange(i + name.len() + 1, seg_end(buf, i + name.len() + 1)),
        ),
        None => None,
    }
}

/// The text that lenient UTF-8 decoding yields for the given bytes.
pub uninterp spec fn lossy_utf8(bytes: Seq<u8>) -> Seq<char>;

/// Relies on `String::from_utf8_lossy`: the result is a function of the
/// bytes alone (invalid sequences become replacement characters), and an
/// empty input gives an empty string.
#[verifier::external_body]
fn utf8_lossy(bytes: &[u8]) -> (r: String)
    ensures
        r@ == lossy_utf8(bytes@),
        bytes@.len() == 0 ==> r@.len() == 0,
{
    String::from_utf8_lossy(bytes).into_owned()
}

/// Classification of one read attempt: an unreadable record is `Fail`, a
/// record without the variable is `Nothing`, a found value is `Value`.
pub open spec fn classification(read: Option<Seq<u8>>, name: Seq<u8>) -> EnvClass {
    match read {
        None => EnvClass::Fail,
        Some(buf) => match env_lookup(buf, name) {
            None => EnvClass::Nothing,
            Some(v) => EnvClass::Value(lossy_utf8(v)),
        },
    }
}

/// The bytes of an `Option<Vec<u8>>`, as handed back by a read attempt.
pub open spec fn opt_bytes(read: Option<Vec<u8>>) -> Option<Seq<u8>> {
    match read {
        None => None,
        Some(b) => Some(b@),
    }
}

/// Whether an entry matching `name` starts at position `i` of `buf`.
fn matches_at(buf: &[u8], name: &[u8], i: usize) -> (r: bool)
    requires
        i <= buf@.len(),
    ensures
        r == entry_matches(buf@, name@, i as int),
{
    let n = buf.len();
    let m = name.len();
    if n - i <= m {
        return false;
    }
    if i > 0 && buf[i - 1] != 0 {
        return false;
    }
    let mut k: usize = 0;
    while k < m
        invariant
            k <= m,
            m == name@.len(),
            n == buf@.len(),
            i + m + 1 <= n,
            i == 0 || buf@[i - 1] == 0,
            forall|j: int| 0 <= j < k ==> buf@[i + j] == name@[j],
            forall|j: int| 0 <= j < k ==> #[trigger] buf@[i + j] != 0,
        decreases m - k,
    {
        if buf[i + k] != name[k] {
            proof {
                assert(buf@.subrange(i as int, i + name@.len()) != name@) by {
                    assert(buf@.subrange(i as int, i + name@.len())[k as int] != name@[k as int]);
                }
            }
            return false;
        }
        if name[k] == 0 {
            return false;
        }
        k = k + 1;
    }
    if buf[i + m] != 61 {
        return false;
    }
    proof {
        assert(buf@.subrange(i as int, i + name@.len()) =~= name@);
        assert forall|k2: int| i <= k2 < i + name@.len() implies buf@[k2] != 0 by {
            assert(buf@[i + (k2 - i)] != 0);
        }
    }
    true
}

/// The end of the segment that starts at `start`.
fn find_seg_end(buf: &[u8], start: usize) -> (e: usize)
    requires
        start <= buf@.len(),
    ensures
        e == seg_end(buf@, start as int),
        start <= e <= buf@.len(),
{
    let n = buf.len();
    let mut j = start;
    while j < n
        invariant
            start <= j <= n,
            n == buf@.len(),
            seg_end(buf@, start as int) == seg_end(buf@, j as int),
        decreases n - j,
    {
        if buf[j] == 0 {
            return j;
        }
        j = j + 1;
    }
    n
}

/// The value of `name` in the record `buf`: the rest of the first entry
/// that starts with `name` followed by `=`, decoded leniently; `None`
/// when no entry matches.
///
/// A name that itself contains `=` or a NUL byte is undefined input
/// upstream; here it is matched as plain bytes, so a NUL in the name
/// never matches and an `=` must be repeated by the entry.
pub fn env_value(buf: &[u8], name: &[u8]) -> (r: Option<String>)
    ensures
        r is Some <==> env_lookup(buf@, name@) is Some,
        r matches Some(s) ==> env_lookup(buf@, name@) matches Some(v) && s@ == lossy_utf8(v),
{
    let n = buf.len();
    let m = name.len();
    let mut i: usize = 0;
    while i < n
        invariant
            i <= n,
            n == buf@.len(),
            m == name@.len(),
            match_from(buf@, name@, 0) == match_from(buf@, name@, i as int),
        decreases n - i,
    {
        if matches_at(buf, name, i) {
            let vs = i + m + 1;
            let ve = find_seg_end(buf, vs);
            let value = slice_subrange(buf, vs, ve);
            return Some(utf8_lossy(value));
        }
        i = i + 1;
    }
    proof {
        assert(match_from(buf@, name@, n as int) == None::<int>) by {
            assert(!entry_matches(buf@, name@, n as int));
            assert(match_from(buf@, name@, n as int + 1) == None::<int>);
        }
    }
    None
}

/// Classification of one read attempt against `name`: a failed read is
/// `Fail`; otherwise the record decides between `Nothing` and `Value`.
pub fn classify_read(read: Option<Vec<u8>>, name: &[u8]) -> (r: EnvVal)
    ensures
        r@ == classification(opt_bytes(read), name@),
{
    match read {
        None => EnvVal::Fail,
        Some(buf) => match env_value(buf.as_slice(), name) {
            None => EnvVal::Nothing,
            Some(s) => EnvVal::Value(s),
        },
    }
}

} // verus!
