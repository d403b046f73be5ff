//! Recognition of process identifiers among directory entry names.
//!
//! An entry names a process exactly when its name is a non-empty string
//! of decimal digits whose value fits the process-id range; every other
//! entry is silently skipped by the scan.

use vstd::prelude::*;

verus! {

/// The bytes are a non-empty run of decimal digits.
pub open spec fn is_digits(s: Seq<u8>) -> bool {
    s.len() > 0 && forall|i: int| 0 <= i < s.len() ==> 48 <= #[trigger] s[i] <= 57
}

/// Numeric value of a digit run, most significant digit first.
pub open spec fn digits_val(s: Seq<u8>) -> nat
    decreases s.len(),
{
    if s.len() == 0 {
        0
    } else {
        digits_val(s.drop_last()) * 10 + (s.last() - 48) as nat
    }
}

/// A longer prefix of a digit run never has a smaller value.
proof fn lemma_digits_val_grows(s: Seq<u8>, i: int, j: int)
    requires
        0 <= i <= j <= s.len(),
    ensures
        digits_val(s.take(i)) <= digits_val(s.take(j)),
    decreases j - i,
{
    if i < j {
        lemma_digits_val_grows(s, i, j - 1);
        assert(s.take(j).drop_last() =~= s.take(j - 1));
        assert(digits_val(s.take(j - 1)) * 10 >= digits_val(s.take(j - 1))) by (nonlinear_arith)
            requires digits_val(s.take(j - 1)) >= 0;
    }
}

/// Parse a directory entry name as a process id: `Some` exactly when the
/// name is all digits and its value fits in the id range.
pub fn parse_pid(name: &[u8]) -> (r: Option<u32>)
    ensures
        r is Some <==> is_digits(name@) && digits_val(name@) <= u32::MAX,
        r matches Some(v) ==> v == digits_val(name@),
{
    let n = name.len();
    if n == 0 {
        return None;
    }
    let mut acc: u64 = 0;
    let mut i: usize = 0;
    while i < n
        invariant
            i <= n,
            n == name@.len(),
            forall|j: int| 0 <= j < i ==> 48 <= #[trigger] name@[j] <= 57,
            acc == digits_val(name@.take(i as int)),
            acc <= u32::MAX,
        decreases n - i,
    {
        let b = name[i];
        if b < 48 || b > 57 {
            proof {
                assert(!(48 <= name@[i as int] <= 57));
            }
            return None;
        }
        acc = acc * 10 + ((b - 48) as u64);
        proof {
            assert(name@.take(i as int + 1).drop_last() =~= name@.take(i as int));
            assert(name@.take(i as int + 1).last() == name@[i as int]);
        }
        i = i + 1;
        if acc > 0xFFFF_FFFF {
            proof {
                lemma_digits_val_grows(name@, i as int, n as int);
                assert(name@.take(n as int) =~= name@);
            }
            return None;
        }
    }
    proof {
        assert(name@.take(n as int) =~= name@);
    }
    Some(acc as u32)
}

} // verus!
