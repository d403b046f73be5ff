//! Normalization of a raw command-line record.
//!
//! A kernel argument record is NUL-separated and commonly ends with one
//! NUL. Normalization strips exactly one trailing NUL, if present, then
//! turns every remaining NUL into a space, so that a multi-argument
//! command line reads as one line.

use vstd::prelude::*;
use vstd::string::*;

verus! {

/// `s` with one trailing NUL character removed, if present.
pub open spec fn strip_trailing_nul(s: Seq<char>) -> Seq<char> {
    if s.len() > 0 && s.last() == '\0' {
        s.drop_last()
    } else {
        s
    }
}

/// `s` with every NUL character replaced by a space.
pub open spec fn nul_to_space(s: Seq<char>) -> Seq<char> {
    Seq::new(s.len(), |i: int| if s[i] == '\0' { ' ' } else { s[i] })
}

/// The normalized form of a raw command-line record.
pub open spec fn chopped(s: Seq<char>) -> Seq<char> {
    nul_to_space(strip_trailing_nul(s))
}

/// Strip one trailing NUL if present, then replace every NUL by a space.
pub fn chop_null(s: String) -> (r: String)
    ensures
        r@ == chopped(s@),
{
    let n = s.as_str().unicode_len();
    let end: usize = if n > 0 && s.as_str().get_char(n - 1) == '\0' {
        n - 1
    } else {
        n
    };
    proof {
        assert(end == strip_trailing_nul(s@).len());
        assert(forall|j: int| 0 <= j < end ==> strip_trailing_nul(s@)[j] == s@[j]);
    }
    let mut out = String::new();
    let mut i: usize = 0;
    while i < end
        invariant
            i <= end,
            end <= n,
            n == s@.len(),
            end == strip_trailing_nul(s@).len(),
            forall|j: int| 0 <= j < end ==> strip_trailing_nul(s@)[j] == s@[j],
            out@ =~= chopped(s@).take(i as int),
        decreases end - i,
    {
        let c = s.as_str().get_char(i);
        if c == '\0' {
            proof {
                reveal_strlit(" ");
            }
            out.append(" ");
        } else {
            let piece = s.as_str().substring_char(i, i + 1);
            out.append(piece);
        }
        proof {
            assert(out@ =~= chopped(s@).take(i as int + 1));
        }
        i = i + 1;
    }
    proof {
        assert(out@ =~= chopped(s@));
    }
    out
}

} // verus!
