//! Classification of remote failures: an access/authorization failure
//! forces a logout, anything else only surfaces a message.

use vstd::prelude::*;

verus! {

/// Whether `s` ends with `suffix`.
pub open spec fn seq_ends_with(s: Seq<char>, suffix: Seq<char>) -> bool {
    s.len() >= suffix.len() && s.subrange(s.len() - suffix.len(), s.len() as int) == suffix
}

/// Whether a remote error message denotes an access/authorization failure,
/// which the caller answers with a forced logout.
pub fn err_is_access(msg: &str) -> (r: bool)
    ensures
        r == seq_ends_with(msg@, "Access denied"@),
{
    let pat = "Access denied";
    proof {
        reveal_strlit("Access denied");
    }
    let plen = pat.unicode_len();
    let mlen = msg.unicode_len();
    if mlen < plen {
        return false;
    }
    let mut i: usize = 0;
    while i < plen
        invariant
            0 <= i <= plen,
            plen == pat@.len(),
            mlen == msg@.len(),
            plen <= mlen,
            pat@ == "Access denied"@,
            forall|j: int| 0 <= j < i ==> msg@[mlen - plen + j] == pat@[j],
        decreases plen - i,
    {
        if msg.get_char(mlen - plen + i) != pat.get_char(i) {
            proof {
                let sub = msg@.subrange(mlen - plen, mlen as int);
                assert(sub[i as int] == msg@[mlen - plen + i]);
            }
            return false;
        }
        i = i + 1;
    }
    proof {
        assert(msg@.subrange(mlen - plen, mlen as int) =~= pat@);
    }
    true
}

} // verus!
