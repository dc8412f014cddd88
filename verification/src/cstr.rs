//! Bounded scanning of NUL-terminated byte strings.
use vstd::prelude::*;

verus! {

/// The number of bytes of `s` before its first NUL, looking at no more than
/// `max` bytes and stopping at the end of `s`.
pub open spec fn c_len(s: Seq<u8>, max: nat) -> nat
    decreases s.len(),
{
    if s.len() == 0 || max == 0 || s[0] == 0 {
        0
    } else {
        1 + c_len(s.drop_first(), (max - 1) as nat)
    }
}

/// The bytes of `s` before its first NUL, at most `max` of them.
pub open spec fn c_prefix(s: Seq<u8>, max: nat) -> Seq<u8> {
    s.take(c_len(s, max) as int)
}

pub proof fn lemma_c_len_basics(s: Seq<u8>, max: nat)
    ensures
        c_len(s, max) <= max,
        c_len(s, max) <= s.len(),
        forall|j: int| 0 <= j < c_len(s, max) ==> s[j] != 0,
        c_len(s, max) < max && c_len(s, max) < s.len() ==> s[c_len(s, max) as int] == 0,
    decreases s.len(),
{
    if s.len() > 0 && max > 0 && s[0] != 0 {
        let t = s.drop_first();
        lemma_c_len_basics(t, (max - 1) as nat);
        assert forall|j: int| 0 <= j < c_len(s, max) implies s[j] != 0 by {
            if j > 0 {
                assert(s[j] == t[j - 1]);
            }
        }
    }
}

/// Any stopping point of a forward scan is the value of `c_len`.
pub proof fn lemma_c_len_unique(s: Seq<u8>, max: nat, k: nat)
    requires
        k <= max,
        k <= s.len(),
        forall|j: int| 0 <= j < k ==> s[j] != 0,
        k == max || k == s.len() || s[k as int] == 0,
    ensures
        c_len(s, max) == k,
    decreases s.len(),
{
    if k > 0 {
        let t = s.drop_first();
        assert forall|j: int| 0 <= j < k - 1 implies t[j] != 0 by {
            assert(t[j] == s[j + 1]);
        }
        if k < s.len() && k < max {
            assert(t[k - 1] == s[k as int]);
        }
        lemma_c_len_unique(t, (max - 1) as nat, (k - 1) as nat);
    }
}

/// Scans `s` for its first NUL, looking at no more than `max` bytes.
pub fn scan_c_len(s: &[u8], max: usize) -> (k: usize)
    ensures
        k == c_len(s@, max as nat),
{
    let mut k: usize = 0;
    while k < max && k < s.len() && s[k] != 0
        invariant
            k <= max,
            k <= s@.len(),
            forall|j: int| 0 <= j < k ==> s@[j] != 0,
        decreases max - k,
    {
        k = k + 1;
    }
    proof {
        lemma_c_len_unique(s@, max as nat, k as nat);
    }
    k
}

/// Scans `s[start..start + max]` for its first NUL.
pub fn scan_c_len_at(s: &[u8], start: usize, max: usize) -> (k: usize)
    requires
        start + max <= s@.len(),
    ensures
        k == c_len(s@.subrange(start as int, start + max), max as nat),
{
    let ghost r = s@.subrange(start as int, start + max);
    let mut k: usize = 0;
    while k < max && s[start + k] != 0
        invariant
            k <= max,
            start + max <= s@.len(),
            s@.len() == s.len(),
            r == s@.subrange(start as int, start + max),
            forall|j: int| 0 <= j < k ==> r[j] != 0,
        decreases max - k,
    {
        k = k + 1;
    }
    proof {
        lemma_c_len_unique(r, max as nat, k as nat);
    }
    k
}

/// Copies `s[start..start + n]`.
pub fn copy_range(s: &[u8], start: usize, n: usize) -> (v: Vec<u8>)
    requires
        start + n <= s@.len(),
    ensures
        v@ == s@.subrange(start as int, start + n),
{
    let mut v: Vec<u8> = Vec::new();
    let mut i: usize = 0;
    while i < n
        invariant
            i <= n,
            start + n <= s@.len(),
            s@.len() == s.len(),
            v@ == s@.subrange(start as int, start + i),
        decreases n - i,
    {
        v.push(s[start + i]);
        proof {
            assert(v@ =~= s@.subrange(start as int, start + i + 1));
        }
        i = i + 1;
    }
    v
}

} // verus!
