//! Helpers of the resolver sandbox launch: the child's environment without
//! the preload variable, the descriptor argument, and NUL-terminated names
//! for symbol lookup and shared-memory creation.
use vstd::prelude::*;
use crate::decimal::{decimal, lemma_decimal_digits};

verus! {

/// `LD_PRELOAD=` in bytes.
pub open spec fn ld_preload_prefix() -> Seq<u8> {
    seq![76u8, 68, 95, 80, 82, 69, 76, 79, 65, 68, 61]
}

/// An environment entry (its bytes before the NUL) sets `LD_PRELOAD`.
pub open spec fn is_ld_preload_spec(s: Seq<u8>) -> bool {
    s.len() >= 11 && s.take(11) == ld_preload_prefix()
}

/// Whether an environment entry (its bytes before the NUL) starts with `LD_PRELOAD=`.
pub fn is_ld_preload(s: &[u8]) -> (b: bool)
    ensures
        b == is_ld_preload_spec(s@),
{
    let prefix: [u8; 11] = [76, 68, 95, 80, 82, 69, 76, 79, 65, 68, 61];
    assert(prefix@ =~= ld_preload_prefix());
    if s.len() < 11 {
        return false;
    }
    let mut i: usize = 0;
    while i < 11
        invariant
            i <= 11,
            s@.len() >= 11,
            prefix@ == ld_preload_prefix(),
            s@.take(i as int) == prefix@.take(i as int),
        decreases 11 - i,
    {
        if s[i] != prefix[i] {
            assert(s@.take(11)[i as int] != ld_preload_prefix()[i as int]);
            return false;
        }
        i = i + 1;
        assert(s@.take(i as int) =~= prefix@.take(i as int));
    }
    assert(prefix@.take(11) =~= prefix@);
    true
}

/// The positions of the entries the sandbox's environment keeps: every
/// entry that does not set `LD_PRELOAD`, in order.
pub open spec fn kept_entries(env: Seq<Seq<u8>>, upto: int) -> Seq<usize>
    decreases upto,
{
    if upto <= 0 {
        Seq::empty()
    } else if is_ld_preload_spec(env[upto - 1]) {
        kept_entries(env, upto - 1)
    } else {
        kept_entries(env, upto - 1).push((upto - 1) as usize)
    }
}

/// The environment for the sandbox, as positions into `env` (each entry its
/// bytes before the NUL): all entries but those that set `LD_PRELOAD`.
pub fn env_without_ld_preload(env: &Vec<Vec<u8>>) -> (kept: Vec<usize>)
    ensures
        kept@ == kept_entries(env@.map_values(|e: Vec<u8>| e@), env@.len() as int),
{
    let ghost ev = env@.map_values(|e: Vec<u8>| e@);
    let mut kept: Vec<usize> = Vec::new();
    let mut i: usize = 0;
    while i < env.len()
        invariant
            i <= env@.len(),
            ev == env@.map_values(|e: Vec<u8>| e@),
            kept@ == kept_entries(ev, i as int),
        decreases env@.len() - i,
    {
        assert(ev[i as int] == env@[i as int]@);
        if !is_ld_preload(env[i].as_slice()) {
            kept.push(i);
        }
        i = i + 1;
    }
    kept
}

/// Law: the sandbox's environment drops exactly the `LD_PRELOAD` entries: a
/// kept position never sets it, and every entry that does not set it is kept.
pub proof fn law_env_drops_only_preload(env: Seq<Seq<u8>>, upto: int)
    requires
        0 <= upto <= env.len(),
        env.len() <= usize::MAX,
    ensures
        forall|j: int| 0 <= j < kept_entries(env, upto).len() ==> !is_ld_preload_spec(#[trigger] env[kept_entries(env, upto)[j] as int]),
        forall|j: int| 0 <= j < kept_entries(env, upto).len() ==> (#[trigger] kept_entries(env, upto)[j]) < upto,
        forall|i: int| 0 <= i < upto && !is_ld_preload_spec(#[trigger] env[i]) ==> kept_entries(env, upto).contains(i as usize),
    decreases upto,
{
    if upto > 0 {
        law_env_drops_only_preload(env, upto - 1);
        let prev = kept_entries(env, upto - 1);
        if !is_ld_preload_spec(env[upto - 1]) {
            let cur = prev.push((upto - 1) as usize);
            assert(cur[prev.len() as int] == (upto - 1) as usize);
            assert forall|j: int| 0 <= j < cur.len() implies !is_ld_preload_spec(#[trigger] env[cur[j] as int]) && cur[j] < upto by {
                if j < prev.len() {
                    assert(cur[j] == prev[j]);
                    assert(!is_ld_preload_spec(env[prev[j] as int]));
                }
            }
            assert forall|i: int| 0 <= i < upto && !is_ld_preload_spec(#[trigger] env[i]) implies cur.contains(i as usize) by {
                if i < upto - 1 {
                    let j = choose|j: int| 0 <= j < prev.len() && prev[j] == i as usize;
                    assert(cur[j] == i as usize);
                } else {
                    assert(cur[prev.len() as int] == i as usize);
                }
            }
        }
    }
}

/// The descriptor argument for the sandbox: the decimal text of `fd` with a
/// NUL after it, `"0"` for a negative descriptor.
pub fn format_fd(fd: i32) -> (v: Vec<u8>)
    ensures
        v@ == (if fd < 0 { decimal(0) } else { decimal(fd as nat) }).push(0),
        v@.len() <= 12,
{
    let mut v: Vec<u8> = Vec::new();
    if fd < 0 {
        v.push(48);
        v.push(0);
        assert(v@ =~= decimal(0).push(0));
        return v;
    }
    let orig: u32 = fd as u32;
    let mut n: u32 = orig;
    let mut rev: Vec<u8> = Vec::new();
    proof {
        lemma_decimal_len_u32(orig as nat, 10);
    }
    while n >= 10
        invariant
            n <= orig,
            decimal(orig as nat) == decimal(n as nat) + rev@.reverse(),
            rev@.len() + decimal(n as nat).len() == decimal(orig as nat).len(),
            decimal(orig as nat).len() <= 10,
        decreases n,
    {
        let d = (n % 10) as u8;
        proof {
            lemma_decimal_digits(n as nat);
            assert(decimal(n as nat) == decimal((n / 10) as nat).push((48 + n % 10) as u8));
            assert(decimal((n / 10) as nat) + rev@.push((48 + d) as u8).reverse() =~= decimal(n as nat) + rev@.reverse());
        }
        rev.push(48 + d);
        n = n / 10;
    }
    proof {
        lemma_decimal_digits(n as nat);
        assert(rev@.push((48 + n) as u8).reverse() =~= decimal(n as nat) + rev@.reverse());
    }
    rev.push(48 + (n as u8));
    let ghost digits = rev@.reverse();
    assert(digits == decimal(orig as nat));
    let mut i: usize = rev.len();
    while i > 0
        invariant
            i <= rev@.len(),
            rev@.len() <= 10,
            v@ == rev@.reverse().take(rev@.len() - i),
        decreases i,
    {
        v.push(rev[i - 1]);
        i = i - 1;
        proof {
            assert(v@ =~= rev@.reverse().take(rev@.len() - i));
        }
    }
    assert(rev@.reverse().take(rev@.len() as int) =~= rev@.reverse());
    v.push(0);
    v
}

pub open spec fn pow10(k: nat) -> nat
    decreases k,
{
    if k == 0 {
        1
    } else {
        10 * pow10((k - 1) as nat)
    }
}

proof fn lemma_decimal_len_bound(n: nat, k: nat)
    requires
        k >= 1,
        n < pow10(k),
    ensures
        decimal(n).len() <= k,
    decreases k,
{
    lemma_decimal_digits(n);
    if n >= 10 {
        if k == 1 {
            assert(pow10(1) == 10) by {
                reveal_with_fuel(pow10, 2);
            }
        } else {
            assert(n / 10 < pow10((k - 1) as nat)) by (nonlinear_arith)
                requires
                    n < 10 * pow10((k - 1) as nat),
            ;
            lemma_decimal_len_bound(n / 10, (k - 1) as nat);
        }
    }
}

proof fn lemma_decimal_len_u32(n: nat, k: nat)
    requires
        n <= u32::MAX,
        k == 10,
    ensures
        decimal(n).len() <= 10,
{
    assert(pow10(10) == 10_000_000_000) by {
        reveal_with_fuel(pow10, 11);
    }
    lemma_decimal_len_bound(n, 10);
}

/// A NUL-terminated name of `cap` bytes: at most `cap - 1` bytes of `name`,
/// then zeros.
pub open spec fn name_buffer(name: Seq<u8>, cap: nat) -> Seq<u8> {
    let n = if name.len() < cap - 1 { name.len() } else { (cap - 1) as nat };
    name.take(n as int) + Seq::new((cap - n) as nat, |i: int| 0u8)
}

/// Builds the NUL-terminated buffer of `cap` bytes that a symbol lookup
/// (64 bytes) or a shared-memory name (32 bytes) passes on.
pub fn c_name_buffer(name: &[u8], cap: usize) -> (v: Vec<u8>)
    requires
        cap >= 1,
    ensures
        v@ == name_buffer(name@, cap as nat),
        v@.len() == cap,
{
    let n = if name.len() < cap - 1 { name.len() } else { cap - 1 };
    let mut v = crate::cstr::copy_range(name, 0, n);
    assert(v@ =~= name@.take(n as int));
    while v.len() < cap
        invariant
            n <= v@.len() <= cap,
            v@ == name@.take(n as int) + Seq::new((v@.len() - n) as nat, |i: int| 0u8),
        decreases cap - v@.len(),
    {
        v.push(0);
        assert(v@ =~= name@.take(n as int) + Seq::new((v@.len() - n) as nat, |i: int| 0u8));
    }
    v
}

/// The descriptor `memfd_create` reports for a raw call result: -1 on error.
pub fn memfd_result(ret: isize) -> (fd: i32)
    ensures
        ret < 0 ==> fd == -1,
        ret >= 0 ==> fd == ret as i32,
{
    if ret < 0 {
        -1
    } else {
        #[verifier::truncate] (ret as i32)
    }
}

} // verus!
