//! The checks that the interposed entry points make before they delegate to
//! the kernel or to the system libc ("validate, then delegate").
use vstd::prelude::*;
use crate::cstr::{c_prefix, c_len, lemma_c_len_basics, scan_c_len, copy_range};

verus! {

/// Largest byte count of a copy or a single I/O call.
pub const SIZE_LIMIT: usize = 1_000_000_000;
/// Longest string `strcpy` and `puts` accept.
pub const STR_HEURISTIC_LIMIT: usize = 4096;
/// `getenv` names must be shorter than this.
pub const ENV_NAME_MAX: usize = 4096;
/// `getpwnam` names must be shorter than this.
pub const PW_NAME_MAX: usize = 256;
/// `crypt` salts must be shorter than this.
pub const SALT_MAX: usize = 128;
/// Host names must be shorter than this.
pub const HOST_MAX: usize = 256;
/// Service names must be shorter than this when lookups are delegated in-process.
pub const SERV_MAX_DELEGATED: usize = 32;
/// Service names must be shorter than this when lookups run in the sandbox.
pub const SERV_MAX_SANDBOXED: usize = 256;
/// `EINTR` errno value.
pub const EINTR: i32 = 4;

/// What `memcpy` does with its arguments.
#[derive(PartialEq, Eq, Structural)]
pub enum CopyCheck {
    /// Copy.
    Copy,
    /// Refuse (the call aborts): more than `SIZE_LIMIT` bytes.
    TooLarge,
    /// Refuse (the call aborts): the ranges overlap.
    Overlap,
}

/// The ranges `[d, d + n)` and `[s, s + n)` overlap with distinct starts.
pub open spec fn ranges_overlap(d: usize, s: usize, n: usize) -> bool {
    (d > s && d < s + n) || (s > d && s < d + n)
}

/// Checks a `memcpy` of `n` bytes from address `src` to address `dest`.
pub fn memcpy_check(dest: usize, src: usize, n: usize) -> (c: CopyCheck)
    ensures
        n > SIZE_LIMIT ==> c == CopyCheck::TooLarge,
        n > 1000000000 ==> c == CopyCheck::TooLarge,
        n <= SIZE_LIMIT && ranges_overlap(dest, src, n) ==> c == CopyCheck::Overlap,
        n <= SIZE_LIMIT && !ranges_overlap(dest, src, n) ==> c == CopyCheck::Copy,
        n <= SIZE_LIMIT && (dest >= src + n || src >= dest + n) ==> c == CopyCheck::Copy,
{
    if n > SIZE_LIMIT {
        return CopyCheck::TooLarge;
    }
    if (dest > src && dest - src < n) || (src > dest && src - dest < n) {
        return CopyCheck::Overlap;
    }
    CopyCheck::Copy
}

/// Whether a `memmove` of `n` bytes may proceed (it aborts above `SIZE_LIMIT`).
pub fn memmove_check(n: usize) -> (ok: bool)
    ensures
        ok == (n <= SIZE_LIMIT),
        ok == (n <= 1000000000),
{
    n <= SIZE_LIMIT
}

/// The bytes `strcpy` copies from a source whose bytes before the NUL are
/// `src` (read up to `STR_HEURISTIC_LIMIT + 1` bytes): the string and its
/// NUL, or `None` when the string is longer than the limit (the call aborts).
pub fn strcpy_plan(src: &[u8]) -> (r: Option<Vec<u8>>)
    requires
        src@.len() <= STR_HEURISTIC_LIMIT + 1,
    ensures
        src@.len() > STR_HEURISTIC_LIMIT ==> r is None,
        src@.len() <= STR_HEURISTIC_LIMIT ==> r is Some && r.unwrap()@ == c_prefix(src@, src@.len()).push(0),
{
    let k = scan_c_len(src, src.len());
    proof {
        lemma_c_len_basics(src@, src@.len());
    }
    if src.len() > STR_HEURISTIC_LIMIT {
        return None;
    }
    let mut v = copy_range(src, 0, k);
    v.push(0);
    proof {
        assert(v@ =~= c_prefix(src@, src@.len()).push(0));
    }
    Some(v)
}

/// What `puts` writes to descriptor 1, as one buffer in one write (`None`:
/// nothing is written), and its result, for a string whose bytes before the
/// NUL are `s` (read up to `STR_HEURISTIC_LIMIT + 1` bytes), or for a null string.
pub struct PutsPlan {
    pub line: Option<Vec<u8>>,
    pub ret: i32,
}

/// The tag `puts` prints before each line.
pub open spec fn puts_tag() -> Seq<u8> {
    seq![91u8, 73, 114, 111, 110, 76, 117, 110, 103, 93, 32]
}

/// Plans `puts`: a null string prints a newline; a string longer than the
/// limit prints nothing and fails with -1; otherwise the single line
/// `[IronLung] `, the string and a newline is written, and the result is 1.
pub fn puts_plan(s: Option<&[u8]>) -> (p: PutsPlan)
    requires
        s matches Some(b) ==> b@.len() <= STR_HEURISTIC_LIMIT + 1,
    ensures
        s is None ==> p.ret == 1 && (p.line matches Some(l) && l@ == seq![10u8]),
        s matches Some(b) ==> (b@.len() > STR_HEURISTIC_LIMIT ==> p.ret == -1 && p.line is None),
        s matches Some(b) ==> (b@.len() <= STR_HEURISTIC_LIMIT ==> p.ret == 1 && (p.line matches Some(l)
            && l@ == puts_tag() + c_prefix(b@, b@.len()) + seq![10u8])),
{
    match s {
        None => {
            let mut nl: Vec<u8> = Vec::new();
            nl.push(10);
            assert(nl@ =~= seq![10u8]);
            PutsPlan { line: Some(nl), ret: 1 }
        },
        Some(b) => {
            if b.len() > STR_HEURISTIC_LIMIT {
                return PutsPlan { line: None, ret: -1 };
            }
            let k = scan_c_len(b, b.len());
            proof {
                lemma_c_len_basics(b@, b@.len());
            }
            let mut line: Vec<u8> = Vec::new();
            line.push(91);
            line.push(73);
            line.push(114);
            line.push(111);
            line.push(110);
            line.push(76);
            line.push(117);
            line.push(110);
            line.push(103);
            line.push(93);
            line.push(32);
            assert(line@ =~= puts_tag());
            let mut i: usize = 0;
            while i < k
                invariant
                    i <= k,
                    k <= b@.len(),
                    line@ == puts_tag() + b@.subrange(0, i as int),
                decreases k - i,
            {
                line.push(b[i]);
                i = i + 1;
                assert(line@ =~= puts_tag() + b@.subrange(0, i as int));
            }
            line.push(10);
            assert(b@.subrange(0, k as int) =~= c_prefix(b@, b@.len()));
            assert(line@ =~= puts_tag() + c_prefix(b@, b@.len()) + seq![10u8]);
            PutsPlan { line: Some(line), ret: 1 }
        },
    }
}

/// A NUL-terminated argument is shorter than `limit` bytes: its bytes before
/// the NUL, read up to `limit` bytes, hold fewer than `limit`.
pub fn c_str_shorter_than(s: &[u8], limit: usize) -> (ok: bool)
    ensures
        ok == (c_len(s@, limit as nat) < limit),
{
    scan_c_len(s, limit) < limit
}

/// `getenv` delegates only a name shorter than `ENV_NAME_MAX` bytes.
pub fn getenv_name_ok(name: &[u8]) -> (ok: bool)
    ensures
        ok == (c_len(name@, ENV_NAME_MAX as nat) < ENV_NAME_MAX),
{
    c_str_shorter_than(name, ENV_NAME_MAX)
}

/// `getpwnam` delegates only a name shorter than `PW_NAME_MAX` bytes.
pub fn getpwnam_name_ok(name: &[u8]) -> (ok: bool)
    ensures
        ok == (c_len(name@, PW_NAME_MAX as nat) < PW_NAME_MAX),
{
    c_str_shorter_than(name, PW_NAME_MAX)
}

/// `crypt` delegates only a salt shorter than `SALT_MAX` bytes.
pub fn crypt_salt_ok(salt: &[u8]) -> (ok: bool)
    ensures
        ok == (c_len(salt@, SALT_MAX as nat) < SALT_MAX),
{
    c_str_shorter_than(salt, SALT_MAX)
}

/// The check `getaddrinfo` makes before resolving: `EAI_FAIL` for a null
/// result pointer, a host name of `HOST_MAX` bytes or more, or a service name
/// of `serv_max` bytes or more; `None` when the lookup may go ahead.
pub fn getaddrinfo_check(res_is_null: bool, node: Option<&[u8]>, service: Option<&[u8]>, serv_max: usize) -> (r: Option<i32>)
    ensures
        r is None || r == Some(crate::request::EAI_FAIL),
        r is None <==> (!res_is_null && (node matches Some(n) ==> c_len(n@, HOST_MAX as nat) < HOST_MAX) && (
        service matches Some(s) ==> c_len(s@, serv_max as nat) < serv_max)),
{
    if res_is_null {
        return Some(crate::request::EAI_FAIL);
    }
    match node {
        Some(n) => if !c_str_shorter_than(n, HOST_MAX) {
            return Some(crate::request::EAI_FAIL);
        },
        None => {},
    }
    match service {
        Some(s) => if !c_str_shorter_than(s, serv_max) {
            return Some(crate::request::EAI_FAIL);
        },
        None => {},
    }
    None
}

/// `fread` / `fwrite` delegate only with non-null buffer and stream, a
/// nonzero item size, and item size and count each at most `SIZE_LIMIT`
/// with a product that fits; otherwise they return 0.
pub fn stdio_items_ok(ptr_is_null: bool, stream_is_null: bool, size: usize, nmemb: usize) -> (ok: bool)
    ensures
        ok == (!ptr_is_null && !stream_is_null && size != 0 && size <= SIZE_LIMIT && nmemb <= SIZE_LIMIT && size
            * nmemb <= usize::MAX),
{
    if ptr_is_null || stream_is_null || size == 0 {
        return false;
    }
    if size > SIZE_LIMIT || nmemb > SIZE_LIMIT {
        return false;
    }
    size.checked_mul(nmemb).is_some()
}

/// `fgets` delegates only with non-null buffer and stream and a positive length.
pub fn fgets_ok(s_is_null: bool, stream_is_null: bool, n: i32) -> (ok: bool)
    ensures
        ok == (!s_is_null && !stream_is_null && n > 0),
{
    !s_is_null && !stream_is_null && n > 0
}

/// `read`, `write`, `send` and `recv` go to the kernel only with a non-null
/// buffer and at most `SIZE_LIMIT` bytes; otherwise they return -1.
pub fn io_request_ok(buf_is_null: bool, count: usize) -> (ok: bool)
    ensures
        ok == (!buf_is_null && count <= SIZE_LIMIT),
{
    !buf_is_null && count <= SIZE_LIMIT
}

/// `memset` and `strncpy` delegate only with non-null pointers and at most
/// `SIZE_LIMIT` bytes; otherwise they return the destination untouched.
pub fn bulk_request_ok(dest_is_null: bool, src_is_null: bool, n: usize) -> (ok: bool)
    ensures
        ok == (!dest_is_null && !src_is_null && n <= SIZE_LIMIT),
{
    !dest_is_null && !src_is_null && n <= SIZE_LIMIT
}

/// What to do with the return of a raw system call.
#[derive(PartialEq, Eq, Structural)]
pub enum SyscallStep {
    /// Return this value.
    Return(isize),
    /// Interrupted: make the call again.
    Retry,
    /// Fail: set errno to this value and return -1.
    Fail(i32),
}

/// The errno a failed raw system call reports: the negated return,
/// truncated to a C `int` as a wrapping cast does; `None` for a non-negative return.
pub open spec fn syscall_errno(ret: isize) -> Option<i32> {
    if ret >= 0 {
        None
    } else if ret == isize::MIN {
        Some(0i32)
    } else {
        Some((-ret) as i32)
    }
}

/// The errno a failed raw system call reports (see `syscall_errno`).
pub fn errno_from_syscall(ret: isize) -> (e: Option<i32>)
    ensures
        e == syscall_errno(ret),
        ret >= 0 ==> e is None,
        isize::MIN < ret < 0 ==> e == Some((-ret) as i32),
        ret == isize::MIN ==> e == Some(0i32),
{
    if ret >= 0 {
        None
    } else if ret == isize::MIN {
        Some(0)
    } else {
        Some(#[verifier::truncate] ((-ret) as i32))
    }
}

/// Decides on the return of a `read`/`write`/`sendto`/`recvfrom` call:
/// a count is returned, an interrupted call is retried, any other error sets
/// errno and fails.
pub fn syscall_step(ret: isize) -> (s: SyscallStep)
    ensures
        ret >= 0 ==> s == SyscallStep::Return(ret),
        ret == -(EINTR as isize) ==> s == SyscallStep::Retry,
        ret < 0 && ret != -(EINTR as isize) ==> (syscall_errno(ret) matches Some(e) && s == SyscallStep::Fail(e)),
{
    if ret >= 0 {
        return SyscallStep::Return(ret);
    }
    if ret == -(EINTR as isize) {
        return SyscallStep::Retry;
    }
    match errno_from_syscall(ret) {
        Some(e) => SyscallStep::Fail(e),
        None => SyscallStep::Return(ret),
    }
}

/// Decides on the return of a `clock_gettime`/`gettimeofday` call: 0 on
/// success; on error set errno and return -1.
pub fn time_call_result(ret: isize) -> (r: (i32, Option<i32>))
    ensures
        ret >= 0 ==> r == (0i32, None::<i32>),
        ret < 0 ==> r.0 == -1 && r.1 == syscall_errno(ret),
{
    if ret < 0 {
        (-1, errno_from_syscall(ret))
    } else {
        (0, None)
    }
}

/// The address `x` lies in the range of `n` bytes from `a`.
pub open spec fn in_range(x: int, a: int, n: int) -> bool {
    a <= x < a + n
}

/// Law: `memcpy` refuses exactly the copies whose source and destination
/// share a byte, apart from a copy onto itself (same start), which it lets
/// through: ranges that share no byte, such as adjacent ones, are copied.
pub proof fn law_overlap_means_shared_byte(d: usize, s: usize, n: usize)
    ensures
        ranges_overlap(d, s, n) <==> (d != s && exists|x: int| #[trigger] in_range(x, d as int, n as int) && in_range(
            x,
            s as int,
            n as int,
        )),
        d >= s + n || s >= d + n ==> !ranges_overlap(d, s, n),
{
    if ranges_overlap(d, s, n) {
        let x: int = if d > s { d as int } else { s as int };
        assert(in_range(x, d as int, n as int) && in_range(x, s as int, n as int));
    }
    if d != s && exists|x: int| #[trigger] in_range(x, d as int, n as int) && in_range(x, s as int, n as int) {
        let x = choose|x: int| #[trigger] in_range(x, d as int, n as int) && in_range(x, s as int, n as int);
        assert(in_range(x, d as int, n as int) && in_range(x, s as int, n as int));
    }
}

} // verus!
