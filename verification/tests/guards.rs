use ironlung::decimal::parse_usize;
use ironlung::guard::{
    bulk_request_ok, crypt_salt_ok, errno_from_syscall, fgets_ok, getaddrinfo_check,
    getenv_name_ok, getpwnam_name_ok, io_request_ok, memcpy_check, memmove_check, puts_plan,
    stdio_items_ok, strcpy_plan, syscall_step, time_call_result, CopyCheck, SyscallStep,
};
use ironlung::request::EAI_FAIL;
use ironlung::sandbox::{c_name_buffer, env_without_ld_preload, format_fd, is_ld_preload, memfd_result};
use ironlung::threads::{
    clone_outcome, create_args_check, join_lookup, CloneOutcome, ThreadTable, EAGAIN, EINVAL, ESRCH, STACK_SIZE,
};

#[test]
fn memcpy_checks() {
    assert!(memcpy_check(0x1000, 0x2000, 16) == CopyCheck::Copy);
    assert!(memcpy_check(0x1000, 0x1008, 16) == CopyCheck::Overlap);
    assert!(memcpy_check(0x1008, 0x1000, 16) == CopyCheck::Overlap);
    assert!(memcpy_check(0x1000, 0x1010, 16) == CopyCheck::Copy);
    assert!(memcpy_check(0x1000, 0x1000, 16) == CopyCheck::Copy);
    assert!(memcpy_check(0, 0x8000_0000, 1_000_000_001) == CopyCheck::TooLarge);
    assert!(memmove_check(1_000_000_000));
    assert!(!memmove_check(1_000_000_001));
}

#[test]
fn strcpy_and_puts() {
    assert_eq!(strcpy_plan(b"Hello, IronLung!"), Some(b"Hello, IronLung!\0".to_vec()));
    assert_eq!(strcpy_plan(&vec![b'a'; 4096]).unwrap().len(), 4097);
    assert_eq!(strcpy_plan(&vec![b'a'; 4097]), None);
    let p = puts_plan(Some(b"Test passed"));
    assert_eq!(p.ret, 1);
    assert_eq!(p.line, Some(b"[IronLung] Test passed\n".to_vec()));
    let n = puts_plan(None);
    assert_eq!(n.line, Some(b"\n".to_vec()));
    assert_eq!(n.ret, 1);
    let long = puts_plan(Some(&vec![b'x'; 4097]));
    assert_eq!(long.ret, -1);
    assert!(long.line.is_none());
    let cut = puts_plan(Some(b"ab\0cd"));
    assert_eq!(cut.line, Some(b"[IronLung] ab\n".to_vec()));
}

#[test]
fn name_limits() {
    assert!(getenv_name_ok(b"HOME"));
    assert!(!getenv_name_ok(&vec![b'A'; 4096]));
    assert!(getenv_name_ok(&vec![b'A'; 4095]));
    assert!(getpwnam_name_ok(b"root"));
    assert!(!getpwnam_name_ok(&vec![b'r'; 256]));
    assert!(crypt_salt_ok(b"$6$salt"));
    assert!(!crypt_salt_ok(&vec![b's'; 128]));
    assert_eq!(getaddrinfo_check(true, None, None, 32), Some(EAI_FAIL));
    assert_eq!(getaddrinfo_check(false, Some(b"example.org"), Some(b"443"), 32), None);
    assert_eq!(getaddrinfo_check(false, Some(&vec![b'h'; 256]), None, 32), Some(EAI_FAIL));
    assert_eq!(getaddrinfo_check(false, None, Some(&vec![b'9'; 32]), 32), Some(EAI_FAIL));
    assert_eq!(getaddrinfo_check(false, None, Some(&vec![b'9'; 32]), 256), None);
}

#[test]
fn io_checks() {
    assert!(stdio_items_ok(false, false, 4, 10));
    assert!(!stdio_items_ok(true, false, 4, 10));
    assert!(!stdio_items_ok(false, false, 0, 10));
    assert!(!stdio_items_ok(false, false, 1_000_000_001, 1));
    assert!(fgets_ok(false, false, 10));
    assert!(!fgets_ok(false, false, 0));
    assert!(io_request_ok(false, 100));
    assert!(!io_request_ok(false, 1_000_000_001));
    assert!(!io_request_ok(true, 1));
    assert!(bulk_request_ok(false, false, 10));
    assert!(!bulk_request_ok(false, false, 1_000_000_001));
}

#[test]
fn syscall_results() {
    assert!(syscall_step(12) == SyscallStep::Return(12));
    assert!(syscall_step(-4) == SyscallStep::Retry);
    assert!(syscall_step(-9) == SyscallStep::Fail(9));
    assert_eq!(errno_from_syscall(0), None);
    assert_eq!(errno_from_syscall(-11), Some(11));
    assert_eq!(errno_from_syscall(isize::MIN), Some(0));
    assert_eq!(time_call_result(0), (0, None));
    assert_eq!(time_call_result(-22), (-1, Some(22)));
}

#[test]
fn decimal_text() {
    assert_eq!(parse_usize(b"0"), Some(0));
    assert_eq!(parse_usize(b"+42"), Some(42));
    assert_eq!(parse_usize(b"18446744073709551615"), Some(usize::MAX));
    assert_eq!(parse_usize(b"18446744073709551616"), None);
    assert_eq!(parse_usize(b"+"), None);
    assert_eq!(parse_usize(b"12a"), None);
    assert_eq!(format_fd(123), b"123\0".to_vec());
    assert_eq!(format_fd(0), b"0\0".to_vec());
    assert_eq!(format_fd(-5), b"0\0".to_vec());
    assert_eq!(format_fd(i32::MAX), b"2147483647\0".to_vec());
    let text = format_fd(4051);
    assert_eq!(parse_usize(&text[..text.len() - 1]), Some(4051));
}

#[test]
fn sandbox_environment() {
    assert!(is_ld_preload(b"LD_PRELOAD=/lib/x.so"));
    assert!(is_ld_preload(b"LD_PRELOAD="));
    assert!(!is_ld_preload(b"LD_PRELOAD"));
    assert!(!is_ld_preload(b"PATH=/bin"));
    let env = vec![b"PATH=/bin".to_vec(), b"LD_PRELOAD=./lib.so".to_vec(), b"HOME=/root".to_vec()];
    assert_eq!(env_without_ld_preload(&env), vec![0, 2]);
    let name = c_name_buffer(b"getaddrinfo\0", 64);
    assert_eq!(name.len(), 64);
    assert_eq!(&name[..12], b"getaddrinfo\0");
    let cut = c_name_buffer(&vec![b'n'; 40], 32);
    assert_eq!(cut[30], b'n');
    assert_eq!(cut[31], 0);
    assert_eq!(memfd_result(-38), -1);
    assert_eq!(memfd_result(7), 7);
}

#[test]
fn thread_table() {
    assert_eq!(create_args_check(true, false), Some(EINVAL));
    assert_eq!(create_args_check(false, true), Some(EINVAL));
    assert_eq!(create_args_check(false, false), None);
    let mut t = ThreadTable::new();
    assert_eq!(join_lookup(&t, 99), Err(ESRCH));
    let a = t.reserve_slot(0x1000).unwrap();
    let b = t.reserve_slot(0x2000).unwrap();
    assert_eq!((a, b), (0, 1));
    t.set_tid(b, 4242);
    assert_eq!(join_lookup(&t, 4242), Ok(1));
    let slot = t.release(b).unwrap();
    assert_eq!(slot.stack, 0x2000);
    assert_eq!(slot.stack_size, STACK_SIZE);
    assert_eq!(t.find_by_tid(4242), None);
    // a second join of the same thread reports ESRCH
    assert_eq!(join_lookup(&t, 4242), Err(ESRCH));
    assert_eq!(t.reserve_slot(0x3000), Some(1));
    for _ in 2..64 {
        assert!(t.reserve_slot(0x4000).is_some());
    }
    assert_eq!(t.reserve_slot(0x5000), None);
    let _ = EAGAIN;
}

#[test]
fn clone_outcomes() {
    assert!(clone_outcome(0) == CloneOutcome::Child);
    assert!(clone_outcome(1234) == CloneOutcome::Created(1234));
    assert!(clone_outcome(-11) == CloneOutcome::Failed(EAGAIN));
    assert!(clone_outcome(-12) == CloneOutcome::Failed(12));
}
