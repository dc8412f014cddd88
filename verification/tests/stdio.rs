use ironlung::stdio_kernel::{
    needs_another_arg, validate_format, vprintf_render, vprintf_result, BufferedWrite, StdoutBuffer,
    WriteStep,
};

#[test]
fn format_validation() {
    assert!(validate_format(b"hello %s, %d%%"));
    assert!(validate_format(b""));
    assert!(!validate_format(b"%n"));
    assert!(!validate_format(b"value: %"));
    assert!(!validate_format(&vec![b'a'; 4096]));
    assert!(validate_format(&vec![b'a'; 4095]));
    assert!(validate_format(b"%%n"));
}

#[test]
fn rendering() {
    let args = vec![Some(b"XY".to_vec()), None];
    assert_eq!(vprintf_render(b"a%%b%sc%d", &args), b"a%bXYc?".to_vec());
    assert_eq!(vprintf_render(b"[%s][%s]", &args), b"[XY][]".to_vec());
    assert_eq!(vprintf_render(b"%5s", &args), b"?s".to_vec());
    let long = vec![Some(vec![b'z'; 5000])];
    let out = vprintf_render(b"%s", &long);
    assert_eq!(out.len(), 4095);
}

#[test]
fn arguments_are_taken_only_while_output_has_room() {
    let none: Vec<Option<Vec<u8>>> = Vec::new();
    assert_eq!(needs_another_arg(b"plain text %d", &none), None);
    // "a " is out before the first argument: 4093 bytes of room
    assert_eq!(needs_another_arg(b"a %s b %s", &none), Some(4093));
    let one = vec![Some(b"x".to_vec())];
    assert_eq!(needs_another_arg(b"a %s b %s", &one), Some(4089));
    let two = vec![Some(b"x".to_vec()), None];
    assert_eq!(needs_another_arg(b"a %s b %s", &two), None);
    // the first argument fills the output: the second is never taken
    let big = vec![Some(vec![b'z'; 4095])];
    assert_eq!(needs_another_arg(b"%s%s", &big), None);
    // a NUL ends an argument's text
    let short = vec![Some(b"ab\0cdef".to_vec())];
    assert_eq!(needs_another_arg(b"%s%s", &short), Some(4093));
}

#[test]
fn lazily_taken_arguments_render_alike() {
    let cases: Vec<(&[u8], Vec<Option<Vec<u8>>>)> = vec![
        (b"%s-%s-%s", vec![Some(b"a".to_vec()), None, Some(b"c".to_vec()), Some(b"unused".to_vec())]),
        (b"%s%s", vec![Some(vec![b'q'; 4100]), Some(b"never".to_vec())]),
        (b"xy%s", vec![Some(vec![b'r'; 5000])]),
        (b"no args %d", vec![Some(b"x".to_vec())]),
    ];
    for (fmt, all) in cases {
        let mut fetched: Vec<Option<Vec<u8>>> = Vec::new();
        while let Some(room) = needs_another_arg(fmt, &fetched) {
            // read as the glue does: up to the NUL, at most `room` bytes
            let next = all[fetched.len()].as_ref().map(|a| {
                a.iter().take_while(|&&b| b != 0).take(room).copied().collect::<Vec<u8>>()
            });
            fetched.push(next);
        }
        assert!(fetched.len() <= all.len());
        assert_eq!(vprintf_render(fmt, &fetched), vprintf_render(fmt, &all));
    }
}

#[test]
fn vprintf_return_values() {
    assert_eq!(vprintf_result(false, 10, 10), -1);
    assert_eq!(vprintf_result(true, 0, 0), 0);
    assert_eq!(vprintf_result(true, 5, -9), -1);
    assert_eq!(vprintf_result(true, 5, 5), 5);
}

#[test]
fn buffered_write_flushes_on_newline() {
    let mut b = StdoutBuffer::new();
    let mut st = BufferedWrite { offset: 0, total: 0 };
    match b.write_step(b"hi\n", &mut st) {
        WriteStep::Flush(v) => assert_eq!(v, b"hi\n".to_vec()),
        WriteStep::Done(_) => panic!("expected a flush"),
    }
    assert_eq!(b.flush_done(3, &st), None);
    assert!(b.flush_bytes().is_none());
    match b.write_step(b"hi\n", &mut st) {
        WriteStep::Done(n) => assert_eq!(n, 3),
        WriteStep::Flush(_) => panic!("expected the end"),
    }
}

#[test]
fn buffered_write_keeps_partial_lines_and_reports_errors() {
    let mut b = StdoutBuffer::new();
    let mut st = BufferedWrite { offset: 0, total: 0 };
    match b.write_step(b"abc", &mut st) {
        WriteStep::Done(n) => assert_eq!(n, 3),
        WriteStep::Flush(_) => panic!("no newline, no flush"),
    }
    assert_eq!(b.flush_bytes(), Some(b"abc".to_vec()));
    let mut st2 = BufferedWrite { offset: 0, total: 0 };
    let data = vec![b'q'; 5000];
    match b.write_step(&data, &mut st2) {
        WriteStep::Flush(v) => assert_eq!(v.len(), 4096),
        WriteStep::Done(_) => panic!("buffer is full"),
    }
    assert_eq!(st2.offset, 4093);
    assert_eq!(b.flush_done(-5, &st2), Some(4093));
    let st3 = BufferedWrite { offset: 0, total: 0 };
    assert_eq!(b.flush_done(-5, &st3), Some(-5));
    b.flush_written(10);
    assert!(b.flush_bytes().is_none());
}

#[test]
fn buffered_write_sends_every_byte_in_order() {
    let mut b = StdoutBuffer::new();
    let mut st0 = BufferedWrite { offset: 0, total: 0 };
    match b.write_step(b"abc", &mut st0) {
        WriteStep::Done(n) => assert_eq!(n, 3),
        WriteStep::Flush(_) => panic!("no flush yet"),
    }
    let mut data = vec![b'q'; 4999];
    data.push(b'\n');
    let mut sent: Vec<u8> = Vec::new();
    let mut st = BufferedWrite { offset: 0, total: 0 };
    let ret = loop {
        match b.write_step(&data, &mut st) {
            WriteStep::Done(n) => break n,
            WriteStep::Flush(bytes) => {
                sent.extend_from_slice(&bytes);
                assert_eq!(b.flush_done(bytes.len() as isize, &st), None);
            }
        }
    };
    assert_eq!(ret, 5000);
    let mut expected = b"abc".to_vec();
    expected.extend_from_slice(&data);
    assert_eq!(sent, expected);
    assert!(b.flush_bytes().is_none());
}
