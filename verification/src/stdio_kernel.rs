//! Kernel-delegating formatted output: format validation (no `%n`, bounded
//! length), rendering of the `%%` / `%s` subset into a bounded buffer, and the
//! line-buffered standard-output buffer that feeds `write(1, ..)`.
use vstd::prelude::*;
use crate::cstr::{c_prefix, c_len, lemma_c_len_basics, lemma_c_len_unique, scan_c_len};

verus! {

/// Longest output of one call, in bytes (one byte of the 4 KiB buffer is kept free).
pub const OUT_MAX: usize = 4096;
/// Format bytes read at most.
pub const FORMAT_MAX: usize = 4096;
/// Size of the standard-output buffer.
pub const BUFFER_SIZE: usize = 4096;

/// The format bytes before the NUL are `s`; a NUL follows them when
/// `s.len() < FORMAT_MAX`. The format is valid from `n`: it ends within
/// `FORMAT_MAX` bytes, and every conversion has a second byte that is
/// neither the NUL nor `n`.
pub open spec fn valid_from(s: Seq<u8>, n: nat) -> bool
    decreases s.len() + 2 - n,
{
    if n >= FORMAT_MAX {
        false
    } else if n >= s.len() {
        true
    } else if s[n as int] != 37 {
        valid_from(s, n + 1)
    } else if n + 1 >= FORMAT_MAX || n + 1 >= s.len() {
        false
    } else if s[n + 1 as int] == 110 {
        false
    } else {
        valid_from(s, n + 2)
    }
}

pub open spec fn format_valid(s: Seq<u8>) -> bool {
    valid_from(s, 0)
}

/// Checks a format: `fmt` holds its bytes before the NUL (all of its first
/// `FORMAT_MAX` bytes when there is no NUL among them).
pub fn validate_format(fmt: &[u8]) -> (ok: bool)
    requires
        fmt@.len() <= FORMAT_MAX,
    ensures
        ok == format_valid(fmt@),
{
    let mut n: usize = 0;
    while n < FORMAT_MAX
        invariant
            fmt@.len() <= FORMAT_MAX,
            valid_from(fmt@, n as nat) == format_valid(fmt@),
        decreases FORMAT_MAX - n,
    {
        if n >= fmt.len() {
            return true;
        }
        let c = fmt[n];
        if c == 37 {
            if n + 1 >= FORMAT_MAX || n + 1 >= fmt.len() {
                return false;
            }
            let c2 = fmt[n + 1];
            if c2 == 110 {
                return false;
            }
            n = n + 2;
        } else {
            n = n + 1;
        }
    }
    false
}

/// The text a `%s` conversion prints for argument `k`: the string up to its
/// NUL, nothing for a null string or a missing argument.
pub open spec fn arg_text(args: Seq<Option<Seq<u8>>>, k: nat) -> Seq<u8> {
    if k < args.len() {
        match args[k as int] {
            Some(a) => c_prefix(a, a.len()),
            None => Seq::empty(),
        }
    } else {
        Seq::empty()
    }
}

/// The full output of the format from byte `n`, with the `%s` arguments from
/// `k`: plain bytes as they are, `%%` as `%`, `%s` as the argument's text,
/// any other conversion as `?`.
pub open spec fn expand_from(s: Seq<u8>, args: Seq<Option<Seq<u8>>>, n: nat, k: nat) -> Seq<u8>
    decreases s.len() - n,
{
    if n >= s.len() {
        Seq::empty()
    } else if s[n as int] != 37 {
        seq![s[n as int]] + expand_from(s, args, n + 1, k)
    } else if n + 1 >= s.len() {
        Seq::empty()
    } else if s[n + 1 as int] == 37 {
        seq![37u8] + expand_from(s, args, n + 2, k)
    } else if s[n + 1 as int] == 115 {
        arg_text(args, k) + expand_from(s, args, n + 2, k + 1)
    } else {
        seq![63u8] + expand_from(s, args, n + 2, k)
    }
}

/// What one call prints: the expansion, cut to `OUT_MAX - 1` bytes.
pub open spec fn rendered(s: Seq<u8>, args: Seq<Option<Seq<u8>>>) -> Seq<u8> {
    let e = expand_from(s, args, 0, 0);
    if e.len() <= OUT_MAX - 1 {
        e
    } else {
        e.take(OUT_MAX - 1)
    }
}

/// Appends `t` to `out` as far as `OUT_MAX - 1` bytes allow.
fn append_bounded(out: &mut Vec<u8>, t: &Vec<u8>)
    requires
        old(out)@.len() <= OUT_MAX - 1,
    ensures
        final(out)@ == (old(out)@ + t@).take(
            if old(out)@.len() + t@.len() <= OUT_MAX - 1 {
                (old(out)@.len() + t@.len()) as int
            } else {
                OUT_MAX - 1
            },
        ),
{
    let ghost o = old(out)@;
    let mut j: usize = 0;
    while j < t.len() && out.len() < OUT_MAX - 1
        invariant
            j <= t@.len(),
            o.len() <= OUT_MAX - 1,
            out@ == (o + t@).take(o.len() + j),
            out@.len() <= OUT_MAX - 1,
        decreases t@.len() - j,
    {
        out.push(t[j]);
        j = j + 1;
        proof {
            assert(out@ =~= (o + t@).take(o.len() + j));
        }
    }
    proof {
        if j == t@.len() {
            assert((o + t@).take(o.len() + j) =~= o + t@);
        }
    }
}

/// Renders a valid format with its `%s` arguments (each the bytes of a
/// string before its NUL, `None` for a null pointer): at most `OUT_MAX - 1`
/// bytes, `%%` as `%`, `%s` as the argument text, other conversions as `?`.
pub fn vprintf_render(fmt: &[u8], args: &Vec<Option<Vec<u8>>>) -> (out: Vec<u8>)
    requires
        fmt@.len() <= FORMAT_MAX,
    ensures
        out@ == rendered(fmt@, args@.map_values(|a: Option<Vec<u8>>| match a { Some(v) => Some(v@), None => None })),
{
    let ghost av = args@.map_values(|a: Option<Vec<u8>>| match a { Some(v) => Some(v@), None => None });
    let ghost full = expand_from(fmt@, av, 0, 0);
    let mut out: Vec<u8> = Vec::new();
    let mut n: usize = 0;
    let mut k: usize = 0;
    while n < fmt.len() && out.len() < OUT_MAX - 1
        invariant
            fmt@.len() <= FORMAT_MAX,
            n <= fmt@.len() + 1,
            k <= n,
            out@.len() <= OUT_MAX - 1,
            av == args@.map_values(|a: Option<Vec<u8>>| match a { Some(v) => Some(v@), None => None }),
            full == expand_from(fmt@, av, 0, 0),
            (out@ + expand_from(fmt@, av, n as nat, k as nat)).take(
                if out@.len() + expand_from(fmt@, av, n as nat, k as nat).len() <= OUT_MAX - 1 {
                    (out@.len() + expand_from(fmt@, av, n as nat, k as nat).len()) as int
                } else {
                    OUT_MAX - 1
                },
            ) == rendered(fmt@, av),
        decreases fmt@.len() + 1 - n,
    {
        let ghost o = out@;
        let ghost rest = expand_from(fmt@, av, n as nat, k as nat);
        let c = fmt[n];
        let mut t: Vec<u8> = Vec::new();
        if c != 37 {
            t.push(c);
            n = n + 1;
        } else if n + 1 >= fmt.len() {
            n = n + 1;
        } else if fmt[n + 1] == 37 {
            t.push(37);
            n = n + 2;
        } else if fmt[n + 1] == 115 {
            if k < args.len() {
                match &args[k] {
                    Some(a) => {
                        let m = scan_c_len(a.as_slice(), a.len());
                        proof {
                            lemma_c_len_basics(a@, a@.len());
                        }
                        t = crate::cstr::copy_range(a.as_slice(), 0, m);
                        assert(t@ =~= c_prefix(a@, a@.len()));
                    },
                    None => {},
                }
            }
            assert(t@ == arg_text(av, k as nat));
            k = k + 1;
            n = n + 2;
        } else {
            t.push(63);
            n = n + 2;
        }
        proof {
            let rest2 = expand_from(fmt@, av, n as nat, k as nat);
            if n > fmt@.len() {
                assert(rest =~= Seq::<u8>::empty());
            } else {
                assert(rest =~= t@ + rest2);
            }
        }
        append_bounded(&mut out, &t);
        proof {
            let rest2 = expand_from(fmt@, av, n as nat, k as nat);
            if n <= fmt@.len() {
                assert(o + rest =~= o + t@ + rest2);
                if o.len() + t@.len() <= OUT_MAX - 1 {
                    assert(out@ =~= o + t@);
                } else {
                    assert(out@.len() == OUT_MAX - 1);
                    assert((out@ + rest2).take(OUT_MAX - 1) =~= (o + rest).take(OUT_MAX - 1));
                }
            } else {
                assert(rest2 =~= Seq::<u8>::empty());
                assert(out@ + rest2 =~= out@);
                assert(o + rest =~= o);
            }
        }
    }
    proof {
        let rest = expand_from(fmt@, av, n as nat, k as nat);
        if n >= fmt@.len() {
            assert(rest =~= Seq::<u8>::empty());
            assert(out@ + rest =~= out@);
        } else {
            assert((out@ + rest).take(OUT_MAX - 1) =~= out@);
        }
    }
    out
}

/// The number of `%s` arguments that rendering from byte `n` of the format
/// takes, with the arguments from `k` and `len` bytes already produced:
/// rendering stops once `OUT_MAX - 1` bytes are out, and takes no argument
/// after that.
pub open spec fn args_taken_from(s: Seq<u8>, args: Seq<Option<Seq<u8>>>, n: nat, k: nat, len: nat) -> nat
    decreases s.len() - n,
{
    if n >= s.len() || len >= OUT_MAX - 1 {
        k
    } else if s[n as int] != 37 {
        args_taken_from(s, args, n + 1, k, len + 1)
    } else if n + 1 >= s.len() {
        k
    } else if s[n + 1 as int] == 37 {
        args_taken_from(s, args, n + 2, k, len + 1)
    } else if s[n + 1 as int] == 115 {
        args_taken_from(s, args, n + 2, k + 1, len + arg_text(args, k).len())
    } else {
        args_taken_from(s, args, n + 2, k, len + 1)
    }
}

/// The `%s` arguments one call takes, given the texts of the arguments.
pub open spec fn args_taken(s: Seq<u8>, args: Seq<Option<Seq<u8>>>) -> nat {
    args_taken_from(s, args, 0, 0, 0)
}

/// The output room left when rendering from byte `n` (arguments from `k`,
/// `len` bytes out) reaches the `%s` of argument `t`: how many bytes of that
/// argument can still be printed; 0 when rendering stops before it.
pub open spec fn room_at_arg_from(s: Seq<u8>, args: Seq<Option<Seq<u8>>>, n: nat, k: nat, len: nat, t: nat) -> nat
    decreases s.len() - n,
{
    if n >= s.len() || len >= OUT_MAX - 1 {
        0
    } else if s[n as int] != 37 {
        room_at_arg_from(s, args, n + 1, k, len + 1, t)
    } else if n + 1 >= s.len() {
        0
    } else if s[n + 1 as int] == 37 {
        room_at_arg_from(s, args, n + 2, k, len + 1, t)
    } else if s[n + 1 as int] == 115 {
        if k == t {
            (OUT_MAX - 1 - len) as nat
        } else {
            room_at_arg_from(s, args, n + 2, k + 1, len + arg_text(args, k).len(), t)
        }
    } else {
        room_at_arg_from(s, args, n + 2, k, len + 1, t)
    }
}

/// The output room left when one call's rendering reaches the `%s` of argument `t`.
pub open spec fn room_at_arg(s: Seq<u8>, args: Seq<Option<Seq<u8>>>, t: nat) -> nat {
    room_at_arg_from(s, args, 0, 0, 0, t)
}

/// Whether rendering the format with the arguments fetched so far reaches
/// one more `%s` before the output is full, so that the next argument must
/// be fetched; if so, how many bytes of it can still be printed, which is as
/// far as it needs to be read. An argument not yet fetched counts as empty
/// text, which does not change where rendering reaches the next `%s`.
pub fn needs_another_arg(fmt: &[u8], args: &Vec<Option<Vec<u8>>>) -> (r: Option<usize>)
    requires
        fmt@.len() <= FORMAT_MAX,
    ensures
        r is Some <==> args_taken(
            fmt@,
            args@.map_values(|a: Option<Vec<u8>>| match a { Some(v) => Some(v@), None => None }),
        ) > args@.len(),
        r matches Some(m) ==> 0 < m && m == room_at_arg(
            fmt@,
            args@.map_values(|a: Option<Vec<u8>>| match a { Some(v) => Some(v@), None => None }),
            args@.len() as nat,
        ),
{
    let ghost av = args@.map_values(|a: Option<Vec<u8>>| match a { Some(v) => Some(v@), None => None });
    let ghost tt = args@.len() as nat;
    let mut n: usize = 0;
    let mut k: usize = 0;
    let mut len: usize = 0;
    while n < fmt.len() && len < OUT_MAX - 1
        invariant
            fmt@.len() <= FORMAT_MAX,
            n <= fmt@.len() + 1,
            k <= n,
            k <= args@.len(),
            tt == args@.len(),
            len <= OUT_MAX - 1,
            av == args@.map_values(|a: Option<Vec<u8>>| match a { Some(v) => Some(v@), None => None }),
            args_taken_from(fmt@, av, n as nat, k as nat, len as nat) == args_taken(fmt@, av),
            room_at_arg_from(fmt@, av, n as nat, k as nat, len as nat, tt) == room_at_arg(fmt@, av, tt),
        decreases fmt@.len() + 1 - n,
    {
        if fmt[n] != 37 {
            n = n + 1;
            len = len + 1;
        } else if n + 1 >= fmt.len() {
            n = n + 1;
        } else if fmt[n + 1] == 37 {
            n = n + 2;
            len = len + 1;
        } else if fmt[n + 1] == 115 {
            if k == args.len() {
                proof {
                    lemma_taken_at_least(fmt@, av, (n + 2) as nat, (k + 1) as nat, (len + arg_text(av, k as nat).len()) as nat);
                }
                return Some(OUT_MAX - 1 - len);
            }
            let mut t: usize = 0;
            match &args[k] {
                Some(a) => {
                    t = scan_c_len(a.as_slice(), a.len());
                    proof {
                        lemma_c_len_basics(a@, a@.len());
                    }
                },
                None => {},
            }
            assert(t == arg_text(av, k as nat).len());
            let ghost full = len + t;
            if t >= OUT_MAX - 1 - len {
                len = OUT_MAX - 1;
            } else {
                len = len + t;
            }
            assert(args_taken_from(fmt@, av, (n + 2) as nat, (k + 1) as nat, len as nat) == args_taken_from(
                fmt@,
                av,
                (n + 2) as nat,
                (k + 1) as nat,
                full as nat,
            ));
            assert(room_at_arg_from(fmt@, av, (n + 2) as nat, (k + 1) as nat, len as nat, tt) == room_at_arg_from(
                fmt@,
                av,
                (n + 2) as nat,
                (k + 1) as nat,
                full as nat,
                tt,
            ));
            k = k + 1;
            n = n + 2;
        } else {
            n = n + 2;
            len = len + 1;
        }
    }
    proof {
        if n > fmt@.len() {
            assert(args_taken_from(fmt@, av, n as nat, k as nat, len as nat) == k);
        }
    }
    None
}

/// The first `OUT_MAX - 1` bytes of `x`, as one call prints them.
pub open spec fn cut_output(x: Seq<u8>) -> Seq<u8> {
    if x.len() <= OUT_MAX - 1 {
        x
    } else {
        x.take(OUT_MAX - 1)
    }
}

proof fn lemma_taken_at_least(s: Seq<u8>, args: Seq<Option<Seq<u8>>>, n: nat, k: nat, len: nat)
    ensures
        args_taken_from(s, args, n, k, len) >= k,
    decreases s.len() - n,
{
    if n >= s.len() || len >= OUT_MAX - 1 {
    } else if s[n as int] != 37 {
        lemma_taken_at_least(s, args, n + 1, k, len + 1);
    } else if n + 1 >= s.len() {
    } else if s[n + 1 as int] == 37 {
        lemma_taken_at_least(s, args, n + 2, k, len + 1);
    } else if s[n + 1 as int] == 115 {
        lemma_taken_at_least(s, args, n + 2, k + 1, len + arg_text(args, k).len());
    } else {
        lemma_taken_at_least(s, args, n + 2, k, len + 1);
    }
}

/// A fetched argument stands for the one passed: its text is the same, or
/// it is a start of the passed text at least `room` bytes long (the argument
/// was read only as far as the output could still hold).
pub open spec fn arg_read_ok(f: Seq<Option<Seq<u8>>>, a: Seq<Option<Seq<u8>>>, i: nat, room: nat) -> bool {
    ||| arg_text(f, i) == arg_text(a, i)
    ||| (arg_text(f, i).len() >= room && arg_text(a, i).len() >= arg_text(f, i).len() && arg_text(a, i).take(
        arg_text(f, i).len() as int,
    ) == arg_text(f, i))
}

/// Every fetched argument from `k` on stands for the one passed, given the
/// room rendering from this point leaves for it.
pub open spec fn args_read_ok_from(
    s: Seq<u8>,
    f: Seq<Option<Seq<u8>>>,
    a: Seq<Option<Seq<u8>>>,
    n: nat,
    k: nat,
    len: nat,
) -> bool {
    forall|i: nat| k <= i < f.len() ==> #[trigger] arg_read_ok(f, a, i, room_at_arg_from(s, f, n, k, len, i))
}

proof fn lemma_lazy_args(
    s: Seq<u8>,
    f: Seq<Option<Seq<u8>>>,
    a: Seq<Option<Seq<u8>>>,
    n: nat,
    k: nat,
    o: Seq<u8>,
)
    requires
        f.len() <= a.len(),
        args_read_ok_from(s, f, a, n, k, o.len()),
        args_taken_from(s, f, n, k, o.len()) <= f.len(),
    ensures
        cut_output(o + expand_from(s, f, n, k)) == cut_output(o + expand_from(s, a, n, k)),
    decreases s.len() - n,
{
    let ef = expand_from(s, f, n, k);
    let ea = expand_from(s, a, n, k);
    if n >= s.len() {
    } else if o.len() >= OUT_MAX - 1 {
        assert(cut_output(o + ef) =~= o.take(OUT_MAX - 1));
        assert(cut_output(o + ea) =~= o.take(OUT_MAX - 1));
    } else if s[n as int] != 37 {
        let c = seq![s[n as int]];
        assert(args_read_ok_from(s, f, a, n + 1, k, (o + c).len()) ) by {
            assert forall|i: nat| k <= i < f.len() implies #[trigger] arg_read_ok(f, a, i, room_at_arg_from(s, f, n + 1, k, (o + c).len(), i)) by {
                assert(arg_read_ok(f, a, i, room_at_arg_from(s, f, n, k, o.len(), i)));
            }
        }
        lemma_lazy_args(s, f, a, n + 1, k, o + c);
        assert(o + ef =~= (o + c) + expand_from(s, f, n + 1, k));
        assert(o + ea =~= (o + c) + expand_from(s, a, n + 1, k));
    } else if n + 1 >= s.len() {
    } else if s[n + 1 as int] == 37 {
        let c = seq![37u8];
        assert(args_read_ok_from(s, f, a, n + 2, k, (o + c).len()) ) by {
            assert forall|i: nat| k <= i < f.len() implies #[trigger] arg_read_ok(f, a, i, room_at_arg_from(s, f, n + 2, k, (o + c).len(), i)) by {
                assert(arg_read_ok(f, a, i, room_at_arg_from(s, f, n, k, o.len(), i)));
            }
        }
        lemma_lazy_args(s, f, a, n + 2, k, o + c);
        assert(o + ef =~= (o + c) + expand_from(s, f, n + 2, k));
        assert(o + ea =~= (o + c) + expand_from(s, a, n + 2, k));
    } else if s[n + 1 as int] == 115 {
        let t = arg_text(f, k);
        let ta = arg_text(a, k);
        lemma_taken_at_least(s, f, n + 2, k + 1, o.len() + t.len());
        assert(k < f.len());
        assert(arg_read_ok(f, a, k, room_at_arg_from(s, f, n, k, o.len(), k)));
        if t == ta {
            assert(args_read_ok_from(s, f, a, n + 2, k + 1, (o + t).len())) by {
                assert forall|i: nat| k + 1 <= i < f.len() implies #[trigger] arg_read_ok(f, a, i, room_at_arg_from(s, f, n + 2, k + 1, (o + t).len(), i)) by {
                    assert(arg_read_ok(f, a, i, room_at_arg_from(s, f, n, k, o.len(), i)));
                }
            }
            lemma_lazy_args(s, f, a, n + 2, k + 1, o + t);
            assert(o + ef =~= (o + t) + expand_from(s, f, n + 2, k + 1));
            assert(o + ea =~= (o + t) + expand_from(s, a, n + 2, k + 1));
        } else {
            assert(t.len() >= OUT_MAX - 1 - o.len());
            let rf = expand_from(s, f, n + 2, k + 1);
            let ra = expand_from(s, a, n + 2, k + 1);
            assert(o + ef =~= o + t + rf);
            assert(o + ea =~= o + ta + ra);
            assert(cut_output(o + ef) =~= (o + t).take(OUT_MAX - 1));
            assert(cut_output(o + ea) =~= (o + t).take(OUT_MAX - 1));
        }
    } else {
        let c = seq![63u8];
        assert(args_read_ok_from(s, f, a, n + 2, k, (o + c).len()) ) by {
            assert forall|i: nat| k <= i < f.len() implies #[trigger] arg_read_ok(f, a, i, room_at_arg_from(s, f, n + 2, k, (o + c).len(), i)) by {
                assert(arg_read_ok(f, a, i, room_at_arg_from(s, f, n, k, o.len(), i)));
            }
        }
        lemma_lazy_args(s, f, a, n + 2, k, o + c);
        assert(o + ef =~= (o + c) + expand_from(s, f, n + 2, k));
        assert(o + ea =~= (o + c) + expand_from(s, a, n + 2, k));
    }
}

/// Law: taking arguments only as long as `needs_another_arg` asks, each read
/// only as far as the room it reports, prints the same as taking them all in
/// full: once the arguments fetched cover every `%s` that rendering reaches
/// before the output is full, the arguments after them, and the bytes of an
/// argument past its room, change nothing.
pub proof fn law_lazy_arguments_render_alike(s: Seq<u8>, fetched: Seq<Option<Seq<u8>>>, all: Seq<Option<Seq<u8>>>)
    requires
        fetched.len() <= all.len(),
        forall|i: nat| i < fetched.len() ==> #[trigger] arg_read_ok(fetched, all, i, room_at_arg(s, fetched, i)),
        args_taken(s, fetched) <= fetched.len(),
    ensures
        rendered(s, fetched) == rendered(s, all),
{
    let e = Seq::<u8>::empty();
    assert(args_read_ok_from(s, fetched, all, 0, 0, e.len())) by {
        assert forall|i: nat| 0 <= i < fetched.len() implies #[trigger] arg_read_ok(
            fetched,
            all,
            i,
            room_at_arg_from(s, fetched, 0, 0, e.len(), i),
        ) by {
            assert(arg_read_ok(fetched, all, i, room_at_arg(s, fetched, i)));
        }
    }
    lemma_lazy_args(s, fetched, all, 0, 0, e);
    assert(e + expand_from(s, fetched, 0, 0) =~= expand_from(s, fetched, 0, 0));
    assert(e + expand_from(s, all, 0, 0) =~= expand_from(s, all, 0, 0));
}

/// The value `vprintf` returns: -1 for a null or invalid format, 0 when
/// nothing was rendered (no write), otherwise the write's result, -1 when
/// that is negative.
pub fn vprintf_result(format_ok: bool, rendered_len: usize, write_ret: isize) -> (r: i32)
    ensures
        !format_ok ==> r == -1,
        format_ok && rendered_len == 0 ==> r == 0,
        format_ok && rendered_len > 0 && write_ret < 0 ==> r == -1,
        format_ok && rendered_len > 0 && write_ret >= 0 ==> r == write_ret as i32,
{
    if !format_ok {
        -1
    } else if rendered_len == 0 {
        0
    } else if write_ret < 0 {
        -1
    } else {
        #[verifier::truncate] (write_ret as i32)
    }
}

/// Law: one call never prints more than `OUT_MAX - 1` bytes, and what it
/// prints is the start of the full expansion.
pub proof fn law_output_bounded(s: Seq<u8>, args: Seq<Option<Seq<u8>>>)
    ensures
        rendered(s, args).len() <= OUT_MAX - 1,
        rendered(s, args) == expand_from(s, args, 0, 0).take(rendered(s, args).len() as int),
{
    let e = expand_from(s, args, 0, 0);
    if e.len() <= OUT_MAX - 1 {
        assert(e.take(e.len() as int) =~= e);
    }
}

proof fn lemma_percent_n_rejected_from(p: Seq<u8>, q: Seq<u8>, n: nat)
    requires
        n <= p.len(),
        forall|i: int| 0 <= i < p.len() ==> p[i] != 37,
    ensures
        !valid_from(p + seq![37u8, 110u8] + q, n),
    decreases p.len() - n,
{
    let s = p + seq![37u8, 110u8] + q;
    if n < p.len() {
        assert(s[n as int] == p[n as int]);
        lemma_percent_n_rejected_from(p, q, n + 1);
    } else {
        assert(s[n as int] == 37);
        assert(s[n + 1 as int] == 110);
    }
}

/// Law: a `%n` conversion is always refused: a format whose first
/// conversion is `%n` is never valid, whatever follows it.
pub proof fn law_percent_n_rejected(p: Seq<u8>, q: Seq<u8>)
    requires
        forall|i: int| 0 <= i < p.len() ==> p[i] != 37,
    ensures
        !format_valid(p + seq![37u8, 110u8] + q),
{
    lemma_percent_n_rejected_from(p, q, 0);
}

proof fn lemma_long_format_invalid_from(s: Seq<u8>, n: nat)
    requires
        s.len() >= FORMAT_MAX,
    ensures
        !valid_from(s, n),
    decreases s.len() + 2 - n,
{
    if n < FORMAT_MAX {
        if s[n as int] != 37 {
            lemma_long_format_invalid_from(s, n + 1);
        } else if n + 1 < FORMAT_MAX && s[n + 1 as int] != 110 {
            lemma_long_format_invalid_from(s, n + 2);
        }
    }
}

/// Law: a format with no NUL within its first `FORMAT_MAX` bytes is refused.
pub proof fn law_long_format_rejected(s: Seq<u8>)
    requires
        s.len() >= FORMAT_MAX,
    ensures
        !format_valid(s),
{
    lemma_long_format_invalid_from(s, 0);
}

/// The part of `data` from `off` that the next step takes into a buffer holding `buf`.
pub open spec fn chunk(buf: Seq<u8>, data: Seq<u8>, off: nat) -> nat {
    if data.len() - off <= BUFFER_SIZE - buf.len() {
        (data.len() - off) as nat
    } else {
        (BUFFER_SIZE - buf.len()) as nat
    }
}

/// The buffer after the next step takes its part of `data`.
pub open spec fn after_chunk(buf: Seq<u8>, data: Seq<u8>, off: nat) -> Seq<u8> {
    buf + data.subrange(off as int, (off + chunk(buf, data, off)) as int)
}

/// Taking the next part fills the buffer or ends with a newline, so it is flushed.
pub open spec fn chunk_flushes(buf: Seq<u8>, data: Seq<u8>, off: nat) -> bool {
    after_chunk(buf, data, off).len() == BUFFER_SIZE || data[(off + chunk(buf, data, off) - 1) as int] == 10
}

/// The bytes a buffered write of `data` from `off` sends to descriptor 1,
/// starting with `buf` buffered, when every flush writes the whole buffer.
pub open spec fn drained_output(buf: Seq<u8>, data: Seq<u8>, off: nat) -> Seq<u8>
    decreases data.len() - off, if buf.len() >= BUFFER_SIZE { 1nat } else { 0nat },
{
    if off >= data.len() || buf.len() > BUFFER_SIZE {
        Seq::empty()
    } else if buf.len() == BUFFER_SIZE {
        buf + drained_output(Seq::empty(), data, off)
    } else if chunk_flushes(buf, data, off) {
        after_chunk(buf, data, off) + drained_output(Seq::empty(), data, off + chunk(buf, data, off))
    } else {
        Seq::empty()
    }
}

/// The bytes left in the buffer when such a write is over.
pub open spec fn residue(buf: Seq<u8>, data: Seq<u8>, off: nat) -> Seq<u8>
    decreases data.len() - off, if buf.len() >= BUFFER_SIZE { 1nat } else { 0nat },
{
    if off >= data.len() || buf.len() > BUFFER_SIZE {
        buf
    } else if buf.len() == BUFFER_SIZE {
        residue(Seq::empty(), data, off)
    } else if chunk_flushes(buf, data, off) {
        residue(Seq::empty(), data, off + chunk(buf, data, off))
    } else {
        after_chunk(buf, data, off)
    }
}

/// Law: buffering loses and reorders nothing: when every flush writes the
/// whole buffer, the bytes sent and the bytes left buffered are the bytes
/// buffered before followed by the bytes written.
pub proof fn law_buffered_write_conserves(buf: Seq<u8>, data: Seq<u8>, off: nat)
    requires
        buf.len() <= BUFFER_SIZE,
        off <= data.len(),
    ensures
        drained_output(buf, data, off) + residue(buf, data, off) == buf + data.skip(off as int),
    decreases data.len() - off, if buf.len() >= BUFFER_SIZE { 1nat } else { 0nat },
{
    if off >= data.len() {
        assert(data.skip(off as int) =~= Seq::<u8>::empty());
        assert(Seq::<u8>::empty() + buf =~= buf + Seq::<u8>::empty());
    } else if buf.len() == BUFFER_SIZE {
        law_buffered_write_conserves(Seq::empty(), data, off);
        assert(Seq::<u8>::empty() + data.skip(off as int) =~= data.skip(off as int));
        assert(buf + drained_output(Seq::empty(), data, off) + residue(Seq::empty(), data, off) =~= buf + (
        drained_output(Seq::empty(), data, off) + residue(Seq::empty(), data, off)));
    } else {
        let k = chunk(buf, data, off);
        let nb = after_chunk(buf, data, off);
        assert(data.skip(off as int) =~= data.subrange(off as int, (off + k) as int) + data.skip((off + k) as int));
        if chunk_flushes(buf, data, off) {
            law_buffered_write_conserves(Seq::empty(), data, off + k);
            assert(Seq::<u8>::empty() + data.skip((off + k) as int) =~= data.skip((off + k) as int));
            assert(nb + drained_output(Seq::empty(), data, off + k) + residue(Seq::empty(), data, off + k) =~= nb + (
            drained_output(Seq::empty(), data, off + k) + residue(Seq::empty(), data, off + k)));
        } else {
            assert(off + k == data.len());
            assert(data.skip((off + k) as int) =~= Seq::<u8>::empty());
            assert(Seq::<u8>::empty() + nb =~= buf + data.skip(off as int));
        }
    }
}

/// The standard-output buffer.
pub struct StdoutBuffer {
    buf: Vec<u8>,
    used: usize,
}

impl View for StdoutBuffer {
    type V = Seq<u8>;

    /// The buffered bytes, not yet written.
    closed spec fn view(&self) -> Seq<u8> {
        self.buf@.take(self.used as int)
    }
}

/// The progress of one buffered write of `data`.
pub struct BufferedWrite {
    /// Bytes of `data` taken into the buffer so far.
    pub offset: usize,
    /// Bytes accepted so far (the value returned on success).
    pub total: usize,
}

/// What the caller does next in a buffered write.
pub enum WriteStep {
    /// Write these bytes (the whole buffer) to descriptor 1 and report the
    /// result to `flush_done`.
    Flush(Vec<u8>),
    /// The write is over; return this value.
    Done(isize),
}

impl StdoutBuffer {
    pub closed spec fn wf(&self) -> bool {
        self.buf@.len() == BUFFER_SIZE && self.used <= BUFFER_SIZE
    }

    /// An empty buffer.
    pub fn new() -> (b: Self)
        ensures
            b.wf(),
            b@ == Seq::<u8>::empty(),
    {
        let mut buf: Vec<u8> = Vec::new();
        let mut i: usize = 0;
        while i < BUFFER_SIZE
            invariant
                i <= BUFFER_SIZE,
                buf@.len() == i,
            decreases BUFFER_SIZE - i,
        {
            buf.push(0);
            i = i + 1;
        }
        StdoutBuffer { buf, used: 0 }
    }

    /// The buffered bytes, to be written by a flush; `None` when empty
    /// (a flush of an empty buffer writes nothing and returns 0).
    pub fn flush_bytes(&self) -> (r: Option<Vec<u8>>)
        requires
            self.wf(),
        ensures
            self@.len() == 0 ==> r is None,
            self@.len() > 0 ==> r is Some && r.unwrap()@ == self@,
    {
        if self.used == 0 {
            return None;
        }
        let v = crate::cstr::copy_range(self.buf.as_slice(), 0, self.used);
        assert(v@ =~= self@);
        Some(v)
    }

    /// Applies the result of a flush's write: a positive result empties the
    /// buffer (a short write drops the rest); any other result keeps it.
    pub fn flush_written(&mut self, ret: isize)
        requires
            old(self).wf(),
        ensures
            final(self).wf(),
            ret > 0 ==> final(self)@ == Seq::<u8>::empty(),
            ret <= 0 ==> final(self)@ == old(self)@,
    {
        if ret > 0 {
            self.used = 0;
            assert(self@ =~= Seq::<u8>::empty());
        }
    }

    /// Takes the next part of `data` into the buffer. The buffer is flushed
    /// first when it is full, and after taking a part that fills it or ends
    /// with a newline; the write is over once all of `data` is taken.
    pub fn write_step(&mut self, data: &[u8], st: &mut BufferedWrite) -> (step: WriteStep)
        requires
            old(self).wf(),
            old(st).offset <= data@.len(),
            old(st).total == old(st).offset,
        ensures
            final(self).wf(),
            final(st).offset <= data@.len(),
            final(st).total == final(st).offset,
            old(st).offset == data@.len() ==> step == WriteStep::Done(old(st).total as isize)
                && final(self)@ == old(self)@ && *final(st) == *old(st),
            old(st).offset < data@.len() && old(self)@.len() == BUFFER_SIZE ==> (step matches WriteStep::Flush(
                v,
            ) && v@ == old(self)@) && final(self)@ == old(self)@ && *final(st) == *old(st),
            old(st).offset < data@.len() && old(self)@.len() < BUFFER_SIZE ==> {
                let take = if data@.len() - old(st).offset <= BUFFER_SIZE - old(self)@.len() {
                    data@.len() - old(st).offset
                } else {
                    BUFFER_SIZE - old(self)@.len()
                };
                let nb = old(self)@ + data@.subrange(old(st).offset as int, old(st).offset + take);
                &&& final(self)@ == nb
                &&& final(st).offset == old(st).offset + take
                &&& (nb.len() == BUFFER_SIZE || data@[old(st).offset + take - 1] == 10) ==> (step matches WriteStep::Flush(
                    v,
                ) && v@ == nb)
                &&& !(nb.len() == BUFFER_SIZE || data@[old(st).offset + take - 1] == 10) ==> step
                    == WriteStep::Done(final(st).total as isize)
            },
            step matches WriteStep::Flush(v) ==> drained_output(old(self)@, data@, old(st).offset as nat) == v@
                + drained_output(Seq::empty(), data@, final(st).offset as nat) && residue(
                old(self)@,
                data@,
                old(st).offset as nat,
            ) == residue(Seq::empty(), data@, final(st).offset as nat),
            step matches WriteStep::Done(_) ==> drained_output(old(self)@, data@, old(st).offset as nat)
                == Seq::<u8>::empty() && residue(old(self)@, data@, old(st).offset as nat) == final(self)@,
    {
        if st.offset >= data.len() {
            return WriteStep::Done(#[verifier::truncate] (st.total as isize));
        }
        if self.used == BUFFER_SIZE {
            let v = crate::cstr::copy_range(self.buf.as_slice(), 0, self.used);
            assert(v@ =~= self@);
            return WriteStep::Flush(v);
        }
        let ghost b0 = self@;
        let available = BUFFER_SIZE - self.used;
        let remaining = data.len() - st.offset;
        let take = if remaining <= available { remaining } else { available };
        let mut j: usize = 0;
        while j < take
            invariant
                j <= take,
                self.buf@.len() == BUFFER_SIZE,
                self.used + take <= BUFFER_SIZE,
                st.offset + take <= data@.len(),
                data@.len() == data.len(),
                b0 == old(self)@,
                self.used == old(self).used,
                self.buf@.take(self.used as int) == b0,
                self.buf@.subrange(self.used as int, self.used + j) == data@.subrange(st.offset as int, st.offset + j),
            decreases take - j,
        {
            self.buf.set(self.used + j, data[st.offset + j]);
            j = j + 1;
            proof {
                assert(self.buf@.take(self.used as int) =~= b0);
                assert(self.buf@.subrange(self.used as int, self.used + j) =~= data@.subrange(st.offset as int, st.offset + j));
            }
        }
        let old_used = self.used;
        self.used = self.used + take;
        proof {
            assert(self@ =~= b0 + data@.subrange(st.offset as int, st.offset + take));
        }
        st.offset = st.offset + take;
        st.total = st.total + take;
        if self.used == BUFFER_SIZE || data[st.offset - 1] == 10 {
            let v = crate::cstr::copy_range(self.buf.as_slice(), 0, self.used);
            assert(v@ =~= self@);
            WriteStep::Flush(v)
        } else {
            WriteStep::Done(#[verifier::truncate] (st.total as isize))
        }
    }

    /// Applies the result of a flush made during a buffered write: a negative
    /// result ends the write with the bytes accepted so far, or with the error
    /// when none were; otherwise the write goes on (`None`).
    pub fn flush_done(&mut self, ret: isize, st: &BufferedWrite) -> (r: Option<isize>)
        requires
            old(self).wf(),
            st.total <= isize::MAX,
        ensures
            final(self).wf(),
            ret > 0 ==> final(self)@ == Seq::<u8>::empty(),
            ret <= 0 ==> final(self)@ == old(self)@,
            ret < 0 && st.total > 0 ==> r == Some(st.total as isize),
            ret < 0 && st.total == 0 ==> r == Some(ret),
            ret >= 0 ==> r is None,
    {
        self.flush_written(ret);
        if ret < 0 {
            if st.total > 0 {
                Some(st.total as isize)
            } else {
                Some(ret)
            }
        } else {
            None
        }
    }
}

/// Law: plain format bytes are copied as they are: where byte `n` of the
/// format is not `%`, the expansion from there starts with that very byte.
pub proof fn law_plain_byte_copied(s: Seq<u8>, args: Seq<Option<Seq<u8>>>, n: nat, k: nat)
    requires
        n < s.len(),
        s[n as int] != 37,
    ensures
        expand_from(s, args, n, k).len() > 0,
        expand_from(s, args, n, k)[0] == s[n as int],
{
}

proof fn lemma_plain_expands_to_itself(s: Seq<u8>, args: Seq<Option<Seq<u8>>>, n: nat, k: nat)
    requires
        n <= s.len(),
        forall|i: int| 0 <= i < s.len() ==> s[i] != 37,
    ensures
        expand_from(s, args, n, k) == s.skip(n as int),
    decreases s.len() - n,
{
    if n < s.len() {
        lemma_plain_expands_to_itself(s, args, n + 1, k);
        assert(seq![s[n as int]] + s.skip(n + 1 as int) =~= s.skip(n as int));
    } else {
        assert(s.skip(n as int) =~= Seq::<u8>::empty());
    }
}

/// Law: a format without `%` prints itself, every byte unchanged, cut to
/// `OUT_MAX - 1` bytes.
pub proof fn law_plain_format_prints_itself(s: Seq<u8>, args: Seq<Option<Seq<u8>>>)
    requires
        forall|i: int| 0 <= i < s.len() ==> s[i] != 37,
    ensures
        s.len() <= OUT_MAX - 1 ==> rendered(s, args) == s,
        s.len() > OUT_MAX - 1 ==> rendered(s, args) == s.take(OUT_MAX - 1),
{
    lemma_plain_expands_to_itself(s, args, 0, 0);
    assert(s.skip(0) =~= s);
}

proof fn lemma_valid_when_no_percent_n(s: Seq<u8>, n: nat)
    requires
        s.len() < FORMAT_MAX,
        n <= s.len(),
        forall|i: int| #![trigger s[i]] 0 <= i < s.len() && s[i] == 37 ==> i + 1 < s.len() && s[i + 1] != 110,
    ensures
        valid_from(s, n),
    decreases s.len() - n,
{
    if n < s.len() {
        if s[n as int] != 37 {
            lemma_valid_when_no_percent_n(s, n + 1);
        } else {
            lemma_valid_when_no_percent_n(s, n + 2);
        }
    }
}

/// Law: validation refuses nothing but `%n`, a trailing `%` and an overlong
/// format: a format shorter than `FORMAT_MAX` bytes in which every `%` has a
/// following byte, and that byte is not `n`, is valid, whatever the other
/// conversions are.
pub proof fn law_format_valid_unless_percent_n(s: Seq<u8>)
    requires
        s.len() < FORMAT_MAX,
        forall|i: int| #![trigger s[i]] 0 <= i < s.len() && s[i] == 37 ==> i + 1 < s.len() && s[i + 1] != 110,
    ensures
        format_valid(s),
{
    lemma_valid_when_no_percent_n(s, 0);
}

proof fn lemma_plain_run(s: Seq<u8>, args: Seq<Option<Seq<u8>>>, n: nat, m: nat, k: nat)
    requires
        n <= m <= s.len(),
        forall|i: int| n <= i < m ==> s[i] != 37,
    ensures
        expand_from(s, args, n, k) == s.subrange(n as int, m as int) + expand_from(s, args, m, k),
    decreases m - n,
{
    if n < m {
        lemma_plain_run(s, args, n + 1, m, k);
        assert(seq![s[n as int]] + (s.subrange(n + 1 as int, m as int) + expand_from(s, args, m, k)) =~= s.subrange(
            n as int,
            m as int,
        ) + expand_from(s, args, m, k));
    } else {
        assert(s.subrange(n as int, m as int) =~= Seq::<u8>::empty());
        assert(Seq::<u8>::empty() + expand_from(s, args, m, k) =~= expand_from(s, args, m, k));
    }
}

/// Law: a single conversion between plain text expands as documented: `%%`
/// to one `%`, `%s` to the text of the first argument, and any other
/// conversion to `?`; the text before and after is copied unchanged.
pub proof fn law_one_conversion(p: Seq<u8>, c: u8, q: Seq<u8>, args: Seq<Option<Seq<u8>>>)
    requires
        forall|i: int| 0 <= i < p.len() ==> p[i] != 37,
        forall|i: int| 0 <= i < q.len() ==> q[i] != 37,
    ensures
        c == 37 ==> expand_from(p + seq![37u8, c] + q, args, 0, 0) == p + seq![37u8] + q,
        c == 115 ==> expand_from(p + seq![37u8, c] + q, args, 0, 0) == p + arg_text(args, 0) + q,
        c != 37 && c != 115 ==> expand_from(p + seq![37u8, c] + q, args, 0, 0) == p + seq![63u8] + q,
{
    let s = p + seq![37u8, c] + q;
    let m = p.len();
    let k: nat = if c == 115 { 1 } else { 0 };
    lemma_plain_run(s, args, 0, m, 0);
    lemma_plain_run(s, args, m + 2, s.len(), k);
    assert(expand_from(s, args, s.len(), k) =~= Seq::<u8>::empty());
    assert(s.subrange(0, m as int) =~= p);
    assert(s.subrange(m + 2 as int, s.len() as int) =~= q);
    assert(s[m as int] == 37 && s[m + 1 as int] == c);
    if c == 37 {
        assert(p + (seq![37u8] + (q + Seq::<u8>::empty())) =~= p + seq![37u8] + q);
    } else if c == 115 {
        assert(p + (arg_text(args, 0) + (q + Seq::<u8>::empty())) =~= p + arg_text(args, 0) + q);
    } else {
        assert(p + (seq![63u8] + (q + Seq::<u8>::empty())) =~= p + seq![63u8] + q);
    }
}

/// Law: a `%s` argument prints as its whole text when it holds no NUL, as
/// nothing when it is null or missing, and as its bytes before the first NUL
/// otherwise.
pub proof fn law_argument_text(args: Seq<Option<Seq<u8>>>, k: nat)
    ensures
        k >= args.len() ==> arg_text(args, k) == Seq::<u8>::empty(),
        k < args.len() && args[k as int] is None ==> arg_text(args, k) == Seq::<u8>::empty(),
        k < args.len() && (args[k as int] matches Some(a) && forall|i: int| 0 <= i < a.len() ==> a[i] != 0)
            ==> arg_text(args, k) == args[k as int].unwrap(),
        k < args.len() && (args[k as int] matches Some(a) && exists|z: int| 0 <= z < a.len() && a[z] == 0)
            ==> arg_text(args, k).len() < args[k as int].unwrap().len() && (forall|i: int|
            0 <= i < arg_text(args, k).len() ==> arg_text(args, k)[i] == args[k as int].unwrap()[i] && arg_text(
                args,
                k,
            )[i] != 0) && args[k as int].unwrap()[arg_text(args, k).len() as int] == 0,
{
    if k < args.len() {
        if let Some(a) = args[k as int] {
            lemma_c_len_basics(a, a.len());
            if forall|i: int| 0 <= i < a.len() ==> a[i] != 0 {
                lemma_c_len_unique(a, a.len(), a.len());
                assert(a.take(a.len() as int) =~= a);
            }
        }
    }
}

/// Law: a format that ends in a lone `%` is refused.
pub proof fn law_trailing_percent_rejected(p: Seq<u8>)
    requires
        forall|i: int| 0 <= i < p.len() ==> p[i] != 37,
    ensures
        !format_valid(p.push(37u8)),
{
    lemma_trailing_percent_from(p, 0);
}

proof fn lemma_trailing_percent_from(p: Seq<u8>, n: nat)
    requires
        forall|i: int| 0 <= i < p.len() ==> p[i] != 37,
        n <= p.len(),
    ensures
        !valid_from(p.push(37u8), n),
    decreases p.len() - n,
{
    if n < p.len() {
        assert(p.push(37u8)[n as int] == p[n as int]);
        lemma_trailing_percent_from(p, n + 1);
    }
}

} // verus!
