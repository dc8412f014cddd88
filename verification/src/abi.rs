//! The export contract of the shared library: the symbols a baseline file
//! lists, the symbols `nm -D -g` reports as defined, and the difference
//! between the two, each side sorted.
use vstd::prelude::*;
use crate::cstr::copy_range;

verus! {

/// The byte strings of a vector of byte vectors.
pub open spec fn views(v: Seq<Vec<u8>>) -> Seq<Seq<u8>> {
    v.map_values(|x: Vec<u8>| x@)
}

/// Byte-wise lexicographic order, as `str` and `[u8]` compare: a proper
/// prefix comes first, otherwise the first differing byte decides.
pub open spec fn lex_lt(a: Seq<u8>, b: Seq<u8>) -> bool
    decreases a.len(),
{
    if a.len() == 0 {
        b.len() > 0
    } else if b.len() == 0 {
        false
    } else if a[0] < b[0] {
        true
    } else if a[0] > b[0] {
        false
    } else {
        lex_lt(a.drop_first(), b.drop_first())
    }
}

/// Strictly increasing in `lex_lt`: sorted, and no entry twice.
pub open spec fn strictly_sorted(s: Seq<Seq<u8>>) -> bool {
    forall|i: int, j: int| 0 <= i < j < s.len() ==> lex_lt(#[trigger] s[i], #[trigger] s[j])
}

pub proof fn lemma_lex_total(a: Seq<u8>, b: Seq<u8>)
    ensures
        a == b || lex_lt(a, b) || lex_lt(b, a),
        !(lex_lt(a, b) && lex_lt(b, a)),
    decreases a.len(),
{
    if a.len() > 0 && b.len() > 0 && a[0] == b[0] {
        lemma_lex_total(a.drop_first(), b.drop_first());
        if a.drop_first() == b.drop_first() {
            assert(a =~= seq![a[0]] + a.drop_first());
            assert(b =~= seq![b[0]] + b.drop_first());
        }
    } else if a.len() == 0 && b.len() == 0 {
        assert(a =~= b);
    }
}

pub proof fn lemma_lex_trans(a: Seq<u8>, b: Seq<u8>, c: Seq<u8>)
    requires
        lex_lt(a, b),
        lex_lt(b, c),
    ensures
        lex_lt(a, c),
    decreases a.len(),
{
    if a.len() > 0 && b.len() > 0 && c.len() > 0 && a[0] == b[0] && b[0] == c[0] {
        lemma_lex_trans(a.drop_first(), b.drop_first(), c.drop_first());
    }
}

/// Compares two byte strings in `lex_lt` order.
pub fn bytes_lt(a: &[u8], b: &[u8]) -> (r: bool)
    ensures
        r == lex_lt(a@, b@),
{
    let mut i: usize = 0;
    assert(a@.skip(0) =~= a@);
    assert(b@.skip(0) =~= b@);
    while i < a.len() && i < b.len()
        invariant
            i <= a@.len(),
            i <= b@.len(),
            lex_lt(a@, b@) == lex_lt(a@.skip(i as int), b@.skip(i as int)),
        decreases a@.len() - i,
    {
        if a[i] != b[i] {
            return a[i] < b[i];
        }
        assert(a@.skip(i as int).drop_first() =~= a@.skip(i + 1));
        assert(b@.skip(i as int).drop_first() =~= b@.skip(i + 1));
        i = i + 1;
    }
    i == a.len() && i < b.len()
}

/// Compares two byte strings for equality.
pub fn bytes_eq(a: &[u8], b: &[u8]) -> (r: bool)
    ensures
        r == (a@ == b@),
{
    if a.len() != b.len() {
        return false;
    }
    let mut i: usize = 0;
    while i < a.len()
        invariant
            a@.len() == b@.len(),
            i <= a@.len(),
            forall|k: int| 0 <= k < i ==> a@[k] == b@[k],
        decreases a@.len() - i,
    {
        if a[i] != b[i] {
            return false;
        }
        i = i + 1;
    }
    assert(a@ =~= b@);
    true
}

proof fn lemma_contains_push(s: Seq<Seq<u8>>, a: Seq<u8>, y: Seq<u8>)
    ensures
        s.push(a).contains(y) <==> (s.contains(y) || y == a),
{
    if s.push(a).contains(y) && y != a {
        let i = choose|i: int| 0 <= i < s.push(a).len() && s.push(a)[i] == y;
        assert(i < s.len() && s[i] == y);
    }
    if s.contains(y) {
        let i = choose|i: int| 0 <= i < s.len() && s[i] == y;
        assert(s.push(a)[i] == y);
    }
    if y == a {
        assert(s.push(a)[s.len() as int] == y);
    }
}

/// Puts `x` into its place in the strictly sorted `out`, unless it is there.
fn insert_sorted(out: &mut Vec<Vec<u8>>, x: Vec<u8>)
    requires
        strictly_sorted(views(old(out)@)),
    ensures
        strictly_sorted(views(final(out)@)),
        forall|y: Seq<u8>| views(final(out)@).contains(y) <==> (views(old(out)@).contains(y) || y == x@),
{
    let ghost v = views(out@);
    let mut p: usize = 0;
    while p < out.len() && bytes_lt(out[p].as_slice(), x.as_slice())
        invariant
            p <= out@.len(),
            v == views(out@),
            forall|i: int| 0 <= i < p ==> lex_lt(#[trigger] v[i], x@),
        decreases out@.len() - p,
    {
        assert(v[p as int] == out@[p as int]@);
        p = p + 1;
    }
    if p < out.len() && bytes_eq(out[p].as_slice(), x.as_slice()) {
        assert(v[p as int] == x@);
        assert forall|y: Seq<u8>| v.contains(y) <==> (v.contains(y) || y == x@) by {
            if y == x@ {
                assert(v[p as int] == y);
            }
        }
        return;
    }
    proof {
        if p < v.len() {
            assert(v[p as int] == out@[p as int]@);
            lemma_lex_total(v[p as int], x@);
        }
    }
    let ghost xv = x@;
    out.insert(p, x);
    let ghost w = v.insert(p as int, xv);
    assert(views(out@) =~= w);
    assert forall|i: int, j: int| 0 <= i < j < w.len() implies lex_lt(#[trigger] w[i], #[trigger] w[j]) by {
        if j < p {
        } else if j == p {
        } else if i < p {
            assert(w[j] == v[j - 1]);
            if p < j - 1 {
                lemma_lex_trans(xv, v[p as int], v[j - 1]);
            }
            lemma_lex_trans(v[i], xv, v[j - 1]);
        } else if i == p {
            if p < j - 1 {
                lemma_lex_trans(xv, v[p as int], v[j - 1]);
            }
        } else {
            assert(w[i] == v[i - 1] && w[j] == v[j - 1]);
        }
    }
    assert forall|y: Seq<u8>| w.contains(y) <==> (v.contains(y) || y == xv) by {
        if w.contains(y) {
            let j = choose|j: int| 0 <= j < w.len() && w[j] == y;
            if j < p {
                assert(v[j] == y);
            } else if j > p {
                assert(v[j - 1] == y);
            }
        }
        if v.contains(y) {
            let j = choose|j: int| 0 <= j < v.len() && v[j] == y;
            if j < p {
                assert(w[j] == y);
            } else {
                assert(w[j + 1] == y);
            }
        }
        if y == xv {
            assert(w[p as int] == y);
        }
    }
}

/// The distinct byte strings of `items`, in `lex_lt` order.
pub fn sort_dedup(items: &Vec<Vec<u8>>) -> (out: Vec<Vec<u8>>)
    ensures
        strictly_sorted(views(out@)),
        forall|y: Seq<u8>| views(out@).contains(y) <==> views(items@).contains(y),
{
    let mut out: Vec<Vec<u8>> = Vec::new();
    let mut k: usize = 0;
    assert(views(out@) =~= Seq::<Seq<u8>>::empty());
    while k < items.len()
        invariant
            k <= items@.len(),
            strictly_sorted(views(out@)),
            forall|y: Seq<u8>| views(out@).contains(y) <==> views(items@).take(k as int).contains(y),
        decreases items@.len() - k,
    {
        let x = copy_range(items[k].as_slice(), 0, items[k].len());
        assert(x@ =~= items@[k as int]@);
        let ghost before = views(out@);
        insert_sorted(&mut out, x);
        proof {
            let vi = views(items@);
            assert(vi.take(k + 1) =~= vi.take(k as int).push(vi[k as int]));
            assert forall|y: Seq<u8>| views(out@).contains(y) <==> vi.take(k + 1).contains(y) by {
                lemma_contains_push(vi.take(k as int), vi[k as int], y);
            }
        }
        k = k + 1;
    }
    assert(views(items@).take(items@.len() as int) =~= views(items@));
    out
}

/// The whitespace bytes: tab, line feed, vertical tab, form feed, carriage
/// return and space. These are the ASCII characters `str::trim` and
/// `split_whitespace` skip; the Unicode whitespace outside ASCII (such as
/// U+00A0 or U+3000) is not whitespace here, and text is handled as raw bytes,
/// not as UTF-8. Symbol names and `nm` output are ASCII.
pub open spec fn is_ascii_ws(b: u8) -> bool {
    b == 9 || b == 10 || b == 11 || b == 12 || b == 13 || b == 32
}

/// The lines of `t` from position `i` on, the current one starting at
/// `start`: the pieces between line feeds.
pub open spec fn lines_from(t: Seq<u8>, i: int, start: int) -> Seq<Seq<u8>>
    decreases t.len() - i,
{
    if i >= t.len() {
        seq![t.subrange(start, t.len() as int)]
    } else if t[i] == 10 {
        seq![t.subrange(start, i)] + lines_from(t, i + 1, i + 1)
    } else {
        lines_from(t, i + 1, start)
    }
}

/// The lines of `t`: the pieces between line feeds (the last may be empty).
pub open spec fn split_lines(t: Seq<u8>) -> Seq<Seq<u8>> {
    lines_from(t, 0, 0)
}

/// `s` without its leading whitespace.
pub open spec fn trim_start(s: Seq<u8>) -> Seq<u8>
    decreases s.len(),
{
    if s.len() > 0 && is_ascii_ws(s[0]) {
        trim_start(s.drop_first())
    } else {
        s
    }
}

/// `s` without its trailing whitespace.
pub open spec fn trim_end(s: Seq<u8>) -> Seq<u8>
    decreases s.len(),
{
    if s.len() > 0 && is_ascii_ws(s.last()) {
        trim_end(s.drop_last())
    } else {
        s
    }
}

/// `s` without leading and trailing whitespace.
pub open spec fn trim(s: Seq<u8>) -> Seq<u8> {
    trim_end(trim_start(s))
}

/// The whitespace-separated fields of `s` from position `i` on; `st` is the
/// start of the field being read, or -1 between fields.
pub open spec fn fields_from(s: Seq<u8>, i: int, st: int) -> Seq<Seq<u8>>
    decreases s.len() - i,
{
    if i >= s.len() {
        if st >= 0 {
            seq![s.subrange(st, s.len() as int)]
        } else {
            Seq::empty()
        }
    } else if is_ascii_ws(s[i]) {
        (if st >= 0 {
            seq![s.subrange(st, i)]
        } else {
            Seq::empty()
        }) + fields_from(s, i + 1, -1)
    } else {
        fields_from(s, i + 1, if st >= 0 { st } else { i })
    }
}

/// The whitespace-separated fields of `s`, as `split_whitespace` gives them.
pub open spec fn split_fields(s: Seq<u8>) -> Seq<Seq<u8>> {
    fields_from(s, 0, -1)
}

/// Splits `t` into its lines.
pub fn lines_of(t: &[u8]) -> (v: Vec<Vec<u8>>)
    ensures
        views(v@) == split_lines(t@),
{
    let mut out: Vec<Vec<u8>> = Vec::new();
    let mut start: usize = 0;
    let mut i: usize = 0;
    assert(views(out@) + split_lines(t@) =~= split_lines(t@));
    while i < t.len()
        invariant
            start <= i <= t@.len(),
            views(out@) + lines_from(t@, i as int, start as int) == split_lines(t@),
        decreases t@.len() - i,
    {
        if t[i] == 10 {
            let piece = copy_range(t, start, i - start);
            let ghost before = views(out@);
            out.push(piece);
            assert(views(out@) =~= before.push(piece@));
            assert(before.push(piece@) + lines_from(t@, i + 1, i + 1) =~= before + (seq![piece@] + lines_from(
                t@,
                i + 1,
                i + 1,
            )));
            start = i + 1;
        }
        i = i + 1;
    }
    let piece = copy_range(t, start, t.len() - start);
    let ghost before = views(out@);
    out.push(piece);
    assert(views(out@) =~= before + seq![piece@]);
    out
}

/// `s` without leading and trailing whitespace.
pub fn trim_bytes(s: &[u8]) -> (v: Vec<u8>)
    ensures
        v@ == trim(s@),
{
    let mut lo: usize = 0;
    assert(s@.skip(0) =~= s@);
    while lo < s.len() && (s[lo] == 9 || s[lo] == 10 || s[lo] == 11 || s[lo] == 12 || s[lo] == 13 || s[lo] == 32)
        invariant
            lo <= s@.len(),
            trim_start(s@.skip(lo as int)) == trim_start(s@),
        decreases s@.len() - lo,
    {
        assert(s@.skip(lo as int).drop_first() =~= s@.skip(lo + 1));
        lo = lo + 1;
    }
    let ghost u = s@.skip(lo as int);
    assert(trim_start(u) == u);
    let mut hi: usize = s.len();
    assert(s@.subrange(lo as int, hi as int) =~= u);
    while hi > lo && (s[hi - 1] == 9 || s[hi - 1] == 10 || s[hi - 1] == 11 || s[hi - 1] == 12 || s[hi - 1] == 13
        || s[hi - 1] == 32)
        invariant
            lo <= hi <= s@.len(),
            u == s@.skip(lo as int),
            trim_end(s@.subrange(lo as int, hi as int)) == trim_end(u),
        decreases hi - lo,
    {
        assert(s@.subrange(lo as int, hi as int).drop_last() =~= s@.subrange(lo as int, hi - 1));
        hi = hi - 1;
    }
    copy_range(s, lo, hi - lo)
}

/// Splits `s` into its whitespace-separated fields.
pub fn fields_of(s: &[u8]) -> (v: Vec<Vec<u8>>)
    ensures
        views(v@) == split_fields(s@),
{
    let mut out: Vec<Vec<u8>> = Vec::new();
    let mut in_field = false;
    let mut start: usize = 0;
    let mut i: usize = 0;
    assert(views(out@) + split_fields(s@) =~= split_fields(s@));
    while i < s.len()
        invariant
            i <= s@.len(),
            in_field ==> start < i,
            views(out@) + fields_from(s@, i as int, if in_field { start as int } else { -1 }) == split_fields(s@),
        decreases s@.len() - i,
    {
        let b = s[i];
        if b == 9 || b == 10 || b == 11 || b == 12 || b == 13 || b == 32 {
            if in_field {
                let piece = copy_range(s, start, i - start);
                let ghost before = views(out@);
                out.push(piece);
                assert(views(out@) =~= before.push(piece@));
                assert(before.push(piece@) + fields_from(s@, i + 1, -1) =~= before + (seq![piece@]
                    + fields_from(s@, i + 1, -1)));
            } else {
                assert(views(out@) + fields_from(s@, i + 1, -1) =~= views(out@) + (Seq::<Seq<u8>>::empty()
                    + fields_from(s@, i + 1, -1)));
            }
            in_field = false;
        } else if !in_field {
            in_field = true;
            start = i;
        }
        i = i + 1;
    }
    if in_field {
        let piece = copy_range(s, start, s.len() - start);
        let ghost before = views(out@);
        out.push(piece);
        assert(views(out@) =~= before + seq![piece@]);
    } else {
        assert(views(out@) + Seq::<Seq<u8>>::empty() =~= views(out@));
    }
    out
}

/// A baseline line names a symbol: trimmed, it is not empty and is not a
/// `#` comment.
pub open spec fn baseline_entry(line: Seq<u8>) -> bool {
    trim(line).len() > 0 && trim(line)[0] != 35
}

/// The symbol names of baseline lines, in order.
pub open spec fn baseline_of(ls: Seq<Seq<u8>>) -> Seq<Seq<u8>>
    decreases ls.len(),
{
    if ls.len() == 0 {
        Seq::empty()
    } else {
        baseline_of(ls.drop_last()) + if baseline_entry(ls.last()) {
            seq![trim(ls.last())]
        } else {
            Seq::<Seq<u8>>::empty()
        }
    }
}

/// The symbol names a baseline text lists, in order.
pub open spec fn baseline_names(text: Seq<u8>) -> Seq<Seq<u8>> {
    baseline_of(split_lines(text))
}

/// An `nm` type letter of a defined symbol: text `T`, data `D`, bss `B`,
/// read-only `R`, or weak `W`.
pub open spec fn defined_type(f: Seq<u8>) -> bool {
    f.len() == 1 && (f[0] == 84 || f[0] == 68 || f[0] == 66 || f[0] == 82 || f[0] == 87)
}

/// The symbol an `nm` line reports as defined: its third field, when it has
/// at least three and the second is a defined type.
pub open spec fn exported_name(line: Seq<u8>) -> Option<Seq<u8>> {
    let f = split_fields(line);
    if f.len() >= 3 && defined_type(f[1]) {
        Some(f[2])
    } else {
        None
    }
}

/// The defined symbols of `nm` lines, in order.
pub open spec fn exported_of(ls: Seq<Seq<u8>>) -> Seq<Seq<u8>>
    decreases ls.len(),
{
    if ls.len() == 0 {
        Seq::empty()
    } else {
        exported_of(ls.drop_last()) + match exported_name(ls.last()) {
            Some(n) => seq![n],
            None => Seq::<Seq<u8>>::empty(),
        }
    }
}

/// The defined symbols an `nm -D -g` output lists, in order.
pub open spec fn exported_names(nm_out: Seq<u8>) -> Seq<Seq<u8>> {
    exported_of(split_lines(nm_out))
}

/// The symbol names a baseline text lists: its trimmed lines that are not
/// empty and do not start with `#`, in order. Trimming removes the ASCII
/// whitespace of `is_ascii_ws` only.
pub fn baseline_symbols(text: &[u8]) -> (v: Vec<Vec<u8>>)
    ensures
        views(v@) == baseline_names(text@),
{
    let lines = lines_of(text);
    let ghost ls = views(lines@);
    let mut out: Vec<Vec<u8>> = Vec::new();
    let mut i: usize = 0;
    assert(views(out@) =~= baseline_of(ls.take(0)));
    while i < lines.len()
        invariant
            i <= lines@.len(),
            ls == views(lines@),
            views(out@) == baseline_of(ls.take(i as int)),
        decreases lines@.len() - i,
    {
        let t = trim_bytes(lines[i].as_slice());
        assert(ls.take(i + 1).drop_last() =~= ls.take(i as int));
        assert(ls.take(i + 1).last() == lines@[i as int]@);
        let ghost before = views(out@);
        if t.len() > 0 && t[0] != 35 {
            out.push(t);
            assert(views(out@) =~= before + seq![trim(ls[i as int])]);
        } else {
            assert(views(out@) =~= before + Seq::<Seq<u8>>::empty());
        }
        i = i + 1;
    }
    assert(ls.take(lines@.len() as int) =~= ls);
    out
}

/// The symbols an `nm -D -g` output reports as defined: the third field of
/// each line that has at least three fields and a second field `T`, `D`,
/// `B`, `R` or `W`, in order. Fields are separated by the ASCII whitespace of
/// `is_ascii_ws` only.
pub fn exported_symbols(nm_out: &[u8]) -> (v: Vec<Vec<u8>>)
    ensures
        views(v@) == exported_names(nm_out@),
{
    let lines = lines_of(nm_out);
    let ghost ls = views(lines@);
    let mut out: Vec<Vec<u8>> = Vec::new();
    let mut i: usize = 0;
    assert(views(out@) =~= exported_of(ls.take(0)));
    while i < lines.len()
        invariant
            i <= lines@.len(),
            ls == views(lines@),
            views(out@) == exported_of(ls.take(i as int)),
        decreases lines@.len() - i,
    {
        let f = fields_of(lines[i].as_slice());
        let ghost fv = views(f@);
        assert(ls.take(i + 1).drop_last() =~= ls.take(i as int));
        assert(ls.take(i + 1).last() == lines@[i as int]@);
        let ghost before = views(out@);
        let mut keep = false;
        if f.len() >= 3 && f[1].len() == 1 {
            let c = f[1][0];
            keep = c == 84 || c == 68 || c == 66 || c == 82 || c == 87;
            assert(fv[1] == f@[1]@);
        }
        if keep {
            assert(fv[2] == f@[2]@);
            let n = copy_range(f[2].as_slice(), 0, f[2].len());
            assert(n@ =~= fv[2]);
            out.push(n);
            assert(views(out@) =~= before + seq![fv[2]]);
        } else {
            if f.len() >= 3 {
                assert(fv[1] == f@[1]@);
            }
            assert(views(out@) =~= before + Seq::<Seq<u8>>::empty());
        }
        i = i + 1;
    }
    assert(ls.take(lines@.len() as int) =~= ls);
    out
}

/// An exported symbol `a` answers the baseline name `e`: it is `e`, or a
/// versioned form of it (`e` followed by `@`).
pub open spec fn symbol_matches(e: Seq<u8>, a: Seq<u8>) -> bool {
    a == e || (a.len() > e.len() && a.take(e.len() as int) == e && a[e.len() as int] == 64)
}

/// Some symbol of `actual` answers the baseline name `e`.
pub open spec fn found_in(e: Seq<u8>, actual: Seq<Seq<u8>>) -> bool {
    exists|j: int| 0 <= j < actual.len() && symbol_matches(e, #[trigger] actual[j])
}

/// Some baseline name of `expected` is answered by the symbol `a`.
pub open spec fn expected_by(expected: Seq<Seq<u8>>, a: Seq<u8>) -> bool {
    exists|i: int| 0 <= i < expected.len() && symbol_matches(#[trigger] expected[i], a)
}

fn matches_exec(e: &[u8], a: &[u8]) -> (r: bool)
    ensures
        r == symbol_matches(e@, a@),
{
    if bytes_eq(e, a) {
        return true;
    }
    if a.len() <= e.len() {
        return false;
    }
    let mut i: usize = 0;
    while i < e.len()
        invariant
            i <= e@.len() < a@.len(),
            forall|k: int| 0 <= k < i ==> a@[k] == e@[k],
        decreases e@.len() - i,
    {
        if a[i] != e[i] {
            assert(a@.take(e@.len() as int)[i as int] != e@[i as int]);
            return false;
        }
        i = i + 1;
    }
    assert(a@.take(e@.len() as int) =~= e@);
    a[e.len()] == 64
}

fn found_in_exec(e: &[u8], actual: &Vec<Vec<u8>>) -> (r: bool)
    ensures
        r == found_in(e@, views(actual@)),
{
    let ghost va = views(actual@);
    let mut j: usize = 0;
    while j < actual.len()
        invariant
            j <= actual@.len(),
            va == views(actual@),
            forall|k: int| 0 <= k < j ==> !symbol_matches(e@, #[trigger] va[k]),
        decreases actual@.len() - j,
    {
        if matches_exec(e, actual[j].as_slice()) {
            assert(symbol_matches(e@, va[j as int]));
            return true;
        }
        assert(va[j as int] == actual@[j as int]@);
        j = j + 1;
    }
    false
}

fn expected_by_exec(expected: &Vec<Vec<u8>>, a: &[u8]) -> (r: bool)
    ensures
        r == expected_by(views(expected@), a@),
{
    let ghost ve = views(expected@);
    let mut i: usize = 0;
    while i < expected.len()
        invariant
            i <= expected@.len(),
            ve == views(expected@),
            forall|k: int| 0 <= k < i ==> !symbol_matches(#[trigger] ve[k], a@),
        decreases expected@.len() - i,
    {
        if matches_exec(expected[i].as_slice(), a) {
            assert(symbol_matches(ve[i as int], a@));
            return true;
        }
        assert(ve[i as int] == expected@[i as int]@);
        i = i + 1;
    }
    false
}

/// Compares a baseline with the exported symbols. `r.0`: the baseline names
/// that no exported symbol answers (by name or versioned name), sorted and
/// each once; `r.1`: the exported symbols that answer no baseline name,
/// sorted and each once; `r.2`: the check passes, which it does exactly when
/// nothing is missing.
pub fn abi_diff(expected: &Vec<Vec<u8>>, actual: &Vec<Vec<u8>>) -> (r: (Vec<Vec<u8>>, Vec<Vec<u8>>, bool))
    ensures
        strictly_sorted(views(r.0@)),
        forall|y: Seq<u8>|
            views(r.0@).contains(y) <==> (views(expected@).contains(y) && !found_in(y, views(actual@))),
        strictly_sorted(views(r.1@)),
        forall|y: Seq<u8>|
            views(r.1@).contains(y) <==> (views(actual@).contains(y) && !expected_by(views(expected@), y)),
        r.2 == (r.0@.len() == 0),
        r.2 <==> forall|i: int| 0 <= i < expected@.len() ==> found_in(#[trigger] expected@[i]@, views(actual@)),
{
    let ghost ve = views(expected@);
    let ghost va = views(actual@);
    let mut missing: Vec<Vec<u8>> = Vec::new();
    let mut i: usize = 0;
    assert(views(missing@) =~= Seq::<Seq<u8>>::empty());
    while i < expected.len()
        invariant
            i <= expected@.len(),
            ve == views(expected@),
            va == views(actual@),
            forall|y: Seq<u8>|
                #[trigger] views(missing@).contains(y) <==> (ve.take(i as int).contains(y) && !found_in(y, va)),
        decreases expected@.len() - i,
    {
        let ghost before = views(missing@);
        assert(ve.take(i + 1) =~= ve.take(i as int).push(ve[i as int]));
        assert(ve[i as int] == expected@[i as int]@);
        if !found_in_exec(expected[i].as_slice(), actual) {
            let e = copy_range(expected[i].as_slice(), 0, expected[i].len());
            assert(e@ =~= ve[i as int]);
            missing.push(e);
            assert(views(missing@) =~= before.push(ve[i as int]));
            assert forall|y: Seq<u8>| #[trigger] views(missing@).contains(y) <==> (ve.take(i + 1).contains(y) && !found_in(y, va)) by {
                lemma_contains_push(before, ve[i as int], y);
                lemma_contains_push(ve.take(i as int), ve[i as int], y);
            }
        } else {
            assert(views(missing@) == before);
            assert forall|y: Seq<u8>| #[trigger] views(missing@).contains(y) <==> (ve.take(i + 1).contains(y) && !found_in(y, va)) by {
                lemma_contains_push(ve.take(i as int), ve[i as int], y);
            }
        }
        i = i + 1;
    }
    assert(ve.take(i as int) =~= ve);
    assert forall|y: Seq<u8>| views(missing@).contains(y) <==> (ve.contains(y) && !found_in(y, va)) by {
        assert(views(missing@).contains(y) <==> (ve.take(i as int).contains(y) && !found_in(y, va)));
    }
    let mut unexpected: Vec<Vec<u8>> = Vec::new();
    let mut j: usize = 0;
    assert(views(unexpected@) =~= Seq::<Seq<u8>>::empty());
    while j < actual.len()
        invariant
            j <= actual@.len(),
            ve == views(expected@),
            va == views(actual@),
            forall|y: Seq<u8>|
                #[trigger] views(unexpected@).contains(y) <==> (va.take(j as int).contains(y) && !expected_by(ve, y)),
        decreases actual@.len() - j,
    {
        let ghost before = views(unexpected@);
        assert(va.take(j + 1) =~= va.take(j as int).push(va[j as int]));
        assert(va[j as int] == actual@[j as int]@);
        if !expected_by_exec(expected, actual[j].as_slice()) {
            let a = copy_range(actual[j].as_slice(), 0, actual[j].len());
            assert(a@ =~= va[j as int]);
            unexpected.push(a);
            assert(views(unexpected@) =~= before.push(va[j as int]));
            assert forall|y: Seq<u8>| #[trigger] views(unexpected@).contains(y) <==> (va.take(j + 1).contains(y) && !expected_by(ve, y)) by {
                lemma_contains_push(before, va[j as int], y);
                lemma_contains_push(va.take(j as int), va[j as int], y);
            }
        } else {
            assert(views(unexpected@) == before);
            assert forall|y: Seq<u8>| #[trigger] views(unexpected@).contains(y) <==> (va.take(j + 1).contains(y) && !expected_by(ve, y)) by {
                lemma_contains_push(va.take(j as int), va[j as int], y);
            }
        }
        j = j + 1;
    }
    assert(va.take(j as int) =~= va);
    assert forall|y: Seq<u8>| views(unexpected@).contains(y) <==> (va.contains(y) && !expected_by(ve, y)) by {
        assert(views(unexpected@).contains(y) <==> (va.take(j as int).contains(y) && !expected_by(ve, y)));
    }
    let m = sort_dedup(&missing);
    let u = sort_dedup(&unexpected);
    let ok = m.len() == 0;
    proof {
        let vm = views(m@);
        if ok {
            assert forall|i: int| 0 <= i < expected@.len() implies found_in(#[trigger] expected@[i]@, va) by {
                assert(ve[i] == expected@[i]@);
                assert(ve.contains(ve[i]));
                if !found_in(ve[i], va) {
                    assert(vm.contains(ve[i]));
                }
            }
        } else {
            assert(vm.contains(vm[0]));
            assert(views(missing@).contains(vm[0]));
            assert(ve.contains(vm[0]));
            assert(!found_in(vm[0], va));
            let k = choose|k: int| 0 <= k < ve.len() && ve[k] == vm[0];
            assert(ve[k] == expected@[k]@);
            assert(!found_in(expected@[k]@, va));
        }
    }
    (m, u, ok)
}

/// Law: a versioned symbol answers its baseline name: `e@VERSION` matches `e`.
pub proof fn law_versioned_symbol_matches(e: Seq<u8>, version: Seq<u8>)
    ensures
        symbol_matches(e, e + seq![64u8] + version),
{
    assert((e + seq![64u8] + version).take(e.len() as int) =~= e);
}

/// Law: an `nm` line yields a symbol exactly when it has at least three
/// fields and its type letter is `T`, `D`, `B`, `R` or `W`; the symbol is
/// then its third field. Any other type letter (such as `A` for a version
/// node, or `U` for an undefined symbol) yields nothing.
pub proof fn law_nm_type_letters(line: Seq<u8>)
    ensures
        ({
            let f = split_fields(line);
            &&& f.len() >= 3 && (f[1] == seq![84u8] || f[1] == seq![68u8] || f[1] == seq![66u8] || f[1]
                == seq![82u8] || f[1] == seq![87u8]) ==> exported_name(line) == Some(f[2])
            &&& f.len() < 3 ==> exported_name(line) is None
            &&& f.len() >= 3 && f[1].len() == 1 && f[1][0] != 84 && f[1][0] != 68 && f[1][0] != 66 && f[1][0]
                != 82 && f[1][0] != 87 ==> exported_name(line) is None && exported_of(seq![line])
                == Seq::<Seq<u8>>::empty()
        }),
{
    assert(seq![line].drop_last() =~= Seq::<Seq<u8>>::empty());
    assert(seq![line].last() == line);
    assert(exported_of(Seq::<Seq<u8>>::empty()) =~= Seq::<Seq<u8>>::empty());
    let f = split_fields(line);
    if f.len() >= 3 && f[1].len() == 1 && f[1][0] != 84 && f[1][0] != 68 && f[1][0] != 66 && f[1][0] != 82
        && f[1][0] != 87 {
        assert(Seq::<Seq<u8>>::empty() + Seq::<Seq<u8>>::empty() =~= Seq::<Seq<u8>>::empty());
    }
}

/// The line `line` reports `name` as a defined symbol: at least three fields,
/// type letter `T`, `D`, `B`, `R` or `W`, and `name` as the third field.
pub open spec fn reports_defined(line: Seq<u8>, name: Seq<u8>) -> bool {
    let f = split_fields(line);
    &&& f.len() >= 3
    &&& (f[1] == seq![84u8] || f[1] == seq![68u8] || f[1] == seq![66u8] || f[1] == seq![82u8] || f[1] == seq![87u8])
    &&& f[2] == name
}

/// Some line of `ls` reports `name` as a defined symbol.
pub open spec fn reported_in(ls: Seq<Seq<u8>>, name: Seq<u8>) -> bool {
    exists|i: int| 0 <= i < ls.len() && #[trigger] reports_defined(ls[i], name)
}

proof fn lemma_exported_of_reported(ls: Seq<Seq<u8>>)
    ensures
        forall|j: int| 0 <= j < exported_of(ls).len() ==> reported_in(ls, #[trigger] exported_of(ls)[j]),
    decreases ls.len(),
{
    if ls.len() == 0 {
        assert(exported_of(ls).len() == 0);
    } else {
        let p = ls.drop_last();
        lemma_exported_of_reported(p);
        let tail = match exported_name(ls.last()) {
            Some(n) => seq![n],
            None => Seq::<Seq<u8>>::empty(),
        };
        assert(exported_of(ls) == exported_of(p) + tail);
        assert forall|j: int| 0 <= j < exported_of(ls).len() implies reported_in(ls, #[trigger] exported_of(ls)[j]) by {
            if j < exported_of(p).len() {
                assert(exported_of(ls)[j] == exported_of(p)[j]);
                assert(reported_in(p, exported_of(p)[j]));
                let i = choose|i: int| 0 <= i < p.len() && #[trigger] reports_defined(p[i], exported_of(p)[j]);
                assert(ls[i] == p[i]);
                assert(reports_defined(ls[i], exported_of(ls)[j]));
            } else {
                let l = ls.last();
                let f = split_fields(l);
                assert(exported_name(l) is Some);
                assert(exported_of(ls)[j] == f[2]);
                assert(f[1].len() == 1);
                if f[1][0] == 84 {
                    assert(f[1] =~= seq![84u8]);
                } else if f[1][0] == 68 {
                    assert(f[1] =~= seq![68u8]);
                } else if f[1][0] == 66 {
                    assert(f[1] =~= seq![66u8]);
                } else if f[1][0] == 82 {
                    assert(f[1] =~= seq![82u8]);
                } else {
                    assert(f[1] =~= seq![87u8]);
                }
                assert(reports_defined(ls[ls.len() - 1], exported_of(ls)[j]));
            }
        }
    }
}

/// Law: every symbol `exported_symbols` reports comes from a line of the
/// `nm` output that has at least three fields, the type letter `T`, `D`, `B`,
/// `R` or `W`, and that symbol as its third field.
pub proof fn law_exported_names_are_defined(nm_out: Seq<u8>)
    ensures
        forall|j: int|
            0 <= j < exported_names(nm_out).len() ==> reported_in(split_lines(nm_out), #[trigger] exported_names(nm_out)[j]),
{
    lemma_exported_of_reported(split_lines(nm_out));
    assert forall|j: int| 0 <= j < exported_names(nm_out).len() implies reported_in(
        split_lines(nm_out),
        #[trigger] exported_names(nm_out)[j],
    ) by {
        assert(exported_names(nm_out)[j] == exported_of(split_lines(nm_out))[j]);
    }
}

/// A field as `nm` output is split into: not empty, and no tab, line
/// feed, vertical tab, form feed, carriage return or space in it.
pub open spec fn is_clean_field(f: Seq<u8>) -> bool {
    f.len() > 0 && forall|x: int| 0 <= x < f.len() ==> !(#[trigger] f[x] == 9 || #[trigger] f[x] == 10 || #[trigger] f[x] == 11 || #[trigger] f[x] == 12 || #[trigger] f[x] == 13 || #[trigger] f[x] == 32)
}

proof fn lemma_trim_start_cut(s: Seq<u8>) -> (a: int)
    ensures
        0 <= a <= s.len(),
        trim_start(s) == s.skip(a),
        forall|i: int| 0 <= i < a ==> (#[trigger] s[i] == 9 || #[trigger] s[i] == 10 || #[trigger] s[i] == 11 || #[trigger] s[i] == 12 || #[trigger] s[i] == 13 || #[trigger] s[i] == 32),
        a < s.len() ==> !(s[a] == 9 || s[a] == 10 || s[a] == 11 || s[a] == 12 || s[a] == 13 || s[a] == 32),
    decreases s.len(),
{
    if s.len() > 0 && is_ascii_ws(s[0]) {
        let t = s.drop_first();
        let b = lemma_trim_start_cut(t);
        assert(t.skip(b) =~= s.skip(b + 1));
        assert forall|i: int| 0 <= i < b + 1 implies (#[trigger] s[i] == 9 || #[trigger] s[i] == 10 || #[trigger] s[i] == 11 || #[trigger] s[i] == 12 || #[trigger] s[i] == 13 || #[trigger] s[i] == 32) by {
            if i > 0 {
                assert(s[i] == t[i - 1]);
            }
        }
        if b + 1 < s.len() {
            assert(s[b + 1] == t[b]);
        }
        b + 1
    } else {
        assert(s.skip(0) =~= s);
        0
    }
}

proof fn lemma_trim_end_cut(s: Seq<u8>) -> (b: int)
    ensures
        0 <= b <= s.len(),
        trim_end(s) == s.take(b),
        forall|i: int| b <= i < s.len() ==> (#[trigger] s[i] == 9 || #[trigger] s[i] == 10 || #[trigger] s[i] == 11 || #[trigger] s[i] == 12 || #[trigger] s[i] == 13 || #[trigger] s[i] == 32),
        b > 0 ==> !(s[b - 1] == 9 || s[b - 1] == 10 || s[b - 1] == 11 || s[b - 1] == 12 || s[b - 1] == 13 || s[b - 1] == 32),
    decreases s.len(),
{
    if s.len() > 0 && is_ascii_ws(s.last()) {
        let t = s.drop_last();
        let b = lemma_trim_end_cut(t);
        assert(t.take(b) =~= s.take(b));
        assert forall|i: int| b <= i < s.len() implies (#[trigger] s[i] == 9 || #[trigger] s[i] == 10 || #[trigger] s[i] == 11 || #[trigger] s[i] == 12 || #[trigger] s[i] == 13 || #[trigger] s[i] == 32) by {
            if i < s.len() - 1 {
                assert(s[i] == t[i]);
            }
        }
        if b > 0 {
            assert(s[b - 1] == t[b - 1]);
        }
        b
    } else {
        assert(s.take(s.len() as int) =~= s);
        s.len() as int
    }
}

/// Law: trimming cuts whitespace (tab, line feed, vertical tab, form feed,
/// carriage return, space) from both ends and nothing else: the result is
/// the piece `s[r.0..r.1]`, everything cut is whitespace, and a non-empty
/// result starts and ends with a byte that is not.
pub proof fn law_trim_cuts_whitespace(s: Seq<u8>) -> (r: (int, int))
    ensures
        0 <= r.0 <= r.1 <= s.len(),
        trim(s) == s.subrange(r.0, r.1),
        forall|i: int| 0 <= i < r.0 ==> (#[trigger] s[i] == 9 || #[trigger] s[i] == 10 || #[trigger] s[i] == 11 || #[trigger] s[i] == 12 || #[trigger] s[i] == 13 || #[trigger] s[i] == 32),
        forall|i: int| r.1 <= i < s.len() ==> (#[trigger] s[i] == 9 || #[trigger] s[i] == 10 || #[trigger] s[i] == 11 || #[trigger] s[i] == 12 || #[trigger] s[i] == 13 || #[trigger] s[i] == 32),
        trim(s).len() > 0 ==> !(trim(s)[0] == 9 || trim(s)[0] == 10 || trim(s)[0] == 11 || trim(s)[0] == 12 || trim(s)[0] == 13 || trim(s)[0] == 32) && !(trim(s).last() == 9 || trim(s).last() == 10 || trim(s).last() == 11 || trim(s).last() == 12 || trim(s).last() == 13 || trim(s).last() == 32),
{
    let a = lemma_trim_start_cut(s);
    let u = s.skip(a);
    let b = lemma_trim_end_cut(u);
    assert(u.take(b) =~= s.subrange(a, a + b));
    assert forall|i: int| a + b <= i < s.len() implies (#[trigger] s[i] == 9 || #[trigger] s[i] == 10 || #[trigger] s[i] == 11 || #[trigger] s[i] == 12 || #[trigger] s[i] == 13 || #[trigger] s[i] == 32) by {
        assert(s[i] == u[i - a]);
    }
    if b > 0 {
        assert(trim(s)[0] == s[a]);
        assert(trim(s).last() == u[b - 1]);
    }
    (a, a + b)
}

proof fn lemma_clean_concat(x: Seq<Seq<u8>>, y: Seq<Seq<u8>>)
    requires
        forall|j: int| 0 <= j < x.len() ==> is_clean_field(#[trigger] x[j]),
        forall|j: int| 0 <= j < y.len() ==> is_clean_field(#[trigger] y[j]),
    ensures
        forall|j: int| 0 <= j < (x + y).len() ==> is_clean_field(#[trigger] (x + y)[j]),
{
    assert forall|j: int| 0 <= j < (x + y).len() implies is_clean_field(#[trigger] (x + y)[j]) by {
        if j < x.len() {
            assert((x + y)[j] == x[j]);
        } else {
            assert((x + y)[j] == y[j - x.len()]);
        }
    }
}

proof fn lemma_fields_clean(s: Seq<u8>, i: int, st: int)
    requires
        0 <= i <= s.len(),
        st == -1 || (0 <= st < i && forall|x: int| st <= x < i ==> !is_ascii_ws(#[trigger] s[x])),
    ensures
        forall|j: int|
            0 <= j < fields_from(s, i, st).len() ==> is_clean_field(#[trigger] fields_from(s, i, st)[j]),
    decreases s.len() - i,
{
    if i >= s.len() {
        if st >= 0 {
            let piece = s.subrange(st, s.len() as int);
            assert forall|x: int| 0 <= x < piece.len() implies !(#[trigger] piece[x] == 9 || #[trigger] piece[x] == 10 || #[trigger] piece[x] == 11 || #[trigger] piece[x] == 12 || #[trigger] piece[x] == 13 || #[trigger] piece[x] == 32) by {
                assert(piece[x] == s[st + x]);
                assert(!is_ascii_ws(s[st + x]));
            }
            assert(is_clean_field(piece));
            assert(fields_from(s, i, st) == seq![piece]);
            assert(fields_from(s, i, st)[0] == piece);
        } else {
            assert(fields_from(s, i, st).len() == 0);
        }
    } else if is_ascii_ws(s[i]) {
        lemma_fields_clean(s, i + 1, -1);
        let rest = fields_from(s, i + 1, -1);
        let head = if st >= 0 {
            seq![s.subrange(st, i)]
        } else {
            Seq::<Seq<u8>>::empty()
        };
        if st >= 0 {
            let piece = s.subrange(st, i);
            assert forall|x: int| 0 <= x < piece.len() implies !(#[trigger] piece[x] == 9 || #[trigger] piece[x] == 10 || #[trigger] piece[x] == 11 || #[trigger] piece[x] == 12 || #[trigger] piece[x] == 13 || #[trigger] piece[x] == 32) by {
                assert(piece[x] == s[st + x]);
                assert(!is_ascii_ws(s[st + x]));
            }
            assert(is_clean_field(piece));
            assert(head[0] == piece);
        }
        lemma_clean_concat(head, rest);
        assert(fields_from(s, i, st) == head + rest);
    } else {
        let st2 = if st >= 0 { st } else { i };
        assert forall|x: int| st2 <= x < i + 1 implies !is_ascii_ws(#[trigger] s[x]) by {}
        lemma_fields_clean(s, i + 1, st2);
        assert(fields_from(s, i, st) == fields_from(s, i + 1, st2));
    }
}

/// Law: splitting an `nm` line yields only non-empty fields with no
/// whitespace (tab, line feed, vertical tab, form feed, carriage return,
/// space) in them.
pub proof fn law_fields_have_no_whitespace(s: Seq<u8>)
    ensures
        forall|j: int| 0 <= j < split_fields(s).len() ==> is_clean_field(#[trigger] split_fields(s)[j]),
{
    lemma_fields_clean(s, 0, -1);
}

/// A name as the baseline lists it: not empty, not a `#` comment, and
/// neither starting nor ending with whitespace.
pub open spec fn is_baseline_name(t: Seq<u8>) -> bool {
    &&& t.len() > 0
    &&& t[0] != 35
    &&& !(t[0] == 9 || t[0] == 10 || t[0] == 11 || t[0] == 12 || t[0] == 13 || t[0] == 32)
    &&& !(t.last() == 9 || t.last() == 10 || t.last() == 11 || t.last() == 12 || t.last() == 13 || t.last() == 32)
}

proof fn lemma_baseline_of_names(ls: Seq<Seq<u8>>)
    ensures
        forall|j: int| 0 <= j < baseline_of(ls).len() ==> is_baseline_name(#[trigger] baseline_of(ls)[j]),
    decreases ls.len(),
{
    if ls.len() == 0 {
        assert(baseline_of(ls).len() == 0);
    } else {
        let p = ls.drop_last();
        lemma_baseline_of_names(p);
        let l = ls.last();
        let tail = if baseline_entry(l) {
            seq![trim(l)]
        } else {
            Seq::<Seq<u8>>::empty()
        };
        assert(baseline_of(ls) == baseline_of(p) + tail);
        if baseline_entry(l) {
            let _ = law_trim_cuts_whitespace(l);
        }
        assert forall|j: int| 0 <= j < baseline_of(ls).len() implies is_baseline_name(#[trigger] baseline_of(ls)[j]) by {
            if j < baseline_of(p).len() {
                assert(baseline_of(ls)[j] == baseline_of(p)[j]);
            } else {
                assert(baseline_of(ls)[j] == trim(l));
            }
        }
    }
}

/// Law: every name `baseline_symbols` gives is not empty, is no `#` comment,
/// and has no whitespace at either end.
pub proof fn law_baseline_names_are_trimmed_symbols(text: Seq<u8>)
    ensures
        forall|j: int| 0 <= j < baseline_names(text).len() ==> is_baseline_name(#[trigger] baseline_names(text)[j]),
{
    lemma_baseline_of_names(split_lines(text));
    assert forall|j: int| 0 <= j < baseline_names(text).len() implies is_baseline_name(
        #[trigger] baseline_names(text)[j],
    ) by {
        assert(baseline_names(text)[j] == baseline_of(split_lines(text))[j]);
    }
}

} // verus!
