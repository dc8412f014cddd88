use ironlung::abi::{abi_diff, baseline_symbols, bytes_lt, exported_symbols, fields_of, lines_of, sort_dedup, trim_bytes};

fn names(v: &[&str]) -> Vec<Vec<u8>> {
    v.iter().map(|s| s.as_bytes().to_vec()).collect()
}

#[test]
fn baseline_keeps_trimmed_symbol_lines() {
    let text = b"# exported symbols\nmalloc\n  free  \r\n\n\t# indented comment\nprintf\n   \nvprintf";
    assert_eq!(baseline_symbols(text), names(&["malloc", "free", "printf", "vprintf"]));
    assert_eq!(baseline_symbols(b""), names(&[]));
    assert_eq!(baseline_symbols(b"read\n"), names(&["read"]));
}

#[test]
fn nm_output_gives_defined_symbols() {
    let nm = b"0000000000012340 T malloc\n                 U abort\n0000000000020000 D environ_copy\n\
0000000000030000 B counter\n0000000000040000 R table\n0000000000050000 W weak_fn\n\
0000000000060000 t local_fn\n0000000000070000 T printf@@IRONLUNG_1.0\nshort line\n";
    assert_eq!(
        exported_symbols(nm),
        names(&["malloc", "environ_copy", "counter", "table", "weak_fn", "printf@@IRONLUNG_1.0"])
    );
    assert_eq!(exported_symbols(b"   \n\n"), names(&[]));
}

#[test]
fn diff_reports_missing_and_unexpected_sorted() {
    let expected = names(&["read", "malloc", "printf", "free", "malloc"]);
    let actual = names(&["write", "malloc", "printf@IRONLUNG_1.0", "calloc", "write"]);
    let (missing, unexpected, ok) = abi_diff(&expected, &actual);
    assert_eq!(missing, names(&["free", "read"]));
    assert_eq!(unexpected, names(&["calloc", "write"]));
    assert!(!ok);
}

#[test]
fn diff_passes_when_nothing_is_missing() {
    let expected = names(&["printf", "fprintf", "vprintf"]);
    let actual = names(&["vprintf@IRONLUNG_1.0", "fprintf@@IRONLUNG_1.0", "printf", "extra"]);
    let (missing, unexpected, ok) = abi_diff(&expected, &actual);
    assert!(missing.is_empty());
    assert_eq!(unexpected, names(&["extra"]));
    assert!(ok);
    // a longer name is no versioned form: `printfx` does not answer `printf`
    let (missing, _, ok) = abi_diff(&names(&["printf"]), &names(&["printfx"]));
    assert_eq!(missing, names(&["printf"]));
    assert!(!ok);
}

#[test]
fn order_trim_and_split() {
    assert!(bytes_lt(b"abc", b"abd"));
    assert!(bytes_lt(b"ab", b"abc"));
    assert!(!bytes_lt(b"abc", b"abc"));
    assert!(bytes_lt(b"Z", b"a"));
    assert_eq!(sort_dedup(&names(&["b", "a", "b", "ab"])), names(&["a", "ab", "b"]));
    assert_eq!(trim_bytes(b" \t x y \r\n"), b"x y".to_vec());
    assert_eq!(trim_bytes(b"   "), Vec::<u8>::new());
    assert_eq!(lines_of(b"a\nb\n"), names(&["a", "b", ""]));
    assert_eq!(fields_of(b"  one two\tthree  "), names(&["one", "two", "three"]));
}
