use bigdiff::utils::{
    avoid_collision, content_digest, file_bytes_equal, is_probably_binary, normalize_line_ends,
    parse_size, read_text_best_effort, rel_parts_with_deleted_suffix,
};

fn taken(paths: &[&str]) -> Vec<String> {
    paths.iter().map(|p| p.to_string()).collect()
}

#[test]
fn parse_size_plain_bytes() {
    assert_eq!(parse_size("102400"), 102400);
    assert_eq!(parse_size("0"), 0);
    assert_eq!(parse_size("7b"), 7);
    assert_eq!(parse_size("007"), 7);
}

#[test]
fn parse_size_decimal_units() {
    assert_eq!(parse_size("5MB"), 5_000_000);
    assert_eq!(parse_size("5m"), 5_000_000);
    assert_eq!(parse_size("3k"), 3_000);
    assert_eq!(parse_size("3kb"), 3_000);
    assert_eq!(parse_size("2g"), 2_000_000_000);
    assert_eq!(parse_size("2GB"), 2_000_000_000);
}

#[test]
fn parse_size_binary_units() {
    assert_eq!(parse_size("1kib"), 1024);
    assert_eq!(parse_size("5MiB"), 5 * 1024 * 1024);
    assert_eq!(parse_size("3GIB"), 3 * 1024 * 1024 * 1024);
}

#[test]
fn parse_size_takes_decimal_fractions() {
    assert_eq!(parse_size("1.5MB"), 1_500_000);
    assert_eq!(parse_size("0.5k"), 500);
    assert_eq!(parse_size(".5k"), 500);
    assert_eq!(parse_size("5.b"), 5);
    assert_eq!(parse_size("1.5b"), 1);
    assert_eq!(parse_size("2.75kib"), 2816);
    assert_eq!(parse_size("0.0009k"), 0);
    assert_eq!(parse_size("0.001k"), 1);
    assert_eq!(parse_size("1.99999999999999999999999999b"), 1);
    assert_eq!(parse_size("0.000000000931322574615478515625gib"), 1);
    assert_eq!(parse_size("0.000000000931322574615478515624gib"), 0);
}

#[test]
fn parse_size_rejects_other_shapes_of_number() {
    assert_eq!(parse_size("."), 5_000_000);
    assert_eq!(parse_size(".k"), 5_000_000);
    assert_eq!(parse_size("1.2.3"), 5_000_000);
    assert_eq!(parse_size("1e3"), 5_000_000);
    assert_eq!(parse_size("+5"), 5_000_000);
}

#[test]
fn parse_size_without_a_unit_is_a_whole_number() {
    assert_eq!(parse_size("1.5"), 5_000_000);
    assert_eq!(parse_size("5."), 5_000_000);
    assert_eq!(parse_size(".5"), 5_000_000);
    assert_eq!(parse_size("18446744073709551615"), u64::MAX);
    assert_eq!(parse_size("18446744073709551616"), 5_000_000);
    assert_eq!(parse_size("99999999999999999999999"), 5_000_000);
}

#[test]
fn parse_size_trims_and_ignores_case() {
    assert_eq!(parse_size("  10Kb \n"), 10_000);
    assert_eq!(parse_size("\t4mIb"), 4 * 1024 * 1024);
    assert_eq!(parse_size("\u{a0}\u{2003}7k\u{3000}\u{b}\u{c}"), 7_000);
    assert_eq!(parse_size("7\u{212a}b"), 7_000);
    assert_eq!(parse_size("7\u{212a}iB"), 7 * 1024);
}

#[test]
fn parse_size_falls_back_on_the_default() {
    assert_eq!(parse_size(""), 5_000_000);
    assert_eq!(parse_size("junk"), 5_000_000);
    assert_eq!(parse_size("mb"), 5_000_000);
    assert_eq!(parse_size("12xb"), 5_000_000);
    assert_eq!(parse_size("5 mb"), 5_000_000);
    assert_eq!(parse_size("-5"), 5_000_000);
    assert_eq!(parse_size("5tb"), 5_000_000);
}

#[test]
fn parse_size_caps_at_the_largest_value() {
    assert_eq!(parse_size("18446744073709551615"), u64::MAX);
    assert_eq!(parse_size("18446744073709551616b"), u64::MAX);
    assert_eq!(parse_size("99999999999999999999999gb"), u64::MAX);
    assert_eq!(parse_size("18446744073709551615k"), u64::MAX);
    assert_eq!(parse_size("18446744073g"), 18_446_744_073_000_000_000);
}

#[test]
fn binary_sniff() {
    assert!(is_probably_binary(&None));
    assert!(!is_probably_binary(&Some(vec![])));
    assert!(!is_probably_binary(&Some(b"plain text\n".to_vec())));
    assert!(is_probably_binary(&Some(vec![b'a', 0, b'b'])));
    assert!(is_probably_binary(&Some(vec![0xff, 0xfe, 0x41])));
    assert!(!is_probably_binary(&Some("héllo".as_bytes().to_vec())));
}

#[test]
fn binary_sniff_reads_the_first_4096_bytes_only() {
    let mut late_nul = vec![b'a'; 4096];
    late_nul.push(0);
    assert!(!is_probably_binary(&Some(late_nul)));
    let mut nul_at_end_of_sample = vec![b'a'; 4095];
    nul_at_end_of_sample.push(0);
    assert!(is_probably_binary(&Some(nul_at_end_of_sample)));
    let mut late_garbage = vec![b'a'; 4096];
    late_garbage.push(0xff);
    assert!(!is_probably_binary(&Some(late_garbage)));
    let mut split_char = vec![b'a'; 4095];
    split_char.extend_from_slice("é".as_bytes());
    assert!(is_probably_binary(&Some(split_char)));
}

#[test]
fn decodes_utf8() {
    assert_eq!(read_text_best_effort(&"héllo\n".as_bytes().to_vec(), false), "héllo\n");
    assert_eq!(read_text_best_effort(&vec![], false), "");
}

#[test]
fn falls_back_on_windows_1252() {
    assert_eq!(read_text_best_effort(&vec![b'c', b'a', b'f', 0xe9], false), "café");
    assert_eq!(read_text_best_effort(&vec![0x80, b'1'], false), "€1");
}

#[test]
fn normalises_line_ends_on_request() {
    assert_eq!(read_text_best_effort(&b"a\r\nb\rc\n".to_vec(), true), "a\nb\nc\n");
    assert_eq!(read_text_best_effort(&b"a\r\nb\rc\n".to_vec(), false), "a\r\nb\rc\n");
    assert_eq!(normalize_line_ends("\r\r\n\n\r"), "\n\n\n\n");
    assert_eq!(normalize_line_ends("no ends"), "no ends");
    assert_eq!(normalize_line_ends(""), "");
}

#[test]
fn digest_is_sha256_in_hex() {
    assert_eq!(
        content_digest(&b"abc".to_vec()),
        "ba7816bf8f01cfea414140de5dae2223b00361a396177a9cb410ff61f20015ad"
    );
    assert_eq!(
        content_digest(&vec![]),
        "e3b0c44298fc1c149afbf4c8996fb92427ae41e4649b934ca495991b7852b855"
    );
}

#[test]
fn equal_bytes_are_equal_files() {
    let a = Some(b"same content".to_vec());
    let b = Some(b"same content".to_vec());
    assert!(file_bytes_equal(&a, &b));
    assert!(file_bytes_equal(&Some(vec![]), &Some(vec![])));
}

#[test]
fn different_bytes_are_different_files() {
    assert!(!file_bytes_equal(&Some(b"one".to_vec()), &Some(b"two".to_vec())));
    assert!(!file_bytes_equal(&Some(b"a\n".to_vec()), &Some(b"a\r\n".to_vec())));
}

#[test]
fn unreadable_files_are_never_equal() {
    assert!(!file_bytes_equal(&None, &Some(vec![])));
    assert!(!file_bytes_equal(&Some(vec![]), &None));
    assert!(!file_bytes_equal(&None, &None));
}

#[test]
fn free_path_is_kept() {
    assert_eq!(avoid_collision("a/b.txt", &taken(&[])), "a/b.txt");
    assert_eq!(avoid_collision("a/b.txt", &taken(&["a/c.txt", "b.txt"])), "a/b.txt");
}

#[test]
fn taken_path_gets_a_number_before_the_extension() {
    assert_eq!(avoid_collision("a/b.txt", &taken(&["a/b.txt"])), "a/b (1).txt");
    assert_eq!(avoid_collision("notes.txt.new", &taken(&["notes.txt.new"])), "notes.txt (1).new");
    assert_eq!(avoid_collision("b.txt", &taken(&["b.txt", "b (1).txt"])), "b (2).txt");
    assert_eq!(avoid_collision("b.txt", &taken(&["b (1).txt", "b.txt", "b (3).txt"])), "b (2).txt");
}

#[test]
fn numbering_without_an_extension() {
    assert_eq!(avoid_collision("dir.d/README", &taken(&["dir.d/README"])), "dir.d/README (1)");
    assert_eq!(avoid_collision(".env", &taken(&[".env"])), ".env (1)");
}

#[test]
fn numbering_goes_past_nine() {
    let mut used = vec!["f.x".to_string()];
    for n in 1..=11 {
        used.push(format!("f ({n}).x"));
    }
    assert_eq!(avoid_collision("f.x", &used), "f (12).x");
}

#[test]
fn deleted_suffix_on_every_component() {
    assert_eq!(rel_parts_with_deleted_suffix("old/a.txt"), "old.deleted/a.txt.deleted");
    assert_eq!(rel_parts_with_deleted_suffix("a"), "a.deleted");
    assert_eq!(rel_parts_with_deleted_suffix("x/y/z"), "x.deleted/y.deleted/z.deleted");
    assert_eq!(rel_parts_with_deleted_suffix(""), "");
}

#[test]
fn deleted_suffix_walks_components() {
    assert_eq!(rel_parts_with_deleted_suffix("a//b"), "a.deleted/b.deleted");
    assert_eq!(rel_parts_with_deleted_suffix("a/"), "a.deleted");
    assert_eq!(rel_parts_with_deleted_suffix("a/./b"), "a.deleted/b.deleted");
    assert_eq!(rel_parts_with_deleted_suffix("/a"), "/a.deleted");
    assert_eq!(rel_parts_with_deleted_suffix("//a//"), "/a.deleted");
    assert_eq!(rel_parts_with_deleted_suffix("/"), "/");
}

#[test]
fn deleted_suffix_leaves_what_is_no_name() {
    assert_eq!(rel_parts_with_deleted_suffix("../x"), "../x.deleted");
    assert_eq!(rel_parts_with_deleted_suffix(".."), "..");
    assert_eq!(rel_parts_with_deleted_suffix("a/../b"), "a.deleted/../b.deleted");
    assert_eq!(rel_parts_with_deleted_suffix("./x"), "./x.deleted");
    assert_eq!(rel_parts_with_deleted_suffix("."), ".");
    assert_eq!(rel_parts_with_deleted_suffix("/./x"), "/x.deleted");
    assert_eq!(rel_parts_with_deleted_suffix("...") , "....deleted");
    assert_eq!(rel_parts_with_deleted_suffix("..a/b.."), "..a.deleted/b...deleted");
}
