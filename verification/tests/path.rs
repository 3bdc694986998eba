use zippy::decompress::sanitize_path;
use zippy::error::DecompressionError;
use zippy::path::{join_components, sanitize_components};
use zippy::text::{chars_of, trim_chars, trim_end_chars, trim_lines, to_lower};

fn text(s: &str) -> Vec<char> {
    s.chars().collect()
}

fn refused(path: &str) -> bool {
    matches!(sanitize_path(path), Err(DecompressionError::InvalidFormat))
}

#[test]
fn traversal_is_cut_down_to_what_lies_below() {
    assert_eq!(sanitize_path("../../etc/passwd").unwrap(), "etc/passwd");
    assert_eq!(sanitize_path("a/../../b").unwrap(), "a/b");
    assert_eq!(sanitize_path("./a/./b").unwrap(), "a/b");
}

#[test]
fn absolute_paths_are_refused() {
    assert!(refused("/etc/passwd"));
    assert!(refused("\\windows\\system32"));
    assert!(refused("C:\\windows"));
    assert!(refused("c:relative"));
    assert!(refused("a/b:c"));
}

#[test]
fn empty_paths_are_refused() {
    assert!(refused(""));
    assert!(refused("   "));
    assert!(refused("\t\n"));
}

#[test]
fn paths_of_which_nothing_is_left_are_refused() {
    assert!(refused(".."));
    assert!(refused("."));
    assert!(refused("../.."));
    assert!(refused("./../."));
}

#[test]
fn invalid_characters_become_underscores() {
    assert_eq!(sanitize_path("a<b>c\"d|e?f*g").unwrap(), "a_b_c_d_e_f_g");
    assert_eq!(sanitize_path("dir/wh?t.txt").unwrap(), "dir/wh_t.txt");
}

#[test]
fn both_separators_part_components() {
    assert_eq!(sanitize_path("a\\b/c").unwrap(), "a/b/c");
    assert_eq!(sanitize_path("a//b\\\\c/").unwrap(), "a/b/c");
}

#[test]
fn white_space_at_the_ends_is_cut() {
    assert_eq!(sanitize_path("  a/b.txt \n").unwrap(), "a/b.txt");
    assert_eq!(sanitize_path("\u{a0}a\u{3000}").unwrap(), "a");
    assert_eq!(sanitize_path("a b/c d").unwrap(), "a b/c d");
}

#[test]
fn clean_paths_stay() {
    for p in ["a.txt", "c/d.txt", "deep/er/path/file.bin", "ünï/cödé", "...", "a..b/.c"] {
        assert_eq!(sanitize_path(p).unwrap(), p);
    }
}

#[test]
fn components_of_a_path() {
    let parts = sanitize_components("x/../y?/z").unwrap();
    assert_eq!(parts, vec![text("x"), text("y_"), text("z")]);
    assert_eq!(join_components(&parts), text("x/y_/z"));
    assert_eq!(join_components(&vec![]), text(""));
    assert_eq!(join_components(&vec![text("one")]), text("one"));
}

#[test]
fn characters_of_a_text() {
    assert_eq!(chars_of("héllo"), text("héllo"));
    assert_eq!(chars_of(""), text(""));
}

#[test]
fn trimming() {
    assert_eq!(trim_chars(&text("  a b \t")), text("a b"));
    assert_eq!(trim_chars(&text("   ")), text(""));
    assert_eq!(trim_chars(&text("")), text(""));
    assert_eq!(trim_chars(&text("x")), text("x"));
    assert_eq!(trim_end_chars(&text("  a b \r")), text("  a b"));
    assert_eq!(trim_end_chars(&text("\u{2003}\u{85}")), text(""));
}

#[test]
fn trimming_agrees_with_the_standard_library() {
    for code in 0u32..0x3100 {
        if let Some(c) = char::from_u32(code) {
            let s: String = [c, 'x', c].iter().collect();
            let expected: Vec<char> = s.trim().chars().collect();
            assert_eq!(trim_chars(&s.chars().collect()), expected);
        }
    }
}

#[test]
fn lines_are_trimmed_at_their_ends() {
    assert_eq!(trim_lines(&text("a  \nb\t\n")), text("a\nb"));
    assert_eq!(trim_lines(&text("a\r\nb\r\n")), text("a\nb"));
    assert_eq!(trim_lines(&text("")), text(""));
    assert_eq!(trim_lines(&text("\n")), text(""));
    assert_eq!(trim_lines(&text("a\n\n")), text("a\n"));
    assert_eq!(trim_lines(&text("  keep lead  ")), text("  keep lead"));
    assert_eq!(trim_lines(&text("x\n\n\ny")), text("x\n\n\ny"));
}

#[test]
fn lines_agree_with_the_standard_library() {
    for s in ["", "a", "a\n", "\n\n", "a \r\n b\t\r", " \n \n", "x\r", "l1\nl2  \nl3"] {
        let expected = s.lines().map(|l| l.trim_end()).collect::<Vec<&str>>().join("\n");
        assert_eq!(trim_lines(&text(s)), text(&expected));
    }
}

#[test]
fn lower_case() {
    assert_eq!(to_lower(&text("AbC.Z09É")), text("abc.z09É"));
}

#[test]
fn a_sanitized_path_split_at_its_slashes_gives_its_components() {
    for p in ["../../etc/passwd", "a\\b/c", " x/./y?/../z ", "one", "d/e//f/"] {
        let parts = sanitize_components(p).unwrap();
        let joined = sanitize_path(p).unwrap();
        let split: Vec<Vec<char>> = joined.split('/').map(|c| c.chars().collect()).collect();
        assert_eq!(split, parts);
        for part in &parts {
            let name: String = part.iter().collect();
            assert!(!name.is_empty());
            assert_ne!(name, ".");
            assert_ne!(name, "..");
            assert!(!name.contains(['/', '\\', ':', '<', '>', '"', '|', '?', '*']));
        }
    }
}
