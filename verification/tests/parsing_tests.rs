use pyopath::flavor::PathFlavor;
use pyopath::parsing::ParsedPath;

#[test]
fn test_posix_simple() {
    let p = ParsedPath::parse("foo/bar", PathFlavor::Posix);
    assert_eq!(p.parts, vec!["foo", "bar"]);
    assert!(p.drive.is_empty());
    assert!(p.root.is_empty());
}

#[test]
fn test_posix_absolute() {
    let p = ParsedPath::parse("/foo/bar", PathFlavor::Posix);
    assert_eq!(p.parts, vec!["foo", "bar"]);
    assert_eq!(p.root, "/");
    assert!(p.is_absolute(PathFlavor::Posix));
}

#[test]
fn test_posix_double_slash() {
    let p = ParsedPath::parse("//foo/bar", PathFlavor::Posix);
    assert_eq!(p.root, "//");
    assert_eq!(p.parts, vec!["foo", "bar"]);
}

#[test]
fn test_windows_drive() {
    let p = ParsedPath::parse("C:\\foo\\bar", PathFlavor::Windows);
    assert_eq!(p.drive, "C:");
    assert_eq!(p.root, "\\");
    assert_eq!(p.parts, vec!["foo", "bar"]);
    assert!(p.is_absolute(PathFlavor::Windows));
}

#[test]
fn test_windows_unc() {
    let p = ParsedPath::parse("\\\\server\\share\\foo", PathFlavor::Windows);
    assert_eq!(p.drive, "\\\\server\\share");
    assert_eq!(p.root, "\\");
    assert_eq!(p.parts, vec!["foo"]);
}

#[test]
fn test_dot_segments_dropped_dotdot_kept() {
    let p = ParsedPath::parse("/a/b/c/../.", PathFlavor::Posix);
    assert_eq!(p.parts, vec!["a", "b", "c", ".."]);
    assert_eq!(p.root, "/");
}

#[test]
fn test_parse_render_idempotent_posix() {
    for s in ["/a//b/./c", "a///", "", ".", "//x", "///x", "a/.././b"] {
        let r1 = ParsedPath::parse(s, PathFlavor::Posix).to_string(PathFlavor::Posix);
        let r2 = ParsedPath::parse(&r1, PathFlavor::Posix).to_string(PathFlavor::Posix);
        assert_eq!(r1, r2);
    }
}

#[test]
fn test_parse_render_idempotent_windows() {
    for s in [
        "C:/Users//x",
        "\\\\srv\\share\\a\\.\\b",
        "\\\\?\\C:\\x",
        "C:rel",
        "\\rooted\\p",
        "plain",
        "",
    ] {
        let r1 = ParsedPath::parse(s, PathFlavor::Windows).to_string(PathFlavor::Windows);
        let r2 = ParsedPath::parse(&r1, PathFlavor::Windows).to_string(PathFlavor::Windows);
        assert_eq!(r1, r2);
    }
}

#[test]
fn test_double_slash_root_forms() {
    let p = ParsedPath::parse("//a/b", PathFlavor::Posix);
    assert_eq!(p.root, "//");
    assert_eq!(p.parts, vec!["a", "b"]);
    let q = ParsedPath::parse("///a", PathFlavor::Posix);
    assert_eq!(q.root, "/");
    assert_eq!(q.parts, vec!["a"]);
}

#[test]
fn test_windows_drive_relative() {
    let p = ParsedPath::parse("C:rel\\x", PathFlavor::Windows);
    assert_eq!(p.drive, "C:");
    assert_eq!(p.root, "");
    assert_eq!(p.parts, vec!["rel", "x"]);
    assert!(!p.is_absolute(PathFlavor::Windows));
}

#[test]
fn test_windows_verbatim_prefix() {
    let p = ParsedPath::parse("\\\\?\\C:\\data", PathFlavor::Windows);
    assert_eq!(p.drive, "\\\\?\\C:");
    assert_eq!(p.root, "\\");
    assert_eq!(p.parts, vec!["data"]);
}

#[test]
fn test_windows_drive_users() {
    let p = ParsedPath::parse("C:\\Users\\x", PathFlavor::Windows);
    assert_eq!(p.drive, "C:");
    assert_eq!(p.root, "\\");
    assert_eq!(p.parts, vec!["Users", "x"]);
    assert!(p.is_absolute(PathFlavor::Windows));
}

#[test]
fn test_windows_unc_short() {
    let p = ParsedPath::parse("\\\\srv\\share\\f", PathFlavor::Windows);
    assert_eq!(p.drive, "\\\\srv\\share");
    assert_eq!(p.root, "\\");
    assert_eq!(p.parts, vec!["f"]);
}

#[test]
fn test_suffixes_consecutive_dots() {
    let p = ParsedPath::parse("a..b", PathFlavor::Posix);
    assert_eq!(p.suffixes(), vec![".", ".b"]);
    assert_eq!(p.suffix(), ".b");
    let d = ParsedPath::parse("x/..", PathFlavor::Posix);
    assert_eq!(d.suffix(), "");
    assert_eq!(d.stem(), "..");
}

#[test]
fn test_name_suffix_stem() {
    let p = ParsedPath::parse("a/archive.tar.gz", PathFlavor::Posix);
    assert_eq!(p.name(), "archive.tar.gz");
    assert_eq!(p.stem(), "archive.tar");
    assert_eq!(p.suffix(), ".gz");
    assert_eq!(p.suffixes(), vec![".tar", ".gz"]);
    let h = ParsedPath::parse(".bashrc", PathFlavor::Posix);
    assert_eq!(h.suffix(), "");
    assert_eq!(h.stem(), ".bashrc");
    assert!(h.suffixes().is_empty());
}

#[test]
fn test_anchor_and_render() {
    let p = ParsedPath::parse("C:\\x\\y", PathFlavor::Windows);
    assert_eq!(p.anchor(), "C:\\");
    assert_eq!(p.to_string(PathFlavor::Windows), "C:\\x\\y");
    let empty = ParsedPath::parse("", PathFlavor::Posix);
    assert_eq!(empty.to_string(PathFlavor::Posix), ".");
    assert!(!empty.has_anchor());
}

#[test]
fn test_all_parts() {
    let p = ParsedPath::parse("/u/v", PathFlavor::Posix);
    assert_eq!(p.all_parts(PathFlavor::Posix), vec!["/", "u", "v"]);
    let q = ParsedPath::parse("u/v", PathFlavor::Posix);
    assert_eq!(q.all_parts(PathFlavor::Posix), vec!["u", "v"]);
}

#[test]
fn test_join_absolute_replaces() {
    let a = ParsedPath::parse("/a/b", PathFlavor::Posix);
    let b = ParsedPath::parse("/c", PathFlavor::Posix);
    let j = a.join(&b, PathFlavor::Posix);
    assert_eq!(j.to_string(PathFlavor::Posix), "/c");
    let r = ParsedPath::parse("x", PathFlavor::Posix);
    let j2 = a.join(&r, PathFlavor::Posix);
    assert_eq!(j2.to_string(PathFlavor::Posix), "/a/b/x");
}

#[test]
fn test_join_windows_drive_rules() {
    let base = ParsedPath::parse("C:\\u", PathFlavor::Windows);
    let other_drive = ParsedPath::parse("D:v", PathFlavor::Windows);
    let j = base.join(&other_drive, PathFlavor::Windows);
    assert_eq!(j.drive, "D:");
    assert_eq!(j.to_string(PathFlavor::Windows), "D:v");
    let rooted = ParsedPath::parse("\\w", PathFlavor::Windows);
    let j2 = base.join(&rooted, PathFlavor::Windows);
    assert_eq!(j2.drive, "C:");
    assert_eq!(j2.root, "\\");
    assert_eq!(j2.parts, vec!["w"]);
}

#[test]
fn test_join_associative_when_relative() {
    let a = ParsedPath::parse("a", PathFlavor::Posix);
    let b = ParsedPath::parse("b/c", PathFlavor::Posix);
    let c = ParsedPath::parse("d", PathFlavor::Posix);
    let left = a.join(&b, PathFlavor::Posix).join(&c, PathFlavor::Posix);
    let right = a.join(&b.join(&c, PathFlavor::Posix), PathFlavor::Posix);
    assert_eq!(left.to_string(PathFlavor::Posix), right.to_string(PathFlavor::Posix));
    assert_eq!(left.parts, right.parts);
}

#[test]
fn test_join_mut_matches_join() {
    let mut a = ParsedPath::parse("a/b", PathFlavor::Posix);
    let b = ParsedPath::parse("c", PathFlavor::Posix);
    let j = a.join(&b, PathFlavor::Posix);
    a.join_mut(&b, PathFlavor::Posix);
    assert_eq!(a.parts, j.parts);
    assert_eq!(a.root, j.root);
}

#[test]
fn test_parent() {
    let p = ParsedPath::parse("/a/b", PathFlavor::Posix);
    let q = p.parent();
    assert_eq!(q.to_string(PathFlavor::Posix), "/a");
    let root = ParsedPath::parse("/", PathFlavor::Posix);
    let r = root.parent();
    assert_eq!(r.to_string(PathFlavor::Posix), "/");
}

#[test]
fn test_case_fold() {
    let p = ParsedPath::parse("C:\\Users\\X", PathFlavor::Windows);
    let f = p.case_fold(PathFlavor::Windows);
    assert_eq!(f.drive, "c:");
    assert_eq!(f.parts, vec!["users", "x"]);
    let q = ParsedPath::parse("/A/B", PathFlavor::Posix);
    let g = q.case_fold(PathFlavor::Posix);
    assert_eq!(g.parts, vec!["A", "B"]);
}

#[test]
fn test_windows_drive_like_segment_renders_stably() {
    // An unanchored first segment that looks like a drive re-parses as one,
    // but the rendered text is unchanged.
    let r1 = ParsedPath::parse(".\\a:b", PathFlavor::Windows).to_string(PathFlavor::Windows);
    assert_eq!(r1, "a:b");
    let r2 = ParsedPath::parse(&r1, PathFlavor::Windows).to_string(PathFlavor::Windows);
    assert_eq!(r2, "a:b");
}

#[test]
fn test_windows_drive_like_dot_segment_degenerates() {
    // The one form where re-parsing renders differently: the dot after the
    // drive-like prefix is read as a droppable segment the second time.
    let r1 = ParsedPath::parse(".\\a:.", PathFlavor::Windows).to_string(PathFlavor::Windows);
    assert_eq!(r1, "a:.");
    let r2 = ParsedPath::parse(&r1, PathFlavor::Windows).to_string(PathFlavor::Windows);
    assert_eq!(r2, "a:");
}
