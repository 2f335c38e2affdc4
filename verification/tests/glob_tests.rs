use pyopath::errors::PathError;
use pyopath::flavor::PathFlavor;
use pyopath::globpat::GlobPattern;
use pyopath::parsing::ParsedPath;
use pyopath::traverse::TraversalCursor;

fn segs(parts: &[&str]) -> Vec<String> {
    parts.iter().map(|s| s.to_string()).collect()
}

#[test]
fn test_simple_star() {
    let g = GlobPattern::new("*.py").unwrap();
    assert!(g.matches(&segs(&["app.py"])));
    assert!(!g.matches(&segs(&["app.pyc"])));
    assert!(!g.matches(&segs(&["dir", "app.py"])));
    assert!(!g.matches(&segs(&[])));
}

#[test]
fn test_question_mark() {
    let g = GlobPattern::new("a?c").unwrap();
    assert!(g.matches(&segs(&["abc"])));
    assert!(g.matches(&segs(&["axc"])));
    assert!(!g.matches(&segs(&["ac"])));
    assert!(!g.matches(&segs(&["abbc"])));
}

#[test]
fn test_char_class() {
    let g = GlobPattern::new("[a-c]x").unwrap();
    assert!(g.matches(&segs(&["ax"])));
    assert!(g.matches(&segs(&["cx"])));
    assert!(!g.matches(&segs(&["dx"])));
    let n = GlobPattern::new("[!a-c]x").unwrap();
    assert!(!n.matches(&segs(&["ax"])));
    assert!(n.matches(&segs(&["dx"])));
}

#[test]
fn test_unterminated_class() {
    assert!(matches!(GlobPattern::new("[abc"), Err(PathError::PatternCompileError)));
    assert!(matches!(GlobPattern::new("x/[!"), Err(PathError::PatternCompileError)));
    assert!(GlobPattern::new("[]]").is_ok());
}

#[test]
fn test_literal_prefix_split() {
    let g = GlobPattern::new("src/lib/*.rs").unwrap();
    assert_eq!(g.prefix, vec!["src", "lib"]);
    assert!(!g.is_recursive);
    assert!(g.matches(&segs(&["src", "lib", "a.rs"])));
    assert!(!g.matches(&segs(&["src", "other", "a.rs"])));
}

#[test]
fn test_globstar_spans_segments() {
    let g = GlobPattern::new("**/*.py").unwrap();
    assert!(g.is_recursive);
    assert!(g.matches(&segs(&["app.py"])));
    assert!(g.matches(&segs(&["a", "b", "app.py"])));
    assert!(!g.matches(&segs(&["a", "b", "app.md"])));
}

#[test]
fn test_exact_match_no_partial() {
    let g = GlobPattern::new("a/*").unwrap();
    assert!(g.matches(&segs(&["a", "x"])));
    assert!(!g.matches(&segs(&["a", "x", "y"])));
    assert!(!g.matches(&segs(&["a"])));
}

#[test]
fn test_traversal_matches_only_pattern() {
    // A tree holding src/app.py and README.md against "**/*.py".
    let base = ParsedPath::parse("base", PathFlavor::Posix);
    let mut cur = TraversalCursor::start(&base, PathFlavor::Posix, "**/*.py").unwrap();
    let t0 = cur.next_dir().unwrap();
    assert_eq!(t0.path.to_string(PathFlavor::Posix), "base");
    let found0 = cur.advance(
        &t0,
        &vec![("src".to_string(), true), ("README.md".to_string(), false)],
    );
    assert!(found0.is_empty());
    let t1 = cur.next_dir().unwrap();
    assert_eq!(t1.path.to_string(PathFlavor::Posix), "base/src");
    let found1 = cur.advance(&t1, &vec![("app.py".to_string(), false)]);
    assert_eq!(found1.len(), 1);
    assert_eq!(found1[0].to_string(PathFlavor::Posix), "base/src/app.py");
    assert!(cur.next_dir().is_none());
}

#[test]
fn test_traversal_depth_capped_without_globstar() {
    let base = ParsedPath::parse("b", PathFlavor::Posix);
    let mut cur = TraversalCursor::start(&base, PathFlavor::Posix, "*.txt").unwrap();
    let t0 = cur.next_dir().unwrap();
    let found = cur.advance(
        &t0,
        &vec![("d".to_string(), true), ("x.txt".to_string(), false)],
    );
    assert_eq!(found.len(), 1);
    assert_eq!(found[0].to_string(PathFlavor::Posix), "b/x.txt");
    // The single-segment pattern cannot match deeper, so "d" is not queued.
    assert!(cur.next_dir().is_none());
}

#[test]
fn test_traversal_prefix_resolved() {
    let base = ParsedPath::parse("/r", PathFlavor::Posix);
    let mut cur = TraversalCursor::start(&base, PathFlavor::Posix, "sub/*.c").unwrap();
    let t0 = cur.next_dir().unwrap();
    assert_eq!(t0.path.to_string(PathFlavor::Posix), "/r/sub");
    let found = cur.advance(&t0, &vec![("m.c".to_string(), false)]);
    assert_eq!(found.len(), 1);
    assert_eq!(found[0].to_string(PathFlavor::Posix), "/r/sub/m.c");
}

#[test]
fn test_traversal_folds_case_for_backslash_flavor() {
    let base = ParsedPath::parse("b", PathFlavor::Windows);
    let mut cur = TraversalCursor::start(&base, PathFlavor::Windows, "*.PY").unwrap();
    let t0 = cur.next_dir().unwrap();
    let found = cur.advance(&t0, &vec![("App.py".to_string(), false)]);
    assert_eq!(found.len(), 1);
    assert_eq!(found[0].to_string(PathFlavor::Windows), "b\\App.py");
}

#[test]
fn test_traversal_posix_stays_case_sensitive() {
    let base = ParsedPath::parse("b", PathFlavor::Posix);
    let mut cur = TraversalCursor::start(&base, PathFlavor::Posix, "*.PY").unwrap();
    let t0 = cur.next_dir().unwrap();
    let found = cur.advance(&t0, &vec![("app.py".to_string(), false)]);
    assert!(found.is_empty());
}

#[test]
fn test_traversal_case_override() {
    let base = ParsedPath::parse("b", PathFlavor::Posix);
    let mut cur =
        TraversalCursor::start_with_case(&base, PathFlavor::Posix, "*.PY", false).unwrap();
    let t0 = cur.next_dir().unwrap();
    let found = cur.advance(&t0, &vec![("APP.py".to_string(), false)]);
    assert_eq!(found.len(), 1);
    assert_eq!(found[0].to_string(PathFlavor::Posix), "b/APP.py");
}

#[test]
fn test_recursive_flag_for_globstar_anywhere() {
    assert!(GlobPattern::new("**/x").unwrap().is_recursive);
    assert!(GlobPattern::new("a**b").unwrap().is_recursive);
    assert!(GlobPattern::new("x/a**").unwrap().is_recursive);
    assert!(!GlobPattern::new("*.py").unwrap().is_recursive);
    assert!(!GlobPattern::new("a*b/*c").unwrap().is_recursive);
}
