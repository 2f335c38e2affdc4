use pyopath::errors::PathError;
use pyopath::flavor::PathFlavor;
use pyopath::parsing::ParsedPath;
use pyopath::pure_path::PurePath;

fn pure(s: &str, f: PathFlavor) -> PurePath {
    PurePath::new_with_parsed(ParsedPath::parse(s, f), f)
}

#[test]
fn test_relative_to_self_is_empty() {
    for s in ["/a/b", "a", "", "C:\\x"] {
        for f in [PathFlavor::Posix, PathFlavor::Windows] {
            let p = pure(s, f);
            let r = p.compute_relative_to(&p, false).unwrap();
            assert!(r.get_parts().is_empty());
            let r2 = p.compute_relative_to(&p, true).unwrap();
            assert!(r2.get_parts().is_empty());
        }
    }
}

#[test]
fn test_relative_to_prefix() {
    let p = pure("/a/b/c", PathFlavor::Posix);
    let q = pure("/a", PathFlavor::Posix);
    let r = p.compute_relative_to(&q, false).unwrap();
    assert_eq!(r.to_str(), "b/c");
}

#[test]
fn test_relative_to_walk_up() {
    let p = pure("a/b/c", PathFlavor::Posix);
    let q = pure("a/x", PathFlavor::Posix);
    let r = p.compute_relative_to(&q, true).unwrap();
    assert_eq!(r.get_parts(), vec!["..", "b", "c"]);
}

#[test]
fn test_relative_to_errors() {
    let p = pure("/a/b", PathFlavor::Posix);
    let q = pure("/x", PathFlavor::Posix);
    assert!(matches!(p.compute_relative_to(&q, false), Err(PathError::NotRelative)));
    let rel = pure("a/b", PathFlavor::Posix);
    assert!(matches!(p.compute_relative_to(&rel, false), Err(PathError::NotRelative)));
    let w = pure("a/b", PathFlavor::Windows);
    assert!(matches!(p.compute_relative_to(&w, false), Err(PathError::FlavorMismatch)));
    assert_eq!(p.compare_lt(&w).unwrap_err(), PathError::FlavorMismatch);
}

#[test]
fn test_is_relative_to() {
    let p = pure("/a/b/c", PathFlavor::Posix);
    assert!(p.get_is_relative_to(&pure("/a/b", PathFlavor::Posix)));
    assert!(!p.get_is_relative_to(&pure("/b", PathFlavor::Posix)));
    let wp = pure("C:\\Users\\X", PathFlavor::Windows);
    assert!(wp.get_is_relative_to(&pure("c:\\users", PathFlavor::Windows)));
}

#[test]
fn test_with_name_and_errors() {
    let p = pure("/a/b.txt", PathFlavor::Posix);
    let r = p.compute_with_name("c.md").unwrap();
    assert_eq!(r.to_str(), "/a/c.md");
    assert!(matches!(p.compute_with_name(""), Err(PathError::InvalidComponent)));
    assert!(matches!(p.compute_with_name("x/y"), Err(PathError::InvalidComponent)));
    let rootp = pure("/", PathFlavor::Posix);
    assert!(matches!(rootp.compute_with_name("x"), Err(PathError::EmptyName)));
}

#[test]
fn test_with_stem() {
    let p = pure("a/b.tar.gz", PathFlavor::Posix);
    let r = p.compute_with_stem("c").unwrap();
    assert_eq!(r.to_str(), "a/c.gz");
}

#[test]
fn test_with_suffix_and_round_trip() {
    let p = pure("a/b", PathFlavor::Posix);
    let added = p.compute_with_suffix(".txt").unwrap();
    assert_eq!(added.to_str(), "a/b.txt");
    let removed = added.compute_with_suffix("").unwrap();
    let renamed = p.compute_with_name(&p.get_stem()).unwrap();
    assert_eq!(removed.to_str(), renamed.to_str());
    assert!(removed == renamed);
    assert!(matches!(p.compute_with_suffix("txt"), Err(PathError::InvalidComponent)));
    assert!(matches!(p.compute_with_suffix(".t/x"), Err(PathError::InvalidComponent)));
}

#[test]
fn test_eq_case_folding() {
    let a = pure("C:\\Users\\X", PathFlavor::Windows);
    let b = pure("c:\\users\\x", PathFlavor::Windows);
    assert!(a == b);
    let c = pure("/A", PathFlavor::Posix);
    let d = pure("/a", PathFlavor::Posix);
    assert!(c != d);
    let e = pure("a", PathFlavor::Posix);
    let f = pure("a", PathFlavor::Windows);
    assert!(e != f);
}

#[test]
fn test_compare_order() {
    let a = pure("a/b", PathFlavor::Posix);
    let b = pure("a/c", PathFlavor::Posix);
    assert!(a.compare_lt(&b).unwrap());
    assert!(!a.compare_gt(&b).unwrap());
    let wa = pure("C:\\A", PathFlavor::Windows);
    let wb = pure("c:\\b", PathFlavor::Windows);
    assert!(wa.compare_lt(&wb).unwrap());
}

#[test]
fn test_parents_chain() {
    let p = pure("/a/b", PathFlavor::Posix);
    let ps = p.get_parents();
    let shown: Vec<String> = ps.iter().map(|x| x.to_str()).collect();
    assert_eq!(shown, vec!["/a", "/"]);
    let q = pure("a/b", PathFlavor::Posix);
    let qs = q.get_parents();
    let qshown: Vec<String> = qs.iter().map(|x| x.to_str()).collect();
    assert_eq!(qshown, vec!["a"]);
}

#[test]
fn test_joinpath_and_from_args() {
    let p = pure("/a", PathFlavor::Posix);
    let j = p.compute_joinpath(&vec!["b".to_string(), "c/d".to_string()]);
    assert_eq!(j.to_str(), "/a/b/c/d");
    let built = PurePath::from_args_with_flavor(
        &vec!["x".to_string(), "/y".to_string(), "z".to_string()],
        PathFlavor::Posix,
    );
    assert_eq!(built.to_str(), "/y/z");
}

#[test]
fn test_as_posix_and_accessors() {
    let p = pure("C:\\u\\v", PathFlavor::Windows);
    assert_eq!(p.get_as_posix(), "C:/u/v");
    assert_eq!(p.get_drive(), "C:");
    assert_eq!(p.get_root(), "\\");
    assert_eq!(p.get_anchor(), "C:\\");
    assert_eq!(p.get_name(), "v");
    assert!(p.get_is_absolute());
    assert_eq!(p.get_parent().to_str(), "C:\\u");
}

#[test]
fn test_repr_string() {
    assert_eq!(pyopath::strutil::python_repr_string("abc"), "'abc'");
    assert_eq!(pyopath::strutil::python_repr_string("it's"), "\"it's\"");
    assert_eq!(pyopath::strutil::python_repr_string("a\\b"), "'a\\\\b'");
    assert_eq!(pyopath::strutil::python_repr_string("a'b\"c"), "'a\\'b\"c'");
}

#[test]
fn test_error_description() {
    assert!(!PathError::NotRelative.describe().is_empty());
    assert!(!PathError::PatternCompileError.describe().is_empty());
}

#[test]
fn test_compare_componentwise_not_rendered() {
    // Component-wise, ["a","b"] comes before ["a-b"], because "a" is a
    // proper prefix of "a-b"; comparing rendered strings would order them
    // the other way round, since '-' precedes '/'.
    let p1 = pure("a/b", PathFlavor::Posix);
    let p2 = pure("a-b", PathFlavor::Posix);
    assert!(p1.compare_lt(&p2).unwrap());
    assert!(!p2.compare_lt(&p1).unwrap());
    assert!(p2.compare_gt(&p1).unwrap());
    assert!(!p1.compare_gt(&p2).unwrap());
}

#[test]
fn test_compare_anchor_components() {
    let a = pure("C:\\x", PathFlavor::Windows);
    let b = pure("D:\\a", PathFlavor::Windows);
    assert!(a.compare_lt(&b).unwrap());
    let rel = pure("x", PathFlavor::Posix);
    let abs = pure("/x", PathFlavor::Posix);
    assert!(rel.compare_lt(&abs).unwrap());
    let same = pure("a/b", PathFlavor::Posix);
    assert!(!same.compare_lt(&same).unwrap());
    assert!(!same.compare_gt(&same).unwrap());
}

#[test]
fn test_clone_preserves_components() {
    let p = pure("/a/b.txt", PathFlavor::Posix);
    let q = p.clone();
    assert_eq!(q.to_str(), "/a/b.txt");
    assert!(p == q);
    let d = p.parsed.clone();
    assert_eq!(d.parts, vec!["a", "b.txt"]);
}
