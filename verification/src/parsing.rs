//! The path lexer and its supporting scans: decomposing a raw string into
//! drive, root and segments, and rendering a decomposition back to text.

use vstd::prelude::*;

use crate::flavor::PathFlavor;
use crate::flavor::sep_char;
use crate::grammar::PathModel;
use crate::grammar::anchor_spec;
use crate::grammar::all_parts_spec;
use crate::grammar::split_acc;
use crate::grammar::split_groups;
use crate::grammar::good_seg;
use crate::grammar::keep_good;
use crate::grammar::split_segments;
use crate::grammar::drop_leading;
use crate::grammar::first_index_of;
use crate::grammar::last_index_of;
use crate::grammar::norm_bs;
use crate::grammar::is_ascii_alpha;
use crate::grammar::parse_posix_spec;
use crate::grammar::win_decompose;
use crate::grammar::parse_windows_spec;
use crate::grammar::parse_spec;
use crate::grammar::join_with;
use crate::grammar::render_spec;
use crate::grammar::is_absolute_spec;
use crate::grammar::name_spec;
use crate::grammar::suffix_of_name;
use crate::grammar::stem_of_name;
use crate::grammar::suffixes_of_name;
use crate::grammar::join_spec;
use crate::grammar::parent_spec;
use crate::grammar::fold_spec;
use crate::grammar::lemma_keep_good_push;
use crate::grammar::lemma_split_segments_single;
use crate::strutil::chars_of;
use crate::strutil::lower_of;
use crate::strutil::string_from_chars;
use crate::strutil::lowercase;
use crate::strutil::clone_strings;

verus! {

/// Parsed path components: the drive (non-empty only for backslash-flavor
/// drive letters and UNC authorities), the root separator sequence, and the
/// segments, which exclude empty strings and `"."`.
#[derive(Clone, Debug)]
pub struct ParsedPath {
    /// Drive letter or UNC authority, or empty.
    pub drive: String,
    /// Root separator sequence, or empty.
    pub root: String,
    /// Path segments (directories and filename).
    pub parts: Vec<String>,
}

impl View for ParsedPath {
    type V = PathModel;

    open spec fn view(&self) -> PathModel {
        PathModel { drive: self.drive@, root: self.root@, parts: self.parts.deep_view() }
    }
}

/// `first_index_of` is determined by the first occurrence.
proof fn lemma_first_index_unique(s: Seq<char>, c: char, j: int)
    requires
        0 <= j < s.len(),
        s[j] == c,
        forall|k: int| 0 <= k < j ==> s[k] != c,
    ensures
        s.contains(c),
        first_index_of(s, c) == j,
    decreases j,
{
    assert(s.contains(c));
    if j == 0 {
        assert(first_index_of(s, c) == 0);
    } else {
        assert(s[0] != c);
        lemma_first_index_unique(s.skip(1), c, j - 1);
        assert(first_index_of(s, c) == 1 + first_index_of(s.skip(1), c));
    }
}

/// Finds the first occurrence of `c` in `v` at or after `start`.
pub(crate) fn find_char(v: &Vec<char>, start: usize, c: char) -> (r: Option<usize>)
    requires
        start <= v@.len(),
    ensures
        match r {
            Some(j) => {
                &&& start <= j < v@.len()
                &&& v@[j as int] == c
                &&& forall|k: int| start <= k < j ==> v@[k] != c
                &&& v@.skip(start as int).contains(c)
                &&& first_index_of(v@.skip(start as int), c) == j - start
            },
            None => !v@.skip(start as int).contains(c),
        },
{
    let mut i: usize = start;
    while i < v.len()
        invariant
            start <= i <= v@.len(),
            forall|k: int| start <= k < i ==> v@[k] != c,
        decreases v@.len() - i,
    {
        if v[i] == c {
            proof {
                let s = v@.skip(start as int);
                assert(s[i - start] == v@[i as int]);
                assert(forall|k: int| 0 <= k < i - start ==> s[k] == v@[k + start] && s[k] != c);
                lemma_first_index_unique(s, c, i - start);
            }
            return Some(i);
        }
        i = i + 1;
    }
    proof {
        let s = v@.skip(start as int);
        assert(forall|k: int| 0 <= k < s.len() ==> s[k] == v@[k + start] && s[k] != c);
        assert(!s.contains(c));
    }
    None
}

/// `drop_leading` steps over one leading occurrence.
proof fn lemma_drop_leading_step(s: Seq<char>, i: int, c: char)
    requires
        0 <= i < s.len(),
        s[i] == c,
    ensures
        drop_leading(s.skip(i), c) == drop_leading(s.skip(i + 1), c),
{
    assert(s.skip(i)[0] == c);
    assert(s.skip(i).skip(1) =~= s.skip(i + 1));
}

/// Returns the first index at or after `start` whose character is not `c`
/// (or the length), so that the tail from there is the tail from `start`
/// with its leading `c`s removed.
fn skip_leading(v: &Vec<char>, start: usize, c: char) -> (r: usize)
    requires
        start <= v@.len(),
    ensures
        start <= r <= v@.len(),
        v@.skip(r as int) == drop_leading(v@.skip(start as int), c),
{
    let mut i: usize = start;
    while i < v.len()
        invariant
            start <= i <= v@.len(),
            drop_leading(v@.skip(start as int), c) == drop_leading(v@.skip(i as int), c),
        decreases v@.len() - i,
    {
        if v[i] != c {
            proof {
                assert(v@.skip(i as int)[0] != c);
                assert(drop_leading(v@.skip(i as int), c) == v@.skip(i as int));
            }
            return i;
        }
        proof {
            lemma_drop_leading_step(v@, i as int, c);
        }
        i = i + 1;
    }
    proof {
        assert(v@.skip(i as int).len() == 0);
        assert(drop_leading(v@.skip(i as int), c) =~= v@.skip(i as int));
    }
    i
}

/// Appends `v[from..to]` to `dst`.
fn push_range(dst: &mut Vec<char>, v: &Vec<char>, from: usize, to: usize)
    requires
        from <= to <= v@.len(),
    ensures
        final(dst)@ == old(dst)@ + v@.subrange(from as int, to as int),
{
    let mut i: usize = from;
    while i < to
        invariant
            from <= i <= to <= v@.len(),
            dst@ == old(dst)@ + v@.subrange(from as int, i as int),
        decreases to - i,
    {
        dst.push(v[i]);
        proof {
            assert(old(dst)@ + v@.subrange(from as int, i + 1 as int) =~= (old(dst)@
                + v@.subrange(from as int, i as int)).push(v@[i as int]));
        }
        i = i + 1;
    }
}

/// Splits `v[start..]` at `sep` into owned strings; with `keep_all` every
/// group is kept, else empty and `"."` groups are dropped.
pub(crate) fn split_into(v: &Vec<char>, start: usize, sep: char, keep_all: bool) -> (r: Vec<String>)
    requires
        start <= v@.len(),
    ensures
        keep_all ==> r.deep_view() == split_groups(v@.skip(start as int), sep),
        !keep_all ==> r.deep_view() == split_segments(v@.skip(start as int), sep),
{
    let ghost tail = v@.skip(start as int);
    let mut out: Vec<String> = Vec::new();
    let mut cur: Vec<char> = Vec::new();
    let ghost mut done: Seq<Seq<char>> = Seq::empty();
    let mut i: usize = start;
    proof {
        assert(v@.subrange(start as int, start as int) =~= Seq::<char>::empty());
        assert(split_acc(Seq::<char>::empty(), sep) == (Seq::<Seq<char>>::empty(),
        Seq::<char>::empty()));
    }
    while i < v.len()
        invariant
            start <= i <= v@.len(),
            tail == v@.skip(start as int),
            split_acc(v@.subrange(start as int, i as int), sep) == (done, cur@),
            keep_all ==> out.deep_view() == done,
            !keep_all ==> out.deep_view() == keep_good(done),
        decreases v@.len() - i,
    {
        let ghost pre = v@.subrange(start as int, i as int);
        let ghost post = v@.subrange(start as int, i + 1 as int);
        proof {
            assert(post.drop_last() =~= pre);
            assert(post.last() == v@[i as int]);
        }
        let c = v[i];
        if c == sep {
            let is_good = cur.len() > 0 && !(cur.len() == 1 && cur[0] == '.');
            proof {
                if cur@.len() == 1 && cur@[0] == '.' {
                    assert(cur@ =~= seq!['.']);
                }
                if cur@ == seq!['.'] {
                    assert(cur@.len() == 1 && cur@[0] == '.');
                }
                assert(is_good == good_seg(cur@));
                lemma_keep_good_push(done, cur@);
            }
            if keep_all || is_good {
                let s = string_from_chars(&cur);
                out.push(s);
                proof {
                    assert(out.deep_view() =~= out.deep_view().drop_last().push(cur@));
                }
            }
            proof {
                done = done.push(cur@);
            }
            cur = Vec::new();
        } else {
            cur.push(c);
        }
        i = i + 1;
    }
    proof {
        assert(v@.subrange(start as int, v@.len() as int) =~= tail);
    }
    let is_good = cur.len() > 0 && !(cur.len() == 1 && cur[0] == '.');
    proof {
        if cur@.len() == 1 && cur@[0] == '.' {
            assert(cur@ =~= seq!['.']);
        }
        if cur@ == seq!['.'] {
            assert(cur@.len() == 1 && cur@[0] == '.');
        }
        assert(is_good == good_seg(cur@));
        assert(split_groups(tail, sep) == done.push(cur@));
        lemma_keep_good_push(done, cur@);
    }
    if keep_all || is_good {
        let s = string_from_chars(&cur);
        out.push(s);
        proof {
            assert(out.deep_view() =~= out.deep_view().drop_last().push(cur@));
        }
    }
    proof {
        if !keep_all {
            assert(keep_good(done.push(cur@)) == if good_seg(cur@) {
                keep_good(done).push(cur@)
            } else {
                keep_good(done)
            });
            assert(out.deep_view() =~= split_segments(tail, sep));
        } else {
            assert(out.deep_view() =~= split_groups(tail, sep));
        }
    }
    out
}

/// A one-character string.
fn char_string(c: char) -> (r: String)
    ensures
        r@ =~= seq![c],
{
    let mut v: Vec<char> = Vec::new();
    v.push(c);
    string_from_chars(&v)
}

/// A copy of the first `m` strings of `v`.
pub(crate) fn clone_prefix(v: &Vec<String>, m: usize) -> (r: Vec<String>)
    requires
        m <= v@.len(),
    ensures
        r.deep_view() == v.deep_view().take(m as int),
{
    let mut r: Vec<String> = Vec::new();
    let mut i: usize = 0;
    while i < m
        invariant
            i <= m <= v@.len(),
            r@.len() == i,
            forall|k: int| 0 <= k < i ==> r@[k] == v@[k],
        decreases m - i,
    {
        r.push(v[i].clone());
        i = i + 1;
    }
    proof {
        assert(forall|k: int| 0 <= k < i ==> r.deep_view()[k] == r@[k]@);
        assert(forall|k: int| 0 <= k < v@.len() ==> v.deep_view()[k] == v@[k]@);
        assert(r.deep_view() =~= v.deep_view().take(m as int));
    }
    r
}

/// A two-character string.
pub(crate) fn char2_string(c: char, d: char) -> (r: String)
    ensures
        r@ =~= seq![c, d],
{
    let mut v: Vec<char> = Vec::new();
    v.push(c);
    v.push(d);
    string_from_chars(&v)
}

/// A single plain segment decomposes to itself under either grammar.
proof fn lemma_parse_simple(s: Seq<char>, f: PathFlavor)
    requires
        s.len() > 0,
        s != seq!['.'],
        s != seq!['.', '.'],
        f == PathFlavor::Posix ==> !s.contains('/'),
        f == PathFlavor::Windows ==> !s.contains('/') && !s.contains('\\') && !s.contains(':'),
    ensures
        parse_spec(s, f) == (PathModel {
            drive: Seq::<char>::empty(),
            root: Seq::<char>::empty(),
            parts: seq![s],
        }),
{
    match f {
        PathFlavor::Posix => {
            assert(s[0] != '/') by {
                if s[0] == '/' {
                    assert(s.contains('/'));
                }
            }
            lemma_split_segments_single(s, '/');
            assert(parse_posix_spec(s) =~~= (PathModel {
                drive: Seq::<char>::empty(),
                root: Seq::<char>::empty(),
                parts: seq![s],
            }));
        },
        PathFlavor::Windows => {
            assert(forall|i: int| 0 <= i < s.len() ==> s[i] != '/') by {
                assert forall|i: int| 0 <= i < s.len() implies s[i] != '/' by {
                    if s[i] == '/' {
                        assert(s.contains('/'));
                    }
                }
            }
            let n = norm_bs(s);
            assert(n =~= s);
            assert(s[0] != '\\') by {
                if s[0] == '\\' {
                    assert(s.contains('\\'));
                }
            }
            if s.len() >= 2 {
                assert(s[1] != ':') by {
                    if s[1] == ':' {
                        assert(s.contains(':'));
                    }
                }
            }
            lemma_split_segments_single(s, '\\');
            assert(win_decompose(n) =~~= (PathModel {
                drive: Seq::<char>::empty(),
                root: Seq::<char>::empty(),
                parts: seq![s],
            }));
        },
    }
}

impl ParsedPath {
    /// Parse a path string according to the given flavor.  Total: every
    /// string, well-formed or not, yields the decomposition the grammar
    /// gives it.
    pub fn parse(path: &str, flavor: PathFlavor) -> (r: ParsedPath)
        ensures
            r@ == parse_spec(path@, flavor),
    {
        let cs = chars_of(path);
        // Fast path for simple names (no separators, no drive letter),
        // common when joining single segments.
        if cs.len() > 0 && Self::is_simple_name(&cs, flavor) {
            let mut parts: Vec<String> = Vec::new();
            parts.push(string_from_chars(&cs));
            proof {
                lemma_parse_simple(cs@, flavor);
                assert(parts.deep_view() =~= seq![cs@]);
            }
            return ParsedPath { drive: String::new(), root: String::new(), parts };
        }
        match flavor {
            PathFlavor::Posix => Self::parse_posix(&cs),
            PathFlavor::Windows => Self::parse_windows(&cs),
        }
    }

    /// Check if the characters form a simple name: no separators for the
    /// flavor, no colon under the backslash flavor, and not `"."`/`".."`.
    fn is_simple_name(cs: &Vec<char>, flavor: PathFlavor) -> (r: bool)
        ensures
            r == (cs@ != seq!['.'] && cs@ != seq!['.', '.'] && match flavor {
                PathFlavor::Posix => !cs@.contains('/'),
                PathFlavor::Windows => !cs@.contains('/') && !cs@.contains('\\')
                    && !cs@.contains(':'),
            }),
    {
        proof {
            assert(cs@.skip(0) =~= cs@);
        }
        let is_dot = cs.len() == 1 && cs[0] == '.';
        let is_dotdot = cs.len() == 2 && cs[0] == '.' && cs[1] == '.';
        proof {
            if is_dot {
                assert(cs@ =~= seq!['.']);
            }
            if cs@ == seq!['.'] {
                assert(cs@.len() == 1 && cs@[0] == '.');
            }
            if is_dotdot {
                assert(cs@ =~= seq!['.', '.']);
            }
            if cs@ == seq!['.', '.'] {
                assert(cs@.len() == 2 && cs@[0] == '.' && cs@[1] == '.');
            }
        }
        if is_dot || is_dotdot {
            return false;
        }
        match flavor {
            PathFlavor::Posix => find_char(cs, 0, '/').is_none(),
            PathFlavor::Windows => find_char(cs, 0, '/').is_none() && find_char(
                cs,
                0,
                '\\',
            ).is_none() && find_char(cs, 0, ':').is_none(),
        }
    }

    /// Parse a slash-flavor path: a reserved `"//"` root, a collapsing
    /// single root, or no root, then segments.
    fn parse_posix(cs: &Vec<char>) -> (r: ParsedPath)
        ensures
            r@ == parse_posix_spec(cs@),
    {
        proof {
            assert(cs@.skip(0) =~= cs@);
        }
        let mut root = String::new();
        let mut start: usize = 0;
        if cs.len() >= 2 && cs[0] == '/' && cs[1] == '/' && !(cs.len() >= 3 && cs[2] == '/') {
            root = char2_string('/', '/');
            start = 2;
        } else if cs.len() >= 1 && cs[0] == '/' {
            root = char_string('/');
            start = skip_leading(cs, 0, '/');
        }
        let parts = split_into(cs, start, '/', false);
        let r = ParsedPath { drive: String::new(), root, parts };
        proof {
            assert(r@ =~~= parse_posix_spec(cs@));
        }
        r
    }

    /// Parse a backslash-flavor path: normalize `/` to `\`, then detect a
    /// verbatim prefix, a UNC authority, a drive letter, a bare root, or a
    /// fully relative form, in that order.
    #[verifier::rlimit(50)]
    fn parse_windows(cs: &Vec<char>) -> (r: ParsedPath)
        ensures
            r@ == parse_windows_spec(cs@),
    {
        let n = normalize_backslash(cs);
        let ghost ns = norm_bs(cs@);
        proof {
            assert(ns.skip(0) =~= ns);
        }
        if n.len() >= 2 && n[0] == '\\' && n[1] == '\\' {
            let ghost after = ns.skip(2);
            if n.len() >= 4 && (n[2] == '?' || n[2] == '.') && n[3] == '\\' {
                // Verbatim device form: the third component is taken
                // verbatim as part of the drive.
                let ghost ap = ns.skip(4);
                proof {
                    assert(after.len() >= 2);
                    assert(after[0] == ns[2] && after[1] == ns[3]);
                    assert(ap =~= after.skip(2));
                }
                match find_char(&n, 4, '\\') {
                    Some(j) => {
                        let mut dv: Vec<char> = Vec::new();
                        dv.push('\\');
                        dv.push('\\');
                        dv.push(n[2]);
                        dv.push('\\');
                        push_range(&mut dv, &n, 4, j);
                        let ghost pos = j - 4;
                        proof {
                            assert(ap.take(pos) =~= ns.subrange(4, j as int));
                            assert(dv@ =~= seq!['\\', '\\'] + seq![after[0]] + seq!['\\']
                                + ap.take(pos));
                            assert(ns.skip(j + 1) =~= ap.skip(pos + 1));
                        }
                        let parts = split_into(&n, j + 1, '\\', false);
                        let r = ParsedPath {
                            drive: string_from_chars(&dv),
                            root: char_string('\\'),
                            parts,
                        };
                        proof {
                            assert(r@ =~~= win_decompose(ns));
                        }
                        r
                    },
                    None => {
                        proof {
                            assert(after.take(2) =~= ns.subrange(2, 4));
                            assert(ns =~= seq!['\\', '\\'] + after.take(2) + ap);
                        }
                        let parts: Vec<String> = Vec::new();
                        let r = ParsedPath {
                            drive: string_from_chars(&n),
                            root: String::new(),
                            parts,
                        };
                        proof {
                            assert(r.parts.deep_view() =~= Seq::<Seq<char>>::empty());
                            assert(r@ =~~= win_decompose(ns));
                        }
                        r
                    },
                }
            } else {
                // UNC authority: two components form the drive.
                match find_char(&n, 2, '\\') {
                    Some(p1) => {
                        let ghost server = after.take(p1 - 2);
                        let ghost rest1 = after.skip(p1 - 2 + 1);
                        proof {
                            assert(server =~= ns.subrange(2, p1 as int));
                            assert(rest1 =~= ns.skip(p1 + 1));
                        }
                        match find_char(&n, p1 + 1, '\\') {
                            Some(p2) => {
                                let mut dv: Vec<char> = Vec::new();
                                dv.push('\\');
                                dv.push('\\');
                                push_range(&mut dv, &n, 2, p1);
                                dv.push('\\');
                                push_range(&mut dv, &n, p1 + 1, p2);
                                proof {
                                    assert(rest1.take(p2 - (p1 + 1)) =~= ns.subrange(
                                        p1 + 1,
                                        p2 as int,
                                    ));
                                    assert(dv@ =~= seq!['\\', '\\'] + server + seq!['\\']
                                        + rest1.take(p2 - (p1 + 1)));
                                    assert(ns.skip(p2 + 1) =~= rest1.skip(p2 - (p1 + 1) + 1));
                                }
                                let parts = split_into(&n, p2 + 1, '\\', false);
                                let r = ParsedPath {
                                    drive: string_from_chars(&dv),
                                    root: char_string('\\'),
                                    parts,
                                };
                                proof {
                                    assert(r@ =~~= win_decompose(ns));
                                }
                                r
                            },
                            None => {
                                proof {
                                    assert(ns =~= seq!['\\', '\\'] + server + seq!['\\'] + rest1);
                                }
                                let parts: Vec<String> = Vec::new();
                                let r = ParsedPath {
                                    drive: string_from_chars(&n),
                                    root: char_string('\\'),
                                    parts,
                                };
                                proof {
                                    assert(r.parts.deep_view() =~= Seq::<Seq<char>>::empty());
                                    assert(r@ =~~= win_decompose(ns));
                                }
                                r
                            },
                        }
                    },
                    None => {
                        proof {
                            assert(ns =~= seq!['\\', '\\'] + after);
                        }
                        let parts: Vec<String> = Vec::new();
                        let r = ParsedPath {
                            drive: string_from_chars(&n),
                            root: String::new(),
                            parts,
                        };
                        proof {
                            assert(r.parts.deep_view() =~= Seq::<Seq<char>>::empty());
                            assert(r@ =~~= win_decompose(ns));
                        }
                        r
                    },
                }
            }
        } else if n.len() >= 2 && is_alpha(n[0]) && n[1] == ':' {
            // Drive letter, with or without a root after it.
            let mut dv: Vec<char> = Vec::new();
            dv.push(n[0]);
            dv.push(n[1]);
            proof {
                assert(dv@ =~= ns.take(2));
                assert(ns.skip(2).len() >= 1 ==> ns.skip(2)[0] == ns[2]);
            }
            let drive = string_from_chars(&dv);
            if n.len() >= 3 && n[2] == '\\' {
                let start = skip_leading(&n, 2, '\\');
                let parts = split_into(&n, start, '\\', false);
                let r = ParsedPath { drive, root: char_string('\\'), parts };
                proof {
                    assert(r@ =~~= win_decompose(ns));
                }
                r
            } else {
                let parts = split_into(&n, 2, '\\', false);
                let r = ParsedPath { drive, root: String::new(), parts };
                proof {
                    assert(r@ =~~= win_decompose(ns));
                }
                r
            }
        } else if n.len() >= 1 && n[0] == '\\' {
            // Rooted but drive-less.
            let start = skip_leading(&n, 0, '\\');
            let parts = split_into(&n, start, '\\', false);
            let r = ParsedPath { drive: String::new(), root: char_string('\\'), parts };
            proof {
                assert(r@ =~~= win_decompose(ns));
            }
            r
        } else {
            // Fully relative.
            let parts = split_into(&n, 0, '\\', false);
            let r = ParsedPath { drive: String::new(), root: String::new(), parts };
            proof {
                assert(r@ =~~= win_decompose(ns));
            }
            r
        }
    }
}

/// Finds the last occurrence of `c` in `v`.
fn find_last(v: &Vec<char>, c: char) -> (r: Option<usize>)
    ensures
        match r {
            Some(j) => j < v@.len() && last_index_of(v@, c) == j,
            None => last_index_of(v@, c) == -1,
        },
{
    let mut i: usize = v.len();
    while i > 0
        invariant
            i <= v@.len(),
            forall|k: int| i <= k < v@.len() ==> v@[k] != c,
        decreases i,
    {
        i = i - 1;
        if v[i] == c {
            proof {
                lemma_last_index_found(v@, c, i as int);
            }
            return Some(i);
        }
    }
    proof {
        lemma_last_index_absent(v@, c);
    }
    None
}

/// `last_index_of` is determined by the last occurrence.
proof fn lemma_last_index_found(s: Seq<char>, c: char, j: int)
    requires
        0 <= j < s.len(),
        s[j] == c,
        forall|k: int| j < k < s.len() ==> s[k] != c,
    ensures
        last_index_of(s, c) == j,
    decreases s.len(),
{
    if j == s.len() - 1 {
    } else {
        assert(s.last() != c);
        assert(forall|k: int| j < k < s.drop_last().len() ==> s.drop_last()[k] != c);
        assert(s.drop_last()[j] == c);
        lemma_last_index_found(s.drop_last(), c, j);
    }
}

/// Without an occurrence, `last_index_of` is `-1`.
proof fn lemma_last_index_absent(s: Seq<char>, c: char)
    requires
        forall|k: int| 0 <= k < s.len() ==> s[k] != c,
    ensures
        last_index_of(s, c) == -1,
    decreases s.len(),
{
    if s.len() > 0 {
        lemma_last_index_absent(s.drop_last(), c);
    }
}

/// Appends a copy of every string of `src` to `dst`.
fn extend_clone(dst: &mut Vec<String>, src: &Vec<String>)
    ensures
        final(dst).deep_view() == old(dst).deep_view() + src.deep_view(),
{
    let mut i: usize = 0;
    while i < src.len()
        invariant
            i <= src@.len(),
            dst@.len() == old(dst)@.len() + i,
            forall|k: int| 0 <= k < old(dst)@.len() ==> dst@[k] == old(dst)@[k],
            forall|k: int| 0 <= k < i ==> dst@[old(dst)@.len() + k] == src@[k],
        decreases src@.len() - i,
    {
        dst.push(src[i].clone());
        i = i + 1;
    }
    proof {
        assert(forall|k: int| 0 <= k < dst@.len() ==> dst.deep_view()[k] == dst@[k]@);
        assert(forall|k: int| 0 <= k < old(dst)@.len() ==> old(dst).deep_view()[k]
            == old(dst)@[k]@);
        assert(forall|k: int| 0 <= k < src@.len() ==> src.deep_view()[k] == src@[k]@);
        assert(dst.deep_view() =~= old(dst).deep_view() + src.deep_view());
    }
}

impl ParsedPath {
    /// A copy of this path.
    pub fn duplicate(&self) -> (r: ParsedPath)
        ensures
            r@ == self@,
    {
        let r = ParsedPath {
            drive: self.drive.clone(),
            root: self.root.clone(),
            parts: clone_strings(&self.parts),
        };
        proof {
            assert(r@ =~~= self@);
        }
        r
    }

    /// Returns the anchor: drive and root, concatenated.
    pub fn anchor(&self) -> (r: String)
        ensures
            r@ == anchor_spec(self@),
    {
        self.drive.clone().concat(self.root.as_str())
    }

    /// Check if the anchor is non-empty, without allocating.
    pub fn has_anchor(&self) -> (r: bool)
        ensures
            r == (anchor_spec(self@).len() > 0),
    {
        !self.drive.as_str().is_empty() || !self.root.as_str().is_empty()
    }

    /// Returns all parts, with the anchor first when there is one.
    pub fn all_parts(&self, _flavor: PathFlavor) -> (r: Vec<String>)
        ensures
            r.deep_view() == all_parts_spec(self@),
    {
        let mut result: Vec<String> = Vec::new();
        if self.has_anchor() {
            result.push(self.anchor());
        }
        proof {
            if anchor_spec(self@).len() > 0 {
                assert(result.deep_view() =~= seq![anchor_spec(self@)]);
            } else {
                assert(result.deep_view() =~= Seq::<Seq<char>>::empty());
            }
        }
        extend_clone(&mut result, &self.parts);
        proof {
            assert(result.deep_view() =~= all_parts_spec(self@));
        }
        result
    }

    /// Converts the parsed path back to a string: `"."` for a fully empty
    /// path, else the anchor followed by the separator-joined segments.
    pub fn to_string(&self, flavor: PathFlavor) -> (r: String)
        ensures
            r@ == render_spec(self@, flavor),
    {
        let anchor = self.anchor();
        if self.parts.len() == 0 {
            if anchor.as_str().is_empty() {
                let r = char_string('.');
                proof {
                    assert(r@ =~= render_spec(self@, flavor));
                }
                return r;
            }
            return anchor;
        }
        let sep = flavor.sep();
        let mut out: Vec<char> = chars_of(anchor.as_str());
        let ghost pp = self@.parts;
        let mut i: usize = 0;
        while i < self.parts.len()
            invariant
                i <= pp.len(),
                pp == self@.parts,
                self@.parts.len() == self.parts@.len(),
                out@ == anchor_spec(self@) + join_with(pp.take(i as int), sep_char(flavor)),
                sep == sep_char(flavor),
            decreases pp.len() - i,
        {
            if i > 0 {
                out.push(sep);
            }
            let pc = chars_of(self.parts[i].as_str());
            let pclen = pc.len();
            push_range(&mut out, &pc, 0, pclen);
            proof {
                assert(pc@.subrange(0, pc@.len() as int) =~= pp[i as int]);
                let t1 = pp.take(i + 1 as int);
                assert(t1.drop_last() =~= pp.take(i as int));
                assert(t1.last() == pp[i as int]);
                if i == 0 {
                    assert(join_with(t1, sep_char(flavor)) == pp[0]);
                    assert(out@ =~= anchor_spec(self@) + join_with(t1, sep_char(flavor)));
                } else {
                    assert(join_with(t1, sep_char(flavor)) == join_with(
                        pp.take(i as int),
                        sep_char(flavor),
                    ) + seq![sep_char(flavor)] + pp[i as int]);
                    assert(out@ =~= anchor_spec(self@) + join_with(t1, sep_char(flavor)));
                }
            }
            i = i + 1;
        }
        proof {
            assert(pp.take(pp.len() as int) =~= pp);
        }
        string_from_chars(&out)
    }

    /// Check if this path is absolute: the slash flavor needs a root, the
    /// backslash flavor both a drive and a root.
    pub fn is_absolute(&self, flavor: PathFlavor) -> (r: bool)
        ensures
            r == is_absolute_spec(self@, flavor),
    {
        match flavor {
            PathFlavor::Posix => !self.root.as_str().is_empty(),
            PathFlavor::Windows => !self.drive.as_str().is_empty()
                && !self.root.as_str().is_empty(),
        }
    }

    /// Get the name: the final segment, or empty.
    pub fn name(&self) -> (r: &str)
        ensures
            r@ == name_spec(self@),
    {
        if self.parts.len() > 0 {
            self.parts[self.parts.len() - 1].as_str()
        } else {
            let e = "";
            proof {
                reveal_strlit("");
                assert(e@ =~= Seq::<char>::empty());
            }
            e
        }
    }

    /// Get the suffix: from the last dot of the name to its end, provided
    /// that dot is not the first character; `"."` and `".."` have none.
    pub fn suffix(&self) -> (r: String)
        ensures
            r@ == suffix_of_name(name_spec(self@)),
    {
        let name = self.name();
        let nc = chars_of(name);
        if is_empty_or_dots(&nc) {
            return String::new();
        }
        match find_last(&nc, '.') {
            Some(d) => {
                if d > 0 {
                    let mut sv: Vec<char> = Vec::new();
                    let nclen = nc.len();
                    push_range(&mut sv, &nc, d, nclen);
                    proof {
                        assert(sv@ =~= nc@.skip(d as int));
                    }
                    string_from_chars(&sv)
                } else {
                    String::new()
                }
            },
            None => String::new(),
        }
    }

    /// Get the stem: the name with its suffix removed.
    pub fn stem(&self) -> (r: String)
        ensures
            r@ == stem_of_name(name_spec(self@)),
    {
        let name = self.name();
        let nc = chars_of(name);
        if is_empty_or_dots(&nc) {
            return string_from_chars(&nc);
        }
        match find_last(&nc, '.') {
            Some(d) => {
                if d > 0 {
                    let mut sv: Vec<char> = Vec::new();
                    push_range(&mut sv, &nc, 0, d);
                    proof {
                        assert(sv@ =~= nc@.take(d as int));
                    }
                    string_from_chars(&sv)
                } else {
                    string_from_chars(&nc)
                }
            },
            None => string_from_chars(&nc),
        }
    }

    /// Get all suffixes: each dot-delimited trailing group with its dot, in
    /// order; a leading dot marking a hidden name opens no group.
    pub fn suffixes(&self) -> (r: Vec<String>)
        ensures
            r.deep_view() == suffixes_of_name(name_spec(self@)),
    {
        let name = self.name();
        let nc = chars_of(name);
        let mut out: Vec<String> = Vec::new();
        if is_empty_or_dots(&nc) {
            proof {
                assert(out.deep_view() =~= suffixes_of_name(name_spec(self@)));
            }
            return out;
        }
        let start: usize = if nc[0] == '.' {
            1
        } else {
            0
        };
        let ghost rem = if nc@[0] == '.' {
            nc@.skip(1)
        } else {
            nc@
        };
        proof {
            assert(nc@.skip(start as int) =~= rem);
        }
        let groups = split_into(&nc, start, '.', true);
        let ghost gs = split_groups(rem, '.');
        proof {
            assert(gs.len() >= 1);
            assert(groups@.len() == gs.len());
        }
        let mut i: usize = 1;
        while i < groups.len()
            invariant
                1 <= i <= gs.len(),
                groups.deep_view() == gs,
                groups@.len() == gs.len(),
                out@.len() == i - 1,
                forall|k: int| 0 <= k < i - 1 ==> out@[k]@ == seq!['.'] + gs[k + 1],
            decreases gs.len() - i,
        {
            proof {
                assert(groups.deep_view()[i as int] == groups@[i as int]@);
            }
            let piece = char_string('.').concat(groups[i].as_str());
            out.push(piece);
            i = i + 1;
        }
        proof {
            assert(forall|k: int| 0 <= k < out@.len() ==> out.deep_view()[k] == out@[k]@);
            assert(out.deep_view() =~= suffixes_of_name(name_spec(self@)));
        }
        out
    }

    /// Join with another path: an absolute operand replaces the base, a
    /// different drive replaces the base, a rooted drive-less operand keeps
    /// the base's drive, else segments concatenate.
    pub fn join(&self, other: &ParsedPath, flavor: PathFlavor) -> (r: ParsedPath)
        ensures
            r@ == join_spec(self@, other@, flavor),
    {
        if other.is_absolute(flavor) {
            return other.duplicate();
        }
        if flavor == PathFlavor::Windows && !other.drive.as_str().is_empty() && !string_eq(
            &other.drive,
            &self.drive,
        ) {
            return other.duplicate();
        }
        if flavor == PathFlavor::Windows && !other.root.as_str().is_empty() {
            let r = ParsedPath {
                drive: self.drive.clone(),
                root: other.root.clone(),
                parts: clone_strings(&other.parts),
            };
            proof {
                assert(r@ =~~= join_spec(self@, other@, flavor));
            }
            return r;
        }
        let mut parts = clone_strings(&self.parts);
        extend_clone(&mut parts, &other.parts);
        let r = ParsedPath { drive: self.drive.clone(), root: self.root.clone(), parts };
        proof {
            assert(r@ =~~= join_spec(self@, other@, flavor));
        }
        r
    }

    /// Join with another path in place.
    pub fn join_mut(&mut self, other: &ParsedPath, flavor: PathFlavor)
        ensures
            final(self)@ == join_spec(old(self)@, other@, flavor),
    {
        if other.is_absolute(flavor) {
            self.drive = other.drive.clone();
            self.root = other.root.clone();
            self.parts = clone_strings(&other.parts);
            proof {
                assert(self@ =~~= join_spec(old(self)@, other@, flavor));
            }
            return;
        }
        if flavor == PathFlavor::Windows && !other.drive.as_str().is_empty() && !string_eq(
            &other.drive,
            &self.drive,
        ) {
            self.drive = other.drive.clone();
            self.root = other.root.clone();
            self.parts = clone_strings(&other.parts);
            proof {
                assert(self@ =~~= join_spec(old(self)@, other@, flavor));
            }
            return;
        }
        if flavor == PathFlavor::Windows && !other.root.as_str().is_empty() {
            self.root = other.root.clone();
            self.parts = clone_strings(&other.parts);
            proof {
                assert(self@ =~~= join_spec(old(self)@, other@, flavor));
            }
            return;
        }
        extend_clone(&mut self.parts, &other.parts);
        proof {
            assert(self@ =~~= join_spec(old(self)@, other@, flavor));
        }
    }

    /// Get the parent path: the last segment dropped; a path with no
    /// segments is its own parent.
    pub fn parent(&self) -> (r: ParsedPath)
        ensures
            r@ == parent_spec(self@),
    {
        if self.parts.len() == 0 {
            let r = self.duplicate();
            return r;
        }
        let mut parts: Vec<String> = Vec::new();
        let mut i: usize = 0;
        while i < self.parts.len() - 1
            invariant
                i <= self@.parts.len() - 1,
                self@.parts.len() == self.parts@.len(),
                self@.parts.len() >= 1,
                parts@.len() == i,
                parts.deep_view() == self@.parts.take(i as int),
            decreases self@.parts.len() - 1 - i,
        {
            parts.push(self.parts[i].clone());
            proof {
                assert(parts@.len() == i + 1);
                assert(forall|k: int| 0 <= k < parts@.len() ==> parts.deep_view()[k] == parts@[k]@);
                assert(parts.deep_view() =~= self@.parts.take(i + 1 as int));
            }
            i = i + 1;
        }
        let r = ParsedPath { drive: self.drive.clone(), root: self.root.clone(), parts };
        proof {
            assert(self@.parts.take(self@.parts.len() - 1) =~= self@.parts.drop_last());
            assert(r@ =~~= parent_spec(self@));
        }
        r
    }

    /// Case-fold for comparison: the slash flavor is untouched; the
    /// backslash flavor lower-cases the drive and every segment.
    pub fn case_fold(&self, flavor: PathFlavor) -> (r: ParsedPath)
        ensures
            r@ == fold_spec(self@, flavor),
    {
        if flavor == PathFlavor::Posix {
            return self.duplicate();
        }
        let mut parts: Vec<String> = Vec::new();
        let ghost folded = self@.parts.map_values(|p: Seq<char>| lower_of(p));
        let mut i: usize = 0;
        while i < self.parts.len()
            invariant
                i <= self@.parts.len(),
                self@.parts.len() == self.parts@.len(),
                folded == self@.parts.map_values(|p: Seq<char>| lower_of(p)),
                parts@.len() == i,
                parts.deep_view() == folded.take(i as int),
            decreases self@.parts.len() - i,
        {
            parts.push(lowercase(self.parts[i].as_str()));
            proof {
                assert(parts@.len() == i + 1);
                assert(parts@[i as int]@ == lower_of(self@.parts[i as int]));
                assert(forall|k: int| 0 <= k < parts@.len() ==> parts.deep_view()[k] == parts@[k]@);
                assert(parts.deep_view() =~= folded.take(i + 1 as int));
            }
            i = i + 1;
        }
        let r = ParsedPath {
            drive: lowercase(self.drive.as_str()),
            root: self.root.clone(),
            parts,
        };
        proof {
            assert(folded.take(folded.len() as int) =~= folded);
            assert(r@ =~~= fold_spec(self@, flavor));
        }
        r
    }
}

/// Whether two strings hold the same characters.
pub(crate) fn string_eq(a: &String, b: &String) -> (r: bool)
    ensures
        r == (a@ == b@),
{
    *a == *b
}

/// Whether the characters are empty, `"."` or `".."`.
fn is_empty_or_dots(nc: &Vec<char>) -> (r: bool)
    ensures
        r == (nc@.len() == 0 || nc@ == seq!['.'] || nc@ == seq!['.', '.']),
{
    let is_dot = nc.len() == 1 && nc[0] == '.';
    let is_dotdot = nc.len() == 2 && nc[0] == '.' && nc[1] == '.';
    proof {
        if is_dot {
            assert(nc@ =~= seq!['.']);
        }
        if nc@ == seq!['.'] {
            assert(nc@.len() == 1 && nc@[0] == '.');
        }
        if is_dotdot {
            assert(nc@ =~= seq!['.', '.']);
        }
        if nc@ == seq!['.', '.'] {
            assert(nc@.len() == 2 && nc@[0] == '.' && nc@[1] == '.');
        }
    }
    nc.len() == 0 || is_dot || is_dotdot
}

/// Whether `c` is an ASCII letter.
fn is_alpha(c: char) -> (r: bool)
    ensures
        r == is_ascii_alpha(c),
{
    ('a' <= c && c <= 'z') || ('A' <= c && c <= 'Z')
}

/// Replaces every `/` with `\`.
fn normalize_backslash(cs: &Vec<char>) -> (r: Vec<char>)
    ensures
        r@ == norm_bs(cs@),
{
    let mut r: Vec<char> = Vec::new();
    let mut i: usize = 0;
    while i < cs.len()
        invariant
            i <= cs@.len(),
            r@ =~= norm_bs(cs@).take(i as int),
        decreases cs@.len() - i,
    {
        let c = cs[i];
        if c == '/' {
            r.push('\\');
        } else {
            r.push(c);
        }
        proof {
            assert(norm_bs(cs@).take(i + 1 as int) =~= norm_bs(cs@).take(i as int).push(
                norm_bs(cs@)[i as int],
            ));
        }
        i = i + 1;
    }
    proof {
        assert(norm_bs(cs@).take(cs@.len() as int) =~= norm_bs(cs@));
    }
    r
}

} // verus!
