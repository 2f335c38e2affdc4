//! The mathematical model of parsed paths and of the two path grammars.
//!
//! Everything here is specification-level: a `PathModel` describes a path as
//! a drive, a root and a sequence of segments, all over character sequences,
//! and the functions below define exactly how a raw string decomposes into a
//! model and how a model renders back to text.

use vstd::prelude::*;

use crate::flavor::PathFlavor;
use crate::flavor::sep_char;
use crate::strutil::lower_of;

verus! {

/// The components a path string decomposes into: the drive (empty unless the
/// backslash flavor found a drive letter or UNC authority), the root (the
/// separator sequence of an absolute base) and the named segments, which
/// never include empty strings or `"."`.
#[verifier::ext_equal]
pub ghost struct PathModel {
    pub drive: Seq<char>,
    pub root: Seq<char>,
    pub parts: Seq<Seq<char>>,
}

/// The anchor: drive and root, concatenated.
pub open spec fn anchor_spec(m: PathModel) -> Seq<char> {
    m.drive + m.root
}

/// Splitting, stated as a left fold: the finished segments of `s` and the
/// still-open segment after the last separator.
pub open spec fn split_acc(s: Seq<char>, sep: char) -> (Seq<Seq<char>>, Seq<char>)
    decreases s.len(),
{
    if s.len() == 0 {
        (Seq::empty(), Seq::empty())
    } else {
        let (done, cur) = split_acc(s.drop_last(), sep);
        if s.last() == sep {
            (done.push(cur), Seq::<char>::empty())
        } else {
            (done, cur.push(s.last()))
        }
    }
}

/// All groups `s` splits into at `sep`, kept verbatim (empty groups
/// included).
pub open spec fn split_groups(s: Seq<char>, sep: char) -> Seq<Seq<char>> {
    split_acc(s, sep).0.push(split_acc(s, sep).1)
}

/// A segment that survives parsing: non-empty and not `"."`.
pub open spec fn good_seg(s: Seq<char>) -> bool {
    s.len() > 0 && s != seq!['.']
}

/// The groups of `segs` that survive parsing, in order.
pub open spec fn keep_good(segs: Seq<Seq<char>>) -> Seq<Seq<char>>
    decreases segs.len(),
{
    if segs.len() == 0 {
        Seq::empty()
    } else {
        let r = keep_good(segs.drop_last());
        if good_seg(segs.last()) {
            r.push(segs.last())
        } else {
            r
        }
    }
}

/// The segments of `s` under separator `sep`: split, with empty and `"."`
/// groups dropped.
pub open spec fn split_segments(s: Seq<char>, sep: char) -> Seq<Seq<char>> {
    keep_good(split_groups(s, sep))
}

/// `s` with every leading `c` removed.
pub open spec fn drop_leading(s: Seq<char>, c: char) -> Seq<char>
    decreases s.len(),
{
    if s.len() > 0 && s[0] == c {
        drop_leading(s.skip(1), c)
    } else {
        s
    }
}

/// The least index at which `c` occurs in `s` (meaningful only when `s`
/// contains `c`).
pub open spec fn first_index_of(s: Seq<char>, c: char) -> int
    decreases s.len(),
{
    if s.len() == 0 {
        0
    } else if s[0] == c {
        0
    } else {
        1 + first_index_of(s.skip(1), c)
    }
}

/// The greatest index at which `c` occurs in `s`, or `-1` if it does not.
pub open spec fn last_index_of(s: Seq<char>, c: char) -> int
    decreases s.len(),
{
    if s.len() == 0 {
        -1
    } else if s.last() == c {
        s.len() - 1
    } else {
        last_index_of(s.drop_last(), c)
    }
}

/// The backslash flavor's normalization: every `/` becomes `\`.
pub open spec fn norm_bs(s: Seq<char>) -> Seq<char> {
    s.map_values(|c: char| if c == '/' { '\\' } else { c })
}

/// An ASCII letter, as a drive letter must be.
pub open spec fn is_ascii_alpha(c: char) -> bool {
    ('a' <= c && c <= 'z') || ('A' <= c && c <= 'Z')
}

/// The slash grammar's root: `"//"` for exactly two leading separators (a
/// reserved form), a single separator when one or more lead (three or more
/// collapse), else empty.
pub open spec fn posix_root(s: Seq<char>) -> Seq<char> {
    if s.len() >= 2 && s[0] == '/' && s[1] == '/' && !(s.len() >= 3 && s[2] == '/') {
        seq!['/', '/']
    } else if s.len() >= 1 && s[0] == '/' {
        seq!['/']
    } else {
        Seq::empty()
    }
}

/// What remains of a slash-flavor path once its root is consumed.
pub open spec fn posix_rest(s: Seq<char>) -> Seq<char> {
    if s.len() >= 2 && s[0] == '/' && s[1] == '/' && !(s.len() >= 3 && s[2] == '/') {
        s.skip(2)
    } else if s.len() >= 1 && s[0] == '/' {
        drop_leading(s, '/')
    } else {
        s
    }
}

/// Decomposition of a string under the slash grammar.
pub open spec fn parse_posix_spec(s: Seq<char>) -> PathModel {
    PathModel {
        drive: Seq::empty(),
        root: posix_root(s),
        parts: split_segments(posix_rest(s), '/'),
    }
}

/// Decomposition of an already-normalized string under the backslash
/// grammar.  Detected in priority order: a verbatim `\\?\` or `\\.\` prefix,
/// an ordinary UNC authority `\\server\share`, a drive letter `X:`, a bare
/// leading separator, else fully relative.
pub open spec fn win_decompose(n: Seq<char>) -> PathModel {
    if n.len() >= 2 && n[0] == '\\' && n[1] == '\\' {
        let after = n.skip(2);
        if after.len() >= 2 && (after[0] == '?' || after[0] == '.') && after[1] == '\\' {
            let ap = after.skip(2);
            if ap.contains('\\') {
                let pos = first_index_of(ap, '\\');
                PathModel {
                    drive: seq!['\\', '\\'] + seq![after[0]] + seq!['\\'] + ap.take(pos),
                    root: seq!['\\'],
                    parts: split_segments(ap.skip(pos + 1), '\\'),
                }
            } else {
                PathModel {
                    drive: seq!['\\', '\\'] + after.take(2) + ap,
                    root: Seq::empty(),
                    parts: Seq::empty(),
                }
            }
        } else {
            if after.contains('\\') {
                let p1 = first_index_of(after, '\\');
                let server = after.take(p1);
                let rest1 = after.skip(p1 + 1);
                if rest1.contains('\\') {
                    let p2 = first_index_of(rest1, '\\');
                    PathModel {
                        drive: seq!['\\', '\\'] + server + seq!['\\'] + rest1.take(p2),
                        root: seq!['\\'],
                        parts: split_segments(rest1.skip(p2 + 1), '\\'),
                    }
                } else {
                    PathModel {
                        drive: seq!['\\', '\\'] + server + seq!['\\'] + rest1,
                        root: seq!['\\'],
                        parts: Seq::empty(),
                    }
                }
            } else {
                PathModel {
                    drive: seq!['\\', '\\'] + after,
                    root: Seq::empty(),
                    parts: Seq::empty(),
                }
            }
        }
    } else if n.len() >= 2 && is_ascii_alpha(n[0]) && n[1] == ':' {
        let rem = n.skip(2);
        if rem.len() >= 1 && rem[0] == '\\' {
            PathModel {
                drive: n.take(2),
                root: seq!['\\'],
                parts: split_segments(drop_leading(rem, '\\'), '\\'),
            }
        } else {
            PathModel {
                drive: n.take(2),
                root: Seq::empty(),
                parts: split_segments(rem, '\\'),
            }
        }
    } else if n.len() >= 1 && n[0] == '\\' {
        PathModel {
            drive: Seq::empty(),
            root: seq!['\\'],
            parts: split_segments(drop_leading(n, '\\'), '\\'),
        }
    } else {
        PathModel { drive: Seq::empty(), root: Seq::empty(), parts: split_segments(n, '\\') }
    }
}

/// Decomposition of a string under the backslash grammar.
pub open spec fn parse_windows_spec(s: Seq<char>) -> PathModel {
    win_decompose(norm_bs(s))
}

/// Decomposition of a string under a flavor.  Total: every string has a
/// decomposition.
pub open spec fn parse_spec(s: Seq<char>, f: PathFlavor) -> PathModel {
    match f {
        PathFlavor::Posix => parse_posix_spec(s),
        PathFlavor::Windows => parse_windows_spec(s),
    }
}

/// Segments joined by a separator.
pub open spec fn join_with(parts: Seq<Seq<char>>, sep: char) -> Seq<char>
    decreases parts.len(),
{
    if parts.len() == 0 {
        Seq::empty()
    } else if parts.len() == 1 {
        parts[0]
    } else {
        join_with(parts.drop_last(), sep) + seq![sep] + parts.last()
    }
}

/// The canonical string form of a model: `"."` for a fully empty path, else
/// the anchor followed by the segments joined with the flavor's separator.
pub open spec fn render_spec(m: PathModel, f: PathFlavor) -> Seq<char> {
    if m.parts.len() == 0 {
        if anchor_spec(m).len() == 0 {
            seq!['.']
        } else {
            anchor_spec(m)
        }
    } else {
        anchor_spec(m) + join_with(m.parts, sep_char(f))
    }
}

/// Absoluteness: the slash flavor needs a root; the backslash flavor needs
/// both a drive and a root.
pub open spec fn is_absolute_spec(m: PathModel, f: PathFlavor) -> bool {
    match f {
        PathFlavor::Posix => m.root.len() > 0,
        PathFlavor::Windows => m.drive.len() > 0 && m.root.len() > 0,
    }
}

/// The final segment, or empty if there is none.
pub open spec fn name_spec(m: PathModel) -> Seq<char> {
    if m.parts.len() > 0 {
        m.parts.last()
    } else {
        Seq::empty()
    }
}

/// The suffix of a name: from the last dot to the end, provided that dot is
/// not the first character; `"."` and `".."` have no suffix.
pub open spec fn suffix_of_name(name: Seq<char>) -> Seq<char> {
    if name.len() == 0 || name == seq!['.'] || name == seq!['.', '.'] {
        Seq::empty()
    } else {
        let d = last_index_of(name, '.');
        if d > 0 {
            name.skip(d)
        } else {
            Seq::empty()
        }
    }
}

/// The stem of a name: the name with its suffix removed.
pub open spec fn stem_of_name(name: Seq<char>) -> Seq<char> {
    if name.len() == 0 || name == seq!['.'] || name == seq!['.', '.'] {
        name
    } else {
        let d = last_index_of(name, '.');
        if d > 0 {
            name.take(d)
        } else {
            name
        }
    }
}

/// Every dot-delimited trailing group of a name, each with its leading dot,
/// in order; a leading dot marking a hidden file opens no group.
pub open spec fn suffixes_of_name(name: Seq<char>) -> Seq<Seq<char>> {
    if name.len() == 0 || name == seq!['.'] || name == seq!['.', '.'] {
        Seq::empty()
    } else {
        let rem = if name[0] == '.' {
            name.skip(1)
        } else {
            name
        };
        let gs = split_groups(rem, '.');
        Seq::new((gs.len() - 1) as nat, |i: int| seq!['.'] + gs[i + 1])
    }
}

/// All components for display: the anchor first when there is one, then the
/// segments.
pub open spec fn all_parts_spec(m: PathModel) -> Seq<Seq<char>> {
    if anchor_spec(m).len() > 0 {
        seq![anchor_spec(m)] + m.parts
    } else {
        m.parts
    }
}

/// Joining under a flavor: an absolute operand replaces the base; a
/// different drive replaces the base; a rooted drive-less operand keeps the
/// base's drive; otherwise segments concatenate under the base's anchor.
pub open spec fn join_spec(a: PathModel, b: PathModel, f: PathFlavor) -> PathModel {
    if is_absolute_spec(b, f) {
        b
    } else if f == PathFlavor::Windows && b.drive.len() > 0 && b.drive != a.drive {
        b
    } else if f == PathFlavor::Windows && b.root.len() > 0 {
        PathModel { drive: a.drive, root: b.root, parts: b.parts }
    } else {
        PathModel { drive: a.drive, root: a.root, parts: a.parts + b.parts }
    }
}

/// The parent: the last segment dropped; a path with no segments is its own
/// parent.
pub open spec fn parent_spec(m: PathModel) -> PathModel {
    if m.parts.len() == 0 {
        m
    } else {
        PathModel { drive: m.drive, root: m.root, parts: m.parts.drop_last() }
    }
}

/// Case folding for comparison: the slash flavor is untouched; the backslash
/// flavor lower-cases the drive and every segment.
pub open spec fn fold_spec(m: PathModel, f: PathFlavor) -> PathModel {
    if f == PathFlavor::Posix {
        m
    } else {
        PathModel {
            drive: lower_of(m.drive),
            root: m.root,
            parts: m.parts.map_values(|p: Seq<char>| lower_of(p)),
        }
    }
}

/// `keep_good` distributes over `push`.
pub proof fn lemma_keep_good_push(segs: Seq<Seq<char>>, x: Seq<char>)
    ensures
        keep_good(segs.push(x)) == if good_seg(x) {
            keep_good(segs).push(x)
        } else {
            keep_good(segs)
        },
{
    assert(segs.push(x).drop_last() =~= segs);
    assert(segs.push(x).last() == x);
}

/// A separator-free string splits into itself alone.
pub proof fn lemma_split_acc_no_sep(s: Seq<char>, sep: char)
    requires
        !s.contains(sep),
    ensures
        split_acc(s, sep) == (Seq::<Seq<char>>::empty(), s),
    decreases s.len(),
{
    if s.len() == 0 {
        assert(split_acc(s, sep).1 =~= s);
    } else {
        assert(!s.drop_last().contains(sep)) by {
            if s.drop_last().contains(sep) {
                let i = choose|i: int| 0 <= i < s.drop_last().len() && s.drop_last()[i] == sep;
                assert(s[i] == sep);
                assert(s.contains(sep));
            }
        }
        assert(s.last() != sep) by {
            if s.last() == sep {
                assert(s[s.len() - 1] == sep);
                assert(s.contains(sep));
            }
        }
        lemma_split_acc_no_sep(s.drop_last(), sep);
        assert(split_acc(s, sep).1 =~= s);
    }
}

/// A good separator-free string is its own segment list.
pub proof fn lemma_split_segments_single(s: Seq<char>, sep: char)
    requires
        !s.contains(sep),
        good_seg(s),
    ensures
        split_segments(s, sep) == seq![s],
{
    lemma_split_acc_no_sep(s, sep);
    let g = Seq::<Seq<char>>::empty().push(s);
    assert(split_groups(s, sep) == g);
    lemma_keep_good_push(Seq::<Seq<char>>::empty(), s);
    assert(keep_good(g) =~= seq![s]);
}

/// An empty string splits into no segments.
pub proof fn lemma_split_segments_empty(sep: char)
    ensures
        split_segments(Seq::empty(), sep) == Seq::<Seq<char>>::empty(),
{
    let s = Seq::<char>::empty();
    assert(split_acc(s, sep).0 =~= Seq::<Seq<char>>::empty());
    assert(split_groups(s, sep) == Seq::<Seq<char>>::empty().push(Seq::<char>::empty()));
    lemma_keep_good_push(Seq::<Seq<char>>::empty(), Seq::<char>::empty());
    assert(keep_good(split_groups(s, sep)) =~= Seq::<Seq<char>>::empty());
}

} // verus!
