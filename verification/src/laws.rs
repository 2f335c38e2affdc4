//! Laws of the path algebra: statements that relate several operations,
//! proved once and for all inputs they name.

use vstd::prelude::*;

use crate::errors::PathError;
use crate::flavor::PathFlavor;
use crate::flavor::sep_char;
use crate::flavor::alt_sep_char;
use crate::grammar::PathModel;
use crate::grammar::anchor_spec;
use crate::grammar::split_acc;
use crate::grammar::split_groups;
use crate::grammar::split_segments;
use crate::grammar::good_seg;
use crate::grammar::keep_good;
use crate::grammar::join_with;
use crate::grammar::drop_leading;
use crate::grammar::posix_root;
use crate::grammar::posix_rest;
use crate::grammar::parse_posix_spec;
use crate::grammar::render_spec;
use crate::grammar::name_spec;
use crate::grammar::stem_of_name;
use crate::grammar::last_index_of;
use crate::grammar::join_spec;
use crate::grammar::fold_spec;
use crate::grammar::lemma_split_acc_no_sep;
use crate::grammar::lemma_keep_good_push;
use crate::pure_path::PureModel;
use crate::pure_path::common_prefix_len;
use crate::pure_path::dotdots;
use crate::pure_path::relative_to_spec;
use crate::pure_path::with_name_spec;
use crate::pure_path::with_suffix_spec;

verus! {

/// A segment list fit to be rendered and re-read: every segment non-empty,
/// not `"."`, and free of the separator.
pub open spec fn segs_wf(parts: Seq<Seq<char>>, sep: char) -> bool {
    forall|i: int| 0 <= i < parts.len() ==> good_seg(#[trigger] parts[i]) && !parts[i].contains(
        sep,
    )
}

/// Splitting a separator-free tail appends it to the open segment.
proof fn lemma_split_acc_append_no_sep(x: Seq<char>, y: Seq<char>, sep: char)
    requires
        !y.contains(sep),
    ensures
        split_acc(x + y, sep) == (split_acc(x, sep).0, split_acc(x, sep).1 + y),
    decreases y.len(),
{
    if y.len() == 0 {
        assert(x + y =~= x);
        assert(split_acc(x, sep).1 + y =~= split_acc(x, sep).1);
    } else {
        assert(!y.drop_last().contains(sep)) by {
            if y.drop_last().contains(sep) {
                let i = choose|i: int| 0 <= i < y.drop_last().len() && y.drop_last()[i] == sep;
                assert(y[i] == sep);
                assert(y.contains(sep));
            }
        }
        assert(y.last() != sep) by {
            if y.last() == sep {
                assert(y[y.len() - 1] == sep);
                assert(y.contains(sep));
            }
        }
        lemma_split_acc_append_no_sep(x, y.drop_last(), sep);
        assert((x + y).drop_last() =~= x + y.drop_last());
        assert((x + y).last() == y.last());
        assert(split_acc(x, sep).1 + y.drop_last() + seq![y.last()] =~= split_acc(x, sep).1 + y);
        assert(split_acc(x + y, sep).1 =~= split_acc(x, sep).1 + y);
    }
}

/// Splitting at a terminal separator closes the open segment.
proof fn lemma_split_acc_push_sep(x: Seq<char>, sep: char)
    ensures
        split_acc(x.push(sep), sep) == (split_groups(x, sep), Seq::<char>::empty()),
{
    assert(x.push(sep).drop_last() =~= x);
    assert(x.push(sep).last() == sep);
}

/// Splitting the join of well-formed segments returns the segments.
proof fn lemma_split_groups_join(parts: Seq<Seq<char>>, sep: char)
    requires
        parts.len() >= 1,
        forall|i: int| 0 <= i < parts.len() ==> !(#[trigger] parts[i]).contains(sep),
    ensures
        split_groups(join_with(parts, sep), sep) == parts,
    decreases parts.len(),
{
    if parts.len() == 1 {
        lemma_split_acc_no_sep(parts[0], sep);
        assert(split_groups(parts[0], sep) =~= parts);
    } else {
        let head = parts.drop_last();
        let x = join_with(head, sep);
        assert(forall|i: int| 0 <= i < head.len() ==> !(#[trigger] head[i]).contains(sep));
        lemma_split_groups_join(head, sep);
        let j = join_with(parts, sep);
        assert(j == x + seq![sep] + parts.last());
        assert(x + seq![sep] =~= x.push(sep));
        lemma_split_acc_push_sep(x, sep);
        lemma_split_acc_append_no_sep(x.push(sep), parts.last(), sep);
        assert(x.push(sep) + parts.last() =~= j);
        assert(split_acc(j, sep).0 == split_groups(x, sep));
        assert(split_acc(j, sep).1 =~= parts.last());
        assert(split_groups(j, sep) =~= head.push(parts.last()));
        assert(head.push(parts.last()) =~= parts);
    }
}

/// Keeping the good segments of an all-good list changes nothing.
proof fn lemma_keep_good_id(parts: Seq<Seq<char>>)
    requires
        forall|i: int| 0 <= i < parts.len() ==> good_seg(#[trigger] parts[i]),
    ensures
        keep_good(parts) == parts,
    decreases parts.len(),
{
    if parts.len() == 0 {
        assert(keep_good(parts) =~= parts);
    } else {
        assert(forall|i: int| 0 <= i < parts.drop_last().len() ==> good_seg(
            #[trigger] parts.drop_last()[i],
        ));
        lemma_keep_good_id(parts.drop_last());
        assert(good_seg(parts.last()));
        assert(keep_good(parts) =~= parts);
    }
}

/// Splitting the join of well-formed segments into kept segments returns
/// the segments.
proof fn lemma_split_segments_join(parts: Seq<Seq<char>>, sep: char)
    requires
        parts.len() >= 1,
        segs_wf(parts, sep),
    ensures
        split_segments(join_with(parts, sep), sep) == parts,
{
    lemma_split_groups_join(parts, sep);
    lemma_keep_good_id(parts);
}

/// A non-empty join starts with the first character of the first segment.
proof fn lemma_join_with_first(parts: Seq<Seq<char>>, sep: char)
    requires
        parts.len() >= 1,
        parts[0].len() >= 1,
    ensures
        join_with(parts, sep).len() >= parts[0].len(),
        join_with(parts, sep)[0] == parts[0][0],
    decreases parts.len(),
{
    if parts.len() == 1 {
    } else {
        lemma_join_with_first(parts.drop_last(), sep);
    }
}

/// A path decomposition the slash grammar can produce: no drive, one of the
/// three root forms, and well-formed segments.
pub open spec fn posix_wf(m: PathModel) -> bool {
    &&& m.drive.len() == 0
    &&& (m.root == Seq::<char>::empty() || m.root == seq!['/'] || m.root == seq!['/', '/'])
    &&& segs_wf(m.parts, '/')
}

/// Every element that `split_acc` produces is free of the separator.
proof fn lemma_split_acc_sep_free(s: Seq<char>, sep: char)
    ensures
        forall|i: int| 0 <= i < split_acc(s, sep).0.len() ==> !(#[trigger] split_acc(
            s,
            sep,
        ).0[i]).contains(sep),
        !split_acc(s, sep).1.contains(sep),
    decreases s.len(),
{
    if s.len() == 0 {
        assert(!split_acc(s, sep).1.contains(sep)) by {
            if split_acc(s, sep).1.contains(sep) {
                let i = choose|i: int|
                    0 <= i < split_acc(s, sep).1.len() && split_acc(s, sep).1[i] == sep;
            }
        }
    } else {
        lemma_split_acc_sep_free(s.drop_last(), sep);
        let (d0, c0) = split_acc(s.drop_last(), sep);
        if s.last() == sep {
            assert(split_acc(s, sep).0 == d0.push(c0));
            assert(forall|i: int| 0 <= i < d0.push(c0).len() ==> !(#[trigger] d0.push(c0)[i])
                .contains(sep));
            assert(!split_acc(s, sep).1.contains(sep)) by {
                if split_acc(s, sep).1.contains(sep) {
                    let i = choose|i: int|
                        0 <= i < split_acc(s, sep).1.len() && split_acc(s, sep).1[i] == sep;
                }
            }
        } else {
            assert(!c0.push(s.last()).contains(sep)) by {
                if c0.push(s.last()).contains(sep) {
                    let i = choose|i: int|
                        0 <= i < c0.push(s.last()).len() && c0.push(s.last())[i] == sep;
                    if i < c0.len() {
                        assert(c0[i] == sep);
                        assert(c0.contains(sep));
                    } else {
                        assert(s.last() == sep);
                    }
                }
            }
        }
    }
}

/// Every segment that `split_segments` produces is good and free of the
/// separator.
pub proof fn lemma_split_segments_wf(s: Seq<char>, sep: char)
    ensures
        segs_wf(split_segments(s, sep), sep),
{
    lemma_split_acc_sep_free(s, sep);
    let g = split_groups(s, sep);
    assert(forall|i: int| 0 <= i < g.len() ==> !(#[trigger] g[i]).contains(sep));
    lemma_keep_good_wf(g, sep);
}

/// `keep_good` yields good, separator-free segments from separator-free
/// groups.
proof fn lemma_keep_good_wf(groups: Seq<Seq<char>>, sep: char)
    requires
        forall|i: int| 0 <= i < groups.len() ==> !(#[trigger] groups[i]).contains(sep),
    ensures
        segs_wf(keep_good(groups), sep),
    decreases groups.len(),
{
    if groups.len() == 0 {
    } else {
        assert(forall|i: int| 0 <= i < groups.drop_last().len() ==> !(
        #[trigger] groups.drop_last()[i]).contains(sep));
        lemma_keep_good_wf(groups.drop_last(), sep);
        let k = keep_good(groups.drop_last());
        if good_seg(groups.last()) {
            assert(keep_good(groups) == k.push(groups.last()));
            assert(forall|i: int| 0 <= i < k.push(groups.last()).len() ==> good_seg(
                #[trigger] k.push(groups.last())[i],
            ) && !k.push(groups.last())[i].contains(sep));
        }
    }
}

/// What the slash grammar produces is well formed.
pub proof fn lemma_parse_posix_wf(s: Seq<char>)
    ensures
        posix_wf(parse_posix_spec(s)),
{
    lemma_split_segments_wf(posix_rest(s), '/');
}

/// Re-reading the rendered form of a well-formed slash-flavor
/// decomposition returns the decomposition.
pub proof fn lemma_parse_render_posix(m: PathModel)
    requires
        posix_wf(m),
    ensures
        parse_posix_spec(render_spec(m, PathFlavor::Posix)) == m,
{
    let s = render_spec(m, PathFlavor::Posix);
    assert(anchor_spec(m) =~= m.root);
    if m.parts.len() == 0 {
        if m.root.len() == 0 {
            assert(s == seq!['.']);
            lemma_split_acc_no_sep(seq!['.'], '/');
            lemma_keep_good_push(Seq::<Seq<char>>::empty(), seq!['.']);
            assert(split_segments(seq!['.'], '/') =~= Seq::<Seq<char>>::empty());
            assert(parse_posix_spec(s) =~~= m);
        } else if m.root == seq!['/'] {
            assert(s == seq!['/']);
            assert(posix_root(s) == seq!['/']);
            assert(s.skip(1) =~= Seq::<char>::empty());
            assert(drop_leading(s, '/') == drop_leading(s.skip(1), '/'));
            assert(posix_rest(s) =~= Seq::<char>::empty());
            crate::grammar::lemma_split_segments_empty('/');
            assert(parse_posix_spec(s) =~~= m);
        } else {
            assert(s == seq!['/', '/']);
            assert(posix_root(s) == seq!['/', '/']);
            assert(s.skip(2) =~= Seq::<char>::empty());
            crate::grammar::lemma_split_segments_empty('/');
            assert(parse_posix_spec(s) =~~= m);
        }
    } else {
        let j = join_with(m.parts, '/');
        assert(good_seg(m.parts[0]) && !m.parts[0].contains('/'));
        lemma_join_with_first(m.parts, '/');
        assert(j[0] != '/') by {
            if j[0] == '/' {
                assert(m.parts[0][0] == '/');
                assert(m.parts[0].contains('/'));
            }
        }
        lemma_split_segments_join(m.parts, '/');
        if m.root.len() == 0 {
            assert(s == j);
            assert(posix_root(s) =~= Seq::<char>::empty());
            assert(posix_rest(s) == s);
            assert(parse_posix_spec(s) =~~= m);
        } else if m.root == seq!['/'] {
            assert(s =~= seq!['/'] + j);
            assert(s[0] == '/' && s[1] == j[0]);
            assert(s[1] != '/');
            assert(posix_root(s) == seq!['/']);
            assert(s.skip(1) =~= j);
            assert(drop_leading(s, '/') == j) by {
                assert(s.skip(1) =~= j);
                assert(drop_leading(j, '/') == j);
            }
            assert(posix_rest(s) == j);
            assert(parse_posix_spec(s) =~~= m);
        } else {
            assert(s =~= seq!['/', '/'] + j);
            assert(s[0] == '/' && s[1] == '/' && s.len() >= 3 && s[2] == j[0]);
            assert(s[2] != '/');
            assert(posix_root(s) == seq!['/', '/']);
            assert(s.skip(2) =~= j);
            assert(posix_rest(s) == j);
            assert(parse_posix_spec(s) =~~= m);
        }
    }
}

/// Parsing then rendering is idempotent under the slash flavor: rendering
/// the re-parse of a rendered parse changes nothing.
pub proof fn lemma_parse_render_idempotent_posix(s: Seq<char>)
    ensures
        render_spec(
            parse_posix_spec(render_spec(parse_posix_spec(s), PathFlavor::Posix)),
            PathFlavor::Posix,
        ) == render_spec(parse_posix_spec(s), PathFlavor::Posix),
{
    lemma_parse_posix_wf(s);
    lemma_parse_render_posix(parse_posix_spec(s));
}

/// Joining is associative under the slash flavor, for any three operands.
pub proof fn lemma_join_associative_posix(a: PathModel, b: PathModel, c: PathModel)
    ensures
        join_spec(join_spec(a, b, PathFlavor::Posix), c, PathFlavor::Posix) == join_spec(
            a,
            join_spec(b, c, PathFlavor::Posix),
            PathFlavor::Posix,
        ),
{
    let f = PathFlavor::Posix;
    assert((a.parts + b.parts) + c.parts =~= a.parts + (b.parts + c.parts));
    assert(join_spec(join_spec(a, b, f), c, f) =~~= join_spec(a, join_spec(b, c, f), f));
}

/// Joining is associative under the backslash flavor whenever the rightmost
/// operand carries no drive.  (With a drive-carrying rightmost operand the
/// law fails: joining it can discard the middle operand's segments on one
/// side only.)
pub proof fn lemma_join_associative_windows(a: PathModel, b: PathModel, c: PathModel)
    requires
        c.drive.len() == 0,
    ensures
        join_spec(join_spec(a, b, PathFlavor::Windows), c, PathFlavor::Windows) == join_spec(
            a,
            join_spec(b, c, PathFlavor::Windows),
            PathFlavor::Windows,
        ),
{
    let f = PathFlavor::Windows;
    let ab = join_spec(a, b, f);
    let bc = join_spec(b, c, f);
    assert((a.parts + b.parts) + c.parts =~= a.parts + (b.parts + c.parts));
    assert(join_spec(ab, c, f) =~~= join_spec(a, bc, f));
}

/// Relativizing a path against itself yields the empty relative path,
/// whether or not walking up is allowed.
pub proof fn lemma_relative_to_self(m: PureModel, walk_up: bool)
    ensures
        relative_to_spec(m, m, walk_up) == Ok::<PathModel, PathError>(
            PathModel { drive: Seq::empty(), root: Seq::empty(), parts: Seq::empty() },
        ),
{
    let fm = fold_spec(m.path, m.flavor);
    lemma_common_prefix_self(fm.parts);
    assert(fm.parts.is_prefix_of(fm.parts)) by {
        assert(fm.parts =~= fm.parts.subrange(0, fm.parts.len() as int));
    }
    assert(fm.parts.len() == m.path.parts.len());
    assert(m.path.parts.skip(m.path.parts.len() as int) =~= Seq::<Seq<char>>::empty());
    if walk_up {
        assert(dotdots(0) =~= Seq::<Seq<char>>::empty());
        assert(dotdots(fm.parts.len() - fm.parts.len()) + m.path.parts.skip(
            fm.parts.len() as int,
        ) =~= Seq::<Seq<char>>::empty());
        assert(relative_to_spec(m, m, walk_up)->Ok_0 =~~= (PathModel {
            drive: Seq::empty(),
            root: Seq::empty(),
            parts: Seq::empty(),
        }));
    } else {
        assert(relative_to_spec(m, m, walk_up)->Ok_0 =~~= (PathModel {
            drive: Seq::empty(),
            root: Seq::empty(),
            parts: Seq::empty(),
        }));
    }
}

/// `last_index_of` is determined by the last occurrence.
proof fn lemma_last_index_at(s: Seq<char>, c: char, j: int)
    requires
        0 <= j < s.len(),
        s[j] == c,
        forall|k: int| j < k < s.len() ==> s[k] != c,
    ensures
        last_index_of(s, c) == j,
    decreases s.len(),
{
    if j == s.len() - 1 {
    } else {
        assert(s.last() != c);
        assert(forall|k: int| j < k < s.drop_last().len() ==> s.drop_last()[k] != c);
        assert(s.drop_last()[j] == c);
        lemma_last_index_at(s.drop_last(), c, j);
    }
}

/// `last_index_of` stays below the length.
proof fn lemma_last_index_range(s: Seq<char>, c: char)
    ensures
        -1 <= last_index_of(s, c) < s.len(),
    decreases s.len(),
{
    if s.len() > 0 && s.last() != c {
        lemma_last_index_range(s.drop_last(), c);
    }
}

/// A prefix of a sequence without `c` is without `c`.
proof fn lemma_take_free(s: Seq<char>, c: char, d: int)
    requires
        0 <= d <= s.len(),
        !s.contains(c),
    ensures
        !s.take(d).contains(c),
{
    if s.take(d).contains(c) {
        let i = choose|i: int| 0 <= i < s.take(d).len() && s.take(d)[i] == c;
        assert(s[i] == c);
        assert(s.contains(c));
    }
}

/// The stem of a separator-free, non-empty name other than `"."` is itself
/// non-empty and separator-free.
proof fn lemma_stem_wf(name: Seq<char>, c: char)
    requires
        name.len() > 0,
        name != seq!['.'],
        !name.contains(c),
    ensures
        stem_of_name(name).len() > 0,
        !stem_of_name(name).contains(c),
{
    if name == seq!['.', '.'] {
    } else {
        let d = last_index_of(name, '.');
        lemma_last_index_range(name, '.');
        if d > 0 {
            lemma_take_free(name, c, d);
        }
    }
}

/// Removing a suffix just added restores the stem-only name: renaming with
/// the given suffix appended to the stem and then stripping the suffix
/// equals renaming to the stem alone.  The name must be present,
/// separator-free and not `"."`; the suffix is a dot followed by dot-free,
/// separator-free text; and the degenerate pair of a bare-dot stem with a
/// bare-dot suffix is excluded, since their concatenation collapses to
/// `".."`.
pub proof fn lemma_with_suffix_round_trip(m: PathModel, sfx: Seq<char>, f: PathFlavor)
    requires
        name_spec(m).len() > 0,
        name_spec(m) != seq!['.'],
        !name_spec(m).contains(sep_char(f)),
        match alt_sep_char(f) {
            Some(a) => !name_spec(m).contains(a),
            None => true,
        },
        sfx.len() >= 1,
        sfx[0] == '.',
        forall|i: int| 1 <= i < sfx.len() ==> sfx[i] != '.',
        !sfx.skip(1).contains(sep_char(f)),
        match alt_sep_char(f) {
            Some(a) => !sfx.skip(1).contains(a),
            None => true,
        },
        !(stem_of_name(name_spec(m)) == seq!['.'] && sfx == seq!['.']),
    ensures
        with_suffix_spec(m, sfx, f) is Ok,
        with_suffix_spec(with_suffix_spec(m, sfx, f)->Ok_0, Seq::empty(), f) == with_name_spec(
            m,
            stem_of_name(name_spec(m)),
            f,
        ),
{
    let name = name_spec(m);
    let stem = stem_of_name(name);
    let sep = sep_char(f);
    lemma_stem_wf(name, sep);
    if alt_sep_char(f) is Some {
        lemma_stem_wf(name, alt_sep_char(f)->0);
    }
    let name2 = stem + sfx;
    // The new name carries no separator.
    assert(!name2.contains(sep)) by {
        if name2.contains(sep) {
            let i = choose|i: int| 0 <= i < name2.len() && name2[i] == sep;
            if i < stem.len() {
                assert(stem[i] == sep);
                assert(stem.contains(sep));
            } else if i == stem.len() {
                assert(name2[i] == '.');
            } else {
                assert(sfx.skip(1)[i - stem.len() - 1] == sep);
                assert(sfx.skip(1).contains(sep));
            }
        }
    }
    if alt_sep_char(f) is Some {
        let a = alt_sep_char(f)->0;
        assert(!name2.contains(a)) by {
            if name2.contains(a) {
                let i = choose|i: int| 0 <= i < name2.len() && name2[i] == a;
                if i < stem.len() {
                    assert(stem[i] == a);
                    assert(stem.contains(a));
                } else if i == stem.len() {
                    assert(name2[i] == '.');
                    assert(a != '.');
                } else {
                    assert(sfx.skip(1)[i - stem.len() - 1] == a);
                    assert(sfx.skip(1).contains(a));
                }
            }
        }
    }
    // The first application succeeds and renames the last segment.
    assert(m.parts.len() >= 1);
    let r1 = with_suffix_spec(m, sfx, f);
    assert(r1 == with_name_spec(m, name2, f));
    let m1 = r1->Ok_0;
    assert(m1.parts == m.parts.update(m.parts.len() - 1, name2));
    assert(m1.parts.len() == m.parts.len());
    assert(name_spec(m1) == name2);
    // The combined name is neither "." nor "..", and its last dot sits just
    // after the stem.
    assert(name2.len() >= 2);
    assert(name2 != seq!['.']);
    assert(name2 != seq!['.', '.']) by {
        if name2 == seq!['.', '.'] {
            assert(stem.len() == 1 && sfx.len() == 1);
            assert(stem[0] == name2[0]);
            assert(stem =~= seq!['.']);
            assert(sfx =~= seq!['.']);
        }
    }
    assert(name2[stem.len() as int] == '.');
    assert(forall|k: int| stem.len() < k < name2.len() ==> name2[k] != '.');
    lemma_last_index_at(name2, '.', stem.len() as int);
    assert(stem_of_name(name2) =~= stem) by {
        assert(name2.take(stem.len() as int) =~= stem);
    }
    // The second application strips the suffix back off.
    let r2 = with_suffix_spec(m1, Seq::empty(), f);
    assert(stem_of_name(name_spec(m1)) + Seq::<char>::empty() =~= stem);
    assert(r2 == with_name_spec(m1, stem, f));
    assert(with_name_spec(m1, stem, f) is Ok);
    assert(r2->Ok_0.parts == m1.parts.update(m1.parts.len() - 1, stem));
    assert(r2->Ok_0.parts =~= m.parts.update(m.parts.len() - 1, stem));
    assert(with_name_spec(m, stem, f) is Ok);
    assert(with_name_spec(m, stem, f)->Ok_0 =~~= r2->Ok_0);
}

/// A join of two or more segments splits off its first segment.
proof fn lemma_join_left(parts: Seq<Seq<char>>, sep: char)
    requires
        parts.len() >= 2,
    ensures
        join_with(parts, sep) == parts[0] + seq![sep] + join_with(parts.skip(1), sep),
    decreases parts.len(),
{
    if parts.len() == 2 {
        assert(parts.drop_last() =~= seq![parts[0]]);
        assert(join_with(parts.drop_last(), sep) == parts[0]);
        assert(parts.skip(1) =~= seq![parts[1]]);
        assert(join_with(parts.skip(1), sep) == parts[1]);
    } else {
        lemma_join_left(parts.drop_last(), sep);
        assert(parts.drop_last()[0] == parts[0]);
        assert(parts.drop_last().skip(1) =~= parts.skip(1).drop_last());
        assert(parts.skip(1).len() >= 2);
        assert(parts.skip(1).last() == parts.last());
        assert(join_with(parts.skip(1), sep) == join_with(parts.skip(1).drop_last(), sep)
            + seq![sep] + parts.last());
        assert(join_with(parts, sep) == join_with(parts.drop_last(), sep) + seq![sep]
            + parts.last());
        assert(join_with(parts.drop_last(), sep) + seq![sep] + parts.last() =~= parts[0]
            + seq![sep] + (join_with(parts.skip(1).drop_last(), sep) + seq![sep]
            + parts.last()));
    }
}

/// A join begins with its first segment.
proof fn lemma_join_prefix(parts: Seq<Seq<char>>, sep: char)
    requires
        parts.len() >= 1,
    ensures
        join_with(parts, sep).len() >= parts[0].len(),
        forall|k: int| 0 <= k < parts[0].len() ==> join_with(parts, sep)[k] == parts[0][k],
        parts.len() >= 2 ==> join_with(parts, sep).len() > parts[0].len() && join_with(
            parts,
            sep,
        )[parts[0].len() as int] == sep,
{
    if parts.len() >= 2 {
        lemma_join_left(parts, sep);
    }
}

/// Concatenation holds a character only if one side does.
proof fn lemma_concat_free(a: Seq<char>, b: Seq<char>, c: char)
    requires
        !a.contains(c),
        !b.contains(c),
    ensures
        !(a + b).contains(c),
{
    if (a + b).contains(c) {
        let i = choose|i: int| 0 <= i < (a + b).len() && (a + b)[i] == c;
        if i < a.len() {
            assert(a[i] == c);
        } else {
            assert(b[i - a.len()] == c);
        }
    }
}

/// A join of segments free of a non-separator character is free of it.
proof fn lemma_join_free(parts: Seq<Seq<char>>, sep: char, c: char)
    requires
        c != sep,
        forall|i: int| 0 <= i < parts.len() ==> !(#[trigger] parts[i]).contains(c),
    ensures
        !join_with(parts, sep).contains(c),
    decreases parts.len(),
{
    if parts.len() == 0 {
        assert(!join_with(parts, sep).contains(c)) by {
            if join_with(parts, sep).contains(c) {
                let i = choose|i: int|
                    0 <= i < join_with(parts, sep).len() && join_with(parts, sep)[i] == c;
            }
        }
    } else if parts.len() == 1 {
        assert(join_with(parts, sep) == parts[0]);
    } else {
        lemma_join_free(parts.drop_last(), sep, c);
        assert(!seq![sep].contains(c)) by {
            if seq![sep].contains(c) {
                let i = choose|i: int| 0 <= i < 1 && seq![sep][i] == c;
            }
        }
        lemma_concat_free(join_with(parts.drop_last(), sep), seq![sep], c);
        lemma_concat_free(join_with(parts.drop_last(), sep) + seq![sep], parts.last(), c);
        assert(join_with(parts, sep) =~= (join_with(parts.drop_last(), sep) + seq![sep])
            + parts.last());
    }
}

/// Normalization produces no slash, and leaves a slash-free string alone.
proof fn lemma_norm_props(s: Seq<char>)
    ensures
        !crate::grammar::norm_bs(s).contains('/'),
        !s.contains('/') ==> crate::grammar::norm_bs(s) == s,
{
    let n = crate::grammar::norm_bs(s);
    assert(!n.contains('/')) by {
        if n.contains('/') {
            let i = choose|i: int| 0 <= i < n.len() && n[i] == '/';
            assert(n[i] == if s[i] == '/' {
                '\\'
            } else {
                s[i]
            });
            assert(s[i] == '/');
            assert(s.contains('/'));
        }
    }
    if !s.contains('/') {
        assert forall|i: int| 0 <= i < s.len() implies n[i] == s[i] by {
            if s[i] == '/' {
                assert(s.contains('/'));
            }
        }
        assert(n =~= s);
    }
}

/// Every segment split out of a string free of some character is free of
/// that character.
proof fn lemma_split_acc_char_free(s: Seq<char>, sep: char, c: char)
    requires
        !s.contains(c),
    ensures
        forall|i: int| 0 <= i < split_acc(s, sep).0.len() ==> !(#[trigger] split_acc(
            s,
            sep,
        ).0[i]).contains(c),
        !split_acc(s, sep).1.contains(c),
    decreases s.len(),
{
    if s.len() == 0 {
        assert(!split_acc(s, sep).1.contains(c)) by {
            if split_acc(s, sep).1.contains(c) {
                let i = choose|i: int|
                    0 <= i < split_acc(s, sep).1.len() && split_acc(s, sep).1[i] == c;
            }
        }
    } else {
        assert(!s.drop_last().contains(c)) by {
            if s.drop_last().contains(c) {
                let i = choose|i: int| 0 <= i < s.drop_last().len() && s.drop_last()[i] == c;
                assert(s[i] == c);
            }
        }
        assert(s.last() != c) by {
            if s.last() == c {
                assert(s[s.len() - 1] == c);
            }
        }
        lemma_split_acc_char_free(s.drop_last(), sep, c);
        let (d0, c0) = split_acc(s.drop_last(), sep);
        if s.last() == sep {
            assert(forall|i: int| 0 <= i < d0.push(c0).len() ==> !(#[trigger] d0.push(c0)[i])
                .contains(c));
            assert(!split_acc(s, sep).1.contains(c)) by {
                if split_acc(s, sep).1.contains(c) {
                    let i = choose|i: int|
                        0 <= i < split_acc(s, sep).1.len() && split_acc(s, sep).1[i] == c;
                }
            }
        } else {
            assert(!c0.push(s.last()).contains(c)) by {
                if c0.push(s.last()).contains(c) {
                    let i = choose|i: int|
                        0 <= i < c0.push(s.last()).len() && c0.push(s.last())[i] == c;
                    if i < c0.len() {
                        assert(c0[i] == c);
                        assert(c0.contains(c));
                    }
                }
            }
        }
    }
}

/// `keep_good` keeps only character-free segments of character-free groups.
proof fn lemma_keep_good_char_free(groups: Seq<Seq<char>>, c: char)
    requires
        forall|i: int| 0 <= i < groups.len() ==> !(#[trigger] groups[i]).contains(c),
    ensures
        forall|i: int| 0 <= i < keep_good(groups).len() ==> !(#[trigger] keep_good(groups)[i])
            .contains(c),
    decreases groups.len(),
{
    if groups.len() > 0 {
        assert(forall|i: int| 0 <= i < groups.drop_last().len() ==> !(
        #[trigger] groups.drop_last()[i]).contains(c));
        lemma_keep_good_char_free(groups.drop_last(), c);
        let k = keep_good(groups.drop_last());
        if good_seg(groups.last()) {
            assert(keep_good(groups) == k.push(groups.last()));
            assert(forall|i: int| 0 <= i < k.push(groups.last()).len() ==> !(#[trigger] k.push(
                groups.last(),
            )[i]).contains(c));
        }
    }
}

/// Every segment of a split of a character-free string is free of that
/// character.
proof fn lemma_split_segments_char_free(s: Seq<char>, sep: char, c: char)
    requires
        !s.contains(c),
    ensures
        forall|i: int| 0 <= i < split_segments(s, sep).len() ==> !(#[trigger] split_segments(
            s,
            sep,
        )[i]).contains(c),
{
    lemma_split_acc_char_free(s, sep, c);
    let g = split_groups(s, sep);
    assert(forall|i: int| 0 <= i < g.len() ==> !(#[trigger] g[i]).contains(c));
    lemma_keep_good_char_free(g, c);
}

/// A segment the backslash grammar can produce: non-empty, not `"."`, and
/// free of both separators.
pub open spec fn win_seg_ok(p: Seq<char>) -> bool {
    good_seg(p) && !p.contains('\\') && !p.contains('/')
}

/// A path decomposition the backslash grammar can produce.
pub open spec fn win_wf(m: PathModel) -> bool {
    &&& forall|i: int| 0 <= i < m.parts.len() ==> win_seg_ok(#[trigger] m.parts[i])
    &&& !m.drive.contains('/')
    &&& ({
        ||| (m.drive.len() == 0 && (m.root == Seq::<char>::empty() || m.root == seq!['\\']))
        ||| (m.drive.len() == 2 && crate::grammar::is_ascii_alpha(m.drive[0]) && m.drive[1]
            == ':' && (m.root == Seq::<char>::empty() || m.root == seq!['\\']))
        ||| (m.drive.len() >= 2 && m.drive[0] == '\\' && m.drive[1] == '\\' && ({
            let t = m.drive.skip(2);
            if m.root == seq!['\\'] {
                t.contains('\\') && !t.skip(
                    crate::grammar::first_index_of(t, '\\') + 1,
                ).contains('\\')
            } else {
                m.root == Seq::<char>::empty() && m.parts.len() == 0 && (!t.contains('\\') || (
                t.len() >= 2 && (t[0] == '?' || t[0] == '.') && t[1] == '\\' && !t.skip(
                    2,
                ).contains('\\')))
            }
        }))
    })
}

/// A drive-letter-like first segment of an unanchored path, which a
/// re-parse reads as a drive.
pub open spec fn drive_like_head(m: PathModel) -> bool {
    m.drive.len() == 0 && m.root.len() == 0 && m.parts.len() > 0 && m.parts[0].len() >= 2
        && crate::grammar::is_ascii_alpha(m.parts[0][0]) && m.parts[0][1] == ':'
}

/// What the backslash grammar produces is well formed.
pub proof fn lemma_parse_windows_wf(s: Seq<char>)
    ensures
        win_wf(crate::grammar::parse_windows_spec(s)),
{
    let n = crate::grammar::norm_bs(s);
    lemma_norm_props(s);
    let m = crate::grammar::win_decompose(n);
    if n.len() >= 2 && n[0] == '\\' && n[1] == '\\' {
        let after = n.skip(2);
        assert(!after.contains('/')) by {
            if after.contains('/') {
                let i = choose|i: int| 0 <= i < after.len() && after[i] == '/';
                assert(n[i + 2] == '/');
                assert(n.contains('/'));
            }
        }
        if after.len() >= 2 && (after[0] == '?' || after[0] == '.') && after[1] == '\\' {
            let ap = after.skip(2);
            assert(!ap.contains('/')) by {
                if ap.contains('/') {
                    let i = choose|i: int| 0 <= i < ap.len() && ap[i] == '/';
                    assert(after[i + 2] == '/');
                }
            }
            if ap.contains('\\') {
                let pos = crate::grammar::first_index_of(ap, '\\');
                lemma_first_index_props(ap, '\\');
                let t = m.drive.skip(2);
                assert(t =~= seq![after[0]] + seq!['\\'] + ap.take(pos));
                assert(t[1] == '\\');
                assert(forall|k: int| 0 <= k < 1 ==> t[k] != '\\');
                lemma_first_index_at(t, '\\', 1);
                assert(!t.skip(2).contains('\\')) by {
                    assert(t.skip(2) =~= ap.take(pos));
                    if ap.take(pos).contains('\\') {
                        let i = choose|i: int| 0 <= i < pos && ap.take(pos)[i] == '\\';
                        assert(ap[i] == '\\');
                    }
                }
                assert(!t.skip(crate::grammar::first_index_of(t, '\\') + 1).contains('\\'));
                lemma_skip_free(ap, pos + 1, '/');
                lemma_win_split_ok(ap.skip(pos + 1));
                assert(!m.drive.contains('/')) by {
                    if m.drive.contains('/') {
                        let i = choose|i: int| 0 <= i < m.drive.len() && m.drive[i] == '/';
                        if i >= 2 {
                            assert(t[i - 2] == '/');
                            if i - 2 >= 2 {
                                assert(ap.take(pos)[i - 4] == '/');
                                assert(ap[i - 4] == '/');
                                assert(ap.contains('/'));
                            }
                        }
                    }
                }
                assert(win_wf(m));
            } else {
                let t = m.drive.skip(2);
                assert(t =~= after.take(2) + ap);
                assert(t.len() >= 2 && (t[0] == '?' || t[0] == '.') && t[1] == '\\');
                assert(!t.skip(2).contains('\\')) by {
                    assert(t.skip(2) =~= ap);
                }
                assert(!m.drive.contains('/')) by {
                    if m.drive.contains('/') {
                        let i = choose|i: int| 0 <= i < m.drive.len() && m.drive[i] == '/';
                        if i >= 2 {
                            assert(t[i - 2] == '/');
                            if i - 2 >= 2 {
                                assert(ap[i - 4] == '/');
                            }
                        }
                    }
                }
                assert(win_wf(m));
            }
        } else {
            if after.contains('\\') {
                let p1 = crate::grammar::first_index_of(after, '\\');
                lemma_first_index_props(after, '\\');
                let rest1 = after.skip(p1 + 1);
                assert(!rest1.contains('/')) by {
                    if rest1.contains('/') {
                        let i = choose|i: int| 0 <= i < rest1.len() && rest1[i] == '/';
                        assert(after[i + p1 + 1] == '/');
                    }
                }
                if rest1.contains('\\') {
                    let p2 = crate::grammar::first_index_of(rest1, '\\');
                    lemma_first_index_props(rest1, '\\');
                    let t = m.drive.skip(2);
                    assert(t =~= after.take(p1) + seq!['\\'] + rest1.take(p2));
                    assert(forall|k: int| 0 <= k < p1 ==> t[k] == after[k] && t[k] != '\\');
                    assert(t[p1] == '\\');
                    lemma_first_index_at(t, '\\', p1);
                    assert(!t.skip(p1 + 1).contains('\\')) by {
                        assert(t.skip(p1 + 1) =~= rest1.take(p2));
                        if rest1.take(p2).contains('\\') {
                            let i = choose|i: int| 0 <= i < p2 && rest1.take(p2)[i] == '\\';
                            assert(rest1[i] == '\\');
                        }
                    }
                    lemma_skip_free(rest1, p2 + 1, '/');
                    lemma_win_split_ok(rest1.skip(p2 + 1));
                    assert(!m.drive.contains('/')) by {
                        if m.drive.contains('/') {
                            let i = choose|i: int| 0 <= i < m.drive.len() && m.drive[i] == '/';
                            if i >= 2 {
                                assert(t[i - 2] == '/');
                                if i - 2 < p1 {
                                    assert(after[i - 2] == '/');
                                } else if i - 2 > p1 {
                                    assert(rest1.take(p2)[i - 2 - p1 - 1] == '/');
                                    assert(rest1[i - 2 - p1 - 1] == '/');
                                }
                            }
                        }
                    }
                    assert(win_wf(m));
                } else {
                    let t = m.drive.skip(2);
                    assert(t =~= after.take(p1) + seq!['\\'] + rest1);
                    assert(forall|k: int| 0 <= k < p1 ==> t[k] == after[k] && t[k] != '\\');
                    assert(t[p1] == '\\');
                    lemma_first_index_at(t, '\\', p1);
                    assert(!t.skip(p1 + 1).contains('\\')) by {
                        assert(t.skip(p1 + 1) =~= rest1);
                    }
                    assert(m.parts =~= Seq::<Seq<char>>::empty());
                    assert(!m.drive.contains('/')) by {
                        if m.drive.contains('/') {
                            let i = choose|i: int| 0 <= i < m.drive.len() && m.drive[i] == '/';
                            if i >= 2 {
                                assert(t[i - 2] == '/');
                                if i - 2 < p1 {
                                    assert(after[i - 2] == '/');
                                } else if i - 2 > p1 {
                                    assert(rest1[i - 2 - p1 - 1] == '/');
                                }
                            }
                        }
                    }
                    assert(win_wf(m));
                }
            } else {
                let t = m.drive.skip(2);
                assert(t =~= after);
                assert(m.parts =~= Seq::<Seq<char>>::empty());
                assert(!m.drive.contains('/')) by {
                    if m.drive.contains('/') {
                        let i = choose|i: int| 0 <= i < m.drive.len() && m.drive[i] == '/';
                        if i >= 2 {
                            assert(after[i - 2] == '/');
                        }
                    }
                }
                assert(win_wf(m));
            }
        }
    } else if n.len() >= 2 && crate::grammar::is_ascii_alpha(n[0]) && n[1] == ':' {
        assert(m.drive =~= n.take(2));
        assert(!m.drive.contains('/')) by {
            if m.drive.contains('/') {
                let i = choose|i: int| 0 <= i < 2 && n.take(2)[i] == '/';
                assert(n[i] == '/');
                assert(n.contains('/'));
            }
        }
        let rem = n.skip(2);
        lemma_skip_free(n, 2, '/');
        if rem.len() >= 1 && rem[0] == '\\' {
            lemma_drop_leading_free(rem, '\\', '/');
            lemma_win_split_ok(drop_leading(rem, '\\'));
        } else {
            lemma_win_split_ok(rem);
        }
        assert(win_wf(m));
    } else {
        assert(!m.drive.contains('/')) by {
            if m.drive.contains('/') {
                let i = choose|i: int| 0 <= i < m.drive.len() && m.drive[i] == '/';
            }
        }
        if n.len() >= 1 && n[0] == '\\' {
            lemma_drop_leading_free(n, '\\', '/');
            lemma_win_split_ok(drop_leading(n, '\\'));
        } else {
            lemma_win_split_ok(n);
        }
        assert(win_wf(m));
    }
}

/// The segments split out of a slash-free text are well formed.
proof fn lemma_win_split_ok(tail: Seq<char>)
    requires
        !tail.contains('/'),
    ensures
        forall|i: int| 0 <= i < split_segments(tail, '\\').len() ==> win_seg_ok(
            #[trigger] split_segments(tail, '\\')[i],
        ),
{
    crate::laws::lemma_split_segments_wf(tail, '\\');
    lemma_split_segments_char_free(tail, '\\', '/');
}

/// A suffix of a character-free string is free of that character.
proof fn lemma_skip_free(s: Seq<char>, k: int, c: char)
    requires
        0 <= k <= s.len(),
        !s.contains(c),
    ensures
        !s.skip(k).contains(c),
{
    if s.skip(k).contains(c) {
        let i = choose|i: int| 0 <= i < s.skip(k).len() && s.skip(k)[i] == c;
        assert(s[i + k] == c);
    }
}

/// Dropping leading separators keeps a string free of another character.
proof fn lemma_drop_leading_free(s: Seq<char>, sep: char, c: char)
    requires
        !s.contains(c),
    ensures
        !crate::grammar::drop_leading(s, sep).contains(c),
    decreases s.len(),
{
    if s.len() > 0 && s[0] == sep {
        lemma_skip_free(s, 1, c);
        lemma_drop_leading_free(s.skip(1), sep, c);
    }
}

/// The rendered form of a well-formed backslash-flavor decomposition holds
/// no slash, so normalization leaves it alone.
proof fn lemma_render_slash_free(m: PathModel)
    requires
        win_wf(m),
    ensures
        !render_spec(m, PathFlavor::Windows).contains('/'),
        crate::grammar::norm_bs(render_spec(m, PathFlavor::Windows)) == render_spec(
            m,
            PathFlavor::Windows,
        ),
{
    let s = render_spec(m, PathFlavor::Windows);
    assert(!m.root.contains('/')) by {
        if m.root.contains('/') {
            let i = choose|i: int| 0 <= i < m.root.len() && m.root[i] == '/';
            assert(m.root == Seq::<char>::empty() || m.root == seq!['\\']);
        }
    }
    lemma_concat_free(m.drive, m.root, '/');
    assert(forall|i: int| 0 <= i < m.parts.len() ==> !(#[trigger] m.parts[i]).contains('/'));
    lemma_join_free(m.parts, '\\', '/');
    if m.parts.len() == 0 {
        if anchor_spec(m).len() == 0 {
            assert(!seq!['.'].contains('/')) by {
                if seq!['.'].contains('/') {
                    let i = choose|i: int| 0 <= i < 1 && seq!['.'][i] == '/';
                }
            }
        }
    } else {
        lemma_concat_free(anchor_spec(m), join_with(m.parts, '\\'), '/');
    }
    lemma_norm_props(s);
}

/// Re-reading the rendered form of a well-formed, drive-less decomposition
/// returns the decomposition.
proof fn lemma_win_rt_plain(m: PathModel)
    requires
        win_wf(m),
        !drive_like_head(m),
        m.drive.len() == 0,
    ensures
        crate::grammar::win_decompose(render_spec(m, PathFlavor::Windows)) == m,
{
    let s = render_spec(m, PathFlavor::Windows);
    assert(anchor_spec(m) =~= m.root);
    if m.parts.len() == 0 {
        if m.root.len() == 0 {
            assert(s == seq!['.']);
            lemma_split_acc_no_sep(seq!['.'], '\\');
            lemma_keep_good_push(Seq::<Seq<char>>::empty(), seq!['.']);
            assert(split_segments(seq!['.'], '\\') =~= Seq::<Seq<char>>::empty());
            assert(crate::grammar::win_decompose(s) =~~= m);
        } else {
            assert(m.root == seq!['\\']);
            assert(s == seq!['\\']);
            assert(s.skip(1) =~= Seq::<char>::empty());
            assert(drop_leading(s, '\\') == drop_leading(s.skip(1), '\\'));
            crate::grammar::lemma_split_segments_empty('\\');
            assert(crate::grammar::win_decompose(s) =~~= m);
        }
    } else {
        let j = join_with(m.parts, '\\');
        assert(win_seg_ok(m.parts[0]));
        lemma_join_prefix(m.parts, '\\');
        assert(m.parts[0][0] != '\\') by {
            if m.parts[0][0] == '\\' {
                assert(m.parts[0].contains('\\'));
            }
        }
        assert(forall|i: int| 0 <= i < m.parts.len() ==> good_seg(#[trigger] m.parts[i])
            && !m.parts[i].contains('\\'));
        lemma_split_segments_join(m.parts, '\\');
        if m.root.len() == 0 {
            assert(s =~= j);
            assert(s[0] != '\\');
            // A drive letter cannot be read back: either the first segment
            // is too short to offer a colon, or the exclusion applies.
            if s.len() >= 2 && crate::grammar::is_ascii_alpha(s[0]) && s[1] == ':' {
                if m.parts[0].len() >= 2 {
                    assert(s[1] == m.parts[0][1]);
                    assert(drive_like_head(m));
                    assert(false);
                } else {
                    assert(m.parts.len() >= 2);
                    assert(s[m.parts[0].len() as int] == '\\');
                    assert(s[1] == '\\');
                    assert(false);
                }
            }
            assert(crate::grammar::win_decompose(s) =~~= m);
        } else {
            assert(m.root == seq!['\\']);
            assert(s =~= seq!['\\'] + j);
            assert(s[0] == '\\' && s[1] == j[0]);
            assert(s[1] != '\\');
            assert(s.skip(1) =~= j);
            assert(drop_leading(s, '\\') == j) by {
                assert(drop_leading(j, '\\') == j);
            }
            assert(crate::grammar::win_decompose(s) =~~= m);
        }
    }
}

/// Re-reading the rendered form of a well-formed drive-letter
/// decomposition returns the decomposition.
proof fn lemma_win_rt_drive_letter(m: PathModel)
    requires
        win_wf(m),
        m.drive.len() == 2,
        crate::grammar::is_ascii_alpha(m.drive[0]),
        m.drive[1] == ':',
    ensures
        crate::grammar::win_decompose(render_spec(m, PathFlavor::Windows)) == m,
{
    let s = render_spec(m, PathFlavor::Windows);
    let a = anchor_spec(m);
    assert(m.drive[0] != '\\');
    if m.parts.len() == 0 {
        assert(s == a);
        if m.root.len() == 0 {
            assert(a =~= m.drive);
            assert(s.len() == 2 && s[0] == m.drive[0] && s[1] == ':');
            assert(s.take(2) =~= m.drive);
            assert(s.skip(2) =~= Seq::<char>::empty());
            crate::grammar::lemma_split_segments_empty('\\');
            assert(crate::grammar::win_decompose(s) =~~= m);
        } else {
            assert(m.root == seq!['\\']);
            assert(s.len() == 3 && s[0] == m.drive[0] && s[1] == ':' && s[2] == '\\');
            assert(s.take(2) =~= m.drive);
            let rem = s.skip(2);
            assert(rem =~= seq!['\\']);
            assert(rem.skip(1) =~= Seq::<char>::empty());
            assert(drop_leading(rem, '\\') == drop_leading(rem.skip(1), '\\'));
            crate::grammar::lemma_split_segments_empty('\\');
            assert(crate::grammar::win_decompose(s) =~~= m);
        }
    } else {
        let j = join_with(m.parts, '\\');
        assert(win_seg_ok(m.parts[0]));
        lemma_join_prefix(m.parts, '\\');
        assert(m.parts[0][0] != '\\') by {
            if m.parts[0][0] == '\\' {
                assert(m.parts[0].contains('\\'));
            }
        }
        assert(forall|i: int| 0 <= i < m.parts.len() ==> good_seg(#[trigger] m.parts[i])
            && !m.parts[i].contains('\\'));
        lemma_split_segments_join(m.parts, '\\');
        assert(s =~= a + j);
        if m.root.len() == 0 {
            assert(a =~= m.drive);
            assert(s[0] == m.drive[0] && s[1] == ':');
            assert(s.take(2) =~= m.drive);
            let rem = s.skip(2);
            assert(rem =~= j);
            assert(rem[0] == j[0] && j[0] != '\\');
            assert(crate::grammar::win_decompose(s) =~~= m);
        } else {
            assert(m.root == seq!['\\']);
            assert(a =~= m.drive + seq!['\\']);
            assert(s[0] == m.drive[0] && s[1] == ':');
            assert(s.take(2) =~= m.drive);
            let rem = s.skip(2);
            assert(rem =~= seq!['\\'] + j);
            assert(rem[0] == '\\');
            assert(rem.skip(1) =~= j);
            assert(j[0] != '\\');
            assert(drop_leading(rem, '\\') == j) by {
                assert(drop_leading(j, '\\') == j);
            }
            assert(crate::grammar::win_decompose(s) =~~= m);
        }
    }
}

/// Re-reading the rendered form of a well-formed UNC or device-prefix
/// decomposition returns the decomposition.
#[verifier::rlimit(60)]
proof fn lemma_win_rt_unc(m: PathModel)
    requires
        win_wf(m),
        m.drive.len() >= 2,
        m.drive[0] == '\\',
        m.drive[1] == '\\',
    ensures
        crate::grammar::win_decompose(render_spec(m, PathFlavor::Windows)) == m,
{
    let s = render_spec(m, PathFlavor::Windows);
    let t = m.drive.skip(2);
    if m.root == seq!['\\'] {
        assert(t.contains('\\'));
        let fi = crate::grammar::first_index_of(t, '\\');
        lemma_first_index_props(t, '\\');
        let t2 = t.skip(fi + 1);
        assert(!t2.contains('\\'));
        let ghost j = if m.parts.len() == 0 {
            Seq::<char>::empty()
        } else {
            join_with(m.parts, '\\')
        };
        assert(s =~= seq!['\\', '\\'] + t + seq!['\\'] + j) by {
            assert(anchor_spec(m) =~= seq!['\\', '\\'] + t + seq!['\\']);
            if m.parts.len() == 0 {
                assert(s == anchor_spec(m));
            }
        }
        if m.parts.len() > 0 {
            assert(win_seg_ok(m.parts[0]));
            lemma_join_prefix(m.parts, '\\');
            assert(m.parts[0][0] != '\\') by {
                if m.parts[0][0] == '\\' {
                    assert(m.parts[0].contains('\\'));
                }
            }
            assert(j.len() > 0 && j[0] != '\\');
            assert(forall|i: int| 0 <= i < m.parts.len() ==> good_seg(#[trigger] m.parts[i])
                && !m.parts[i].contains('\\'));
            lemma_split_segments_join(m.parts, '\\');
        } else {
            crate::grammar::lemma_split_segments_empty('\\');
        }
        assert(s.len() >= 2 && s[0] == '\\' && s[1] == '\\');
        let after = s.skip(2);
        assert(after =~= t + seq!['\\'] + j);
        assert(forall|k: int| 0 <= k < t.len() ==> after[k] == t[k]);
        assert(after[t.len() as int] == '\\');
        assert(forall|k: int| 0 <= k < j.len() ==> after[t.len() + 1 + k] == j[k]);
        if (t[0] == '?' || t[0] == '.') && t.len() >= 2 && t[1] == '\\' {
            // The device form: re-read through the verbatim branch.
            lemma_first_index_at(t, '\\', 1);
            assert(fi == 1);
            assert(after.len() >= 2 && (after[0] == '?' || after[0] == '.') && after[1]
                == '\\');
            let ap = after.skip(2);
            assert(ap =~= t.skip(2) + seq!['\\'] + j);
            assert(t2 =~= t.skip(2));
            assert(forall|k: int| 0 <= k < t.len() - 2 ==> ap[k] == t.skip(2)[k]);
            assert(forall|k: int| 0 <= k < t.len() - 2 ==> ap[k] != '\\') by {
                assert forall|k: int| 0 <= k < t.len() - 2 implies ap[k] != '\\' by {
                    if ap[k] == '\\' {
                        assert(t2[k] == '\\');
                        assert(t2.contains('\\'));
                    }
                }
            }
            assert(ap[t.len() - 2] == '\\');
            lemma_first_index_at(ap, '\\', t.len() - 2);
            let pos = t.len() - 2;
            assert(ap.take(pos) =~= t.skip(2));
            assert(seq!['\\', '\\'] + seq![after[0]] + seq!['\\'] + ap.take(pos) =~= m.drive);
            assert(ap.skip(pos + 1) =~= j);
            assert(crate::grammar::win_decompose(s) =~~= m);
        } else {
            assert(!(after.len() >= 2 && (after[0] == '?' || after[0] == '.') && after[1]
                == '\\')) by {
                if after.len() >= 2 && (after[0] == '?' || after[0] == '.') && after[1]
                    == '\\' {
                    assert(t[0] == after[0]);
                    assert(t[0] != '\\');
                    assert(fi >= 1);
                    assert(t.len() >= 2);
                    assert(after[1] == t[1]);
                }
            }
            assert(after[fi] == '\\');
            assert(forall|k: int| 0 <= k < fi ==> after[k] != '\\');
            lemma_first_index_at(after, '\\', fi);
            let rest1 = after.skip(fi + 1);
            assert(rest1 =~= t2 + seq!['\\'] + j);
            assert(forall|k: int| 0 <= k < t2.len() ==> rest1[k] == t2[k]);
            assert(forall|k: int| 0 <= k < t2.len() ==> rest1[k] != '\\') by {
                assert forall|k: int| 0 <= k < t2.len() implies rest1[k] != '\\' by {
                    if rest1[k] == '\\' {
                        assert(t2[k] == '\\');
                        assert(t2.contains('\\'));
                    }
                }
            }
            assert(rest1[t2.len() as int] == '\\');
            lemma_first_index_at(rest1, '\\', t2.len() as int);
            assert(rest1.take(t2.len() as int) =~= t2);
            assert(after.take(fi) =~= t.take(fi));
            assert(seq!['\\', '\\'] + after.take(fi) + seq!['\\'] + rest1.take(
                t2.len() as int,
            ) =~= m.drive) by {
                assert(t =~= t.take(fi) + seq!['\\'] + t2);
                assert(m.drive =~= seq!['\\', '\\'] + t);
            }
            assert(rest1.skip(t2.len() as int + 1) =~= j);
            assert(crate::grammar::win_decompose(s) =~~= m);
        }
    } else {
        assert(m.root == Seq::<char>::empty() && m.parts.len() == 0);
        assert(s == anchor_spec(m));
        assert(s =~= m.drive);
        assert(s.len() >= 2 && s[0] == '\\' && s[1] == '\\');
        let after = s.skip(2);
        assert(after =~= t);
        if !t.contains('\\') {
            assert(!(after.len() >= 2 && (after[0] == '?' || after[0] == '.') && after[1]
                == '\\')) by {
                if after.len() >= 2 && after[1] == '\\' {
                    assert(t[1] == '\\');
                    assert(t.contains('\\'));
                }
            }
            assert(!after.contains('\\')) by {
                if after.contains('\\') {
                    let i = choose|i: int| 0 <= i < after.len() && after[i] == '\\';
                    assert(t[i] == '\\');
                    assert(t.contains('\\'));
                }
            }
            assert(seq!['\\', '\\'] + after =~= m.drive);
            assert(crate::grammar::win_decompose(s) =~~= m);
        } else {
            assert(t.len() >= 2 && (t[0] == '?' || t[0] == '.') && t[1] == '\\' && !t.skip(
                2,
            ).contains('\\'));
            assert(after.len() >= 2 && (after[0] == '?' || after[0] == '.') && after[1]
                == '\\');
            let ap = after.skip(2);
            assert(ap =~= t.skip(2));
            assert(!ap.contains('\\'));
            assert(after.take(2) =~= t.take(2));
            assert(seq!['\\', '\\'] + after.take(2) + ap =~= m.drive) by {
                assert(t =~= t.take(2) + t.skip(2));
                assert(m.drive =~= seq!['\\', '\\'] + t);
            }
            assert(crate::grammar::win_decompose(s) =~~= m);
        }
    }
}

/// Re-reading the rendered form of any well-formed backslash-flavor
/// decomposition without a drive-letter-like first segment returns the
/// decomposition.
pub proof fn lemma_win_parse_render(m: PathModel)
    requires
        win_wf(m),
        !drive_like_head(m),
    ensures
        crate::grammar::parse_windows_spec(render_spec(m, PathFlavor::Windows)) == m,
{
    lemma_render_slash_free(m);
    if m.drive.len() == 0 {
        lemma_win_rt_plain(m);
    } else if m.drive.len() == 2 && crate::grammar::is_ascii_alpha(m.drive[0]) && m.drive[1]
        == ':' {
        lemma_win_rt_drive_letter(m);
    } else {
        lemma_win_rt_unc(m);
    }
}

/// The one decomposition whose re-parse renders differently: unanchored,
/// with a first segment of exactly a drive letter, a colon and a dot.  The
/// re-parse reads the letter and colon as a drive and drops the dot
/// segment.
pub open spec fn win_degenerate(m: PathModel) -> bool {
    drive_like_head(m) && m.parts[0].len() == 3 && m.parts[0][2] == '.'
}

/// An unanchored decomposition with a drive-letter-like first segment
/// re-parses differently, but — outside the degenerate case — renders the
/// same.
proof fn lemma_win_drive_like_render(m: PathModel)
    requires
        win_wf(m),
        drive_like_head(m),
        !win_degenerate(m),
    ensures
        render_spec(
            crate::grammar::win_decompose(render_spec(m, PathFlavor::Windows)),
            PathFlavor::Windows,
        ) == render_spec(m, PathFlavor::Windows),
{
    let n2 = render_spec(m, PathFlavor::Windows);
    let head = m.parts[0];
    let tail = head.skip(2);
    assert(win_seg_ok(head));
    assert(anchor_spec(m) =~= Seq::<char>::empty());
    assert(n2 =~= join_with(m.parts, '\\'));
    lemma_join_prefix(m.parts, '\\');
    assert(n2[0] == head[0] && n2[1] == head[1]);
    assert(head[0] != '\\') by {
        if head[0] == '\\' {
            assert(head.contains('\\'));
        }
    }
    assert(!(n2.len() >= 2 && n2[0] == '\\' && n2[1] == '\\'));
    assert(n2.len() >= 2 && crate::grammar::is_ascii_alpha(n2[0]) && n2[1] == ':');
    let m2 = crate::grammar::win_decompose(n2);
    assert(m2.drive =~= seq![head[0], ':']) by {
        assert(n2.take(2) =~= seq![head[0], ':']);
    }
    if m.parts.len() == 1 {
        assert(n2 == head);
        let rem = n2.skip(2);
        assert(rem =~= tail);
        if tail.len() == 0 {
            crate::grammar::lemma_split_segments_empty('\\');
            assert(m2.root =~= Seq::<char>::empty());
            assert(m2.parts =~= Seq::<Seq<char>>::empty());
            assert(render_spec(m2, PathFlavor::Windows) =~= m2.drive);
            assert(render_spec(m2, PathFlavor::Windows) =~= n2);
        } else {
            assert(tail[0] == head[2]);
            assert(tail[0] != '\\') by {
                if tail[0] == '\\' {
                    assert(head[2] == '\\');
                    assert(head.contains('\\'));
                }
            }
            assert(m2.root =~= Seq::<char>::empty());
            assert(!tail.contains('\\')) by {
                if tail.contains('\\') {
                    let i = choose|i: int| 0 <= i < tail.len() && tail[i] == '\\';
                    assert(head[i + 2] == '\\');
                    assert(head.contains('\\'));
                }
            }
            assert(tail != seq!['.']) by {
                if tail == seq!['.'] {
                    assert(head.len() == 3 && head[2] == '.');
                }
            }
            assert(good_seg(tail));
            crate::grammar::lemma_split_segments_single(tail, '\\');
            assert(m2.parts == seq![tail]);
            assert(render_spec(m2, PathFlavor::Windows) =~= m2.drive + tail);
            assert(m2.drive + tail =~= head);
            assert(render_spec(m2, PathFlavor::Windows) == n2);
        }
    } else {
        let rest = m.parts.skip(1);
        assert(rest.len() >= 1);
        assert(forall|i: int| 0 <= i < rest.len() ==> rest[i] == m.parts[i + 1]);
        assert(forall|i: int| 0 <= i < rest.len() ==> win_seg_ok(#[trigger] rest[i]));
        lemma_join_left(m.parts, '\\');
        let jr = join_with(rest, '\\');
        assert(n2 == head + seq!['\\'] + jr);
        assert(win_seg_ok(rest[0]));
        lemma_join_prefix(rest, '\\');
        assert(jr[0] == rest[0][0]);
        assert(jr[0] != '\\') by {
            if rest[0][0] == '\\' {
                assert(rest[0].contains('\\'));
            }
        }
        assert(forall|i: int| 0 <= i < rest.len() ==> good_seg(#[trigger] rest[i]) && !rest[i]
            .contains('\\'));
        let rem = n2.skip(2);
        assert(rem =~= tail + seq!['\\'] + jr);
        if tail.len() == 0 {
            assert(rem =~= seq!['\\'] + jr);
            assert(rem[0] == '\\');
            assert(m2.root =~= seq!['\\']);
            assert(rem.skip(1) =~= jr);
            assert(drop_leading(rem, '\\') == jr) by {
                assert(drop_leading(jr, '\\') == jr);
            }
            lemma_split_segments_join(rest, '\\');
            assert(m2.parts == rest);
            assert(render_spec(m2, PathFlavor::Windows) =~= m2.drive + seq!['\\'] + jr);
            assert(m2.drive + seq!['\\'] + jr =~= head + seq!['\\'] + jr) by {
                assert(head =~= seq![head[0], ':']);
            }
            assert(render_spec(m2, PathFlavor::Windows) == n2);
        } else {
            assert(rem[0] == tail[0] && tail[0] == head[2]);
            assert(rem[0] != '\\') by {
                if head[2] == '\\' {
                    assert(head.contains('\\'));
                }
            }
            assert(m2.root =~= Seq::<char>::empty());
            assert(!tail.contains('\\')) by {
                if tail.contains('\\') {
                    let i = choose|i: int| 0 <= i < tail.len() && tail[i] == '\\';
                    assert(head[i + 2] == '\\');
                    assert(head.contains('\\'));
                }
            }
            assert(tail != seq!['.']) by {
                if tail == seq!['.'] {
                    assert(head.len() == 3 && head[2] == '.');
                }
            }
            let newparts = seq![tail] + rest;
            assert(newparts.len() >= 2);
            assert(newparts[0] == tail);
            assert(newparts.skip(1) =~= rest);
            lemma_join_left(newparts, '\\');
            assert(join_with(newparts, '\\') == tail + seq!['\\'] + jr);
            assert(rem =~= join_with(newparts, '\\'));
            assert(forall|i: int| 0 <= i < newparts.len() ==> good_seg(#[trigger] newparts[i])
                && !newparts[i].contains('\\')) by {
                assert(good_seg(tail) && !tail.contains('\\'));
                assert(forall|i: int| 1 <= i < newparts.len() ==> newparts[i] == rest[i - 1]);
            }
            lemma_split_segments_join(newparts, '\\');
            assert(m2.parts == newparts);
            assert(render_spec(m2, PathFlavor::Windows) =~= m2.drive + (tail + seq!['\\']
                + jr));
            assert(m2.drive + (tail + seq!['\\'] + jr) =~= head + seq!['\\'] + jr) by {
                assert(head =~= seq![head[0], ':'] + tail);
            }
            assert(render_spec(m2, PathFlavor::Windows) == n2);
        }
    }
}

/// Parsing then rendering is idempotent under the backslash flavor, for
/// every string whose parse avoids the one degenerate decomposition (for
/// example `".\\a:."`, whose re-parse reads `a:` as a drive and drops the
/// dot).
pub proof fn lemma_parse_render_idempotent_windows(s: Seq<char>)
    requires
        !win_degenerate(crate::grammar::parse_windows_spec(s)),
    ensures
        render_spec(
            crate::grammar::parse_windows_spec(
                render_spec(crate::grammar::parse_windows_spec(s), PathFlavor::Windows),
            ),
            PathFlavor::Windows,
        ) == render_spec(crate::grammar::parse_windows_spec(s), PathFlavor::Windows),
{
    lemma_parse_windows_wf(s);
    let m = crate::grammar::parse_windows_spec(s);
    lemma_render_slash_free(m);
    if drive_like_head(m) {
        lemma_win_drive_like_render(m);
    } else {
        lemma_win_parse_render(m);
    }
}

/// Parsing then rendering is idempotent: rendering the re-parse of a
/// rendered parse changes nothing, under either flavor, for every string
/// whose backslash-flavor parse avoids the one degenerate decomposition.
pub proof fn lemma_parse_render_idempotent(s: Seq<char>, f: PathFlavor)
    requires
        f == PathFlavor::Windows ==> !win_degenerate(crate::grammar::parse_windows_spec(s)),
    ensures
        render_spec(
            crate::grammar::parse_spec(
                render_spec(crate::grammar::parse_spec(s, f), f),
                f,
            ),
            f,
        ) == render_spec(crate::grammar::parse_spec(s, f), f),
{
    match f {
        PathFlavor::Posix => lemma_parse_render_idempotent_posix(s),
        PathFlavor::Windows => lemma_parse_render_idempotent_windows(s),
    }
}

/// Where a character occurs, `first_index_of` finds its first occurrence.
proof fn lemma_first_index_props(s: Seq<char>, c: char)
    requires
        s.contains(c),
    ensures
        0 <= crate::grammar::first_index_of(s, c) < s.len(),
        s[crate::grammar::first_index_of(s, c)] == c,
        forall|k: int| 0 <= k < crate::grammar::first_index_of(s, c) ==> s[k] != c,
    decreases s.len(),
{
    if s[0] == c {
    } else {
        assert(s.skip(1).contains(c)) by {
            let i = choose|i: int| 0 <= i < s.len() && s[i] == c;
            assert(s.skip(1)[i - 1] == c);
        }
        lemma_first_index_props(s.skip(1), c);
        let fi = crate::grammar::first_index_of(s, c);
        assert(fi == 1 + crate::grammar::first_index_of(s.skip(1), c));
        assert(s[fi] == s.skip(1)[fi - 1]);
        assert(forall|k: int| 1 <= k < fi ==> s[k] == s.skip(1)[k - 1] && s[k] != c);
    }
}

/// `first_index_of` is determined by the first occurrence.
proof fn lemma_first_index_at(s: Seq<char>, c: char, j: int)
    requires
        0 <= j < s.len(),
        s[j] == c,
        forall|k: int| 0 <= k < j ==> s[k] != c,
    ensures
        s.contains(c),
        crate::grammar::first_index_of(s, c) == j,
    decreases j,
{
    assert(s.contains(c));
    if j == 0 {
    } else {
        assert(s[0] != c);
        assert(s.skip(1)[j - 1] == c);
        assert(forall|k: int| 0 <= k < j - 1 ==> s.skip(1)[k] == s[k + 1] && s.skip(1)[k] != c);
        lemma_first_index_at(s.skip(1), c, j - 1);
    }
}

/// A list shares its whole length with itself.
proof fn lemma_common_prefix_self(p: Seq<Seq<char>>)
    ensures
        common_prefix_len(p, p) == p.len(),
    decreases p.len(),
{
    if p.len() > 0 {
        lemma_common_prefix_self(p.skip(1));
    }
}

} // verus!
