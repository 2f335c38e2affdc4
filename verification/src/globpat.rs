//! The glob pattern engine: compiling a wildcard expression into a literal
//! directory prefix plus a segment-wise matcher, and matching segment
//! sequences against it.

use vstd::prelude::*;

use crate::errors::PathError;
use crate::grammar::split_segments;
use crate::grammar::first_index_of;
use crate::strutil::chars_of;

verus! {

/// One element of a compiled segment pattern.
pub enum Tok {
    /// A literal character.
    Lit(char),
    /// `?`: any single character.
    AnyChar,
    /// `*`: any run of characters, empty included.
    Star,
    /// `[...]`: a character class of inclusive ranges, negated when the
    /// flag is set.
    Class(bool, Vec<(char, char)>),
}

/// The model of a `Tok`, with the class ranges as a sequence.
pub ghost enum TokModel {
    Lit(char),
    AnyChar,
    Star,
    Class(bool, Seq<(char, char)>),
}

impl View for Tok {
    type V = TokModel;

    open spec fn view(&self) -> TokModel {
        match self {
            Tok::Lit(c) => TokModel::Lit(*c),
            Tok::AnyChar => TokModel::AnyChar,
            Tok::Star => TokModel::Star,
            Tok::Class(n, rs) => TokModel::Class(*n, rs@),
        }
    }
}

/// One segment of a compiled pattern.
pub enum PatSeg {
    /// `**`: any run of whole segments, empty included.
    Globstar,
    /// A single-segment wildcard pattern.
    Seg(Vec<Tok>),
}

/// The model of a `PatSeg`.
pub ghost enum PatSegModel {
    Globstar,
    Seg(Seq<TokModel>),
}

impl View for PatSeg {
    type V = PatSegModel;

    open spec fn view(&self) -> PatSegModel {
        match self {
            PatSeg::Globstar => PatSegModel::Globstar,
            PatSeg::Seg(t) => PatSegModel::Seg(toks_model(t@)),
        }
    }
}

/// The models of a token list.
pub open spec fn toks_model(ts: Seq<Tok>) -> Seq<TokModel> {
    ts.map_values(|t: Tok| t@)
}

/// The models of a segment-pattern list.
pub open spec fn psegs_model(ps: Seq<PatSeg>) -> Seq<PatSegModel> {
    ps.map_values(|p: PatSeg| p@)
}

/// Whether a character falls in one of the class ranges.
pub open spec fn class_hits(ranges: Seq<(char, char)>, c: char) -> bool {
    exists|i: int|
        0 <= i < ranges.len() && (#[trigger] ranges[i]).0 <= c && c <= ranges[i].1
}

/// Whether a single-character token accepts a character.
pub open spec fn tok_hits(t: TokModel, c: char) -> bool {
    match t {
        TokModel::Lit(l) => c == l,
        TokModel::AnyChar => true,
        TokModel::Star => false,
        TokModel::Class(neg, rs) => neg != class_hits(rs, c),
    }
}

/// Classic single-segment wildcard matching: a `*` consumes any run of
/// characters, every other token exactly one.
pub open spec fn seg_match(p: Seq<TokModel>, s: Seq<char>) -> bool
    decreases p.len() + s.len(),
{
    if p.len() == 0 {
        s.len() == 0
    } else if p[0] is Star {
        seg_match(p.skip(1), s) || (s.len() > 0 && seg_match(p, s.skip(1)))
    } else {
        s.len() > 0 && tok_hits(p[0], s[0]) && seg_match(p.skip(1), s.skip(1))
    }
}

/// Segment-sequence matching: `**` consumes any run of whole segments,
/// every other pattern segment exactly one name; no partial matches.
pub open spec fn segs_match(ps: Seq<PatSegModel>, names: Seq<Seq<char>>) -> bool
    decreases ps.len() + names.len(),
{
    if ps.len() == 0 {
        names.len() == 0
    } else if ps[0] is Globstar {
        segs_match(ps.skip(1), names) || (names.len() > 0 && segs_match(ps, names.skip(1)))
    } else {
        names.len() > 0 && (match ps[0] {
            PatSegModel::Seg(t) => seg_match(t, names[0]),
            PatSegModel::Globstar => false,
        }) && segs_match(ps.skip(1), names.skip(1))
    }
}

/// The inclusive ranges a class body denotes: `a-b` is a range, any other
/// character stands for itself.
pub open spec fn class_ranges_spec(b: Seq<char>) -> Seq<(char, char)>
    decreases b.len(),
{
    if b.len() == 0 {
        Seq::empty()
    } else if b.len() >= 3 && b[1] == '-' {
        seq![(b[0], b[2])] + class_ranges_spec(b.skip(3))
    } else {
        seq![(b[0], b[0])] + class_ranges_spec(b.skip(1))
    }
}

/// Compiling one pattern segment: `None` for an unterminated character
/// class.  A `]` directly after `[` or `[!` is an ordinary class member.
pub open spec fn compile_seg_spec(s: Seq<char>) -> Option<Seq<TokModel>>
    decreases s.len(),
{
    if s.len() == 0 {
        Some(Seq::empty())
    } else if s[0] == '*' {
        match compile_seg_spec(s.skip(1)) {
            None => None,
            Some(rest) => Some(seq![TokModel::Star] + rest),
        }
    } else if s[0] == '?' {
        match compile_seg_spec(s.skip(1)) {
            None => None,
            Some(rest) => Some(seq![TokModel::AnyChar] + rest),
        }
    } else if s[0] == '[' {
        let neg = s.len() >= 2 && s[1] == '!';
        let bstart = if neg {
            2int
        } else {
            1int
        };
        if s.len() > bstart && s.skip(bstart + 1).contains(']') {
            let j0 = first_index_of(s.skip(bstart + 1), ']');
            if 0 <= j0 && bstart + 1 + j0 < s.len() {
                let j = bstart + 1 + j0;
                let body = s.subrange(bstart, j);
                match compile_seg_spec(s.skip(j + 1)) {
                    None => None,
                    Some(rest) => Some(
                        seq![TokModel::Class(neg, class_ranges_spec(body))] + rest,
                    ),
                }
            } else {
                None
            }
        } else {
            None
        }
    } else {
        match compile_seg_spec(s.skip(1)) {
            None => None,
            Some(rest) => Some(seq![TokModel::Lit(s[0])] + rest),
        }
    }
}

/// Whether a segment holds a wildcard character.
pub open spec fn has_wildcard(s: Seq<char>) -> bool {
    s.contains('*') || s.contains('?') || s.contains('[')
}

/// The index of the first segment holding a wildcard, or the length.
pub open spec fn wild_start(segs: Seq<Seq<char>>) -> int
    decreases segs.len(),
{
    if segs.len() == 0 {
        0
    } else if has_wildcard(segs[0]) {
        0
    } else {
        1 + wild_start(segs.skip(1))
    }
}

/// Compiling the wildcard tail: `**` segments become `Globstar`, the rest
/// single-segment matchers.
pub open spec fn compile_tail_spec(segs: Seq<Seq<char>>) -> Option<Seq<PatSegModel>>
    decreases segs.len(),
{
    if segs.len() == 0 {
        Some(Seq::empty())
    } else {
        let head = if segs[0] == seq!['*', '*'] {
            Some(PatSegModel::Globstar)
        } else {
            match compile_seg_spec(segs[0]) {
                None => None,
                Some(t) => Some(PatSegModel::Seg(t)),
            }
        };
        match head {
            None => None,
            Some(h) => match compile_tail_spec(segs.skip(1)) {
                None => None,
                Some(rest) => Some(seq![h] + rest),
            },
        }
    }
}

/// The segments of a pattern string: split at `/`, empty and `"."` groups
/// dropped.
pub open spec fn pattern_segs(s: Seq<char>) -> Seq<Seq<char>> {
    split_segments(s, '/')
}

/// Whether a pattern asks for unbounded-depth traversal: `**` occurs
/// anywhere in its text.
pub open spec fn contains_globstar(s: Seq<char>) -> bool {
    exists|i: int| 0 <= i && i + 2 <= s.len() && s[i] == '*' && #[trigger] s[i + 1] == '*'
}

/// A compiled glob pattern: the literal directory prefix before the first
/// wildcard segment, the compiled wildcard tail, and whether any `**`
/// demands unbounded-depth traversal.
pub struct GlobPattern {
    /// Wildcard-free leading segments, resolved against the traversal base.
    pub prefix: Vec<String>,
    /// The compiled matcher for everything from the first wildcard on.
    pub segs: Vec<PatSeg>,
    /// Whether the pattern text holds `**` anywhere.
    pub is_recursive: bool,
}

/// What a well-compiled pattern looks like for a given pattern string.
pub open spec fn compiled_ok(g: GlobPattern, s: Seq<char>) -> bool {
    let segs = pattern_segs(s);
    let w = wild_start(segs);
    &&& g.prefix.deep_view() == segs.take(w)
    &&& compile_tail_spec(segs.skip(w)) == Some(psegs_model(g.segs@))
    &&& g.is_recursive == contains_globstar(s)
}

/// A pattern string folded for case-insensitive matching, through the same
/// named lowercase result the algebra's case folding uses.
pub open spec fn pattern_folded(s: Seq<char>) -> Seq<char> {
    crate::strutil::lower_of(s)
}

/// Whether compilation of a pattern string succeeds at all.
pub open spec fn compilable(s: Seq<char>) -> bool {
    compile_tail_spec(pattern_segs(s).skip(wild_start(pattern_segs(s)))) is Some
}

/// The character at an index.
fn char_at(v: &Vec<char>, i: usize) -> (c: char)
    requires
        i < v@.len(),
    ensures
        c == v@[i as int],
{
    v[i]
}

/// The string at an index.
fn str_at<'a>(v: &'a Vec<String>, i: usize) -> (r: &'a String)
    requires
        i < v@.len(),
    ensures
        *r == v@[i as int],
{
    &v[i]
}

/// The ranges of a class body.
fn class_ranges_at(v: &Vec<char>, from: usize, to: usize) -> (r: Vec<(char, char)>)
    requires
        from <= to <= v@.len(),
    ensures
        r@ == class_ranges_spec(v@.subrange(from as int, to as int)),
    decreases to - from,
{
    let ghost b = v@.subrange(from as int, to as int);
    if from == to {
        let r: Vec<(char, char)> = Vec::new();
        proof {
            assert(r@ =~= class_ranges_spec(b));
        }
        return r;
    }
    if to - from >= 3 && char_at(v, from + 1) == '-' {
        let mut out = class_ranges_at(v, from + 3, to);
        let c0 = char_at(v, from);
        let c2 = char_at(v, from + 2);
        out.insert(0, (c0, c2));
        proof {
            assert(b.len() >= 3 && b[1] == '-');
            assert(b[0] == v@[from as int] && b[2] == v@[from + 2]);
            assert(b.skip(3) =~= v@.subrange(from + 3, to as int));
            assert(out@ =~= class_ranges_spec(b));
        }
        out
    } else {
        let mut out = class_ranges_at(v, from + 1, to);
        let c0 = char_at(v, from);
        out.insert(0, (c0, c0));
        proof {
            assert(b[0] == v@[from as int]);
            assert(b.skip(1) =~= v@.subrange(from + 1, to as int));
            assert(!(b.len() >= 3 && b[1] == '-'));
            assert(out@ =~= class_ranges_spec(b));
        }
        out
    }
}

/// Compiles one pattern segment from index `i` on.
fn compile_seg_at(v: &Vec<char>, i: usize) -> (r: Option<Vec<Tok>>)
    requires
        i <= v@.len(),
    ensures
        match r {
            Some(t) => compile_seg_spec(v@.skip(i as int)) == Some(toks_model(t@)),
            None => compile_seg_spec(v@.skip(i as int)) is None,
        },
    decreases v@.len() - i,
{
    let ghost s = v@.skip(i as int);
    if i == v.len() {
        let t: Vec<Tok> = Vec::new();
        proof {
            assert(toks_model(t@) =~= Seq::<TokModel>::empty());
            assert(compile_seg_spec(s) == Some(Seq::<TokModel>::empty()));
        }
        return Some(t);
    }
    let c = char_at(v, i);
    proof {
        assert(s[0] == c);
        assert(s.skip(1) =~= v@.skip(i + 1 as int));
    }
    if c == '*' || c == '?' || c != '[' {
        // A single-character token followed by the rest.
        match compile_seg_at(v, i + 1) {
            None => None,
            Some(rest) => {
                let tok = if c == '*' {
                    Tok::Star
                } else if c == '?' {
                    Tok::AnyChar
                } else {
                    Tok::Lit(c)
                };
                let ghost tm = tok@;
                let mut out = rest;
                let ghost rm = out@;
                out.insert(0, tok);
                proof {
                    assert(toks_model(rm) == compile_seg_spec(s.skip(1))->Some_0);
                    assert(out@.len() == 1 + rm.len());
                    assert forall|k: int| 0 <= k < out@.len() implies toks_model(out@)[k] == (
                    seq![tm] + toks_model(rm))[k] by {
                        assert(toks_model(out@)[k] == out@[k]@);
                        if k == 0 {
                            assert(out@[0]@ == tm);
                        } else {
                            assert(out@[k] == rm[k - 1]);
                            assert(toks_model(rm)[k - 1] == rm[k - 1]@);
                        }
                    }
                    assert(toks_model(out@) =~= seq![tm] + toks_model(rm));
                    assert(compile_seg_spec(s.skip(1)) == compile_seg_spec(
                        v@.skip(i + 1 as int),
                    ));
                    assert(compile_seg_spec(s) == Some(
                        seq![tm] + compile_seg_spec(s.skip(1))->Some_0,
                    ));
                    assert(compile_seg_spec(s) == Some(toks_model(out@)));
                }
                Some(out)
            },
        }
    } else {
        // A character class.
        let neg = i + 1 < v.len() && char_at(v, i + 1) == '!';
        let bstart = if neg {
            i + 2
        } else {
            i + 1
        };
        proof {
            assert((s.len() >= 2 && s[1] == '!') == neg);
            assert(bstart - i == if neg {
                2int
            } else {
                1int
            });
        }
        if bstart >= v.len() {
            proof {
                assert(s.len() <= bstart - i);
            }
            return None;
        }
        proof {
            assert(s.skip((bstart - i) + 1) =~= v@.skip(bstart + 1 as int));
        }
        match crate::parsing::find_char(v, bstart + 1, ']') {
            None => {
                return None;
            },
            Some(j) => {
                let body = class_ranges_at(v, bstart, j);
                proof {
                    assert(first_index_of(s.skip((bstart - i) + 1), ']') == j - (bstart + 1));
                    assert(i + ((bstart - i) + 1 + (j - (bstart + 1))) < v@.len());
                    assert(s.skip(j - i + 1) =~= v@.skip(j + 1 as int));
                }
                match compile_seg_at(v, j + 1) {
                    None => None,
                    Some(rest) => {
                        let ghost j0 = j - (bstart + 1);
                        proof {
                            assert(first_index_of(s.skip((bstart - i) + 1), ']') == j0);
                            let jj = (bstart - i) + 1 + j0;
                            assert(jj == j - i);
                            assert(0 <= j0);
                            assert(i + jj < v@.len());
                            assert(s.subrange(bstart - i, j - i) =~= v@.subrange(
                                bstart as int,
                                j as int,
                            ));
                            assert(s.skip(j - i + 1) =~= v@.skip(j + 1 as int));
                        }
                        let tok = Tok::Class(neg, body);
                        let ghost tm = tok@;
                        let mut out = rest;
                        let ghost rm = out@;
                        out.insert(0, tok);
                        proof {
                            assert(toks_model(rm) == compile_seg_spec(
                                v@.skip(j + 1 as int),
                            )->Some_0);
                            assert(out@.len() == 1 + rm.len());
                            assert forall|k: int| 0 <= k < out@.len() implies toks_model(out@)[k]
                                == (seq![tm] + toks_model(rm))[k] by {
                                assert(toks_model(out@)[k] == out@[k]@);
                                if k == 0 {
                                    assert(out@[0]@ == tm);
                                } else {
                                    assert(out@[k] == rm[k - 1]);
                                    assert(toks_model(rm)[k - 1] == rm[k - 1]@);
                                }
                            }
                            assert(toks_model(out@) =~= seq![tm] + toks_model(rm));
                            assert(body@ == class_ranges_spec(s.subrange(bstart - i, j - i)));
                            assert(tm == TokModel::Class(
                                neg,
                                class_ranges_spec(s.subrange(bstart - i, j - i)),
                            ));
                            assert(compile_seg_spec(s.skip(j - i + 1)) == compile_seg_spec(
                                v@.skip(j + 1 as int),
                            ));
                            assert(compile_seg_spec(s) == Some(
                                seq![tm] + compile_seg_spec(s.skip(j - i + 1))->Some_0,
                            ));
                            assert(compile_seg_spec(s) == Some(toks_model(out@)));
                        }
                        Some(out)
                    },
                }
            },
        }
    }
}

/// Whether a segment holds `*`, `?` or `[`.
fn seg_has_wildcard(seg: &String) -> (r: bool)
    ensures
        r == has_wildcard(seg@),
{
    let cs = chars_of(seg.as_str());
    let a = crate::strutil::contains_char(&cs, '*');
    let b = crate::strutil::contains_char(&cs, '?');
    let c = crate::strutil::contains_char(&cs, '[');
    a || b || c
}

/// Whether a segment is exactly `**`.
fn seg_is_globstar(seg: &String) -> (r: bool)
    ensures
        r == (seg@ == seq!['*', '*']),
{
    let cs = chars_of(seg.as_str());
    let hit = cs.len() == 2 && cs[0] == '*' && cs[1] == '*';
    proof {
        if hit {
            assert(seg@ =~= seq!['*', '*']);
        }
        if seg@ == seq!['*', '*'] {
            assert(cs@.len() == 2 && cs@[0] == '*' && cs@[1] == '*');
        }
    }
    hit
}

/// Compiles the wildcard tail from segment `i` on.
fn compile_tail_at(segs: &Vec<String>, i: usize) -> (r: Option<Vec<PatSeg>>)
    requires
        i <= segs@.len(),
    ensures
        match r {
            Some(t) => compile_tail_spec(segs.deep_view().skip(i as int)) == Some(
                psegs_model(t@),
            ),
            None => compile_tail_spec(segs.deep_view().skip(i as int)) is None,
        },
    decreases segs@.len() - i,
{
    let ghost dv = segs.deep_view().skip(i as int);
    proof {
        assert(segs.deep_view().len() == segs@.len());
    }
    if i == segs.len() {
        let t: Vec<PatSeg> = Vec::new();
        proof {
            assert(psegs_model(t@) =~= Seq::<PatSegModel>::empty());
            assert(dv.len() == 0);
        }
        return Some(t);
    }
    proof {
        assert(dv[0] == segs.deep_view()[i as int]);
        assert(segs.deep_view()[i as int] == segs@[i as int]@);
        assert(dv.skip(1) =~= segs.deep_view().skip(i + 1 as int));
    }
    let head: PatSeg = if seg_is_globstar(str_at(segs, i)) {
        PatSeg::Globstar
    } else {
        let cs = chars_of(str_at(segs, i).as_str());
        proof {
            assert(cs@.skip(0) =~= cs@);
        }
        match compile_seg_at(&cs, 0) {
            None => {
                return None;
            },
            Some(t) => PatSeg::Seg(t),
        }
    };
    let ghost hm = head@;
    match compile_tail_at(segs, i + 1) {
        None => None,
        Some(rest) => {
            let mut out = rest;
            let ghost rm = out@;
            out.insert(0, head);
            proof {
                assert(psegs_model(rm) == compile_tail_spec(
                    segs.deep_view().skip(i + 1 as int),
                )->Some_0);
                assert(out@.len() == 1 + rm.len());
                assert forall|k: int| 0 <= k < out@.len() implies psegs_model(out@)[k] == (
                seq![hm] + psegs_model(rm))[k] by {
                    assert(psegs_model(out@)[k] == out@[k]@);
                    if k == 0 {
                        assert(out@[0]@ == hm);
                    } else {
                        assert(out@[k] == rm[k - 1]);
                        assert(psegs_model(rm)[k - 1] == rm[k - 1]@);
                    }
                }
                assert(psegs_model(out@) =~= seq![hm] + psegs_model(rm));
            }
            Some(out)
        },
    }
}

/// Whether a single-character token accepts a character.
fn tok_hits_exec(t: &Tok, c: char) -> (r: bool)
    ensures
        r == tok_hits(t@, c),
{
    match t {
        Tok::Lit(l) => c == *l,
        Tok::AnyChar => true,
        Tok::Star => false,
        Tok::Class(neg, rs) => {
            let mut hit = false;
            let mut i: usize = 0;
            while i < rs.len()
                invariant
                    i <= rs@.len(),
                    hit == exists|k: int|
                        0 <= k < i && (#[trigger] rs@[k]).0 <= c && c <= rs@[k].1,
                decreases rs@.len() - i,
            {
                let (lo, hi) = rs[i];
                if lo <= c && c <= hi && !hit {
                    hit = true;
                }
                i = i + 1;
            }
            proof {
                assert(hit == class_hits(rs@, c));
            }
            *neg != hit
        },
    }
}

/// Classic single-segment wildcard matching from positions `pi`/`si` on.
fn seg_match_at(p: &Vec<Tok>, pi: usize, s: &Vec<char>, si: usize) -> (r: bool)
    requires
        pi <= p@.len(),
        si <= s@.len(),
    ensures
        r == seg_match(toks_model(p@).skip(pi as int), s@.skip(si as int)),
    decreases p@.len() - pi + s@.len() - si,
{
    let ghost pm = toks_model(p@).skip(pi as int);
    let ghost sm = s@.skip(si as int);
    proof {
        assert(toks_model(p@).len() == p@.len());
        if pi < p@.len() {
            assert(pm[0] == toks_model(p@)[pi as int]);
            assert(toks_model(p@)[pi as int] == p@[pi as int]@);
            assert(pm.skip(1) =~= toks_model(p@).skip(pi + 1 as int));
        }
        if si < s@.len() {
            assert(sm[0] == s@[si as int]);
            assert(sm.skip(1) =~= s@.skip(si + 1 as int));
        }
    }
    if pi == p.len() {
        return si == s.len();
    }
    let is_star = match &p[pi] {
        Tok::Star => true,
        _ => false,
    };
    if is_star {
        if seg_match_at(p, pi + 1, s, si) {
            true
        } else if si < s.len() {
            seg_match_at(p, pi, s, si + 1)
        } else {
            false
        }
    } else {
        if si == s.len() {
            return false;
        }
        let hit = tok_hits_exec(&p[pi], s[si]);
        if !hit {
            return false;
        }
        seg_match_at(p, pi + 1, s, si + 1)
    }
}

/// Segment-sequence matching from positions `pi`/`ni` on.
fn segs_match_at(ps: &Vec<PatSeg>, pi: usize, names: &Vec<String>, ni: usize) -> (r: bool)
    requires
        pi <= ps@.len(),
        ni <= names@.len(),
    ensures
        r == segs_match(psegs_model(ps@).skip(pi as int), names.deep_view().skip(ni as int)),
    decreases ps@.len() - pi + names@.len() - ni,
{
    let ghost pm = psegs_model(ps@).skip(pi as int);
    let ghost nm = names.deep_view().skip(ni as int);
    proof {
        assert(psegs_model(ps@).len() == ps@.len());
        assert(names.deep_view().len() == names@.len());
        if pi < ps@.len() {
            assert(pm[0] == psegs_model(ps@)[pi as int]);
            assert(psegs_model(ps@)[pi as int] == ps@[pi as int]@);
            assert(pm.skip(1) =~= psegs_model(ps@).skip(pi + 1 as int));
        }
        if ni < names@.len() {
            assert(nm[0] == names.deep_view()[ni as int]);
            assert(names.deep_view()[ni as int] == names@[ni as int]@);
            assert(nm.skip(1) =~= names.deep_view().skip(ni + 1 as int));
        }
    }
    if pi == ps.len() {
        return ni == names.len();
    }
    let is_globstar = match &ps[pi] {
        PatSeg::Globstar => true,
        PatSeg::Seg(_) => false,
    };
    if is_globstar {
        if segs_match_at(ps, pi + 1, names, ni) {
            true
        } else if ni < names.len() {
            segs_match_at(ps, pi, names, ni + 1)
        } else {
            false
        }
    } else {
        if ni == names.len() {
            return false;
        }
        let seg_ok = match &ps[pi] {
            PatSeg::Seg(t) => {
                let cs = chars_of(names[ni].as_str());
                proof {
                    assert(toks_model(t@).skip(0) =~= toks_model(t@));
                    assert(cs@.skip(0) =~= cs@);
                }
                seg_match_at(t, 0, &cs, 0)
            },
            PatSeg::Globstar => false,
        };
        if !seg_ok {
            return false;
        }
        segs_match_at(ps, pi + 1, names, ni + 1)
    }
}

impl GlobPattern {
    /// Compile a pattern string: wildcard-free leading segments become the
    /// literal prefix, the rest a segment-wise matcher; an unterminated
    /// character class is refused.
    pub fn new(pattern: &str) -> (r: Result<GlobPattern, PathError>)
        ensures
            match r {
                Ok(g) => compilable(pattern@) && compiled_ok(g, pattern@),
                Err(e) => e == PathError::PatternCompileError && !compilable(pattern@),
            },
    {
        let cs = chars_of(pattern);
        proof {
            assert(cs@.skip(0) =~= cs@);
        }
        let segs = crate::parsing::split_into(&cs, 0, '/', false);
        let ghost sv = segs.deep_view();
        proof {
            assert(sv == pattern_segs(pattern@));
            assert(sv.len() == segs@.len());
        }
        // Find the first wildcard segment.
        let mut w: usize = 0;
        while w < segs.len() && !seg_has_wildcard(&segs[w])
            invariant
                w <= segs@.len(),
                sv == segs.deep_view(),
                sv.len() == segs@.len(),
                forall|k: int| 0 <= k < w ==> !has_wildcard(#[trigger] sv[k]),
            decreases segs@.len() - w,
        {
            proof {
                assert(sv[w as int] == segs@[w as int]@);
            }
            w = w + 1;
        }
        proof {
            if w < segs@.len() {
                assert(has_wildcard(sv[w as int]));
            }
            lemma_wild_start_at(sv, w as int);
        }
        let prefix = crate::parsing::clone_prefix(&segs, w);
        let mut is_recursive = false;
        let mut i: usize = 0;
        while cs.len() >= 1 && i < cs.len() - 1
            invariant
                i <= cs@.len(),
                is_recursive == exists|k: int|
                    0 <= k < i && k + 2 <= cs@.len() && cs@[k] == '*' && #[trigger] cs@[k + 1]
                        == '*',
            decreases cs@.len() - i,
        {
            if cs[i] == '*' && cs[i + 1] == '*' && !is_recursive {
                is_recursive = true;
            }
            i = i + 1;
        }
        proof {
            assert(is_recursive == contains_globstar(pattern@)) by {
                if contains_globstar(pattern@) {
                    let k = choose|k: int|
                        0 <= k && k + 2 <= cs@.len() && cs@[k] == '*' && #[trigger] cs@[k + 1]
                            == '*';
                    assert(k < i);
                }
            }
        }
        match compile_tail_at(&segs, w) {
            None => Err(PathError::PatternCompileError),
            Some(t) => Ok(GlobPattern { prefix, segs: t, is_recursive }),
        }
    }

    /// Compile a pattern string lower-cased, for case-insensitive matching
    /// against lower-cased names.
    pub fn new_folded(pattern: &str) -> (r: Result<GlobPattern, PathError>)
        ensures
            match r {
                Ok(g) => compilable(pattern_folded(pattern@)) && compiled_ok(
                    g,
                    pattern_folded(pattern@),
                ),
                Err(e) => e == PathError::PatternCompileError && !compilable(
                    pattern_folded(pattern@),
                ),
            },
    {
        let folded = crate::strutil::lowercase(pattern);
        GlobPattern::new(folded.as_str())
    }

    /// Whether a segment sequence matches the wildcard tail alone, the
    /// literal prefix having been resolved already.
    pub fn matches_relative(&self, parts: &Vec<String>) -> (r: bool)
        ensures
            r == segs_match(psegs_model(self.segs@), parts.deep_view()),
    {
        proof {
            assert(psegs_model(self.segs@).skip(0) =~= psegs_model(self.segs@));
            assert(parts.deep_view().skip(0) =~= parts.deep_view());
        }
        segs_match_at(&self.segs, 0, parts, 0)
    }

    /// Whether a segment sequence matches the whole pattern: the literal
    /// prefix exactly, then the wildcard tail.
    pub fn matches(&self, parts: &Vec<String>) -> (r: bool)
        ensures
            r == (self.prefix.deep_view().len() <= parts.deep_view().len()
                && parts.deep_view().take(self.prefix.deep_view().len() as int)
                == self.prefix.deep_view() && segs_match(
                psegs_model(self.segs@),
                parts.deep_view().skip(self.prefix.deep_view().len() as int),
            )),
    {
        proof {
            assert(self.prefix.deep_view().len() == self.prefix@.len());
            assert(parts.deep_view().len() == parts@.len());
            assert(forall|k: int| 0 <= k < self.prefix@.len() ==> self.prefix.deep_view()[k]
                == self.prefix@[k]@);
            assert(forall|k: int| 0 <= k < parts@.len() ==> parts.deep_view()[k]
                == parts@[k]@);
        }
        if self.prefix.len() > parts.len() {
            return false;
        }
        let mut i: usize = 0;
        while i < self.prefix.len()
            invariant
                i <= self.prefix@.len() <= parts@.len(),
                forall|k: int| 0 <= k < i ==> self.prefix.deep_view()[k]
                    == parts.deep_view()[k],
                self.prefix.deep_view().len() == self.prefix@.len(),
                parts.deep_view().len() == parts@.len(),
                forall|k: int| 0 <= k < self.prefix@.len() ==> self.prefix.deep_view()[k]
                    == self.prefix@[k]@,
                forall|k: int| 0 <= k < parts@.len() ==> parts.deep_view()[k] == parts@[k]@,
            decreases self.prefix@.len() - i,
        {
            if !crate::parsing::string_eq(&self.prefix[i], &parts[i]) {
                proof {
                    assert(self.prefix.deep_view()[i as int] != parts.deep_view()[i as int]);
                    assert(parts.deep_view().take(self.prefix.deep_view().len() as int)[
                        i as int] == parts.deep_view()[i as int]);
                }
                return false;
            }
            i = i + 1;
        }
        proof {
            assert(parts.deep_view().take(self.prefix.deep_view().len() as int)
                =~= self.prefix.deep_view());
            assert(psegs_model(self.segs@).skip(0) =~= psegs_model(self.segs@));
        }
        segs_match_at(&self.segs, 0, parts, self.prefix.len())
    }
}

/// `wild_start` is determined by the first wildcard segment.
proof fn lemma_wild_start_at(segs: Seq<Seq<char>>, j: int)
    requires
        0 <= j <= segs.len(),
        forall|k: int| 0 <= k < j ==> !has_wildcard(#[trigger] segs[k]),
        j == segs.len() || has_wildcard(segs[j]),
    ensures
        wild_start(segs) == j,
    decreases j,
{
    if j == 0 {
    } else {
        assert(!has_wildcard(segs[0]));
        let t = segs.skip(1);
        assert(forall|k: int| 0 <= k < j - 1 ==> t[k] == segs[k + 1]);
        if j < segs.len() {
            assert(t[j - 1] == segs[j]);
        }
        lemma_wild_start_at(t, j - 1);
    }
}

} // verus!
