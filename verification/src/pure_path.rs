//! `PurePath`: a parsed path bound to a flavor, with the immutable algebra
//! over it — accessors, join, parent chains, relativization, component
//! rewrites and ordering.

use vstd::prelude::*;

use crate::errors::PathError;
use crate::flavor::PathFlavor;
use crate::flavor::sep_char;
use crate::flavor::alt_sep_char;
use crate::grammar::PathModel;
use crate::grammar::anchor_spec;
use crate::grammar::all_parts_spec;
use crate::grammar::name_spec;
use crate::grammar::suffix_of_name;
use crate::grammar::stem_of_name;
use crate::grammar::suffixes_of_name;
use crate::grammar::parse_spec;
use crate::grammar::parse_posix_spec;
use crate::grammar::win_decompose;
use crate::grammar::norm_bs;
use crate::grammar::join_spec;
use crate::grammar::parent_spec;
use crate::grammar::fold_spec;
use crate::grammar::render_spec;
use crate::grammar::is_absolute_spec;
use crate::parsing::ParsedPath;
use crate::strutil::lex_lt;
use crate::strutil::lex_lt_chars;
use crate::strutil::chars_of;
use crate::strutil::string_from_chars;

verus! {

/// The model of a `PurePath`: a path decomposition together with the flavor
/// it was read under.
#[verifier::ext_equal]
pub ghost struct PureModel {
    pub path: PathModel,
    pub flavor: PathFlavor,
}

/// A pure path: lexical operations only, no filesystem access.
#[derive(Clone, Debug)]
pub struct PurePath {
    /// The decomposed path.
    pub parsed: ParsedPath,
    /// The grammar it was read under.
    pub flavor: PathFlavor,
}

impl View for PurePath {
    type V = PureModel;

    open spec fn view(&self) -> PureModel {
        PureModel { path: self.parsed@, flavor: self.flavor }
    }
}

/// The empty decomposition, which parsing an empty string yields.
pub open spec fn empty_model() -> PathModel {
    PathModel { drive: Seq::empty(), root: Seq::empty(), parts: Seq::empty() }
}

/// Parsing an empty string yields the empty decomposition.
pub proof fn lemma_parse_empty(f: PathFlavor)
    ensures
        parse_spec(Seq::empty(), f) == empty_model(),
{
    let s = Seq::<char>::empty();
    match f {
        PathFlavor::Posix => {
            crate::grammar::lemma_split_segments_empty('/');
            assert(parse_posix_spec(s) =~~= empty_model());
        },
        PathFlavor::Windows => {
            assert(norm_bs(s) =~= s);
            crate::grammar::lemma_split_segments_empty('\\');
            assert(win_decompose(s) =~~= empty_model());
        },
    }
}

/// Left-fold of `join` over a sequence of raw strings, each parsed under
/// the flavor.
pub open spec fn joinpath_spec(m: PathModel, args: Seq<Seq<char>>, f: PathFlavor) -> PathModel
    decreases args.len(),
{
    if args.len() == 0 {
        m
    } else {
        join_spec(joinpath_spec(m, args.drop_last(), f), parse_spec(args.last(), f), f)
    }
}

/// Order on segment lists: element by element, a list that runs out first
/// comes first, differing elements decide by code-point order.
pub open spec fn parts_lt(a: Seq<Seq<char>>, b: Seq<Seq<char>>) -> bool
    decreases a.len(),
{
    if b.len() == 0 {
        false
    } else if a.len() == 0 {
        true
    } else if a[0] == b[0] {
        parts_lt(a.skip(1), b.skip(1))
    } else {
        lex_lt(a[0], b[0])
    }
}

/// Component-wise order on decompositions: by drive, then root, then the
/// segment list.
pub open spec fn path_lt(x: PathModel, y: PathModel) -> bool {
    if x.drive != y.drive {
        lex_lt(x.drive, y.drive)
    } else if x.root != y.root {
        lex_lt(x.root, y.root)
    } else {
        parts_lt(x.parts, y.parts)
    }
}

/// Path equality: identical flavors and identical case-folded components.
pub open spec fn pure_eq_spec(a: PureModel, b: PureModel) -> bool {
    &&& a.flavor == b.flavor
    &&& fold_spec(a.path, a.flavor).drive == fold_spec(b.path, b.flavor).drive
    &&& fold_spec(a.path, a.flavor).root == fold_spec(b.path, b.flavor).root
    &&& fold_spec(a.path, a.flavor).parts == fold_spec(b.path, b.flavor).parts
}

impl PurePath {
    /// Wrap an already-parsed path under a flavor.
    pub fn new_with_parsed(parsed: ParsedPath, flavor: PathFlavor) -> (r: PurePath)
        ensures
            r@ == (PureModel { path: parsed@, flavor }),
    {
        PurePath { parsed, flavor }
    }

    /// Build a path from raw string arguments under a flavor: each argument
    /// is parsed and joined onto the accumulated path in order.
    pub fn from_args_with_flavor(args: &Vec<String>, flavor: PathFlavor) -> (r: PurePath)
        ensures
            r@ == (PureModel {
                path: joinpath_spec(empty_model(), args.deep_view(), flavor),
                flavor,
            }),
    {
        let mut result = ParsedPath::parse("", flavor);
        proof {
            reveal_strlit("");
            assert(""@ =~= Seq::<char>::empty());
            lemma_parse_empty(flavor);
        }
        let ghost dv = args.deep_view();
        let mut i: usize = 0;
        while i < args.len()
            invariant
                i <= args@.len(),
                dv == args.deep_view(),
                dv.len() == args@.len(),
                result@ == joinpath_spec(empty_model(), dv.take(i as int), flavor),
            decreases args@.len() - i,
        {
            proof {
                assert(args.deep_view()[i as int] == args@[i as int]@);
            }
            let other = ParsedPath::parse(args[i].as_str(), flavor);
            result.join_mut(&other, flavor);
            proof {
                let t1 = dv.take(i + 1 as int);
                assert(t1.drop_last() =~= dv.take(i as int));
                assert(t1.last() == dv[i as int]);
            }
            i = i + 1;
        }
        proof {
            assert(dv.take(dv.len() as int) =~= dv);
        }
        PurePath { parsed: result, flavor }
    }

    /// Get the drive.
    pub fn get_drive(&self) -> (r: &str)
        ensures
            r@ == self@.path.drive,
    {
        self.parsed.drive.as_str()
    }

    /// Get the root.
    pub fn get_root(&self) -> (r: &str)
        ensures
            r@ == self@.path.root,
    {
        self.parsed.root.as_str()
    }

    /// Get the anchor: drive and root concatenated.
    pub fn get_anchor(&self) -> (r: String)
        ensures
            r@ == anchor_spec(self@.path),
    {
        self.parsed.anchor()
    }

    /// Get all display components: the anchor first when there is one, then
    /// the segments.
    pub fn get_parts(&self) -> (r: Vec<String>)
        ensures
            r.deep_view() == all_parts_spec(self@.path),
    {
        self.parsed.all_parts(self.flavor)
    }

    /// Get the name: the final segment, or empty.
    pub fn get_name(&self) -> (r: &str)
        ensures
            r@ == name_spec(self@.path),
    {
        self.parsed.name()
    }

    /// Get the suffix of the name.
    pub fn get_suffix(&self) -> (r: String)
        ensures
            r@ == suffix_of_name(name_spec(self@.path)),
    {
        self.parsed.suffix()
    }

    /// Get every suffix of the name, in order.
    pub fn get_suffixes(&self) -> (r: Vec<String>)
        ensures
            r.deep_view() == suffixes_of_name(name_spec(self@.path)),
    {
        self.parsed.suffixes()
    }

    /// Get the stem of the name.
    pub fn get_stem(&self) -> (r: String)
        ensures
            r@ == stem_of_name(name_spec(self@.path)),
    {
        self.parsed.stem()
    }

    /// Get the parent path.
    pub fn get_parent(&self) -> (r: PurePath)
        ensures
            r@ == (PureModel { path: parent_spec(self@.path), flavor: self@.flavor }),
    {
        PurePath { parsed: self.parsed.parent(), flavor: self.flavor }
    }

    /// Check if this path is absolute under its flavor.
    pub fn get_is_absolute(&self) -> (r: bool)
        ensures
            r == is_absolute_spec(self@.path, self@.flavor),
    {
        self.parsed.is_absolute(self.flavor)
    }

    /// The canonical string form.
    pub fn to_str(&self) -> (r: String)
        ensures
            r@ == render_spec(self@.path, self@.flavor),
    {
        self.parsed.to_string(self.flavor)
    }

    /// The string form with every backslash replaced by a slash.
    pub fn get_as_posix(&self) -> (r: String)
        ensures
            r@ == render_spec(self@.path, self@.flavor).map_values(
                |c: char| if c == '\\' {
                    '/'
                } else {
                    c
                },
            ),
    {
        let s = self.parsed.to_string(self.flavor);
        let cs = chars_of(s.as_str());
        let ghost mapped = s@.map_values(|c: char| if c == '\\' { '/' } else { c });
        let mut out: Vec<char> = Vec::new();
        let mut i: usize = 0;
        while i < cs.len()
            invariant
                i <= cs@.len(),
                cs@ == s@,
                mapped == s@.map_values(|c: char| if c == '\\' { '/' } else { c }),
                out@ =~= mapped.take(i as int),
            decreases cs@.len() - i,
        {
            let c = cs[i];
            if c == '\\' {
                out.push('/');
            } else {
                out.push(c);
            }
            proof {
                assert(mapped.take(i + 1 as int) =~= mapped.take(i as int).push(
                    mapped[i as int],
                ));
            }
            i = i + 1;
        }
        proof {
            assert(mapped.take(mapped.len() as int) =~= mapped);
        }
        string_from_chars(&out)
    }

    /// Ordering against another path of the same flavor: component-wise
    /// over the case-folded drive, root and segment list; paths of
    /// different flavors do not compare.
    pub fn compare_lt(&self, other: &PurePath) -> (r: Result<bool, PathError>)
        ensures
            self@.flavor != other@.flavor <==> r == Err::<bool, PathError>(
                PathError::FlavorMismatch,
            ),
            self@.flavor == other@.flavor ==> r == Ok::<bool, PathError>(
                path_lt(
                    fold_spec(self@.path, self@.flavor),
                    fold_spec(other@.path, other@.flavor),
                ),
            ),
    {
        if self.flavor != other.flavor {
            return Err(PathError::FlavorMismatch);
        }
        let a = self.parsed.case_fold(self.flavor);
        let b = other.parsed.case_fold(other.flavor);
        Ok(path_lt_exec(&a, &b))
    }

    /// Reverse ordering: whether this path orders after the other,
    /// component-wise over the case-folded drive, root and segment list.
    pub fn compare_gt(&self, other: &PurePath) -> (r: Result<bool, PathError>)
        ensures
            self@.flavor != other@.flavor <==> r == Err::<bool, PathError>(
                PathError::FlavorMismatch,
            ),
            self@.flavor == other@.flavor ==> r == Ok::<bool, PathError>(
                path_lt(
                    fold_spec(other@.path, other@.flavor),
                    fold_spec(self@.path, self@.flavor),
                ),
            ),
    {
        if self.flavor != other.flavor {
            return Err(PathError::FlavorMismatch);
        }
        let a = self.parsed.case_fold(self.flavor);
        let b = other.parsed.case_fold(other.flavor);
        Ok(path_lt_exec(&b, &a))
    }
}

/// `parts_lt` steps over one equal pair of heads.
proof fn lemma_parts_lt_step(a: Seq<Seq<char>>, b: Seq<Seq<char>>, i: int)
    requires
        0 <= i < a.len(),
        0 <= i < b.len(),
        a[i] == b[i],
    ensures
        parts_lt(a.skip(i), b.skip(i)) == parts_lt(a.skip(i + 1), b.skip(i + 1)),
{
    assert(a.skip(i).skip(1) =~= a.skip(i + 1));
    assert(b.skip(i).skip(1) =~= b.skip(i + 1));
    assert(a.skip(i)[0] == a[i]);
    assert(b.skip(i)[0] == b[i]);
}

/// Compares two segment lists component-wise.
fn parts_lt_exec(a: &Vec<String>, b: &Vec<String>) -> (r: bool)
    ensures
        r == parts_lt(a.deep_view(), b.deep_view()),
{
    proof {
        assert(forall|k: int| 0 <= k < a@.len() ==> a.deep_view()[k] == a@[k]@);
        assert(forall|k: int| 0 <= k < b@.len() ==> b.deep_view()[k] == b@[k]@);
        assert(a.deep_view().skip(0) =~= a.deep_view());
        assert(b.deep_view().skip(0) =~= b.deep_view());
    }
    let mut i: usize = 0;
    loop
        invariant
            i <= a@.len(),
            i <= b@.len(),
            a.deep_view().len() == a@.len(),
            b.deep_view().len() == b@.len(),
            forall|k: int| 0 <= k < a@.len() ==> a.deep_view()[k] == a@[k]@,
            forall|k: int| 0 <= k < b@.len() ==> b.deep_view()[k] == b@[k]@,
            parts_lt(a.deep_view(), b.deep_view()) == parts_lt(
                a.deep_view().skip(i as int),
                b.deep_view().skip(i as int),
            ),
        decreases a@.len() - i,
    {
        if i == b.len() {
            return false;
        }
        if i == a.len() {
            return true;
        }
        if crate::parsing::string_eq(&a[i], &b[i]) {
            proof {
                lemma_parts_lt_step(a.deep_view(), b.deep_view(), i as int);
            }
            i = i + 1;
        } else {
            let ac = chars_of(a[i].as_str());
            let bc = chars_of(b[i].as_str());
            proof {
                assert(a.deep_view().skip(i as int)[0] == a.deep_view()[i as int]);
                assert(b.deep_view().skip(i as int)[0] == b.deep_view()[i as int]);
            }
            return lex_lt_chars(&ac, &bc);
        }
    }
}

/// Compares two decompositions component-wise: drive, then root, then
/// segments.
fn path_lt_exec(a: &ParsedPath, b: &ParsedPath) -> (r: bool)
    ensures
        r == path_lt(a@, b@),
{
    if !crate::parsing::string_eq(&a.drive, &b.drive) {
        let ac = chars_of(a.drive.as_str());
        let bc = chars_of(b.drive.as_str());
        return lex_lt_chars(&ac, &bc);
    }
    if !crate::parsing::string_eq(&a.root, &b.root) {
        let ac = chars_of(a.root.as_str());
        let bc = chars_of(b.root.as_str());
        return lex_lt_chars(&ac, &bc);
    }
    parts_lt_exec(&a.parts, &b.parts)
}

/// The number of leading segments two segment lists share.
pub open spec fn common_prefix_len(a: Seq<Seq<char>>, b: Seq<Seq<char>>) -> int
    decreases a.len(),
{
    if a.len() == 0 || b.len() == 0 || a[0] != b[0] {
        0
    } else {
        1 + common_prefix_len(a.skip(1), b.skip(1))
    }
}

/// `n` parent references.
pub open spec fn dotdots(n: int) -> Seq<Seq<char>> {
    Seq::new(
        if n >= 0 {
            n as nat
        } else {
            0
        },
        |i: int| seq!['.', '.'],
    )
}

/// Whether `a` lies at or below `b`: same flavor, same case-folded drive
/// and root, and `b`'s folded segments are a prefix of `a`'s.
pub open spec fn is_relative_to_spec(a: PureModel, b: PureModel) -> bool {
    &&& a.flavor == b.flavor
    &&& fold_spec(a.path, a.flavor).drive == fold_spec(b.path, b.flavor).drive
    &&& fold_spec(a.path, a.flavor).root == fold_spec(b.path, b.flavor).root
    &&& fold_spec(b.path, b.flavor).parts.is_prefix_of(fold_spec(a.path, a.flavor).parts)
}

/// Relativization: refused across flavors, and when the case-folded anchors
/// differ.  With `walk_up` the result climbs out of the unshared tail of
/// `b` with parent references; without it `b`'s folded segments must be a
/// prefix of `a`'s, and the tail of `a`'s own segments remains, anchor
/// cleared either way.
pub open spec fn relative_to_spec(a: PureModel, b: PureModel, walk_up: bool) -> Result<
    PathModel,
    PathError,
> {
    if a.flavor != b.flavor {
        Err(PathError::FlavorMismatch)
    } else {
        let fa = fold_spec(a.path, a.flavor);
        let fb = fold_spec(b.path, b.flavor);
        if anchor_spec(fa) != anchor_spec(fb) {
            Err(PathError::NotRelative)
        } else if walk_up {
            let k = common_prefix_len(fa.parts, fb.parts);
            Ok(
                PathModel {
                    drive: Seq::empty(),
                    root: Seq::empty(),
                    parts: dotdots(fb.parts.len() - k) + a.path.parts.skip(k),
                },
            )
        } else if fb.parts.is_prefix_of(fa.parts) {
            Ok(
                PathModel {
                    drive: Seq::empty(),
                    root: Seq::empty(),
                    parts: a.path.parts.skip(fb.parts.len() as int),
                },
            )
        } else {
            Err(PathError::NotRelative)
        }
    }
}

/// Renaming the final segment: refused when there is none, and when the new
/// name is empty or holds a separator of the flavor.
pub open spec fn with_name_spec(m: PathModel, name: Seq<char>, f: PathFlavor) -> Result<
    PathModel,
    PathError,
> {
    if name_spec(m).len() == 0 {
        Err(PathError::EmptyName)
    } else if name.len() == 0 || name.contains(sep_char(f)) || (match alt_sep_char(f) {
        Some(a) => name.contains(a),
        None => false,
    }) {
        Err(PathError::InvalidComponent)
    } else {
        Ok(PathModel { drive: m.drive, root: m.root, parts: m.parts.update(m.parts.len() - 1, name) })
    }
}

/// Replacing the stem: the new name is the given stem followed by the
/// current suffix, validated as a name.
pub open spec fn with_stem_spec(m: PathModel, stem: Seq<char>, f: PathFlavor) -> Result<
    PathModel,
    PathError,
> {
    with_name_spec(m, stem + suffix_of_name(name_spec(m)), f)
}

/// Replacing the suffix: a non-empty suffix must begin with a dot and hold
/// no separator after it; the path must have a name; the new name is the
/// current stem followed by the suffix, validated as a name.
pub open spec fn with_suffix_spec(m: PathModel, suffix: Seq<char>, f: PathFlavor) -> Result<
    PathModel,
    PathError,
> {
    if suffix.len() > 0 && suffix[0] != '.' {
        Err(PathError::InvalidComponent)
    } else if suffix.len() > 1 && (suffix.skip(1).contains(sep_char(f)) || (match alt_sep_char(
        f,
    ) {
        Some(a) => suffix.skip(1).contains(a),
        None => false,
    })) {
        Err(PathError::InvalidComponent)
    } else if name_spec(m).len() == 0 {
        Err(PathError::EmptyName)
    } else {
        with_name_spec(m, stem_of_name(name_spec(m)) + suffix, f)
    }
}

/// How many parents a path has: one per droppable segment, plus the
/// anchor-only path when there is an anchor.
pub open spec fn parents_count(m: PathModel) -> int {
    if m.parts.len() == 0 {
        if anchor_spec(m).len() == 0 {
            0
        } else {
            1
        }
    } else if anchor_spec(m).len() == 0 {
        m.parts.len() - 1
    } else {
        m.parts.len() as int
    }
}

/// The `j`-th parent: the path with its last `j + 1` segments dropped.
pub open spec fn parent_at(m: PathModel, j: int) -> PathModel {
    PathModel {
        drive: m.drive,
        root: m.root,
        parts: if m.parts.len() == 0 {
            m.parts
        } else {
            m.parts.take(m.parts.len() - 1 - j)
        },
    }
}

/// `common_prefix_len` is determined by the first mismatch.
proof fn lemma_common_prefix_at(a: Seq<Seq<char>>, b: Seq<Seq<char>>, j: int)
    requires
        0 <= j <= a.len(),
        j <= b.len(),
        forall|i: int| 0 <= i < j ==> a[i] == b[i],
        j == a.len() || j == b.len() || a[j] != b[j],
    ensures
        common_prefix_len(a, b) == j,
    decreases j,
{
    if j == 0 {
    } else {
        assert(a[0] == b[0]);
        let a1 = a.skip(1);
        let b1 = b.skip(1);
        assert(forall|i: int| 0 <= i < j - 1 ==> a1[i] == a[i + 1] && b1[i] == b[i + 1]);
        if j < a.len() && j < b.len() {
            assert(a1[j - 1] == a[j as int] && b1[j - 1] == b[j as int]);
        }
        lemma_common_prefix_at(a1, b1, j - 1);
    }
}

impl PurePath {
    /// Check whether this path lies at or below `other`.
    #[verifier::loop_isolation(false)]
    pub fn get_is_relative_to(&self, other: &PurePath) -> (r: bool)
        ensures
            r == is_relative_to_spec(self@, other@),
    {
        if self.flavor != other.flavor {
            return false;
        }
        let a = self.parsed.case_fold(self.flavor);
        let b = other.parsed.case_fold(other.flavor);
        proof {
            assert(forall|k: int| 0 <= k < a.parts@.len() ==> a.parts.deep_view()[k]
                == a.parts@[k]@);
            assert(forall|k: int| 0 <= k < b.parts@.len() ==> b.parts.deep_view()[k]
                == b.parts@[k]@);
        }
        if !crate::parsing::string_eq(&a.drive, &b.drive) {
            return false;
        }
        if !crate::parsing::string_eq(&a.root, &b.root) {
            return false;
        }
        proof {
            assert(a.parts.deep_view().len() == a.parts@.len());
            assert(b.parts.deep_view().len() == b.parts@.len());
        }
        if b.parts.len() > a.parts.len() {
            proof {
                assert(b@ == fold_spec(other@.path, other@.flavor));
                assert(a@ == fold_spec(self@.path, self@.flavor));
                assert(b@.parts.len() > a@.parts.len());
                assert(!fold_spec(other@.path, other@.flavor).parts.is_prefix_of(
                    fold_spec(self@.path, self@.flavor).parts,
                ));
                assert(!is_relative_to_spec(self@, other@));
            }
            return false;
        }
        let mut i: usize = 0;
        while i < b.parts.len()
            invariant
                i <= b.parts@.len() <= a.parts@.len(),
                a.parts.deep_view().len() == a.parts@.len(),
                b.parts.deep_view().len() == b.parts@.len(),
                forall|k: int| 0 <= k < i ==> a.parts.deep_view()[k] == b.parts.deep_view()[k],
                forall|k: int| 0 <= k < a.parts@.len() ==> a.parts.deep_view()[k] == a.parts@[k]@,
                forall|k: int| 0 <= k < b.parts@.len() ==> b.parts.deep_view()[k] == b.parts@[k]@,
            decreases b.parts@.len() - i,
        {
            if !crate::parsing::string_eq(&a.parts[i], &b.parts[i]) {
                proof {
                    assert(a.parts.deep_view()[i as int] != b.parts.deep_view()[i as int]);
                    if b.parts.deep_view().is_prefix_of(a.parts.deep_view()) {
                        assert(b.parts.deep_view()[i as int] == a.parts.deep_view().subrange(
                            0,
                            b.parts.deep_view().len() as int,
                        )[i as int]);
                        assert(false);
                    }
                    assert(b@ == fold_spec(other@.path, other@.flavor));
                    assert(a@ == fold_spec(self@.path, self@.flavor));
                    assert(!is_relative_to_spec(self@, other@));
                }
                return false;
            }
            i = i + 1;
        }
        proof {
            assert(b.parts.deep_view() =~= a.parts.deep_view().subrange(
                0,
                b.parts.deep_view().len() as int,
            ));
            assert(b@ == fold_spec(other@.path, other@.flavor));
            assert(a@ == fold_spec(self@.path, self@.flavor));
            assert(is_relative_to_spec(self@, other@));
        }
        true
    }

    /// Compute this path relative to `other`, optionally walking up out of
    /// `other`'s unshared tail with parent references.
    #[verifier::loop_isolation(false)]
    #[verifier::rlimit(80)]
    pub fn compute_relative_to(&self, other: &PurePath, walk_up: bool) -> (r: Result<
        PurePath,
        PathError,
    >)
        ensures
            match (r, relative_to_spec(self@, other@, walk_up)) {
                (Ok(p), Ok(m)) => p@.path == m && p@.flavor == self@.flavor,
                (Err(e1), Err(e2)) => e1 == e2,
                _ => false,
            },
    {
        if self.flavor != other.flavor {
            return Err(PathError::FlavorMismatch);
        }
        let a = self.parsed.case_fold(self.flavor);
        let b = other.parsed.case_fold(other.flavor);
        let ghost fa = fold_spec(self@.path, self@.flavor);
        let ghost fb = fold_spec(other@.path, other@.flavor);
        let sa = a.anchor();
        let oa = b.anchor();
        if !crate::parsing::string_eq(&sa, &oa) {
            return Err(PathError::NotRelative);
        }
        proof {
            assert(forall|k: int| 0 <= k < a.parts@.len() ==> a.parts.deep_view()[k]
                == a.parts@[k]@);
            assert(forall|k: int| 0 <= k < b.parts@.len() ==> b.parts.deep_view()[k]
                == b.parts@[k]@);
            assert(fa.parts.len() == self@.path.parts.len());
        }
        if walk_up {
            let bound = if a.parts.len() < b.parts.len() {
                a.parts.len()
            } else {
                b.parts.len()
            };
            let mut k: usize = 0;
            let mut stop = false;
            while k < bound && !stop
                invariant
                    k <= bound,
                    bound == if fa.parts.len() < fb.parts.len() {
                        fa.parts.len()
                    } else {
                        fb.parts.len()
                    },
                    fa.parts == a.parts.deep_view(),
                    fb.parts == b.parts.deep_view(),
                    forall|i: int| 0 <= i < k ==> fa.parts[i] == fb.parts[i],
                    stop ==> k < bound && fa.parts[k as int] != fb.parts[k as int],
                    forall|i: int| 0 <= i < a.parts@.len() ==> a.parts.deep_view()[i]
                        == a.parts@[i]@,
                    forall|i: int| 0 <= i < b.parts@.len() ==> b.parts.deep_view()[i]
                        == b.parts@[i]@,
                decreases bound - k + if stop {
                    0int
                } else {
                    1int
                },
            {
                if crate::parsing::string_eq(&a.parts[k], &b.parts[k]) {
                    k = k + 1;
                } else {
                    stop = true;
                }
            }
            proof {
                lemma_common_prefix_at(fa.parts, fb.parts, k as int);
            }
            let ups = b.parts.len() - k;
            let mut parts: Vec<String> = Vec::new();
            let mut u: usize = 0;
            while u < ups
                invariant
                    u <= ups,
                    parts@.len() == u,
                    forall|i: int| 0 <= i < u ==> parts@[i]@ == seq!['.', '.'],
                decreases ups - u,
            {
                parts.push(crate::parsing::char2_string('.', '.'));
                u = u + 1;
            }
            let ghost head = parts.deep_view();
            proof {
                assert(forall|i: int| 0 <= i < parts@.len() ==> parts.deep_view()[i]
                    == parts@[i]@);
                assert(head =~= dotdots(ups as int));
            }
            let mut i: usize = k;
            while i < self.parsed.parts.len()
                invariant
                    k <= i <= self.parsed.parts@.len(),
                    self@.path.parts.len() == self.parsed.parts@.len(),
                    parts@.len() == ups + i - k,
                    forall|l: int| 0 <= l < ups ==> parts@[l]@ == seq!['.', '.'],
                    forall|l: int| ups <= l < parts@.len() ==> parts@[l] == self.parsed.parts@[
                        l - ups + k
                    ],
                decreases self.parsed.parts@.len() - i,
            {
                parts.push(self.parsed.parts[i].clone());
                i = i + 1;
            }
            proof {
                assert(forall|l: int| 0 <= l < parts@.len() ==> parts.deep_view()[l]
                    == parts@[l]@);
                assert(forall|l: int| 0 <= l < self.parsed.parts@.len()
                    ==> self@.path.parts[l] == self.parsed.parts@[l]@);
                assert(parts.deep_view() =~= dotdots(ups as int) + self@.path.parts.skip(
                    k as int,
                ));
            }
            let rp = ParsedPath { drive: String::new(), root: String::new(), parts };
            let r = PurePath { parsed: rp, flavor: self.flavor };
            proof {
                assert(r@.path =~~= relative_to_spec(self@, other@, walk_up)->Ok_0);
            }
            Ok(r)
        } else {
            if b.parts.len() > a.parts.len() {
                proof {
                    assert(fa.parts.len() == a.parts@.len());
                    assert(fb.parts.len() == b.parts@.len());
                    assert(!fb.parts.is_prefix_of(fa.parts));
                }
                return Err(PathError::NotRelative);
            }
            let mut i: usize = 0;
            while i < b.parts.len()
                invariant
                    i <= b.parts@.len() <= a.parts@.len(),
                    fa.parts == a.parts.deep_view(),
                    fb.parts == b.parts.deep_view(),
                    forall|l: int| 0 <= l < i ==> fa.parts[l] == fb.parts[l],
                    forall|l: int| 0 <= l < a.parts@.len() ==> a.parts.deep_view()[l]
                        == a.parts@[l]@,
                    forall|l: int| 0 <= l < b.parts@.len() ==> b.parts.deep_view()[l]
                        == b.parts@[l]@,
                decreases b.parts@.len() - i,
            {
                if !crate::parsing::string_eq(&a.parts[i], &b.parts[i]) {
                    proof {
                        assert(fa.parts[i as int] != fb.parts[i as int]);
                        if fb.parts.is_prefix_of(fa.parts) {
                            assert(fb.parts[i as int] == fa.parts.subrange(
                                0,
                                fb.parts.len() as int,
                            )[i as int]);
                            assert(false);
                        }
                    }
                    return Err(PathError::NotRelative);
                }
                i = i + 1;
            }
            proof {
                assert(fb.parts =~= fa.parts.subrange(0, fb.parts.len() as int));
                assert(fb.parts.is_prefix_of(fa.parts));
            }
            let blen = b.parts.len();
            let mut parts: Vec<String> = Vec::new();
            let mut j: usize = blen;
            while j < self.parsed.parts.len()
                invariant
                    blen <= j <= self.parsed.parts@.len(),
                    self@.path.parts.len() == self.parsed.parts@.len(),
                    parts@.len() == j - blen,
                    forall|l: int| 0 <= l < parts@.len() ==> parts@[l] == self.parsed.parts@[
                        l + blen
                    ],
                decreases self.parsed.parts@.len() - j,
            {
                parts.push(self.parsed.parts[j].clone());
                j = j + 1;
            }
            proof {
                assert(forall|l: int| 0 <= l < parts@.len() ==> parts.deep_view()[l]
                    == parts@[l]@);
                assert(forall|l: int| 0 <= l < self.parsed.parts@.len()
                    ==> self@.path.parts[l] == self.parsed.parts@[l]@);
                assert(fb.parts.len() == blen);
                assert(parts.deep_view() =~= self@.path.parts.skip(blen as int));
            }
            let rp = ParsedPath { drive: String::new(), root: String::new(), parts };
            let r = PurePath { parsed: rp, flavor: self.flavor };
            proof {
                assert(r@.path =~~= relative_to_spec(self@, other@, walk_up)->Ok_0);
            }
            Ok(r)
        }
    }

    /// Join raw string arguments onto this path, in order.
    pub fn compute_joinpath(&self, args: &Vec<String>) -> (r: PurePath)
        ensures
            r@ == (PureModel {
                path: joinpath_spec(self@.path, args.deep_view(), self@.flavor),
                flavor: self@.flavor,
            }),
    {
        let mut result = self.parsed.duplicate();
        let ghost dv = args.deep_view();
        let mut i: usize = 0;
        while i < args.len()
            invariant
                i <= args@.len(),
                dv == args.deep_view(),
                dv.len() == args@.len(),
                result@ == joinpath_spec(self@.path, dv.take(i as int), self@.flavor),
            decreases args@.len() - i,
        {
            proof {
                assert(args.deep_view()[i as int] == args@[i as int]@);
            }
            let other = ParsedPath::parse(args[i].as_str(), self.flavor);
            result.join_mut(&other, self.flavor);
            proof {
                let t1 = dv.take(i + 1 as int);
                assert(t1.drop_last() =~= dv.take(i as int));
                assert(t1.last() == dv[i as int]);
            }
            i = i + 1;
        }
        proof {
            assert(dv.take(dv.len() as int) =~= dv);
        }
        PurePath { parsed: result, flavor: self.flavor }
    }

    /// Rename the final segment.
    pub fn compute_with_name(&self, name: &str) -> (r: Result<PurePath, PathError>)
        ensures
            match (r, with_name_spec(self@.path, name@, self@.flavor)) {
                (Ok(p), Ok(m)) => p@.path == m && p@.flavor == self@.flavor,
                (Err(e1), Err(e2)) => e1 == e2,
                _ => false,
            },
    {
        if self.parsed.name().is_empty() {
            return Err(PathError::EmptyName);
        }
        let nc = chars_of(name);
        let bad = nc.len() == 0 || crate::strutil::contains_char(&nc, self.flavor.sep()) || (
        match self.flavor.altsep() {
            Some(alt) => crate::strutil::contains_char(&nc, alt),
            None => false,
        });
        if bad {
            return Err(PathError::InvalidComponent);
        }
        let plen = self.parsed.parts.len();
        proof {
            assert(self@.path.parts.len() == self.parsed.parts@.len());
            assert(plen >= 1);
        }
        let mut parts = crate::parsing::clone_prefix(&self.parsed.parts, plen - 1);
        let ghost headv = parts@;
        let ghost headd = parts.deep_view();
        parts.push(string_from_chars(&nc));
        proof {
            assert(forall|l: int| 0 <= l < headv.len() ==> headd[l] == headv[l]@);
            assert(forall|l: int| 0 <= l < parts@.len() ==> parts.deep_view()[l] == parts@[l]@);
            assert(headd.len() == headv.len());
            assert(headd == self@.path.parts.take(plen - 1));
            assert(parts@.len() == headv.len() + 1);
            assert(forall|l: int| 0 <= l < headv.len() ==> parts@[l] == headv[l]);
            assert forall|l: int| 0 <= l < headv.len() implies parts.deep_view()[l]
                == self@.path.parts[l] by {
                assert(parts@[l] == headv[l]);
                assert(headd[l] == headv[l]@);
                assert(headd[l] == self@.path.parts.take(plen - 1)[l]);
                assert(parts.deep_view()[l] == parts@[l]@);
            }
            assert(parts.deep_view()[headv.len() as int] == name@);
            assert(parts.deep_view() =~= self@.path.parts.update(
                self@.path.parts.len() - 1,
                name@,
            ));
        }
        let rp = ParsedPath {
            drive: self.parsed.drive.clone(),
            root: self.parsed.root.clone(),
            parts,
        };
        let r = PurePath { parsed: rp, flavor: self.flavor };
        proof {
            assert(r@.path =~~= with_name_spec(self@.path, name@, self@.flavor)->Ok_0);
        }
        Ok(r)
    }

    /// Replace the stem, keeping the current suffix.
    pub fn compute_with_stem(&self, stem: &str) -> (r: Result<PurePath, PathError>)
        ensures
            match (r, with_stem_spec(self@.path, stem@, self@.flavor)) {
                (Ok(p), Ok(m)) => p@.path == m && p@.flavor == self@.flavor,
                (Err(e1), Err(e2)) => e1 == e2,
                _ => false,
            },
    {
        let suffix = self.parsed.suffix();
        let new_name = String::from_str(stem).concat(suffix.as_str());
        self.compute_with_name(new_name.as_str())
    }

    /// Replace the suffix, keeping the current stem.
    pub fn compute_with_suffix(&self, suffix: &str) -> (r: Result<PurePath, PathError>)
        ensures
            match (r, with_suffix_spec(self@.path, suffix@, self@.flavor)) {
                (Ok(p), Ok(m)) => p@.path == m && p@.flavor == self@.flavor,
                (Err(e1), Err(e2)) => e1 == e2,
                _ => false,
            },
    {
        let sc = chars_of(suffix);
        if sc.len() > 0 && sc[0] != '.' {
            return Err(PathError::InvalidComponent);
        }
        if sc.len() > 1 {
            let sep = self.flavor.sep();
            let mut has_sep = false;
            let mut i: usize = 1;
            while i < sc.len()
                invariant
                    1 <= i <= sc@.len(),
                    sc@ == suffix@,
                    sep == sep_char(self@.flavor),
                    has_sep ==> (suffix@.skip(1).contains(sep_char(self@.flavor)) || (
                    match alt_sep_char(self@.flavor) {
                        Some(a) => suffix@.skip(1).contains(a),
                        None => false,
                    })),
                    !has_sep ==> forall|l: int|
                        1 <= l < i ==> suffix@[l] != sep_char(self@.flavor) && (
                        match alt_sep_char(self@.flavor) {
                            Some(a) => suffix@[l] != a,
                            None => true,
                        }),
                decreases sc@.len() - i,
            {
                let c = sc[i];
                let is_bad = c == sep || (match self.flavor.altsep() {
                    Some(a) => c == a,
                    None => false,
                });
                if is_bad && !has_sep {
                    proof {
                        assert(suffix@.skip(1)[i - 1] == suffix@[i as int]);
                        if suffix@[i as int] == sep_char(self@.flavor) {
                            assert(suffix@.skip(1).contains(sep_char(self@.flavor)));
                        }
                        if alt_sep_char(self@.flavor) == Some(suffix@[i as int]) {
                            assert(suffix@.skip(1).contains(suffix@[i as int]));
                        }
                    }
                    has_sep = true;
                }
                i = i + 1;
            }
            if has_sep {
                return Err(PathError::InvalidComponent);
            }
            proof {
                assert forall|l: int| 0 <= l < suffix@.skip(1).len() implies suffix@.skip(1)[l]
                    != sep_char(self@.flavor) by {
                    assert(suffix@.skip(1)[l] == suffix@[l + 1]);
                }
                assert(!suffix@.skip(1).contains(sep_char(self@.flavor)));
                if alt_sep_char(self@.flavor) is Some {
                    let a = alt_sep_char(self@.flavor)->0;
                    assert forall|l: int| 0 <= l < suffix@.skip(1).len() implies suffix@.skip(
                        1,
                    )[l] != a by {
                        assert(suffix@.skip(1)[l] == suffix@[l + 1]);
                    }
                    assert(!suffix@.skip(1).contains(a));
                }
            }
        }
        if self.parsed.name().is_empty() {
            return Err(PathError::EmptyName);
        }
        let stem = self.parsed.stem();
        let new_name = stem.concat(suffix);
        self.compute_with_name(new_name.as_str())
    }

    /// The chain of parents, nearest first, ending at the anchor-only path
    /// when there is an anchor and at the last single segment otherwise.
    pub fn get_parents(&self) -> (r: Vec<PurePath>)
        ensures
            r@.len() == parents_count(self@.path),
            forall|j: int| 0 <= j < r@.len() ==> r@[j]@ == (PureModel {
                path: parent_at(self@.path, j),
                flavor: self@.flavor,
            }),
    {
        let mut result: Vec<PurePath> = Vec::new();
        let n = self.parsed.parts.len();
        proof {
            assert(self@.path.parts.len() == self.parsed.parts@.len());
        }
        if n == 0 {
            if self.parsed.has_anchor() {
                let rp = ParsedPath {
                    drive: self.parsed.drive.clone(),
                    root: self.parsed.root.clone(),
                    parts: Vec::new(),
                };
                proof {
                    assert(rp.parts.deep_view() =~= self@.path.parts);
                }
                result.push(PurePath { parsed: rp, flavor: self.flavor });
            }
            return result;
        }
        let count = if self.parsed.has_anchor() {
            n
        } else {
            n - 1
        };
        let mut j: usize = 0;
        while j < count
            invariant
                j <= count,
                count <= n,
                n == self.parsed.parts@.len(),
                n == self@.path.parts.len(),
                n >= 1,
                result@.len() == j,
                forall|l: int| 0 <= l < j ==> result@[l]@ == (PureModel {
                    path: parent_at(self@.path, l),
                    flavor: self@.flavor,
                }),
            decreases count - j,
        {
            let parts = crate::parsing::clone_prefix(&self.parsed.parts, n - 1 - j);
            let rp = ParsedPath {
                drive: self.parsed.drive.clone(),
                root: self.parsed.root.clone(),
                parts,
            };
            proof {
                assert(rp@ =~~= parent_at(self@.path, j as int));
            }
            result.push(PurePath { parsed: rp, flavor: self.flavor });
            j = j + 1;
        }
        result
    }
}

/// Whether two string vectors hold the same character sequences.
fn parts_eq(a: &Vec<String>, b: &Vec<String>) -> (r: bool)
    ensures
        r == (a.deep_view() == b.deep_view()),
{
    proof {
        assert(forall|k: int| 0 <= k < a@.len() ==> a.deep_view()[k] == a@[k]@);
        assert(forall|k: int| 0 <= k < b@.len() ==> b.deep_view()[k] == b@[k]@);
    }
    if a.len() != b.len() {
        proof {
            assert(a.deep_view().len() != b.deep_view().len());
        }
        return false;
    }
    let mut i: usize = 0;
    while i < a.len()
        invariant
            i <= a@.len(),
            a@.len() == b@.len(),
            forall|k: int| 0 <= k < i ==> a.deep_view()[k] == b.deep_view()[k],
        decreases a@.len() - i,
    {
        if !crate::parsing::string_eq(&a[i], &b[i]) {
            proof {
                assert(a.deep_view()[i as int] != b.deep_view()[i as int]);
            }
            return false;
        }
        i = i + 1;
    }
    proof {
        assert(a.deep_view() =~= b.deep_view());
    }
    true
}

impl PartialEq for PurePath {
    /// Paths are equal when their flavors agree and their case-folded
    /// components agree.
    fn eq(&self, other: &PurePath) -> (r: bool) {
        if self.flavor != other.flavor {
            return false;
        }
        let a = self.parsed.case_fold(self.flavor);
        let b = other.parsed.case_fold(other.flavor);
        crate::parsing::string_eq(&a.drive, &b.drive) && crate::parsing::string_eq(
            &a.root,
            &b.root,
        ) && parts_eq(&a.parts, &b.parts)
    }
}

impl vstd::std_specs::cmp::PartialEqSpecImpl for PurePath {
    open spec fn obeys_eq_spec() -> bool {
        true
    }

    open spec fn eq_spec(&self, other: &PurePath) -> bool {
        pure_eq_spec(self@, other@)
    }
}

impl Eq for PurePath {}

} // verus!
