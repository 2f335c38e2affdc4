//! The traversal driver's state: a cursor holding the directories still to
//! visit.  The cursor makes every decision — which directory to open next,
//! which entries match, where to descend — while an outside collaborator
//! performs the enumeration and feeds the listings back in.

use vstd::prelude::*;

use crate::errors::PathError;
use crate::flavor::PathFlavor;
use crate::globpat::GlobPattern;
use crate::globpat::PatSegModel;
use crate::globpat::psegs_model;
use crate::globpat::segs_match;
use crate::globpat::compilable;
use crate::globpat::compiled_ok;
use crate::grammar::PathModel;
use crate::grammar::join_spec;
use crate::globpat::pattern_folded;
use crate::parsing::ParsedPath;
use crate::strutil::clone_strings;
use crate::strutil::lower_of;

verus! {

/// A directory the traversal still has to enumerate: its full path and its
/// segments relative to the resolved traversal root.
pub struct DirTask {
    /// The directory's full path.
    pub path: ParsedPath,
    /// Its segments below the traversal root.
    pub rel: Vec<String>,
}

/// The model of a `DirTask`.
#[verifier::ext_equal]
pub ghost struct TaskModel {
    pub path: PathModel,
    pub rel: Seq<Seq<char>>,
}

impl View for DirTask {
    type V = TaskModel;

    open spec fn view(&self) -> TaskModel {
        TaskModel { path: self.path@, rel: self.rel.deep_view() }
    }
}

/// The models of a directory listing: each entry's name and whether it is
/// a directory.
pub open spec fn ents_model(es: Seq<(String, bool)>) -> Seq<(Seq<char>, bool)> {
    es.map_values(|e: (String, bool)| (e.0@, e.1))
}

/// Whether the traversal may descend into a child at the given depth below
/// the root: always under a `**` pattern, else only while a deeper entry
/// could still complete a match of the fixed-length tail.
pub open spec fn may_descend(recursive: bool, ntail: int, child_depth: int) -> bool {
    recursive || child_depth < ntail
}

/// A candidate below a directory: the directory's relative segments with
/// the entry's name appended, each lower-cased (through the same named
/// lowercase result the algebra's case folding uses) when matching is
/// insensitive.
pub open spec fn cand_model(rel: Seq<Seq<char>>, name: Seq<char>, fold: bool) -> Seq<
    Seq<char>,
> {
    if fold {
        (rel.push(name)).map_values(|s: Seq<char>| lower_of(s))
    } else {
        rel.push(name)
    }
}

/// The names of a listing that complete a match: appending the name to the
/// directory's relative segments satisfies the wildcard tail.
pub open spec fn emitted_names(
    rel: Seq<Seq<char>>,
    es: Seq<(Seq<char>, bool)>,
    tail: Seq<PatSegModel>,
    fold: bool,
) -> Seq<Seq<char>>
    decreases es.len(),
{
    if es.len() == 0 {
        Seq::empty()
    } else {
        let r = emitted_names(rel, es.drop_last(), tail, fold);
        if segs_match(tail, cand_model(rel, es.last().0, fold)) {
            r.push(es.last().0)
        } else {
            r
        }
    }
}

/// The names of a listing that are directories.
pub open spec fn dir_names(es: Seq<(Seq<char>, bool)>) -> Seq<Seq<char>>
    decreases es.len(),
{
    if es.len() == 0 {
        Seq::empty()
    } else {
        let r = dir_names(es.drop_last());
        if es.last().1 {
            r.push(es.last().0)
        } else {
            r
        }
    }
}

/// The pattern text a traversal actually compiles: folded unless matching
/// is case-sensitive.
pub open spec fn effective_pattern(pattern: Seq<char>, case_sensitive: bool) -> Seq<char> {
    if case_sensitive {
        pattern
    } else {
        pattern_folded(pattern)
    }
}

/// A freshly started cursor: the effective pattern compiled, the flavor
/// and folding recorded, and the resolved root queued as the single
/// pending directory.
pub open spec fn started_ok(
    c: TraversalCursor,
    base: PathModel,
    flavor: PathFlavor,
    pattern: Seq<char>,
    case_sensitive: bool,
) -> bool {
    let pat = effective_pattern(pattern, case_sensitive);
    &&& compilable(pat)
    &&& compiled_ok(c.pattern, pat)
    &&& c.flavor == flavor
    &&& c.fold_case == !case_sensitive
    &&& c.queue@.len() == 1
    &&& c.queue@[0]@.rel == Seq::<Seq<char>>::empty()
    &&& c.queue@[0]@.path == join_spec(
        base,
        PathModel {
            drive: Seq::empty(),
            root: Seq::empty(),
            parts: c.pattern.prefix.deep_view(),
        },
        flavor,
    )
}

/// Per-traversal state: the pending directories, visited oldest first.
pub struct TraversalCursor {
    /// The compiled pattern driving the traversal.
    pub pattern: GlobPattern,
    /// The flavor paths are joined under.
    pub flavor: PathFlavor,
    /// Whether matching lower-cases both sides.
    pub fold_case: bool,
    /// Directories still to enumerate, oldest first.
    pub queue: Vec<DirTask>,
}

impl TraversalCursor {
    /// Begin a traversal: compile the pattern, resolve its literal prefix
    /// against the base, and queue that single starting directory.  Case
    /// sensitivity follows the flavor: the backslash flavor lower-cases
    /// both sides before matching.
    pub fn start(base: &ParsedPath, flavor: PathFlavor, pattern: &str) -> (r: Result<
        TraversalCursor,
        PathError,
    >)
        ensures
            match r {
                Ok(c) => started_ok(
                    c,
                    base@,
                    flavor,
                    pattern@,
                    flavor == PathFlavor::Posix,
                ),
                Err(e) => e == PathError::PatternCompileError && !compilable(
                    effective_pattern(pattern@, flavor == PathFlavor::Posix),
                ),
            },
    {
        TraversalCursor::start_with_case(base, flavor, pattern, flavor == PathFlavor::Posix)
    }

    /// Begin a traversal with case sensitivity chosen by the caller.
    pub fn start_with_case(
        base: &ParsedPath,
        flavor: PathFlavor,
        pattern: &str,
        case_sensitive: bool,
    ) -> (r: Result<TraversalCursor, PathError>)
        ensures
            match r {
                Ok(c) => started_ok(c, base@, flavor, pattern@, case_sensitive),
                Err(e) => e == PathError::PatternCompileError && !compilable(
                    effective_pattern(pattern@, case_sensitive),
                ),
            },
    {
        let compiled = if case_sensitive {
            GlobPattern::new(pattern)
        } else {
            GlobPattern::new_folded(pattern)
        };
        let g = match compiled {
            Err(e) => {
                return Err(e);
            },
            Ok(g) => g,
        };
        let pre = ParsedPath {
            drive: String::new(),
            root: String::new(),
            parts: clone_strings(&g.prefix),
        };
        proof {
            assert(pre@ =~~= (PathModel {
                drive: Seq::empty(),
                root: Seq::empty(),
                parts: g.prefix.deep_view(),
            }));
        }
        let root = base.join(&pre, flavor);
        let mut queue: Vec<DirTask> = Vec::new();
        let task = DirTask { path: root, rel: Vec::new() };
        proof {
            assert(task.rel.deep_view() =~= Seq::<Seq<char>>::empty());
        }
        queue.push(task);
        Ok(TraversalCursor { pattern: g, flavor, fold_case: !case_sensitive, queue })
    }

    /// The next directory to enumerate, oldest first, or nothing when the
    /// traversal is exhausted.
    pub fn next_dir(&mut self) -> (r: Option<DirTask>)
        ensures
            final(self).pattern == old(self).pattern,
            final(self).flavor == old(self).flavor,
            final(self).fold_case == old(self).fold_case,
            old(self).queue@.len() == 0 ==> r is None && final(self).queue@ == old(self).queue@,
            old(self).queue@.len() > 0 ==> r == Some(old(self).queue@[0]) && final(self).queue@
                == old(self).queue@.skip(1),
    {
        if self.queue.len() == 0 {
            return None;
        }
        let t = self.queue.remove(0);
        proof {
            assert(self.queue@ =~= old(self).queue@.skip(1));
        }
        Some(t)
    }

    /// Digest one directory listing: emit the full path of every entry that
    /// completes a match, and queue every directory entry the depth rule
    /// lets the traversal descend into.  Read errors on single entries are
    /// the collaborator's to skip; they never reach the cursor.
    #[verifier::loop_isolation(false)]
    pub fn advance(&mut self, task: &DirTask, entries: &Vec<(String, bool)>) -> (r: Vec<
        ParsedPath,
    >)
        ensures
            final(self).pattern == old(self).pattern,
            final(self).flavor == old(self).flavor,
            final(self).fold_case == old(self).fold_case,
            ({
                let tail = psegs_model(old(self).pattern.segs@);
                let em = emitted_names(task@.rel, ents_model(entries@), tail, old(self).fold_case);
                &&& r@.len() == em.len()
                &&& forall|j: int| 0 <= j < em.len() ==> (#[trigger] r@[j])@ == (PathModel {
                    drive: task@.path.drive,
                    root: task@.path.root,
                    parts: task@.path.parts.push(em[j]),
                })
            }),
            ({
                let descend = may_descend(
                    old(self).pattern.is_recursive,
                    old(self).pattern.segs@.len() as int,
                    task@.rel.len() + 1int,
                );
                let dn = dir_names(ents_model(entries@));
                if descend {
                    &&& final(self).queue@.len() == old(self).queue@.len() + dn.len()
                    &&& forall|l: int| 0 <= l < old(self).queue@.len()
                        ==> final(self).queue@[l] == old(self).queue@[l]
                    &&& forall|l: int| 0 <= l < dn.len() ==> (#[trigger] final(self).queue@[
                        old(self).queue@.len() + l])@ == (TaskModel {
                        path: PathModel {
                            drive: task@.path.drive,
                            root: task@.path.root,
                            parts: task@.path.parts.push(dn[l]),
                        },
                        rel: task@.rel.push(dn[l]),
                    })
                } else {
                    final(self).queue@ == old(self).queue@
                }
            }),
    {
        let ghost tail = psegs_model(self.pattern.segs@);
        let ghost ents = ents_model(entries@);
        let ghost qbase = self.queue@.len() as int;
        let descend = self.pattern.is_recursive || (self.pattern.segs.len() > 0 && task.rel.len()
            < self.pattern.segs.len() - 1);
        proof {
            assert(descend == may_descend(
                self.pattern.is_recursive,
                self.pattern.segs@.len() as int,
                task@.rel.len() + 1int,
            ));
        }
        let mut out: Vec<ParsedPath> = Vec::new();
        let mut i: usize = 0;
        proof {
            assert(ents.take(0) =~= Seq::<(Seq<char>, bool)>::empty());
        }
        while i < entries.len()
            invariant
                i <= entries@.len(),
                ents.len() == entries@.len(),
                self.pattern == old(self).pattern,
                self.flavor == old(self).flavor,
                self.fold_case == old(self).fold_case,
                out@.len() == emitted_names(task@.rel, ents.take(i as int), tail, self.fold_case).len(),
                forall|j: int| 0 <= j < out@.len() ==> (#[trigger] out@[j])@ == (PathModel {
                    drive: task@.path.drive,
                    root: task@.path.root,
                    parts: task@.path.parts.push(
                        emitted_names(task@.rel, ents.take(i as int), tail, self.fold_case)[j],
                    ),
                }),
                descend ==> self.queue@.len() == qbase + dir_names(ents.take(i as int)).len(),
                descend ==> forall|l: int| 0 <= l < qbase ==> self.queue@[l] == old(self).queue@[
                    l
                ],
                descend ==> forall|l: int| 0 <= l < dir_names(ents.take(i as int)).len() ==> (
                #[trigger] self.queue@[qbase + l])@ == (TaskModel {
                    path: PathModel {
                        drive: task@.path.drive,
                        root: task@.path.root,
                        parts: task@.path.parts.push(dir_names(ents.take(i as int))[l]),
                    },
                    rel: task@.rel.push(dir_names(ents.take(i as int))[l]),
                }),
                !descend ==> self.queue@ == old(self).queue@,
            decreases entries@.len() - i,
        {
            let ghost pre = ents.take(i as int);
            let ghost post = ents.take(i + 1 as int);
            proof {
                assert(entries.deep_view().len() == entries@.len());
                assert(ents[i as int] == (entries@[i as int].0@, entries@[i as int].1));
                assert(post.drop_last() =~= pre);
                assert(post.last() == ents[i as int]);
            }
            let name = &entries[i].0;
            let is_dir = entries[i].1;
            let mut cand = clone_strings(&task.rel);
            cand.push(name.clone());
            proof {
                assert(cand.deep_view() =~= task@.rel.push(name@));
            }
            let hit = if self.fold_case {
                let folded = crate::strutil::lowercase_all(&cand);
                proof {
                    assert(folded.deep_view() == cand_model(task@.rel, name@, true));
                }
                self.pattern.matches_relative(&folded)
            } else {
                self.pattern.matches_relative(&cand)
            };
            if hit {
                let mut parts = clone_strings(&task.path.parts);
                parts.push(name.clone());
                proof {
                    assert(parts.deep_view() =~= task@.path.parts.push(name@));
                }
                let p = ParsedPath {
                    drive: task.path.drive.clone(),
                    root: task.path.root.clone(),
                    parts,
                };
                out.push(p);
            }
            if is_dir && descend {
                let mut parts = clone_strings(&task.path.parts);
                parts.push(name.clone());
                proof {
                    assert(parts.deep_view() =~= task@.path.parts.push(name@));
                }
                let p = ParsedPath {
                    drive: task.path.drive.clone(),
                    root: task.path.root.clone(),
                    parts,
                };
                self.queue.push(DirTask { path: p, rel: cand });
            }
            i = i + 1;
        }
        proof {
            assert(ents.take(ents.len() as int) =~= ents);
        }
        out
    }
}

} // verus!
