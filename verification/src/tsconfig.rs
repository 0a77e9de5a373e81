//! The normalized TSConfig record the engine works from, and the
//! normalisation of raw compiler options into it.
//!
//! Reading and parsing the tsconfig file is outside work; the functions here
//! take the raw option values as plain data and decide everything else.

use vstd::prelude::*;

use crate::file_system::{clean, cleaned_path, copy_chars, join, join_paths};

verus! {

/// The normalized TSConfig record: an optional absolute, lexically cleaned
/// base directory, and optional path mappings with a single absolute target
/// each.
#[derive(Clone, Debug)]
pub struct TSConfig {
    pub base_url: Option<Vec<char>>,
    pub paths: Option<Vec<(Vec<char>, Vec<char>)>>,
}

impl Default for TSConfig {
    /// The empty record: no base directory, no path mappings.
    fn default() -> (r: TSConfig)
        ensures
            r.base_url is None,
            r.paths is None,
    {
        TSConfig { base_url: None, paths: None }
    }
}

/// An unsupported shape among the raw `paths` mappings.
#[derive(Clone, PartialEq, Eq, Debug)]
pub enum TsconfigError {
    /// The key maps to no target at all.
    EmptyPathMapping { key: Vec<char> },
    /// The key maps to more than one target, which is not supported.
    MultiplePathMappings { key: Vec<char> },
}

/// The mapping list has a key whose target list is not exactly one target.
pub open spec fn has_bad_mapping(raw: Seq<(Seq<char>, Seq<Seq<char>>)>) -> bool {
    exists|i: int| 0 <= i < raw.len() && #[trigger] raw[i].1.len() != 1
}

/// The index of the first mapping whose target list is not exactly one target.
pub open spec fn first_bad_mapping(raw: Seq<(Seq<char>, Seq<Seq<char>>)>) -> int
    decreases raw.len(),
{
    if raw.len() == 0 {
        0
    } else if raw[0].1.len() != 1 {
        0
    } else {
        1 + first_bad_mapping(raw.skip(1))
    }
}

/// The normalized target of one path mapping: the single raw target joined
/// under the base directory and lexically cleaned.
pub open spec fn normalized_target(base: Seq<char>, target: Seq<char>) -> Seq<char> {
    cleaned_path(join_paths(base, target))
}

/// Normalize raw compiler options read out of a tsconfig file.
///
/// `dir` is the directory that holds the tsconfig file. A raw `baseUrl` is
/// joined under `dir` and cleaned. Raw `paths` targets are joined under the
/// raw `baseUrl` spelling when one is given, otherwise under `dir`, and
/// cleaned; a key with no target or with several targets is refused.
pub fn normalize_compiler_options(
    dir: &Vec<char>,
    raw_base_url: &Option<Vec<char>>,
    raw_paths: &Option<Vec<(Vec<char>, Vec<Vec<char>>)>>,
) -> (r: Result<TSConfig, TsconfigError>)
    ensures
        match r {
            Ok(c) => {
                &&& match raw_base_url {
                    Some(b) => c.base_url is Some && c.base_url->Some_0@ == cleaned_path(
                        join_paths(dir@, b@),
                    ),
                    None => c.base_url is None,
                }
                &&& match raw_paths {
                    Some(rp) => {
                        &&& !has_bad_mapping(raw_paths_view(rp))
                        &&& c.paths is Some
                        &&& paths_view(c.paths->Some_0) == Seq::new(
                            rp@.len(),
                            |i: int|
                                (
                                    rp@[i].0@,
                                    normalized_target(
                                        match raw_base_url {
                                            Some(b) => b@,
                                            None => dir@,
                                        },
                                        rp@[i].1@[0]@,
                                    ),
                                ),
                        )
                    },
                    None => c.paths is None,
                }
            },
            Err(e) => {
                &&& raw_paths is Some
                &&& has_bad_mapping(raw_paths_view(&raw_paths->Some_0))
                &&& {
                    let rp = raw_paths->Some_0;
                    let j = first_bad_mapping(raw_paths_view(&rp));
                    &&& 0 <= j < rp@.len()
                    &&& match e {
                        TsconfigError::EmptyPathMapping { key } => {
                            rp@[j].1@.len() == 0 && key@ == rp@[j].0@
                        },
                        TsconfigError::MultiplePathMappings { key } => {
                            rp@[j].1@.len() > 1 && key@ == rp@[j].0@
                        },
                    }
                }
            },
        },
{
    let base_url: Option<Vec<char>> = match raw_base_url {
        Some(b) => Some(clean(&join(dir, b))),
        None => None,
    };
    let paths: Option<Vec<(Vec<char>, Vec<char>)>> = match raw_paths {
        Some(rp) => {
            let base: &Vec<char> = match raw_base_url {
                Some(b) => b,
                None => dir,
            };
            let mut out: Vec<(Vec<char>, Vec<char>)> = Vec::new();
            let mut i: usize = 0;
            while i < rp.len()
                invariant
                    raw_paths is Some,
                    *rp == raw_paths->Some_0,
                    i <= rp@.len(),
                    out@.len() == i as int,
                    forall|k: int| 0 <= k < i ==> #[trigger] rp@[k].1@.len() == 1,
                    forall|k: int|
                        0 <= k < i ==> #[trigger] out@[k].0@ == rp@[k].0@ && out@[k].1@
                            == normalized_target(base@, rp@[k].1@[0]@),
                decreases rp@.len() - i,
            {
                let (key, targets) = &rp[i];
                if targets.len() == 0 {
                    proof {
                        lemma_first_bad_is_first(raw_paths_view(rp), i as int);
                    }
                    return Err(TsconfigError::EmptyPathMapping { key: copy_chars(key) });
                }
                if targets.len() > 1 {
                    proof {
                        lemma_first_bad_is_first(raw_paths_view(rp), i as int);
                    }
                    return Err(TsconfigError::MultiplePathMappings { key: copy_chars(key) });
                }
                out.push((copy_chars(key), clean(&join(base, &targets[0]))));
                i += 1;
            }
            proof {
                assert forall|j: int| 0 <= j < raw_paths_view(rp).len() implies #[trigger] raw_paths_view(
                    rp,
                )[j].1.len() == 1 by {
                    assert(rp@[j].1@.len() == 1);
                }
                assert(paths_view(out) =~= Seq::new(
                    rp@.len(),
                    |i: int|
                        (rp@[i].0@, normalized_target(base@, rp@[i].1@[0]@)),
                ));
            }
            Some(out)
        },
        None => None,
    };
    Ok(TSConfig { base_url, paths })
}

/// Merge a tsconfig with the one it extends: a field the extending record
/// sets wins; one it leaves out is taken from the parent.
pub fn merge_extended(base: TSConfig, parent: TSConfig) -> (r: TSConfig)
    ensures
        r.base_url == if base.base_url is Some {
            base.base_url
        } else {
            parent.base_url
        },
        r.paths == if base.paths is Some {
            base.paths
        } else {
            parent.paths
        },
{
    TSConfig {
        base_url: match base.base_url {
            Some(b) => Some(b),
            None => parent.base_url,
        },
        paths: match base.paths {
            Some(p) => Some(p),
            None => parent.paths,
        },
    }
}

/// The mathematical view of raw path mappings.
pub open spec fn raw_paths_view(rp: &Vec<(Vec<char>, Vec<Vec<char>>)>) -> Seq<
    (Seq<char>, Seq<Seq<char>>),
> {
    Seq::new(rp@.len(), |i: int| (rp@[i].0@, Seq::new(rp@[i].1@.len(), |j: int| rp@[i].1@[j]@)))
}

/// The mathematical view of normalized path mappings.
pub open spec fn paths_view(p: Vec<(Vec<char>, Vec<char>)>) -> Seq<(Seq<char>, Seq<char>)> {
    Seq::new(p@.len(), |i: int| (p@[i].0@, p@[i].1@))
}

/// When every mapping before `i` is well-formed and the one at `i` is not,
/// `i` is the first bad mapping.
proof fn lemma_first_bad_is_first(raw: Seq<(Seq<char>, Seq<Seq<char>>)>, i: int)
    requires
        0 <= i < raw.len(),
        raw[i].1.len() != 1,
        forall|k: int| 0 <= k < i ==> #[trigger] raw[k].1.len() == 1,
    ensures
        has_bad_mapping(raw),
        first_bad_mapping(raw) == i,
    decreases raw.len(),
{
    if i > 0 {
        lemma_first_bad_is_first(raw.skip(1), i - 1);
        assert(raw.skip(1)[i - 1] == raw[i]);
        assert forall|k: int| 0 <= k < i - 1 implies #[trigger] raw.skip(1)[k].1.len() == 1 by {
            assert(raw.skip(1)[k] == raw[k + 1]);
        }
    }
}

} // verus!
