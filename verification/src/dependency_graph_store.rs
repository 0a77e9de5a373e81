//! The interning store: dense ids for path strings, dense ids for modules,
//! and the Alias→Module map that resolution consults.

use vstd::prelude::*;
use std::collections::HashMap;

use crate::file_system::{chars_eq, copy_chars, extension_of, find_first, first_pos, sub_chars};
use crate::module::{Module, ModuleId, PathId};

verus! {

broadcast use vstd::std_specs::hash::group_hash_axioms;

// ---------------------------------------------------------------------------
// The mathematical model
// ---------------------------------------------------------------------------

/// The mathematical state of the store: the interned path strings in id
/// order, the registered modules in id order, and the alias map from path
/// ids to modules.
pub struct StoreModel {
    pub paths: Seq<Seq<char>>,
    pub modules: Seq<Module>,
    pub alias: Map<usize, Module>,
}

/// The index at which `p` stands in `paths`, or `-1` when it is not there.
pub open spec fn index_of_path(paths: Seq<Seq<char>>, p: Seq<char>) -> int
    decreases paths.len(),
{
    if paths.len() == 0 {
        -1
    } else if paths[0] == p {
        0
    } else if index_of_path(paths.skip(1), p) < 0 {
        -1
    } else {
        1 + index_of_path(paths.skip(1), p)
    }
}

/// What `index_of_path` returns: the position of the first occurrence, or
/// `-1` and then `p` is not present.
pub proof fn lemma_index_of_path(paths: Seq<Seq<char>>, p: Seq<char>)
    ensures
        -1 <= index_of_path(paths, p) < paths.len(),
        index_of_path(paths, p) >= 0 ==> {
            &&& paths[index_of_path(paths, p)] == p
            &&& forall|i: int| 0 <= i < index_of_path(paths, p) ==> paths[i] != p
        },
        index_of_path(paths, p) < 0 ==> forall|i: int| 0 <= i < paths.len() ==> paths[i] != p,
    decreases paths.len(),
{
    if paths.len() > 0 && paths[0] != p {
        lemma_index_of_path(paths.skip(1), p);
        assert forall|i: int| 0 <= i < paths.len() - 1 implies paths.skip(1)[i] == paths[i + 1] by {}
        let sub = index_of_path(paths.skip(1), p);
        if sub >= 0 {
            assert(index_of_path(paths, p) == 1 + sub);
            assert(paths[1 + sub] == paths.skip(1)[sub]);
            assert forall|i: int| 0 <= i < 1 + sub implies paths[i] != p by {
                if i >= 1 {
                    assert(paths[i] == paths.skip(1)[i - 1]);
                }
            }
        } else {
            assert forall|i: int| 0 <= i < paths.len() implies paths[i] != p by {
                if i >= 1 {
                    assert(paths[i] == paths.skip(1)[i - 1]);
                }
            }
        }
    }
}

/// Interning `p`: an already-interned path keeps its id, a new one is
/// appended. Yields the new model and the id.
pub open spec fn intern_model(m: StoreModel, p: Seq<char>) -> (StoreModel, int) {
    let id = index_of_path(m.paths, p);
    if id >= 0 {
        (m, id)
    } else {
        (StoreModel { paths: m.paths.push(p), modules: m.modules, alias: m.alias }, m.paths.len() as int)
    }
}

/// Looking up a path in the alias map: the module registered under the
/// path's id, when the path is interned and its id is mapped.
pub open spec fn model_alias(m: StoreModel, a: Seq<char>) -> Option<Module> {
    let id = index_of_path(m.paths, a);
    if id >= 0 && m.alias.contains_key(id as usize) {
        Some(m.alias[id as usize])
    } else {
        None
    }
}

/// Registering the module a path names, creating it if the path is not yet
/// mapped: the original's module lookup for package roots.
pub open spec fn module_for_path_model(m: StoreModel, p: Seq<char>) -> (StoreModel, Module) {
    let (m1, id) = intern_model(m, p);
    if m1.alias.contains_key(id as usize) {
        (m1, m1.alias[id as usize])
    } else {
        let md = Module { path_id: id as usize, module_id: m1.modules.len() as usize };
        (
            StoreModel {
                paths: m1.paths,
                modules: m1.modules.push(md),
                alias: m1.alias.insert(id as usize, md),
            },
            md,
        )
    }
}

/// Registering an external package seen through the deep import `deep` with
/// package root `root`: the root's module is found or created, and the deep
/// spelling is recorded as one more alias of it.
pub open spec fn add_external_model(m: StoreModel, deep: Seq<char>, root: Seq<char>) -> (
    StoreModel,
    Module,
) {
    let (m1, md) = module_for_path_model(m, root);
    let (m2, deep_id) = intern_model(m1, deep);
    (
        StoreModel {
            paths: m2.paths,
            modules: m2.modules,
            alias: m2.alias.insert(deep_id as usize, md),
        },
        md,
    )
}

/// The package root of a non-relative import string: its first path
/// component, or its first two joined when it is `@`-scoped. `None` marks a
/// malformed package name.
pub open spec fn spec_package_root(d: Seq<char>) -> Option<Seq<char>> {
    if d.len() == 0 || d[0] == '/' {
        None
    } else if d[0] == '@' {
        let j = first_pos(d, '/');
        if j < 0 {
            None
        } else if j + 1 >= d.len() || d[j + 1] == '/' {
            None
        } else {
            let k = first_pos(d.skip(j + 1), '/');
            if k < 0 {
                Some(d)
            } else {
                Some(d.take(j + 1 + k))
            }
        }
    } else {
        let j = first_pos(d, '/');
        if j < 0 {
            Some(d)
        } else {
            Some(d.take(j))
        }
    }
}

// ---------------------------------------------------------------------------
// Alias expansion: proposals, precedence, winners
// ---------------------------------------------------------------------------

/// The precedence rank of a source file's extension, following TypeScript's
/// resolution order; higher ranks win.
pub open spec fn ext_rank(p: Seq<char>) -> int {
    if crate::file_system::ends_with(p, seq!['.', 'd', '.', 't', 's']) {
        9
    } else if crate::file_system::ends_with(p, seq!['.', 'd', '.', 'c', 't', 's']) {
        5
    } else if crate::file_system::ends_with(p, seq!['.', 'd', '.', 'm', 't', 's']) {
        2
    } else {
        match extension_of(p) {
            Some(e) => {
                if e == seq!['t', 's'] {
                    11
                } else if e == seq!['t', 's', 'x'] {
                    10
                } else if e == seq!['j', 's'] {
                    8
                } else if e == seq!['j', 's', 'x'] {
                    7
                } else if e == seq!['c', 't', 's'] {
                    6
                } else if e == seq!['c', 'j', 's'] {
                    4
                } else if e == seq!['m', 't', 's'] {
                    3
                } else if e == seq!['m', 'j', 's'] {
                    1
                } else {
                    0
                }
            },
            None => 0,
        }
    }
}

/// The base directory a tsconfig supplies, as a mathematical value.
pub open spec fn base_view(t: &crate::tsconfig::TSConfig) -> Option<Seq<char>> {
    match t.base_url {
        Some(b) => Some(b@),
        None => None,
    }
}

/// The source file `p` proposes the alias `a`: `a` is the file's canonical
/// path, its base-relative spelling when it lies under the base directory,
/// its parent directory when it is an index file, or the extension-stripped
/// variant of any of these.
pub open spec fn proposes_alias(p: Seq<char>, base: Option<Seq<char>>, a: Seq<char>) -> bool {
    ||| a == p
    ||| a == crate::file_system::stripped_alias(p)
    ||| (base is Some && crate::file_system::strip_base(p, base->Some_0) is Some && {
        let rel = crate::file_system::strip_base(p, base->Some_0)->Some_0;
        a == rel || a == crate::file_system::stripped_alias(rel)
    })
    ||| (crate::file_system::is_index_file(p) && {
        let parent = crate::file_system::parent_of(p);
        a == parent || a == crate::file_system::stripped_alias(parent)
    })
}

/// File `i` of the scanned set proposes the alias `a`.
pub open spec fn proposes(
    files: Seq<Seq<char>>,
    base: Option<Seq<char>>,
    i: int,
    a: Seq<char>,
) -> bool {
    0 <= i < files.len() && proposes_alias(files[i], base, a)
}

/// The file at path `pi` with id `i` strictly precedes the file at path
/// `pj` with id `j` in the collision order: a non-index file beats an index
/// file, then the higher extension rank wins, and a tie falls to the lower
/// module id.
pub open spec fn prefers_path(pi: Seq<char>, pj: Seq<char>, i: int, j: int) -> bool {
    if crate::file_system::is_index_file(pi) != crate::file_system::is_index_file(pj) {
        !crate::file_system::is_index_file(pi)
    } else if ext_rank(pi) != ext_rank(pj) {
        ext_rank(pi) > ext_rank(pj)
    } else {
        i < j
    }
}

/// File `i` strictly precedes file `j` in the collision order.
pub open spec fn prefers(files: Seq<Seq<char>>, i: int, j: int) -> bool {
    prefers_path(files[i], files[j], i, j)
}

/// File `i` is the deterministic winner for alias `a`: it proposes `a` and
/// precedes every other proposer.
pub open spec fn wins(files: Seq<Seq<char>>, base: Option<Seq<char>>, i: int, a: Seq<char>) -> bool {
    proposes(files, base, i, a) && forall|j: int|
        proposes(files, base, j, a) && j != i ==> prefers(files, i, j)
}

/// The collision order is total: two distinct files compare one way or the
/// other, never both.
pub proof fn lemma_prefers_total(files: Seq<Seq<char>>, i: int, j: int)
    requires
        i != j,
    ensures
        prefers(files, i, j) != prefers(files, j, i),
{
}

/// The collision order is transitive.
pub proof fn lemma_prefers_trans(files: Seq<Seq<char>>, i: int, j: int, k: int)
    requires
        prefers(files, i, j),
        prefers(files, j, k),
    ensures
        prefers(files, i, k),
{
}

/// At most one file wins an alias.
pub proof fn lemma_winner_unique(
    files: Seq<Seq<char>>,
    base: Option<Seq<char>>,
    i: int,
    j: int,
    a: Seq<char>,
)
    requires
        wins(files, base, i, a),
        wins(files, base, j, a),
    ensures
        i == j,
{
    if i != j {
        lemma_prefers_total(files, i, j);
    }
}

/// The precedence rank of a source file's extension, as `ext_rank`
/// describes.
pub fn extension_rank(p: &Vec<char>) -> (r: u8)
    ensures
        r as int == ext_rank(p@),
{
    if crate::file_system::ends_d_ts(p) {
        9
    } else if crate::file_system::ends_d_cts(p) {
        5
    } else if crate::file_system::ends_d_mts(p) {
        2
    } else {
        match crate::file_system::extension(p) {
            Some(e) => {
                if crate::file_system::eq2(&e, 't', 's') {
                    11
                } else if crate::file_system::eq3(&e, 't', 's', 'x') {
                    10
                } else if crate::file_system::eq2(&e, 'j', 's') {
                    8
                } else if crate::file_system::eq3(&e, 'j', 's', 'x') {
                    7
                } else if crate::file_system::eq3(&e, 'c', 't', 's') {
                    6
                } else if crate::file_system::eq3(&e, 'c', 'j', 's') {
                    4
                } else if crate::file_system::eq3(&e, 'm', 't', 's') {
                    3
                } else if crate::file_system::eq3(&e, 'm', 'j', 's') {
                    1
                } else {
                    0
                }
            },
            None => 0,
        }
    }
}

/// Whether the file at path `pi` with id `i` precedes the file at path `pj`
/// with id `j`, as `prefers_path` describes.
pub fn prefer_module(pi: &Vec<char>, i: usize, pj: &Vec<char>, j: usize) -> (r: bool)
    ensures
        r == prefers_path(pi@, pj@, i as int, j as int),
{
    let index_i = crate::file_system::stem_is_index(pi);
    let index_j = crate::file_system::stem_is_index(pj);
    if index_i != index_j {
        !index_i
    } else {
        let rank_i = extension_rank(pi);
        let rank_j = extension_rank(pj);
        if rank_i != rank_j {
            rank_i > rank_j
        } else {
            i < j
        }
    }
}

/// Every alias the source file at `p` proposes, as `proposes_alias`
/// describes: its canonical path, the base-relative spelling, the parent
/// directory of an index file, and the extension-stripped variant of each.
pub fn candidate_aliases(p: &Vec<char>, tsconfig: &crate::tsconfig::TSConfig) -> (r: Vec<Vec<char>>)
    ensures
        forall|a: Seq<char>|
            #[trigger] in_cand_prefix(r@, r@.len() as int, a) <==> proposes_alias(
                p@,
                base_view(tsconfig),
                a,
            ),
{
    let ghost bv = base_view(tsconfig);
    let mut r: Vec<Vec<char>> = Vec::new();
    r.push(copy_chars(p));
    r.push(crate::file_system::strip_alias(p));
    let ghost mut rel_at: int = -1;
    match &tsconfig.base_url {
        Some(b) => {
            match crate::file_system::strip_base_prefix(p, b) {
                Some(rel) => {
                    proof {
                        rel_at = r@.len() as int;
                    }
                    r.push(crate::file_system::strip_alias(&rel));
                    r.push(rel);
                },
                None => {},
            }
        },
        None => {},
    }
    let ghost mut parent_at: int = -1;
    if crate::file_system::stem_is_index(p) {
        let parent = crate::file_system::parent_dir(p);
        proof {
            parent_at = r@.len() as int;
        }
        r.push(crate::file_system::strip_alias(&parent));
        r.push(parent);
    }
    proof {
        let n = r@.len() as int;
        assert(r@[0]@ == p@);
        assert(r@[1]@ == crate::file_system::stripped_alias(p@));
        assert forall|a: Seq<char>| #[trigger] in_cand_prefix(r@, n, a) implies proposes_alias(
            p@,
            bv,
            a,
        ) by {
            let t = choose|t: int| 0 <= t < n && #[trigger] r@[t]@ == a;
            assert(r@[t]@ == a);
        }
        assert forall|a: Seq<char>| proposes_alias(p@, bv, a) implies #[trigger] in_cand_prefix(
            r@,
            n,
            a,
        ) by {
            if a == p@ {
                assert(r@[0]@ == a);
            } else if a == crate::file_system::stripped_alias(p@) {
                assert(r@[1]@ == a);
            } else if bv is Some && crate::file_system::strip_base(p@, bv->Some_0) is Some && {
                let rel = crate::file_system::strip_base(p@, bv->Some_0)->Some_0;
                a == rel || a == crate::file_system::stripped_alias(rel)
            } {
                let rel = crate::file_system::strip_base(p@, bv->Some_0)->Some_0;
                assert(r@[rel_at]@ == crate::file_system::stripped_alias(rel));
                assert(r@[rel_at + 1]@ == rel);
                if a == rel {
                    assert(r@[rel_at + 1]@ == a);
                } else {
                    assert(r@[rel_at]@ == a);
                }
            } else {
                let parent = crate::file_system::parent_of(p@);
                assert(crate::file_system::is_index_file(p@));
                assert(r@[parent_at]@ == crate::file_system::stripped_alias(parent));
                assert(r@[parent_at + 1]@ == parent);
                if a == parent {
                    assert(r@[parent_at + 1]@ == a);
                } else {
                    assert(r@[parent_at]@ == a);
                }
            }
        }
    }
    r
}

/// Appending a path leaves the index of every other path unchanged.
pub proof fn lemma_index_of_push(paths: Seq<Seq<char>>, p: Seq<char>, q: Seq<char>)
    requires
        q != p,
    ensures
        index_of_path(paths.push(p), q) == index_of_path(paths, q),
    decreases paths.len(),
{
    if paths.len() == 0 {
        assert(paths.push(p)[0] == p);
        assert(paths.push(p).skip(1) =~= Seq::<Seq<char>>::empty());
        assert(index_of_path(paths.push(p).skip(1), q) == -1);
        assert(index_of_path(paths.push(p), q) == -1);
    } else {
        assert(paths.push(p)[0] == paths[0]);
        assert(paths.push(p).skip(1) =~= paths.skip(1).push(p));
        lemma_index_of_push(paths.skip(1), p, q);
        assert(index_of_path(paths.push(p).skip(1), q) == index_of_path(paths.skip(1), q));
        if paths[0] == q {
            assert(index_of_path(paths.push(p), q) == 0);
            assert(index_of_path(paths, q) == 0);
        } else {
            let sub = index_of_path(paths.skip(1), q);
            if sub < 0 {
                assert(index_of_path(paths.push(p), q) == -1);
                assert(index_of_path(paths, q) == -1);
            } else {
                assert(index_of_path(paths.push(p), q) == 1 + sub);
                assert(index_of_path(paths, q) == 1 + sub);
            }
        }
    }
}

/// Appending a path that is not yet interned interns it at the next id.
pub proof fn lemma_index_of_push_self(paths: Seq<Seq<char>>, p: Seq<char>)
    requires
        index_of_path(paths, p) == -1,
    ensures
        index_of_path(paths.push(p), p) == paths.len(),
    decreases paths.len(),
{
    if paths.len() == 0 {
        assert(paths.push(p)[0] == p);
    } else {
        assert(paths.push(p)[0] == paths[0]);
        assert(paths.push(p).skip(1) =~= paths.skip(1).push(p));
        lemma_index_of_path(paths.skip(1), p);
        lemma_index_of_push_self(paths.skip(1), p);
    }
}

/// The winner after one more proposal: a fresh alias goes to file `i`, and
/// a contested one goes to whichever of the standing winner and file `i`
/// precedes the other.
pub open spec fn updated_winner(files: Seq<Seq<char>>, prev: Option<Module>, i: int) -> Module {
    match prev {
        None => Module { path_id: i as usize, module_id: i as usize },
        Some(m) => {
            if prefers_path(files[i], files[m.module_id as int], i, m.module_id as int) {
                Module { path_id: i as usize, module_id: i as usize }
            } else {
                m
            }
        },
    }
}

/// The alias `a` stands among the first `k` entries of the candidate list.
pub open spec fn in_cand_prefix(cands: Seq<Vec<char>>, k: int, a: Seq<char>) -> bool {
    exists|t: int| 0 <= t < k && #[trigger] cands[t]@ == a
}

/// The proposal of alias `a` by file `j` has been walked by the expansion:
/// every proposal of a file before `i`, and those proposals of file `i`
/// that stand among the first `k` candidates.
pub open spec fn considered(
    files: Seq<Seq<char>>,
    base: Option<Seq<char>>,
    i: int,
    cands: Seq<Vec<char>>,
    k: int,
    j: int,
    a: Seq<char>,
) -> bool {
    proposes(files, base, j, a) && (j < i || (j == i && in_cand_prefix(cands, k, a)))
}

/// The module `md` is the correct winner of alias `a` among the walked
/// proposals.
pub open spec fn interim_winner(
    files: Seq<Seq<char>>,
    base: Option<Seq<char>>,
    i: int,
    cands: Seq<Vec<char>>,
    k: int,
    md: Module,
    a: Seq<char>,
) -> bool {
    &&& md.path_id == md.module_id
    &&& considered(files, base, i, cands, k, md.module_id as int, a)
    &&& forall|j: int|
        #[trigger] considered(files, base, i, cands, k, j, a) && j != md.module_id as int
            ==> prefers(files, md.module_id as int, j)
}

/// The character sequences of a list of path vectors.
pub open spec fn path_views(paths: &Vec<Vec<char>>) -> Seq<Seq<char>> {
    paths@.map_values(|v: Vec<char>| v@)
}

/// The Alias→Module map is committed for the scanned files: a spelling
/// resolves exactly when some file proposes it, and what it resolves to is
/// the deterministic winner among the proposers.
pub open spec fn alias_map_committed(
    store: DependencyGraphStore,
    files: Seq<Seq<char>>,
    base: Option<Seq<char>>,
) -> bool {
    &&& forall|a: Seq<char>|
        (#[trigger] store.alias_module(a)) is Some <==> exists|j: int| proposes(files, base, j, a)
    &&& forall|a: Seq<char>|
        (#[trigger] store.alias_module(a)) is Some ==> {
            let md = store.alias_module(a)->Some_0;
            &&& md.path_id == md.module_id
            &&& md.module_id < files.len()
            &&& wins(files, base, md.module_id as int, a)
        }
}

/// Dense ids: every issued module id indexes the module table, every
/// issued path id indexes the path table, and every alias entry points at
/// registered ids.
pub proof fn lemma_dense_ids(store: &DependencyGraphStore)
    requires
        store.wf(),
    ensures
        forall|m: int|
            0 <= m < store.modules_seq().len() ==> (#[trigger] store.modules_seq()[m]).module_id
                < store.modules_seq().len() && store.modules_seq()[m].path_id < store.paths().len(),
        forall|id: PathId|
            #[trigger] store.alias_ids().contains_key(id) ==> id < store.paths().len()
                && store.alias_ids()[id].module_id < store.modules_seq().len(),
{
}

/// Ids are monotonic and never reused: interning keeps every interned
/// path at its id and either returns an existing id or assigns the next
/// one; registering a module likewise keeps every registered module at
/// its id and gives a fresh module the next id.
pub proof fn lemma_ids_monotonic(m: StoreModel, p: Seq<char>)
    requires
        m.modules.len() <= usize::MAX,
    ensures
        intern_model(m, p).0.paths.len() >= m.paths.len(),
        forall|t: int|
            0 <= t < m.paths.len() ==> intern_model(m, p).0.paths[t] == m.paths[t],
        0 <= intern_model(m, p).1 <= m.paths.len(),
        module_for_path_model(m, p).0.modules.len() >= m.modules.len(),
        forall|t: int|
            0 <= t < m.modules.len() ==> module_for_path_model(m, p).0.modules[t] == m.modules[t],
        module_for_path_model(m, p).0.modules.len() > m.modules.len()
            ==> module_for_path_model(m, p).0.modules.len() == m.modules.len() + 1
            && module_for_path_model(m, p).1.module_id == m.modules.len(),
{
    lemma_index_of_path(m.paths, p);
}

/// Path round-trip: interning a path yields an id under which exactly that
/// path is read back.
pub proof fn lemma_path_round_trip(m: StoreModel, p: Seq<char>)
    ensures
        0 <= intern_model(m, p).1 < intern_model(m, p).0.paths.len(),
        intern_model(m, p).0.paths[intern_model(m, p).1] == p,
{
    lemma_index_of_path(m.paths, p);
}

/// Alias soundness: once the alias map is committed, every mapped spelling
/// resolves to the deterministic winner among its proposers, and to
/// nothing else.
pub proof fn lemma_alias_soundness(
    store: DependencyGraphStore,
    files: Seq<Seq<char>>,
    base: Option<Seq<char>>,
    a: Seq<char>,
)
    requires
        alias_map_committed(store, files, base),
        store.alias_module(a) is Some,
    ensures
        wins(files, base, store.alias_module(a)->Some_0.module_id as int, a),
        forall|j: int|
            #[trigger] wins(files, base, j, a) ==> j == store.alias_module(
                a,
            )->Some_0.module_id as int,
{
    let w = store.alias_module(a)->Some_0.module_id as int;
    assert forall|j: int| #[trigger] wins(files, base, j, a) implies j == w by {
        lemma_winner_unique(files, base, j, w, a);
    }
}

/// One step of the alias expansion: after file `i`'s candidate number `k`
/// has been registered, the walked-proposal invariants hold for the longer
/// prefix.
proof fn lemma_expansion_step(
    pre: DependencyGraphStore,
    post: DependencyGraphStore,
    fv: Seq<Seq<char>>,
    bv: Option<Seq<char>>,
    i: int,
    cs: Seq<Vec<char>>,
    k: int,
)
    requires
        0 <= i < fv.len(),
        i as usize as int == i,
        fv.len() <= pre.paths().len(),
        forall|t: int| 0 <= t < fv.len() ==> pre.paths()[t] == fv[t],
        0 <= k < cs.len(),
        forall|a: Seq<char>|
            #[trigger] in_cand_prefix(cs, cs.len() as int, a) <==> proposes_alias(fv[i], bv, a),
        forall|a: Seq<char>, j: int|
            #[trigger] considered(fv, bv, i, cs, k, j, a) ==> pre.alias_module(a) is Some,
        forall|a: Seq<char>|
            (#[trigger] pre.alias_module(a)) is Some ==> interim_winner(
                fv,
                bv,
                i,
                cs,
                k,
                pre.alias_module(a)->Some_0,
                a,
            ),
        forall|q: Seq<char>|
            q != cs[k]@ ==> post.alias_module(q) == pre.alias_module(q),
        post.alias_module(cs[k]@) == Some(
            updated_winner(pre.paths(), pre.alias_module(cs[k]@), i),
        ),
    ensures
        forall|a: Seq<char>, j: int|
            #[trigger] considered(fv, bv, i, cs, k + 1, j, a) ==> post.alias_module(a) is Some,
        forall|a: Seq<char>|
            (#[trigger] post.alias_module(a)) is Some ==> interim_winner(
                fv,
                bv,
                i,
                cs,
                k + 1,
                post.alias_module(a)->Some_0,
                a,
            ),
{
    let a0 = cs[k]@;
    let prev = pre.alias_module(a0);
    let newmd = updated_winner(pre.paths(), prev, i);
    assert(in_cand_prefix(cs, k + 1, a0));
    assert(in_cand_prefix(cs, cs.len() as int, a0));
    assert(proposes_alias(fv[i], bv, a0));
    assert(considered(fv, bv, i, cs, k + 1, i, a0));
    assert forall|a: Seq<char>, j: int|
        #[trigger] considered(fv, bv, i, cs, k + 1, j, a) implies post.alias_module(
        a,
    ) is Some by {
        if a == a0 {
        } else {
            if j == i {
                let t = choose|t: int| 0 <= t < k + 1 && #[trigger] cs[t]@ == a;
                assert(t < k);
                assert(in_cand_prefix(cs, k, a));
            }
            assert(considered(fv, bv, i, cs, k, j, a));
        }
    }
    assert forall|a: Seq<char>|
        (#[trigger] post.alias_module(a)) is Some implies interim_winner(
        fv,
        bv,
        i,
        cs,
        k + 1,
        post.alias_module(a)->Some_0,
        a,
    ) by {
        if a != a0 {
            let md = model_alias(post.model(), a)->Some_0;
            assert(pre.alias_module(a) is Some);
            assert(interim_winner(fv, bv, i, cs, k, md, a));
            assert(considered(fv, bv, i, cs, k, md.module_id as int, a));
            assert(considered(fv, bv, i, cs, k + 1, md.module_id as int, a)) by {
                if md.module_id as int == i {
                    let t = choose|t: int| 0 <= t < k && #[trigger] cs[t]@ == a;
                    assert(in_cand_prefix(cs, k + 1, a));
                }
            }
            assert forall|j: int|
                #[trigger] considered(fv, bv, i, cs, k + 1, j, a) && j != md.module_id as int
                implies prefers(fv, md.module_id as int, j) by {
                if j == i && !considered(fv, bv, i, cs, k, j, a) {
                    let t = choose|t: int| 0 <= t < k + 1 && #[trigger] cs[t]@ == a;
                    assert(t < k);
                    assert(in_cand_prefix(cs, k, a));
                }
                assert(considered(fv, bv, i, cs, k, j, a));
            }
        } else {
            assert(post.alias_module(a0)->Some_0 == newmd);
            match prev {
                None => {
                    assert(newmd == (Module { path_id: i as usize, module_id: i as usize }));
                    assert forall|j: int|
                        #[trigger] considered(fv, bv, i, cs, k + 1, j, a0) && j
                            != newmd.module_id as int implies prefers(
                        fv,
                        newmd.module_id as int,
                        j,
                    ) by {
                        if j == i {
                            assert(j == newmd.module_id as int);
                        } else {
                            assert(considered(fv, bv, i, cs, k, j, a0));
                            assert(pre.alias_module(a0) is Some);
                        }
                    }
                    assert(interim_winner(fv, bv, i, cs, k + 1, newmd, a0));
                },
                Some(m) => {
                    let w = m.module_id as int;
                    assert(interim_winner(fv, bv, i, cs, k, m, a0));
                    assert(considered(fv, bv, i, cs, k, w, a0));
                    assert(0 <= w < fv.len());
                    assert(pre.paths()[i] == fv[i]);
                    assert(pre.paths()[w] == fv[w]);
                    if prefers_path(pre.paths()[i], pre.paths()[w], i, w) {
                        assert(newmd == (Module { path_id: i as usize, module_id: i as usize }));
                        assert(prefers(fv, i, w));
                        assert forall|j: int|
                            #[trigger] considered(fv, bv, i, cs, k + 1, j, a0) && j != i
                            implies prefers(fv, i, j) by {
                            if j == w {
                            } else {
                                assert(considered(fv, bv, i, cs, k, j, a0));
                                assert(prefers(fv, w, j));
                                lemma_prefers_trans(fv, i, w, j);
                            }
                        }
                        assert(interim_winner(fv, bv, i, cs, k + 1, newmd, a0));
                    } else {
                        assert(newmd == m);
                        assert(considered(fv, bv, i, cs, k + 1, w, a0)) by {
                            if w == i {
                                let t = choose|t: int| 0 <= t < k && #[trigger] cs[t]@ == a0;
                                assert(in_cand_prefix(cs, k + 1, a0));
                            }
                        }
                        assert forall|j: int|
                            #[trigger] considered(fv, bv, i, cs, k + 1, j, a0) && j != w
                            implies prefers(fv, w, j) by {
                            if considered(fv, bv, i, cs, k, j, a0) {
                            } else {
                                assert(j == i);
                                assert(!prefers(fv, i, w));
                                lemma_prefers_total(fv, i, w);
                            }
                        }
                        assert(interim_winner(fv, bv, i, cs, k + 1, m, a0));
                    }
                },
            }
        }
    }
}

// ---------------------------------------------------------------------------
// The store
// ---------------------------------------------------------------------------

/// Bidirectional interning of paths and modules, and the Alias→Module map.
pub struct DependencyGraphStore {
    path_id_to_path: Vec<Vec<char>>,
    module_id_to_module: Vec<Module>,
    path_id_to_module: HashMap<PathId, Module>,
    source_file_count: usize,
}

impl DependencyGraphStore {
    /// The interned path strings, in id order.
    pub closed spec fn paths(&self) -> Seq<Seq<char>> {
        self.path_id_to_path@.map_values(|p: Vec<char>| p@)
    }

    /// The registered modules, in id order.
    pub closed spec fn modules_seq(&self) -> Seq<Module> {
        self.module_id_to_module@
    }

    /// The alias map, keyed by path id.
    pub closed spec fn alias_ids(&self) -> Map<PathId, Module> {
        self.path_id_to_module@
    }

    /// How many of the modules stand for scanned source files.
    pub closed spec fn source_count(&self) -> int {
        self.source_file_count as int
    }

    /// The whole mathematical state.
    pub open spec fn model(&self) -> StoreModel {
        StoreModel { paths: self.paths(), modules: self.modules_seq(), alias: self.alias_ids() }
    }

    /// The module a path spelling resolves to, if any.
    pub open spec fn alias_module(&self, a: Seq<char>) -> Option<Module> {
        model_alias(self.model(), a)
    }

    /// Well-formedness: ids are dense and consistent.
    ///
    /// Interned paths are pairwise distinct; module `m` sits at position
    /// `m.module_id` and points into the path table; distinct modules have
    /// distinct canonical paths; every alias entry points at a registered
    /// module; and the modules standing for source files are exactly the
    /// first `source_count` ones, with `path_id` equal to `module_id`.
    pub open spec fn wf(&self) -> bool {
        &&& forall|i: int, j: int|
            0 <= i < j < self.paths().len() ==> self.paths()[i] != self.paths()[j]
        &&& forall|m: int|
            0 <= m < self.modules_seq().len() ==> (#[trigger] self.modules_seq()[m]).module_id == m
                && self.modules_seq()[m].path_id < self.paths().len()
        &&& forall|m1: int, m2: int|
            0 <= m1 < m2 < self.modules_seq().len() ==> self.modules_seq()[m1].path_id
                != self.modules_seq()[m2].path_id
        &&& forall|id: PathId|
            #[trigger] self.alias_ids().contains_key(id) ==> id < self.paths().len()
                && self.alias_ids()[id].module_id < self.modules_seq().len()
                && self.modules_seq()[self.alias_ids()[id].module_id as int] == self.alias_ids()[id]
        &&& self.source_count() <= self.modules_seq().len()
        &&& forall|m: int|
            0 <= m < self.source_count() ==> (#[trigger] self.modules_seq()[m]).path_id == m
    }

    /// Every registered module's canonical path id is a key of the alias
    /// map. This holds once the alias expansion has committed and stays true
    /// afterwards; module creation relies on it to keep canonical paths
    /// distinct.
    pub open spec fn aliases_cover_modules(&self) -> bool {
        forall|m: int|
            0 <= m < self.modules_seq().len() ==> self.alias_ids().contains_key(
                (#[trigger] self.modules_seq()[m]).path_id,
            )
    }

    /// A read-only view of the registered modules.
    pub fn modules(&self) -> (r: &Vec<Module>)
        ensures
            r@ == self.modules_seq(),
    {
        &self.module_id_to_module
    }

    /// The number of modules that stand for scanned source files.
    pub fn source_file_count(&self) -> (r: usize)
        ensures
            r == self.source_count(),
    {
        self.source_file_count
    }

    /// The id under which `path` is interned, if it is.
    pub fn try_get_id_for_path(&self, path: &Vec<char>) -> (r: Option<PathId>)
        ensures
            match r {
                Some(id) => id == index_of_path(self.paths(), path@) && id < self.paths().len(),
                None => index_of_path(self.paths(), path@) == -1,
            },
    {
        let n = self.path_id_to_path.len();
        let mut i: usize = 0;
        proof {
            lemma_index_of_path(self.paths(), path@);
        }
        while i < n
            invariant
                n == self.paths().len(),
                i <= n,
                -1 <= index_of_path(self.paths(), path@) < n,
                index_of_path(self.paths(), path@) >= 0 ==> self.paths()[index_of_path(
                    self.paths(),
                    path@,
                )] == path@,
                index_of_path(self.paths(), path@) < 0 ==> forall|k: int|
                    0 <= k < n ==> self.paths()[k] != path@,
                index_of_path(self.paths(), path@) >= 0 ==> forall|k: int|
                    0 <= k < index_of_path(self.paths(), path@) ==> self.paths()[k] != path@,
                forall|k: int| 0 <= k < i ==> self.paths()[k] != path@,
            decreases n - i,
        {
            if chars_eq(&self.path_id_to_path[i], path) {
                proof {
                    let ix = index_of_path(self.paths(), path@);
                    assert(self.paths()[i as int] == path@);
                    assert(ix >= 0);
                    if ix < i as int {
                        assert(self.paths()[ix] == path@);
                    }
                    if ix > i as int {
                        assert(self.paths()[i as int] != path@);
                    }
                }
                return Some(i);
            }
            i += 1;
        }
        None
    }

    /// Intern `path`: return its id, assigning the next dense id when the
    /// path is new.
    #[verifier::rlimit(50)]
    pub fn get_id_for_path(&mut self, path: &Vec<char>) -> (id: PathId)
        requires
            old(self).wf(),
        ensures
            final(self).wf(),
            final(self).model() == intern_model(old(self).model(), path@).0,
            id as int == intern_model(old(self).model(), path@).1,
            id < final(self).paths().len(),
            final(self).paths()[id as int] == path@,
            final(self).modules_seq() == old(self).modules_seq(),
            final(self).alias_ids() == old(self).alias_ids(),
            final(self).source_count() == old(self).source_count(),
            old(self).paths().is_prefix_of(final(self).paths()),
            final(self).paths().len() >= old(self).paths().len(),
            forall|t: int|
                0 <= t < old(self).paths().len() ==> final(self).paths()[t] == old(self).paths()[t],
    {
        proof {
            lemma_index_of_path(self.paths(), path@);
        }
        match self.try_get_id_for_path(path) {
            Some(id) => {
                proof {
                    assert(old(self).paths() =~= self.paths());
                }
                id
            },
            None => {
                let id = self.path_id_to_path.len();
                self.path_id_to_path.push(copy_chars(path));
                proof {
                    assert(self.paths() =~= old(self).paths().push(path@));
                    assert(self.model() == intern_model(old(self).model(), path@).0);
                    assert forall|k: int, l: int|
                        0 <= k < l < self.paths().len() implies self.paths()[k]
                        != self.paths()[l] by {
                        lemma_index_of_path(old(self).paths(), path@);
                        if l == id as int {
                            assert(self.paths()[k] == old(self).paths()[k]);
                        }
                    }
                    assert(old(self).paths().is_prefix_of(self.paths()));
                    assert forall|pid: PathId| #[trigger] self.alias_ids().contains_key(pid)
                        implies pid < self.paths().len() && self.alias_ids()[pid].module_id
                        < self.modules_seq().len() && self.modules_seq()[self.alias_ids()[pid].module_id as int]
                        == self.alias_ids()[pid] by {
                        assert(old(self).alias_ids().contains_key(pid));
                        assert(old(self).alias_ids()[pid] == self.alias_ids()[pid]);
                    }
                    assert(self.wf());
                }
                id
            },
        }
    }

    /// The path interned under `id`.
    pub fn get_path_for_id(&self, id: PathId) -> (r: Vec<char>)
        requires
            id < self.paths().len(),
        ensures
            r@ == self.paths()[id as int],
    {
        copy_chars(&self.path_id_to_path[id])
    }

    /// The canonical path of a registered module.
    pub fn get_path_for_module(&self, module: &Module) -> (r: Vec<char>)
        requires
            self.wf(),
            module.path_id < self.paths().len(),
        ensures
            r@ == self.paths()[module.path_id as int],
    {
        self.get_path_for_id(module.path_id)
    }

    /// The module a path spelling resolves to, if any: the one lookup
    /// resolution performs.
    pub fn try_get_module_for_path(&self, path: &Vec<char>) -> (r: Option<Module>)
        requires
            self.wf(),
        ensures
            r == self.alias_module(path@),
    {
        match self.try_get_id_for_path(path) {
            Some(id) => match self.path_id_to_module.get(&id) {
                Some(m) => Some(*m),
                None => None,
            },
            None => None,
        }
    }

    /// The module registered under `id`.
    pub fn get_module_for_id(&self, id: ModuleId) -> (r: Module)
        requires
            id < self.modules_seq().len(),
        ensures
            r == self.modules_seq()[id as int],
    {
        self.module_id_to_module[id]
    }

    /// The module a path names, created as a fresh module when the path is
    /// not yet mapped.
    fn get_module_for_path(&mut self, path: &Vec<char>) -> (m: Module)
        requires
            old(self).wf(),
            old(self).aliases_cover_modules(),
        ensures
            final(self).wf(),
            final(self).aliases_cover_modules(),
            final(self).model() == module_for_path_model(old(self).model(), path@).0,
            m == module_for_path_model(old(self).model(), path@).1,
            final(self).source_count() == old(self).source_count(),
            m.module_id < final(self).modules_seq().len(),
            final(self).modules_seq()[m.module_id as int] == m,
            m.path_id < final(self).paths().len(),
    {
        let path_id = self.get_id_for_path(path);
        match self.path_id_to_module.get(&path_id) {
            Some(m) => *m,
            None => {
                let new_id = self.module_id_to_module.len();
                let md = Module { path_id, module_id: new_id };
                self.module_id_to_module.push(md);
                self.path_id_to_module.insert(path_id, md);
                proof {
                    assert forall|m1: int, m2: int|
                        0 <= m1 < m2 < self.modules_seq().len() implies self.modules_seq()[m1].path_id
                        != self.modules_seq()[m2].path_id by {
                        if m2 == new_id as int {
                            let other = self.modules_seq()[m1];
                            if other.path_id == path_id {
                                assert(self.alias_ids().contains_key(path_id) == false);
                            }
                        }
                    }
                }
                md
            },
        }
    }

    /// Every committed alias pair: the spelling and the canonical path of
    /// the module it resolves to, in path-id order. A debug listing; in a
    /// well-formed store every alias entry appears.
    pub fn aliases(&self) -> (r: Vec<(Vec<char>, Vec<char>)>)
        ensures
            forall|t: int| 0 <= t < r@.len() ==> self.alias_pair_ok(#[trigger] r@[t]),
            forall|id: PathId|
                #[trigger] self.alias_ids().contains_key(id) && id < self.paths().len()
                    && self.alias_ids()[id].path_id < self.paths().len() ==> self.alias_listed(
                    r@,
                    id,
                ),
    {
        let n = self.path_id_to_path.len();
        let mut r: Vec<(Vec<char>, Vec<char>)> = Vec::new();
        let mut id: usize = 0;
        while id < n
            invariant
                n == self.paths().len(),
                id <= n,
                forall|t: int| 0 <= t < r@.len() ==> self.alias_pair_ok(#[trigger] r@[t]),
                forall|k: PathId|
                    #[trigger] self.alias_ids().contains_key(k) && k < id
                        && self.alias_ids()[k].path_id < self.paths().len() ==> self.alias_listed(
                        r@,
                        k,
                    ),
            decreases n - id,
        {
            let ghost old_r = r@;
            match self.path_id_to_module.get(&id) {
                Some(m) => {
                    let target_id = m.path_id;
                    if target_id < n {
                        let spelling = self.get_path_for_id(id);
                        let target = self.get_path_for_id(target_id);
                        r.push((spelling, target));
                        proof {
                            assert(self.alias_ids().contains_key(id));
                            assert(self.alias_ids()[id].path_id == target_id);
                            assert(r@[r@.len() - 1].0@ == self.paths()[id as int]);
                            assert(r@[r@.len() - 1].1@ == self.paths()[target_id as int]);
                            assert(self.alias_pair_ok(r@[r@.len() - 1]));
                            assert(self.alias_listed(r@, id));
                        }
                    }
                },
                None => {},
            }
            proof {
                assert forall|t: int| 0 <= t < r@.len() implies self.alias_pair_ok(
                    #[trigger] r@[t],
                ) by {
                    if t < old_r.len() {
                        assert(r@[t] == old_r[t]);
                        assert(self.alias_pair_ok(old_r[t]));
                    }
                }
                assert forall|k: PathId|
                    #[trigger] self.alias_ids().contains_key(k) && k < id + 1
                        && self.alias_ids()[k].path_id < self.paths().len() implies self.alias_listed(
                    r@,
                    k,
                ) by {
                    if k < id {
                        assert(self.alias_listed(old_r, k));
                        let t = choose|t: int|
                            0 <= t < old_r.len() && #[trigger] old_r[t].0@ == self.paths()[
                                k as int
                            ] && old_r[t].1@ == self.paths()[self.alias_ids()[k].path_id as int];
                        assert(r@[t] == old_r[t]);
                        assert(r@[t].0@ == self.paths()[k as int]);
                    }
                }
            }
            id += 1;
        }
        r
    }

    /// The pair holds an alias spelling and the canonical path its module
    /// resolves to.
    pub open spec fn alias_pair_ok(&self, pair: (Vec<char>, Vec<char>)) -> bool {
        exists|id: PathId|
            #![auto]
            self.alias_ids().contains_key(id) && id < self.paths().len() && self.alias_ids()[
                id
            ].path_id < self.paths().len() && pair.0@ == self.paths()[id as int] && pair.1@
                == self.paths()[self.alias_ids()[id].path_id as int]
    }

    /// The listing holds the pair of alias entry `id`.
    pub open spec fn alias_listed(&self, r: Seq<(Vec<char>, Vec<char>)>, id: PathId) -> bool {
        exists|t: int|
            0 <= t < r.len() && #[trigger] r[t].0@ == self.paths()[id as int] && r[t].1@
                == self.paths()[self.alias_ids()[id].path_id as int]
    }

    /// Record that file `i` proposes the alias `a`: intern the alias and
    /// let the better of file `i` and the standing winner keep it.
    fn register_candidate(&mut self, a: &Vec<char>, i: usize)
        requires
            old(self).wf(),
            i < old(self).source_count(),
            match old(self).alias_module(a@) {
                Some(m) => m.module_id < old(self).source_count() && m.path_id == m.module_id,
                None => true,
            },
        ensures
            final(self).wf(),
            final(self).modules_seq() == old(self).modules_seq(),
            final(self).source_count() == old(self).source_count(),
            old(self).paths().is_prefix_of(final(self).paths()),
            forall|q: Seq<char>|
                q != a@ ==> final(self).alias_module(q) == old(self).alias_module(q),
            final(self).alias_module(a@) == Some(
                updated_winner(old(self).paths(), old(self).alias_module(a@), i as int),
            ),
    {
        proof {
            lemma_index_of_path(old(self).paths(), a@);
        }
        let id = self.get_id_for_path(a);
        let prev: Option<Module> = match self.path_id_to_module.get(&id) {
            Some(m) => Some(*m),
            None => None,
        };
        proof {
            if index_of_path(old(self).paths(), a@) < 0 {
                assert(!old(self).alias_ids().contains_key(id));
                assert(prev is None);
                assert(model_alias(old(self).model(), a@) is None);
            } else {
                assert(id as int == index_of_path(old(self).paths(), a@));
                assert(prev == model_alias(old(self).model(), a@));
            }
        }
        let winner = match prev {
            None => Module { path_id: i, module_id: i },
            Some(m) => {
                proof {
                    assert(old(self).modules_seq()[i as int].path_id == i);
                    assert(old(self).modules_seq()[m.module_id as int].path_id == m.module_id);
                    assert(i < self.paths().len());
                    assert(m.module_id < self.paths().len());
                }
                let pi = self.get_path_for_id(i);
                let pm = self.get_path_for_id(m.module_id);
                proof {
                    assert(pi@ == old(self).paths()[i as int]);
                    assert(pm@ == old(self).paths()[m.module_id as int]);
                }
                if prefer_module(&pi, i, &pm, m.module_id) {
                    Module { path_id: i, module_id: i }
                } else {
                    m
                }
            },
        };
        self.path_id_to_module.insert(id, winner);
        let plen = self.path_id_to_path.len();
        proof {
            assert(self.paths().len() == plen);
            let oldm = old(self).model();
            let preving = model_alias(oldm, a@);
            assert(winner == updated_winner(old(self).paths(), preving, i as int));
            // The inserted winner is a registered module.
            assert(self.modules_seq()[winner.module_id as int] == winner) by {
                if preving is Some && winner == preving->Some_0 {
                    let m = preving->Some_0;
                    assert(old(self).alias_ids().contains_key(
                        index_of_path(old(self).paths(), a@) as usize,
                    ));
                } else {
                    assert(self.modules_seq()[i as int].module_id == i);
                    assert(self.modules_seq()[i as int].path_id == i);
                }
            }
            // Well-formedness survives the insert.
            assert forall|pid: PathId| #[trigger] self.alias_ids().contains_key(pid) implies pid
                < self.paths().len() && self.alias_ids()[pid].module_id < self.modules_seq().len()
                && self.modules_seq()[self.alias_ids()[pid].module_id as int]
                == self.alias_ids()[pid] by {
                if pid != id {
                    assert(old(self).alias_ids().contains_key(pid));
                    assert(old(self).alias_ids()[pid] == self.alias_ids()[pid]);
                }
            }
            assert(self.wf());
            // Lookups of other spellings are untouched.
            assert forall|q: Seq<char>| q != a@ implies self.alias_module(q) == old(
                self,
            ).alias_module(q) by {
                assert(self.alias_ids() == old(self).alias_ids().insert(id, winner));
                lemma_index_of_path(old(self).paths(), q);
                if index_of_path(old(self).paths(), a@) < 0 {
                    assert(self.paths() == old(self).paths().push(a@));
                    lemma_index_of_push(old(self).paths(), a@, q);
                } else {
                    assert(self.paths() == old(self).paths());
                }
                assert(index_of_path(self.paths(), q) == index_of_path(old(self).paths(), q));
                let iq = index_of_path(self.paths(), q);
                if iq >= 0 {
                    lemma_index_of_path(self.paths(), q);
                    assert(iq < plen);
                    assert(iq as usize as int == iq);
                    assert(self.paths()[iq] == q);
                    assert(self.paths()[id as int] == a@);
                    assert(iq != id as int);
                    assert(iq as usize != id);
                    assert(self.alias_ids().contains_key(iq as usize) == old(
                        self,
                    ).alias_ids().contains_key(iq as usize));
                    if self.alias_ids().contains_key(iq as usize) {
                        assert(self.alias_ids()[iq as usize] == old(self).alias_ids()[iq as usize]);
                    }
                } else {
                    assert(self.alias_module(q) is None);
                    assert(old(self).alias_module(q) is None);
                }
            }
            // The alias now resolves to the computed winner.
            assert(self.alias_module(a@) == Some(winner)) by {
                if index_of_path(old(self).paths(), a@) < 0 {
                    lemma_index_of_push_self(old(self).paths(), a@);
                    assert(index_of_path(self.paths(), a@) == id as int);
                } else {
                    assert(index_of_path(self.paths(), a@) == id as int);
                }
            }
        }
    }

    /// Walk every source file, synthesise its alternative import spellings,
    /// and commit the Alias→Module map, breaking every collision in favour
    /// of the deterministic winner.
    fn resolve_paths(&mut self, tsconfig: &crate::tsconfig::TSConfig)
        requires
            old(self).wf(),
            old(self).alias_ids() == Map::<PathId, Module>::empty(),
            old(self).source_count() == old(self).paths().len(),
            old(self).source_count() == old(self).modules_seq().len(),
        ensures
            final(self).wf(),
            final(self).aliases_cover_modules(),
            final(self).modules_seq() == old(self).modules_seq(),
            final(self).source_count() == old(self).source_count(),
            final(self).paths().len() >= old(self).paths().len(),
            forall|t: int|
                0 <= t < old(self).paths().len() ==> final(self).paths()[t] == old(self).paths()[t],
            alias_map_committed(*final(self), old(self).paths(), base_view(tsconfig)),
    {
        let ghost fv = old(self).paths();
        let ghost bv = base_view(tsconfig);
        let ghost no_cands = Seq::<Vec<char>>::empty();
        let n = self.source_file_count;
        let mut i: usize = 0;
        while i < n
            invariant
                self.wf(),
                self.source_count() == n,
                n == old(self).source_count(),
                self.modules_seq() == old(self).modules_seq(),
                fv == old(self).paths(),
                bv == base_view(tsconfig),
                fv.len() == n,
                no_cands == Seq::<Vec<char>>::empty(),
                n <= self.paths().len(),
                forall|t: int| 0 <= t < n ==> self.paths()[t] == fv[t],
                i <= n,
                forall|a: Seq<char>, j: int|
                    #[trigger] considered(fv, bv, i as int, no_cands, 0, j, a)
                        ==> self.alias_module(a) is Some,
                forall|a: Seq<char>|
                    (#[trigger] self.alias_module(a)) is Some ==> interim_winner(
                        fv,
                        bv,
                        i as int,
                        no_cands,
                        0,
                        self.alias_module(a)->Some_0,
                        a,
                    ),
            decreases n - i,
        {
            let p = self.get_path_for_id(i);
            proof {
                assert(p@ == fv[i as int]);
            }
            let cands = candidate_aliases(&p, tsconfig);
            let ghost cs = cands@;
            proof {
                assert forall|a: Seq<char>, j: int|
                    #[trigger] considered(fv, bv, i as int, cs, 0, j, a) implies self.alias_module(
                    a,
                ) is Some by {
                    assert(considered(fv, bv, i as int, no_cands, 0, j, a));
                }
                assert forall|a: Seq<char>|
                    (#[trigger] self.alias_module(a)) is Some implies interim_winner(
                    fv,
                    bv,
                    i as int,
                    cs,
                    0,
                    self.alias_module(a)->Some_0,
                    a,
                ) by {
                    let md = self.alias_module(a)->Some_0;
                    assert(interim_winner(fv, bv, i as int, no_cands, 0, md, a));
                    assert(considered(fv, bv, i as int, no_cands, 0, md.module_id as int, a));
                    assert(considered(fv, bv, i as int, cs, 0, md.module_id as int, a));
                    assert forall|j: int|
                        #[trigger] considered(fv, bv, i as int, cs, 0, j, a) && j
                            != md.module_id as int implies prefers(fv, md.module_id as int, j) by {
                        assert(considered(fv, bv, i as int, no_cands, 0, j, a));
                    }
                }
            }
            let mut k: usize = 0;
            while k < cands.len()
                invariant
                    self.wf(),
                    self.source_count() == n,
                    n == old(self).source_count(),
                    self.modules_seq() == old(self).modules_seq(),
                    fv == old(self).paths(),
                    bv == base_view(tsconfig),
                    fv.len() == n,
                    no_cands == Seq::<Vec<char>>::empty(),
                    n <= self.paths().len(),
                    forall|t: int| 0 <= t < n ==> self.paths()[t] == fv[t],
                    i < n,
                    cs == cands@,
                    k <= cs.len(),
                    forall|a: Seq<char>|
                        #[trigger] in_cand_prefix(cs, cs.len() as int, a) <==> proposes_alias(
                            fv[i as int],
                            bv,
                            a,
                        ),
                    forall|a: Seq<char>, j: int|
                        #[trigger] considered(fv, bv, i as int, cs, k as int, j, a)
                            ==> self.alias_module(a) is Some,
                    forall|a: Seq<char>|
                        (#[trigger] self.alias_module(a)) is Some ==> interim_winner(
                            fv,
                            bv,
                            i as int,
                            cs,
                            k as int,
                            self.alias_module(a)->Some_0,
                            a,
                        ),
                decreases cs.len() - k,
            {
                let ghost pre = *self;
                let ghost a0 = cands@[k as int]@;
                proof {
                    assert(in_cand_prefix(cs, cs.len() as int, a0));
                    if self.alias_module(a0) is Some {
                        let md = self.alias_module(a0)->Some_0;
                        assert(interim_winner(fv, bv, i as int, cs, k as int, md, a0));
                        assert(considered(fv, bv, i as int, cs, k as int, md.module_id as int, a0));
                    }
                }
                self.register_candidate(&cands[k], i);
                proof {
                    lemma_expansion_step(pre, *self, fv, bv, i as int, cs, k as int);
                }
                k += 1;
            }
            proof {
                assert forall|a: Seq<char>, j: int|
                    #[trigger] considered(fv, bv, i + 1, no_cands, 0, j, a) implies considered(
                    fv,
                    bv,
                    i as int,
                    cs,
                    cs.len() as int,
                    j,
                    a,
                ) by {
                    if j == i as int {
                        assert(proposes_alias(fv[i as int], bv, a));
                        assert(in_cand_prefix(cs, cs.len() as int, a));
                    }
                }
                assert forall|a: Seq<char>, j: int|
                    #[trigger] considered(fv, bv, i as int, cs, cs.len() as int, j, a)
                    implies considered(fv, bv, i + 1, no_cands, 0, j, a) by {
                    if j == i as int {
                        assert(proposes_alias(fv[i as int], bv, a));
                    }
                }
                assert forall|a: Seq<char>|
                    (#[trigger] self.alias_module(a)) is Some implies interim_winner(
                    fv,
                    bv,
                    i + 1,
                    no_cands,
                    0,
                    self.alias_module(a)->Some_0,
                    a,
                ) by {
                    let md = self.alias_module(a)->Some_0;
                    assert(interim_winner(fv, bv, i as int, cs, cs.len() as int, md, a));
                    assert forall|j: int|
                        #[trigger] considered(fv, bv, i + 1, no_cands, 0, j, a) && j
                            != md.module_id as int implies prefers(fv, md.module_id as int, j) by {
                        assert(considered(fv, bv, i as int, cs, cs.len() as int, j, a));
                    }
                }
            }
            i += 1;
        }
        proof {
            assert forall|a: Seq<char>| (#[trigger] self.alias_module(a)) is Some implies {
                let md = self.alias_module(a)->Some_0;
                &&& md.path_id == md.module_id
                &&& md.module_id < n
                &&& wins(fv, bv, md.module_id as int, a)
            } by {
                let md = self.alias_module(a)->Some_0;
                assert(interim_winner(fv, bv, n as int, no_cands, 0, md, a));
                assert(considered(fv, bv, n as int, no_cands, 0, md.module_id as int, a));
                assert forall|j: int|
                    proposes(fv, bv, j, a) && j != md.module_id as int implies prefers(
                    fv,
                    md.module_id as int,
                    j,
                ) by {
                    assert(considered(fv, bv, n as int, no_cands, 0, j, a));
                }
            }
            assert forall|a: Seq<char>|
                (#[trigger] self.alias_module(a)) is Some <==> exists|j: int|
                    proposes(fv, bv, j, a) by {
                if self.alias_module(a) is Some {
                    let md = self.alias_module(a)->Some_0;
                    assert(interim_winner(fv, bv, n as int, no_cands, 0, md, a));
                    assert(proposes(fv, bv, md.module_id as int, a));
                }
                if exists|j: int| proposes(fv, bv, j, a) {
                    let j = choose|j: int| proposes(fv, bv, j, a);
                    assert(considered(fv, bv, n as int, no_cands, 0, j, a));
                }
            }
            assert(alias_map_committed(*self, fv, bv));
            assert forall|m: int|
                0 <= m < self.modules_seq().len() implies self.alias_ids().contains_key(
                (#[trigger] self.modules_seq()[m]).path_id,
            ) by {
                assert(self.modules_seq()[m].path_id == m);
                assert(proposes(fv, bv, m, fv[m]));
                assert(self.alias_module(fv[m]) is Some);
                let ix = index_of_path(self.paths(), fv[m]);
                lemma_index_of_path(self.paths(), fv[m]);
                assert(self.paths()[m] == fv[m]);
                assert(0 <= ix < self.paths().len());
                if ix != m {
                    assert(self.paths()[ix] == fv[m]);
                }
                assert(ix == m);
            }
        }
    }

    /// Build the store for the scanned source files: one module per file
    /// with dense ids, and the committed Alias→Module map.
    pub fn new(paths: &Vec<Vec<char>>, tsconfig: &crate::tsconfig::TSConfig) -> (r:
        DependencyGraphStore)
        requires
            forall|i: int, j: int| 0 <= i < j < paths@.len() ==> paths@[i]@ != paths@[j]@,
        ensures
            r.wf(),
            r.aliases_cover_modules(),
            r.source_count() == paths@.len(),
            r.modules_seq().len() == paths@.len(),
            forall|m: int|
                0 <= m < paths@.len() ==> (#[trigger] r.modules_seq()[m]) == (Module {
                    path_id: m as usize,
                    module_id: m as usize,
                }),
            r.paths().len() >= paths@.len(),
            forall|t: int| 0 <= t < paths@.len() ==> r.paths()[t] == #[trigger] paths@[t]@,
            alias_map_committed(r, path_views(paths), base_view(tsconfig)),
    {
        let n = paths.len();
        let mut path_vec: Vec<Vec<char>> = Vec::new();
        let mut module_vec: Vec<Module> = Vec::new();
        let mut i: usize = 0;
        while i < n
            invariant
                i <= n,
                n == paths@.len(),
                path_vec@.len() == i,
                module_vec@.len() == i,
                forall|t: int| 0 <= t < i ==> #[trigger] path_vec@[t]@ == paths@[t]@,
                forall|t: int|
                    0 <= t < i ==> #[trigger] module_vec@[t] == (Module {
                        path_id: t as usize,
                        module_id: t as usize,
                    }),
            decreases n - i,
        {
            path_vec.push(copy_chars(&paths[i]));
            module_vec.push(Module { path_id: i, module_id: i });
            i += 1;
        }
        let mut store = DependencyGraphStore {
            path_id_to_path: path_vec,
            module_id_to_module: module_vec,
            path_id_to_module: HashMap::new(),
            source_file_count: n,
        };
        proof {
            assert(store.paths() =~= path_views(paths));
            assert(store.wf());
        }
        store.resolve_paths(tsconfig);
        store
    }

    /// Register the external package a deep import names: find or create the
    /// module of its package root, and record the deep spelling as an alias
    /// of that module for the next lookup.
    pub fn add_node_module(&mut self, path: &Vec<char>) -> (m: Module)
        requires
            old(self).wf(),
            old(self).aliases_cover_modules(),
            spec_package_root(path@) is Some,
        ensures
            final(self).wf(),
            final(self).aliases_cover_modules(),
            final(self).model() == add_external_model(
                old(self).model(),
                path@,
                spec_package_root(path@)->Some_0,
            ).0,
            m == add_external_model(old(self).model(), path@, spec_package_root(path@)->Some_0).1,
            final(self).source_count() == old(self).source_count(),
            m.module_id < final(self).modules_seq().len(),
            final(self).modules_seq()[m.module_id as int] == m,
    {
        let module_name = match try_package_root(path) {
            Some(r) => r,
            None => {
                proof {
                    assert(false);
                }
                Vec::new()
            },
        };
        let m = self.get_module_for_path(&module_name);
        let path_id = self.get_id_for_path(path);
        self.path_id_to_module.insert(path_id, m);
        m
    }
}

/// The package root of a non-relative import string, or `None` when the
/// string is malformed as a package name.
pub fn try_package_root(d: &Vec<char>) -> (r: Option<Vec<char>>)
    ensures
        match r {
            Some(v) => spec_package_root(d@) == Some(v@),
            None => spec_package_root(d@) is None,
        },
{
    if d.len() == 0 || d[0] == '/' {
        return None;
    }
    if d[0] == '@' {
        match find_first(d, '/') {
            None => None,
            Some(j) => {
                if j + 1 >= d.len() || d[j + 1] == '/' {
                    return None;
                }
                let rest = sub_chars(d, j + 1, d.len());
                match find_first(&rest, '/') {
                    None => Some(sub_chars(d, 0, d.len())),
                    Some(k) => Some(sub_chars(d, 0, j + 1 + k)),
                }
            },
        }
    } else {
        match find_first(d, '/') {
            None => Some(sub_chars(d, 0, d.len())),
            Some(j) => Some(sub_chars(d, 0, j)),
        }
    }
}

} // verus!
