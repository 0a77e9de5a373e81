//! Path text: the lexical operations on path strings that the engine needs.
//!
//! Paths are held as vectors of characters; their mathematical model is
//! `Seq<char>`. All operations here are purely lexical.

use vstd::prelude::*;

verus! {

/// File extensions recognised by the engine.
pub struct Extensions;

impl Extensions {
    pub const TS: &'static str = "ts";

    pub const D_TS: &'static str = "d.ts";

    pub const TSX: &'static str = "tsx";

    pub const CTS: &'static str = "cts";

    pub const D_CTS: &'static str = "d.cts";

    pub const MTS: &'static str = "mts";

    pub const D_MTS: &'static str = "d.mts";

    pub const JS: &'static str = "js";

    pub const JSX: &'static str = "jsx";

    pub const CJS: &'static str = "cjs";

    pub const MJS: &'static str = "mjs";
}

// ---------------------------------------------------------------------------
// Elementary sequence helpers
// ---------------------------------------------------------------------------

/// `s` ends with the suffix `x`.
pub open spec fn ends_with(s: Seq<char>, x: Seq<char>) -> bool {
    x.len() <= s.len() && s.skip(s.len() - x.len()) == x
}

/// `s` starts with the prefix `x`.
pub open spec fn starts_with(s: Seq<char>, x: Seq<char>) -> bool {
    x.len() <= s.len() && s.take(x.len() as int) == x
}

/// Index of the last occurrence of `c` in `s`, or `-1` when `c` does not occur.
pub open spec fn last_pos(s: Seq<char>, c: char) -> int
    decreases s.len(),
{
    if s.len() == 0 {
        -1
    } else if s[s.len() - 1] == c {
        s.len() - 1
    } else {
        last_pos(s.drop_last(), c)
    }
}

/// Index of the first occurrence of `c` in `s`, or `-1` when `c` does not occur.
pub open spec fn first_pos(s: Seq<char>, c: char) -> int
    decreases s.len(),
{
    if s.len() == 0 {
        -1
    } else if s[0] == c {
        0
    } else if first_pos(s.skip(1), c) < 0 {
        -1
    } else {
        1 + first_pos(s.skip(1), c)
    }
}

/// What `last_pos` returns: the position of the last occurrence, or `-1` and
/// then no position holds `c`.
pub proof fn lemma_last_pos(s: Seq<char>, c: char)
    ensures
        -1 <= last_pos(s, c) < s.len(),
        last_pos(s, c) >= 0 ==> {
            &&& s[last_pos(s, c)] == c
            &&& forall|i: int| last_pos(s, c) < i < s.len() ==> s[i] != c
        },
        last_pos(s, c) < 0 ==> forall|i: int| 0 <= i < s.len() ==> s[i] != c,
    decreases s.len(),
{
    if s.len() > 0 && s[s.len() - 1] != c {
        lemma_last_pos(s.drop_last(), c);
        assert forall|i: int| 0 <= i < s.len() - 1 implies s.drop_last()[i] == s[i] by {}
    }
}

/// What `first_pos` returns: the position of the first occurrence, or `-1` and
/// then no position holds `c`.
pub proof fn lemma_first_pos(s: Seq<char>, c: char)
    ensures
        -1 <= first_pos(s, c) < s.len(),
        first_pos(s, c) >= 0 ==> {
            &&& s[first_pos(s, c)] == c
            &&& forall|i: int| 0 <= i < first_pos(s, c) ==> s[i] != c
        },
        first_pos(s, c) < 0 ==> forall|i: int| 0 <= i < s.len() ==> s[i] != c,
    decreases s.len(),
{
    if s.len() > 0 && s[0] != c {
        lemma_first_pos(s.skip(1), c);
        assert forall|i: int| 0 <= i < s.len() - 1 implies s.skip(1)[i] == s[i + 1] by {}
        let sub = first_pos(s.skip(1), c);
        if sub >= 0 {
            assert(first_pos(s, c) == 1 + sub);
            assert(s[1 + sub] == s.skip(1)[sub]);
            assert forall|i: int| 0 <= i < 1 + sub implies s[i] != c by {
                if i >= 1 {
                    assert(s[i] == s.skip(1)[i - 1]);
                }
            }
        } else {
            assert(first_pos(s, c) == -1);
            assert forall|i: int| 0 <= i < s.len() implies s[i] != c by {
                if i >= 1 {
                    assert(s[i] == s.skip(1)[i - 1]);
                }
            }
        }
    }
}

// ---------------------------------------------------------------------------
// Path decomposition (specification)
// ---------------------------------------------------------------------------

/// The final component of a path: everything after the last `/`.
pub open spec fn file_name_of(p: Seq<char>) -> Seq<char> {
    p.skip(last_pos(p, '/') + 1)
}

/// The parent directory of a path: everything before the last `/`, with the
/// root kept as `/` and no parent spelled as the empty sequence.
pub open spec fn parent_of(p: Seq<char>) -> Seq<char> {
    let j = last_pos(p, '/');
    if j < 0 {
        Seq::empty()
    } else if j == 0 {
        seq!['/']
    } else {
        p.take(j)
    }
}

/// The extension of a path's final component: everything after the last `.`,
/// provided that dot is not the component's first character. A name such as
/// `.gitignore` has no extension.
pub open spec fn extension_of(p: Seq<char>) -> Option<Seq<char>> {
    let name = file_name_of(p);
    let k = last_pos(name, '.');
    if k <= 0 {
        None
    } else {
        Some(name.skip(k + 1))
    }
}

/// The stem of a path's final component: the component with its extension
/// (and the separating dot) removed.
pub open spec fn stem_of(p: Seq<char>) -> Seq<char> {
    let name = file_name_of(p);
    let k = last_pos(name, '.');
    if k <= 0 {
        name
    } else {
        name.take(k)
    }
}

/// The path with its extension (and the separating dot) removed.
pub open spec fn drop_extension(p: Seq<char>) -> Seq<char> {
    let name = file_name_of(p);
    let k = last_pos(name, '.');
    if k <= 0 {
        p
    } else {
        p.take(p.len() - (name.len() - k))
    }
}

/// The path names a declaration file: it ends in `.d.ts`, `.d.mts`, or `.d.cts`.
pub open spec fn spec_is_declaration_file(p: Seq<char>) -> bool {
    ||| ends_with(p, seq!['.', 'd', '.', 't', 's'])
    ||| ends_with(p, seq!['.', 'd', '.', 'm', 't', 's'])
    ||| ends_with(p, seq!['.', 'd', '.', 'c', 't', 's'])
}

/// The stem of the path's final component is `index`, so the file is
/// importable through its parent directory.
pub open spec fn is_index_file(p: Seq<char>) -> bool {
    stem_of(p) == seq!['i', 'n', 'd', 'e', 'x']
}

/// The extension belongs to the supported source-code set.
pub open spec fn is_code_extension(e: Seq<char>) -> bool {
    ||| e == seq!['t', 's']
    ||| e == seq!['t', 's', 'x']
    ||| e == seq!['c', 't', 's']
    ||| e == seq!['m', 't', 's']
    ||| e == seq!['j', 's']
    ||| e == seq!['j', 's', 'x']
    ||| e == seq!['c', 'j', 's']
    ||| e == seq!['m', 'j', 's']
}

/// The extension-stripped alias of a source path. Declaration files lose both
/// of their extensions; any other supported extension is stripped once; a path
/// without a supported extension is left as it stands.
pub open spec fn stripped_alias(p: Seq<char>) -> Seq<char> {
    if spec_is_declaration_file(p) {
        drop_extension(drop_extension(p))
    } else if extension_of(p) is Some && is_code_extension(extension_of(p)->Some_0) {
        drop_extension(p)
    } else {
        p
    }
}

/// The extension marks a non-code asset that never takes part in module
/// resolution.
pub open spec fn is_skipped_extension(e: Seq<char>) -> bool {
    ||| e == seq!['a', 'v', 'i', 'f']
    ||| e == seq!['c', 's', 's']
    ||| e == seq!['e', 'j', 's']
    ||| e == seq!['f', 'r', 'a', 'g']
    ||| e == seq!['g', 'i', 'f']
    ||| e == seq!['h', 't', 'm', 'l']
    ||| e == seq!['j', 'p', 'g']
    ||| e == seq!['j', 's', 'o', 'n']
    ||| e == seq!['m', '4', 'a']
    ||| e == seq!['m', 'd']
    ||| e == seq!['m', 'p', '3']
    ||| e == seq!['m', 'p', '4']
    ||| e == seq!['o', 'g', 'v']
    ||| e == seq!['o', 't', 'f']
    ||| e == seq!['p', 'n', 'g']
    ||| e == seq!['s', 'v', 'g']
    ||| e == seq!['t', 't', 'f']
    ||| e == seq!['t', 'x', 't']
    ||| e == seq!['v', 'e', 'r', 't']
    ||| e == seq!['v', 't', 't']
    ||| e == seq!['w', 'a', 's', 'm']
    ||| e == seq!['w', 'e', 'b', 'm']
    ||| e == seq!['w', 'o', 'f', 'f']
    ||| e == seq!['w', 'o', 'f', 'f', '2']
}

/// The dependency string carries a non-code extension and is dropped silently.
pub open spec fn has_skipped_extension(d: Seq<char>) -> bool {
    extension_of(d) is Some && is_skipped_extension(extension_of(d)->Some_0)
}

/// The dependency string is a relative reference: it begins with `./` or `../`.
pub open spec fn is_relative_import(d: Seq<char>) -> bool {
    starts_with(d, seq!['.', '/']) || starts_with(d, seq!['.', '.', '/'])
}

/// Lexical join: an absolute right-hand side replaces the left-hand side,
/// anything else is appended after a separator.
pub open spec fn join_paths(a: Seq<char>, b: Seq<char>) -> Seq<char> {
    if b.len() > 0 && b[0] == '/' {
        b
    } else {
        a + seq!['/'] + b
    }
}

/// `p` relative to the base directory `b`: the remainder of `p` after the
/// prefix `b` and the separating slash, when `p` lies strictly under `b`.
pub open spec fn strip_base(p: Seq<char>, b: Seq<char>) -> Option<Seq<char>> {
    if b.len() < p.len() && p.take(b.len() as int) == b {
        if b.len() > 0 && b[b.len() - 1] == '/' {
            Some(p.skip(b.len() as int))
        } else if p[b.len() as int] == '/' {
            Some(p.skip(b.len() + 1 as int))
        } else {
            None
        }
    } else {
        None
    }
}

// ---------------------------------------------------------------------------
// Executable comparisons
// ---------------------------------------------------------------------------

/// The two character vectors hold the same text.
pub fn chars_eq(a: &Vec<char>, b: &Vec<char>) -> (r: bool)
    ensures
        r == (a@ == b@),
{
    if a.len() != b.len() {
        return false;
    }
    let mut i: usize = 0;
    while i < a.len()
        invariant
            a.len() == b.len(),
            i <= a.len(),
            forall|j: int| 0 <= j < i ==> a@[j] == b@[j],
        decreases a.len() - i,
    {
        if a[i] != b[i] {
            return false;
        }
        i += 1;
    }
    proof {
        assert(a@ =~= b@);
    }
    true
}

/// The vector holds exactly the two given characters.
pub fn eq2(v: &Vec<char>, a: char, b: char) -> (r: bool)
    ensures
        r == (v@ == seq![a, b]),
{
    let r = v.len() == 2 && v[0] == a && v[1] == b;
    proof {
        if r {
            assert(v@ =~= seq![a, b]);
        }
    }
    r
}

/// The vector holds exactly the three given characters.
pub fn eq3(v: &Vec<char>, a: char, b: char, c: char) -> (r: bool)
    ensures
        r == (v@ == seq![a, b, c]),
{
    let r = v.len() == 3 && v[0] == a && v[1] == b && v[2] == c;
    proof {
        if r {
            assert(v@ =~= seq![a, b, c]);
        }
    }
    r
}

/// The vector holds exactly the four given characters.
pub fn eq4(v: &Vec<char>, a: char, b: char, c: char, d: char) -> (r: bool)
    ensures
        r == (v@ == seq![a, b, c, d]),
{
    let r = v.len() == 4 && v[0] == a && v[1] == b && v[2] == c && v[3] == d;
    proof {
        if r {
            assert(v@ =~= seq![a, b, c, d]);
        }
    }
    r
}

/// The vector holds exactly the five given characters.
pub fn eq5(v: &Vec<char>, a: char, b: char, c: char, d: char, e: char) -> (r: bool)
    ensures
        r == (v@ == seq![a, b, c, d, e]),
{
    let r = v.len() == 5 && v[0] == a && v[1] == b && v[2] == c && v[3] == d && v[4] == e;
    proof {
        if r {
            assert(v@ =~= seq![a, b, c, d, e]);
        }
    }
    r
}

// ---------------------------------------------------------------------------
// Executable path decomposition
// ---------------------------------------------------------------------------

/// The copy of `v[from..to]`.
pub fn sub_chars(v: &Vec<char>, from: usize, to: usize) -> (r: Vec<char>)
    requires
        from <= to <= v@.len(),
    ensures
        r@ == v@.subrange(from as int, to as int),
{
    let mut r: Vec<char> = Vec::new();
    let mut i: usize = from;
    while i < to
        invariant
            from <= i <= to <= v@.len(),
            r@ == v@.subrange(from as int, i as int),
        decreases to - i,
    {
        r.push(v[i]);
        proof {
            assert(r@ =~= v@.subrange(from as int, i + 1));
        }
        i += 1;
    }
    r
}

/// A copy of the character vector.
pub fn copy_chars(v: &Vec<char>) -> (r: Vec<char>)
    ensures
        r@ == v@,
{
    let r = sub_chars(v, 0, v.len());
    proof {
        assert(r@ =~= v@);
    }
    r
}

/// Position of the last occurrence of `c` in `v`, if any.
pub fn find_last(v: &Vec<char>, c: char) -> (r: Option<usize>)
    ensures
        match r {
            Some(j) => j == last_pos(v@, c) && j < v@.len(),
            None => last_pos(v@, c) == -1,
        },
{
    let mut i: usize = v.len();
    while i > 0
        invariant
            i <= v@.len(),
            forall|j: int| i <= j < v@.len() ==> v@[j] != c,
        decreases i,
    {
        i -= 1;
        if v[i] == c {
            proof {
                lemma_last_pos(v@, c);
            }
            return Some(i);
        }
    }
    proof {
        lemma_last_pos(v@, c);
    }
    None
}

/// Position of the first occurrence of `c` in `v`, if any.
pub fn find_first(v: &Vec<char>, c: char) -> (r: Option<usize>)
    ensures
        match r {
            Some(j) => j == first_pos(v@, c) && j < v@.len(),
            None => first_pos(v@, c) == -1,
        },
{
    let mut i: usize = 0;
    while i < v.len()
        invariant
            i <= v@.len(),
            forall|j: int| 0 <= j < i ==> v@[j] != c,
        decreases v@.len() - i,
    {
        if v[i] == c {
            proof {
                lemma_first_pos(v@, c);
            }
            return Some(i);
        }
        i += 1;
    }
    proof {
        lemma_first_pos(v@, c);
    }
    None
}

/// The final component of the path.
pub fn file_name(p: &Vec<char>) -> (r: Vec<char>)
    ensures
        r@ == file_name_of(p@),
{
    let n = p.len();
    match find_last(p, '/') {
        Some(j) => sub_chars(p, j + 1, n),
        None => sub_chars(p, 0, n),
    }
}

/// The parent directory of the path; the empty vector when there is none.
pub fn parent_dir(p: &Vec<char>) -> (r: Vec<char>)
    ensures
        r@ == parent_of(p@),
{
    match find_last(p, '/') {
        Some(j) => {
            if j == 0 {
                let mut r: Vec<char> = Vec::new();
                r.push('/');
                proof {
                    assert(r@ =~= seq!['/']);
                }
                r
            } else {
                sub_chars(p, 0, j)
            }
        },
        None => Vec::new(),
    }
}

/// The extension of the path's final component, if it has one.
pub fn extension(p: &Vec<char>) -> (r: Option<Vec<char>>)
    ensures
        match r {
            Some(e) => extension_of(p@) == Some(e@),
            None => extension_of(p@) is None,
        },
{
    let name = file_name(p);
    let n = name.len();
    match find_last(&name, '.') {
        Some(k) => {
            if k == 0 {
                None
            } else {
                Some(sub_chars(&name, k + 1, n))
            }
        },
        None => None,
    }
}

/// The path ends in `.d.ts`.
pub fn ends_d_ts(p: &Vec<char>) -> (r: bool)
    ensures
        r == ends_with(p@, seq!['.', 'd', '.', 't', 's']),
{
    let n = p.len();
    let dts = n >= 5 && p[n - 5] == '.' && p[n - 4] == 'd' && p[n - 3] == '.' && p[n - 2] == 't'
        && p[n - 1] == 's';
    proof {
        if dts {
            assert(p@.skip(n - 5) =~= seq!['.', 'd', '.', 't', 's']);
        }
        if ends_with(p@, seq!['.', 'd', '.', 't', 's']) {
            assert(p@.skip(n - 5)[0] == p@[n - 5]);
            assert(p@.skip(n - 5)[1] == p@[n - 4]);
            assert(p@.skip(n - 5)[2] == p@[n - 3]);
            assert(p@.skip(n - 5)[3] == p@[n - 2]);
            assert(p@.skip(n - 5)[4] == p@[n - 1]);
        }
    }
    dts
}

/// The path ends in `.d.mts`.
pub fn ends_d_mts(p: &Vec<char>) -> (r: bool)
    ensures
        r == ends_with(p@, seq!['.', 'd', '.', 'm', 't', 's']),
{
    let n = p.len();
    let dmts = n >= 6 && p[n - 6] == '.' && p[n - 5] == 'd' && p[n - 4] == '.' && p[n - 3] == 'm'
        && p[n - 2] == 't' && p[n - 1] == 's';
    proof {
        if dmts {
            assert(p@.skip(n - 6) =~= seq!['.', 'd', '.', 'm', 't', 's']);
        }
        if ends_with(p@, seq!['.', 'd', '.', 'm', 't', 's']) {
            assert(p@.skip(n - 6)[0] == p@[n - 6]);
            assert(p@.skip(n - 6)[1] == p@[n - 5]);
            assert(p@.skip(n - 6)[2] == p@[n - 4]);
            assert(p@.skip(n - 6)[3] == p@[n - 3]);
            assert(p@.skip(n - 6)[4] == p@[n - 2]);
            assert(p@.skip(n - 6)[5] == p@[n - 1]);
        }
    }
    dmts
}

/// The path ends in `.d.cts`.
pub fn ends_d_cts(p: &Vec<char>) -> (r: bool)
    ensures
        r == ends_with(p@, seq!['.', 'd', '.', 'c', 't', 's']),
{
    let n = p.len();
    let dcts = n >= 6 && p[n - 6] == '.' && p[n - 5] == 'd' && p[n - 4] == '.' && p[n - 3] == 'c'
        && p[n - 2] == 't' && p[n - 1] == 's';
    proof {
        if dcts {
            assert(p@.skip(n - 6) =~= seq!['.', 'd', '.', 'c', 't', 's']);
        }
        if ends_with(p@, seq!['.', 'd', '.', 'c', 't', 's']) {
            assert(p@.skip(n - 6)[0] == p@[n - 6]);
            assert(p@.skip(n - 6)[1] == p@[n - 5]);
            assert(p@.skip(n - 6)[2] == p@[n - 4]);
            assert(p@.skip(n - 6)[3] == p@[n - 3]);
            assert(p@.skip(n - 6)[4] == p@[n - 2]);
            assert(p@.skip(n - 6)[5] == p@[n - 1]);
        }
    }
    dcts
}

/// The path ends in `.d.ts`, `.d.mts`, or `.d.cts`.
pub fn is_declaration_file(p: &Vec<char>) -> (r: bool)
    ensures
        r == spec_is_declaration_file(p@),
{
    ends_d_ts(p) || ends_d_mts(p) || ends_d_cts(p)
}

/// The stem of the path's final component is `index`.
pub fn stem_is_index(p: &Vec<char>) -> (r: bool)
    ensures
        r == is_index_file(p@),
{
    let name = file_name(p);
    let stem = match find_last(&name, '.') {
        Some(k) => {
            if k == 0 {
                name
            } else {
                sub_chars(&name, 0, k)
            }
        },
        None => name,
    };
    eq5(&stem, 'i', 'n', 'd', 'e', 'x')
}

/// The path with one extension stripped, as `drop_extension` describes.
fn drop_one_extension(p: &Vec<char>) -> (r: Vec<char>)
    ensures
        r@ == drop_extension(p@),
{
    proof {
        lemma_last_pos(p@, '/');
    }
    let name = file_name(p);
    match find_last(&name, '.') {
        Some(k) => {
            if k == 0 {
                sub_chars(p, 0, p.len())
            } else {
                sub_chars(p, 0, p.len() - (name.len() - k))
            }
        },
        None => sub_chars(p, 0, p.len()),
    }
}

/// The extension-stripped alias of the path, as `stripped_alias` describes.
pub fn strip_alias(p: &Vec<char>) -> (r: Vec<char>)
    ensures
        r@ == stripped_alias(p@),
{
    if is_declaration_file(p) {
        let once = drop_one_extension(p);
        drop_one_extension(&once)
    } else {
        match extension(p) {
            Some(e) => {
                if is_code_ext(&e) {
                    drop_one_extension(p)
                } else {
                    sub_chars(p, 0, p.len())
                }
            },
            None => sub_chars(p, 0, p.len()),
        }
    }
}

/// The extension belongs to the supported source-code set.
pub fn is_code_ext(e: &Vec<char>) -> (r: bool)
    ensures
        r == is_code_extension(e@),
{
    eq2(e, 't', 's') || eq3(e, 't', 's', 'x') || eq3(e, 'c', 't', 's') || eq3(e, 'm', 't', 's')
        || eq2(e, 'j', 's') || eq3(e, 'j', 's', 'x') || eq3(e, 'c', 'j', 's') || eq3(
        e,
        'm',
        'j',
        's',
    )
}

/// The dependency string carries a non-code extension.
pub fn has_skipped_ext(d: &Vec<char>) -> (r: bool)
    ensures
        r == has_skipped_extension(d@),
{
    match extension(d) {
        Some(e) => {
            eq4(&e, 'a', 'v', 'i', 'f') || eq3(&e, 'c', 's', 's') || eq3(&e, 'e', 'j', 's') || eq4(
                &e,
                'f',
                'r',
                'a',
                'g',
            ) || eq3(&e, 'g', 'i', 'f') || eq4(&e, 'h', 't', 'm', 'l') || eq3(&e, 'j', 'p', 'g')
                || eq4(&e, 'j', 's', 'o', 'n') || eq3(&e, 'm', '4', 'a') || eq2(&e, 'm', 'd')
                || eq3(&e, 'm', 'p', '3') || eq3(&e, 'm', 'p', '4') || eq3(&e, 'o', 'g', 'v')
                || eq3(&e, 'o', 't', 'f') || eq3(&e, 'p', 'n', 'g') || eq3(&e, 's', 'v', 'g')
                || eq3(&e, 't', 't', 'f') || eq3(&e, 't', 'x', 't') || eq4(&e, 'v', 'e', 'r', 't')
                || eq3(&e, 'v', 't', 't') || eq4(&e, 'w', 'a', 's', 'm') || eq4(
                &e,
                'w',
                'e',
                'b',
                'm',
            ) || eq4(&e, 'w', 'o', 'f', 'f') || eq5(&e, 'w', 'o', 'f', 'f', '2')
        },
        None => false,
    }
}

/// The dependency string begins with `./` or `../`.
pub fn starts_relative(d: &Vec<char>) -> (r: bool)
    ensures
        r == is_relative_import(d@),
{
    let dot = d.len() >= 2 && d[0] == '.' && d[1] == '/';
    let dotdot = d.len() >= 3 && d[0] == '.' && d[1] == '.' && d[2] == '/';
    proof {
        if dot {
            assert(d@.take(2) =~= seq!['.', '/']);
        }
        if dotdot {
            assert(d@.take(3) =~= seq!['.', '.', '/']);
        }
        if starts_with(d@, seq!['.', '/']) {
            assert(d@.take(2)[0] == d@[0]);
            assert(d@.take(2)[1] == d@[1]);
        }
        if starts_with(d@, seq!['.', '.', '/']) {
            assert(d@.take(3)[0] == d@[0]);
            assert(d@.take(3)[1] == d@[1]);
            assert(d@.take(3)[2] == d@[2]);
        }
    }
    dot || dotdot
}

/// Lexical join of a directory and a path, as `join_paths` describes.
pub fn join(a: &Vec<char>, b: &Vec<char>) -> (r: Vec<char>)
    ensures
        r@ == join_paths(a@, b@),
{
    if b.len() > 0 && b[0] == '/' {
        return sub_chars(b, 0, b.len());
    }
    let mut r = sub_chars(a, 0, a.len());
    r.push('/');
    let mut i: usize = 0;
    while i < b.len()
        invariant
            i <= b@.len(),
            r@ == a@ + seq!['/'] + b@.take(i as int),
        decreases b@.len() - i,
    {
        r.push(b[i]);
        proof {
            assert(a@ + seq!['/'] + b@.take(i + 1) =~= (a@ + seq!['/'] + b@.take(i as int)).push(
                b@[i as int],
            ));
        }
        i += 1;
    }
    proof {
        assert(b@.take(b@.len() as int) =~= b@);
    }
    r
}

/// The lexical cleaning of a path: what `clean_path::clean` returns for it.
/// The result depends on the characters of the path alone.
pub uninterp spec fn cleaned_path(s: Seq<char>) -> Seq<char>;

/// Relies on `clean_path::clean`: a purely lexical normalisation that
/// collapses repeated separators and resolves `.` and `..` components,
/// touching no filesystem state.
#[verifier::external_body]
pub(crate) fn clean(p: &Vec<char>) -> (r: Vec<char>)
    ensures
        r@ == cleaned_path(p@),
{
    let s: String = p.iter().collect();
    clean_path::clean(s).to_string_lossy().chars().collect()
}

/// `p` relative to the base directory `b`, as `strip_base` describes.
pub fn strip_base_prefix(p: &Vec<char>, b: &Vec<char>) -> (r: Option<Vec<char>>)
    ensures
        match r {
            Some(s) => strip_base(p@, b@) == Some(s@),
            None => strip_base(p@, b@) is None,
        },
{
    if b.len() >= p.len() {
        return None;
    }
    let prefix = sub_chars(p, 0, b.len());
    if !chars_eq(&prefix, b) {
        return None;
    }
    if b.len() > 0 && b[b.len() - 1] == '/' {
        Some(sub_chars(p, b.len(), p.len()))
    } else if p[b.len()] == '/' {
        Some(sub_chars(p, b.len() + 1, p.len()))
    } else {
        None
    }
}

} // verus!
