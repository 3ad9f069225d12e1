//! Resolution of loosely given module names to the keys of the index.
//!
//! A name may be a bare module name, a name spelled with `_` where the file
//! has `-`, or a partial path. Resolution tries, in this order: a key that
//! ends with the normalised name; a key that ends with the normalised name
//! after every `_` became `-`; the key named by the `filename:` line of an
//! external lookup. Where several keys end with the name, the key equal to
//! it wins, then the one that comes first in the index.
//!
//! The heuristic is best effort: a name that mixes `_` and `-` differently
//! from the file matches neither spelling.

use crate::descriptor::{DepIndex, ModuleIndex};
use crate::text::{
    concat, copy_chars, ends_with, find, first_at, has_prefix, has_suffix, lemma_first_at,
    lines, lines_of, occurs_at, pattern_of, remove, replace, replaced, starts_with, to_chars, views,
    without,
};
use vstd::prelude::*;
use vstd::slice::slice_subrange;

verus! {

/// `c` occurs in `s`.
pub open spec fn has_char(s: Seq<char>, c: char) -> bool {
    first_at(s, seq![c], 0) < s.len()
}

/// `has_char` is membership.
pub proof fn lemma_has_char(s: Seq<char>, c: char)
    ensures
        has_char(s, c) <==> s.contains(c),
{
    lemma_first_at(s, seq![c], 0);
    let i = first_at(s, seq![c], 0);
    if i < s.len() {
        assert(s.subrange(i, i + 1)[0] == c);
        assert(s[i] == c);
    }
    if s.contains(c) {
        let j = s.index_of(c);
        assert(s.subrange(j, j + 1) =~= seq![c]);
        assert(occurs_at(s, seq![c], j));
    }
}

/// Whether `c` occurs in `s`.
pub fn contains_char(s: &[char], c: char) -> (r: bool)
    ensures
        r == has_char(s@, c),
{
    let pat = pattern_of(c);
    find(s, pat.as_slice(), 0) < s.len()
}

/// The name as it is compared with the keys: with the module extension, and
/// with a leading `/` when it names no directory, so that it can only match
/// a whole file name.
pub open spec fn normalized(name: Seq<char>, ext: Seq<char>) -> Seq<char> {
    let full = if ends_with(name, ext) {
        name
    } else {
        name + ext
    };
    if has_char(full, '/') {
        full
    } else {
        seq!['/'] + full
    }
}

/// The first key at or after `from` that ends with `name`.
pub open spec fn first_with_suffix(keys: Seq<Seq<char>>, name: Seq<char>, from: int) -> Option<
    Seq<char>,
>
    decreases keys.len() - from,
{
    if from < 0 || from >= keys.len() {
        None
    } else if ends_with(keys[from], name) {
        Some(keys[from])
    } else {
        first_with_suffix(keys, name, from + 1)
    }
}

/// The key that `name` selects by its ending: `name` itself where it is a
/// key, else the first key that ends with it.
pub open spec fn suffix_match(keys: Seq<Seq<char>>, name: Seq<char>) -> Option<Seq<char>> {
    if keys.contains(name) {
        Some(name)
    } else {
        first_with_suffix(keys, name, 0)
    }
}

/// The key that the index alone gives for `name`: by the normalised name,
/// else by the normalised name with `-` for every `_`.
pub open spec fn local_key(index: DepIndex, ext: Seq<char>, name: Seq<char>) -> Option<
    Seq<char>,
> {
    let n = normalized(name, ext);
    match suffix_match(index.keys, n) {
        Some(k) => Some(k),
        None => suffix_match(index.keys, replaced(n, '_', '-')),
    }
}

/// The candidate key that one line of lookup output names. The line counts
/// without its spaces. It names a key when it starts with `filename:/` and
/// holds `/kernel/`: the key is `kernel/` and what follows the first
/// `/kernel/`.
pub open spec fn filename_key(line: Seq<char>) -> Option<Seq<char>> {
    let l = without(line, ' ');
    let i = first_at(l, "/kernel/"@, 0);
    if starts_with(l, "filename:/"@) && i + "/kernel/"@.len() <= l.len() {
        Some("kernel/"@ + l.skip(i + "/kernel/"@.len()))
    } else {
        None
    }
}

/// The first candidate from the lines at or after `from` that is a key of
/// the index.
pub open spec fn lookup_key_from(index: DepIndex, lines: Seq<Seq<char>>, from: int) -> Option<
    Seq<char>,
>
    decreases lines.len() - from,
{
    if from < 0 || from >= lines.len() {
        None
    } else {
        match filename_key(lines[from]) {
            Some(k) => if index.has(k) {
                Some(k)
            } else {
                lookup_key_from(index, lines, from + 1)
            },
            None => lookup_key_from(index, lines, from + 1),
        }
    }
}

/// The key that the output of the external lookup names, if it names one
/// that the index holds.
pub open spec fn lookup_key(index: DepIndex, output: Seq<char>) -> Option<Seq<char>> {
    lookup_key_from(index, lines_of(output), 0)
}

/// What `name` resolves to when the external lookup, where it is needed,
/// prints `output`: the key found, or `name` itself when none is found.
pub open spec fn resolved(index: DepIndex, ext: Seq<char>, name: Seq<char>, output: Seq<char>)
    -> Seq<char> {
    match local_key(index, ext, name) {
        Some(k) => k,
        None => match lookup_key(index, output) {
            Some(k) => k,
            None => name,
        },
    }
}

/// A key found by its ending is a key of the index and ends with the name.
pub proof fn lemma_suffix_match(keys: Seq<Seq<char>>, name: Seq<char>, from: int)
    requires
        0 <= from,
    ensures
        match first_with_suffix(keys, name, from) {
            Some(k) => keys.contains(k) && ends_with(k, name),
            None => forall|i: int| from <= i < keys.len() ==> !ends_with(keys[i], name),
        },
    decreases keys.len() - from,
{
    if from < keys.len() {
        if !ends_with(keys[from], name) {
            lemma_suffix_match(keys, name, from + 1);
        }
    }
}

/// Resolving a key gives the key back: a name that is a key of the index, is
/// path-qualified and carries the module extension resolves to itself, with
/// no regard to what the external lookup would print.
pub proof fn lemma_key_resolves_to_itself(
    index: DepIndex,
    ext: Seq<char>,
    key: Seq<char>,
    output: Seq<char>,
)
    requires
        index.has(key),
        has_char(key, '/'),
        ends_with(key, ext),
    ensures
        normalized(key, ext) == key,
        local_key(index, ext, key) == Some(key),
        resolved(index, ext, key, output) == key,
{
}

/// What resolves is a key: the result of resolving is a key of the index or
/// the name as it was given.
pub proof fn lemma_resolved_is_key_or_name(
    index: DepIndex,
    ext: Seq<char>,
    name: Seq<char>,
    output: Seq<char>,
)
    ensures
        index.has(resolved(index, ext, name, output)) || resolved(index, ext, name, output) == name,
        local_key(index, ext, name) is Some ==> index.has(local_key(index, ext, name).unwrap()),
        lookup_key(index, output) is Some ==> index.has(lookup_key(index, output).unwrap()),
{
    let n = normalized(name, ext);
    lemma_suffix_match(index.keys, n, 0);
    lemma_suffix_match(index.keys, replaced(n, '_', '-'), 0);
    lemma_lookup_key(index, lines_of(output), 0);
}

/// A key that the lookup output names is a key of the index.
pub proof fn lemma_lookup_key(index: DepIndex, lines: Seq<Seq<char>>, from: int)
    requires
        0 <= from,
    ensures
        lookup_key_from(index, lines, from) is Some ==> index.has(
            lookup_key_from(index, lines, from).unwrap(),
        ),
    decreases lines.len() - from,
{
    if from < lines.len() {
        lemma_lookup_key(index, lines, from + 1);
    }
}

/// The normalised form of `name`.
pub fn normalize(name: &[char], ext: &[char]) -> (out: Vec<char>)
    ensures
        out@ == normalized(name@, ext@),
{
    let full = if has_suffix(name, ext) {
        copy_chars(name)
    } else {
        concat(name, ext)
    };
    assert(full@ =~= if ends_with(name@, ext@) {
        name@
    } else {
        name@ + ext@
    });
    if contains_char(full.as_slice(), '/') {
        full
    } else {
        let slash = pattern_of('/');
        concat(slash.as_slice(), full.as_slice())
    }
}

/// The place of the key that `name` selects by its ending.
pub fn find_by_suffix(index: &ModuleIndex, name: &[char]) -> (r: Option<usize>)
    ensures
        match r {
            Some(i) => i < index@.keys.len() && suffix_match(index@.keys, name@) == Some(
                index@.keys[i as int],
            ),
            None => suffix_match(index@.keys, name@) is None,
        },
{
    match index.position(name) {
        Some(i) => {
            return Some(i);
        },
        None => {},
    }
    let n = index.len();
    let mut i: usize = 0;
    while i < n
        invariant
            i <= n,
            n == index@.keys.len(),
            !index@.keys.contains(name@),
            first_with_suffix(index@.keys, name@, 0) == first_with_suffix(
                index@.keys,
                name@,
                i as int,
            ),
        decreases n - i,
    {
        if has_suffix(index.key(i).as_slice(), name) {
            return Some(i);
        }
        i += 1;
    }
    None
}

/// The place of the key that the index alone gives for `name`.
pub fn resolve_local(index: &ModuleIndex, ext: &[char], name: &[char]) -> (r: Option<usize>)
    ensures
        match r {
            Some(i) => i < index@.keys.len() && local_key(index@, ext@, name@) == Some(
                index@.keys[i as int],
            ),
            None => local_key(index@, ext@, name@) is None,
        },
{
    let n = normalize(name, ext);
    match find_by_suffix(index, n.as_slice()) {
        Some(i) => Some(i),
        None => {
            let dashed = replace(n.as_slice(), '_', '-');
            find_by_suffix(index, dashed.as_slice())
        },
    }
}

/// The candidate key that one line of lookup output names.
pub fn parse_filename_line(line: &[char]) -> (r: Option<Vec<char>>)
    ensures
        match r {
            Some(k) => filename_key(line@) == Some(k@),
            None => filename_key(line@) is None,
        },
{
    let l = remove(line, ' ');
    let field = to_chars("filename:/");
    let dir = to_chars("/kernel/");
    let head = to_chars("kernel/");
    if !has_prefix(l.as_slice(), field.as_slice()) {
        return None;
    }
    let i = find(l.as_slice(), dir.as_slice(), 0);
    if dir.len() <= l.len() - i {
        let rest = slice_subrange(l.as_slice(), i + dir.len(), l.len());
        Some(concat(head.as_slice(), rest))
    } else {
        None
    }
}

/// The place of the key that the output of the external lookup names.
pub fn resolve_lookup(index: &ModuleIndex, output: &[char]) -> (r: Option<usize>)
    ensures
        match r {
            Some(i) => i < index@.keys.len() && lookup_key(index@, output@) == Some(
                index@.keys[i as int],
            ),
            None => lookup_key(index@, output@) is None,
        },
{
    let ls = lines(output);
    let mut i: usize = 0;
    while i < ls.len()
        invariant
            i <= ls.len(),
            views(ls@) == lines_of(output@),
            lookup_key(index@, output@) == lookup_key_from(index@, views(ls@), i as int),
        decreases ls.len() - i,
    {
        match parse_filename_line(ls[i].as_slice()) {
            Some(k) => {
                match index.position(k.as_slice()) {
                    Some(p) => {
                        return Some(p);
                    },
                    None => {},
                }
            },
            None => {},
        }
        i += 1;
    }
    None
}

} // verus!
