//! The module-dependency descriptor and the index built from it.
//!
//! The descriptor is a text of records, one per line:
//! `<module-path>: <dependency paths separated by single spaces>`. A line
//! without `:` is no record. The index maps every module path to the
//! dependencies listed for it and remembers the order in which the paths
//! first appeared.

use crate::order::{ascending, insert_ascending};
use crate::text::{
    copy_chars, fields, find, first_at, last_at, lemma_last_before, lines, lines_of, occurs_at,
    pattern_of, push_chars, rfind, same_chars, split, trim, trimmed, views,
};
use vstd::prelude::*;
use vstd::slice::slice_subrange;

verus! {

/// One record of the descriptor.
pub struct Record {
    pub path: Seq<char>,
    pub deps: Seq<Seq<char>>,
}

/// The dependency paths of a trimmed dependency list: none for a blank list,
/// else the pieces between single spaces.
pub open spec fn listed_deps(list: Seq<char>) -> Seq<Seq<char>> {
    if list.len() == 0 {
        Seq::empty()
    } else {
        fields(list, ' ')
    }
}

/// The record that a line holds: what precedes the first `:` is the module
/// path, what follows it the dependency list, both trimmed.
pub open spec fn record_of(line: Seq<char>) -> Option<Record> {
    let i = first_at(line, seq![':'], 0);
    if i < line.len() {
        Some(
            Record {
                path: trimmed(line.subrange(0, i)),
                deps: listed_deps(trimmed(line.subrange(i + 1, line.len() as int))),
            },
        )
    } else {
        None
    }
}

/// The records held by a sequence of lines, in order.
pub open spec fn records_of(lines: Seq<Seq<char>>) -> Seq<Record>
    decreases lines.len(),
{
    if lines.len() == 0 {
        Seq::empty()
    } else {
        match record_of(lines.last()) {
            Some(r) => records_of(lines.drop_last()).push(r),
            None => records_of(lines.drop_last()),
        }
    }
}

/// The records of a descriptor text.
pub open spec fn descriptor_records(text: Seq<char>) -> Seq<Record> {
    records_of(lines_of(text))
}

/// The marker that starts a module file extension.
pub open spec fn ko() -> Seq<char> {
    seq!['.', 'k', 'o']
}

/// The extension that a module path shows: everything from its last `.ko`
/// on, if it holds one.
pub open spec fn extension_of(path: Seq<char>) -> Option<Seq<char>> {
    let i = last_at(path, ko());
    if i >= 0 {
        Some(path.skip(i))
    } else {
        None
    }
}

/// The extension shown by the first record whose path holds `.ko`; empty
/// when no record does.
pub open spec fn extension_in(records: Seq<Record>) -> Seq<char>
    decreases records.len(),
{
    if records.len() == 0 {
        Seq::empty()
    } else {
        let before = extension_in(records.drop_last());
        if before.len() > 0 {
            before
        } else {
            match extension_of(records.last().path) {
                Some(e) => e,
                None => Seq::empty(),
            }
        }
    }
}

/// The last component of a path: what follows its last `/`.
pub open spec fn base_name(path: Seq<char>) -> Seq<char> {
    path.skip(last_at(path, seq!['/']) + 1)
}

/// The short name of a module path: its base name up to the first `.`.
pub open spec fn short_name(path: Seq<char>) -> Seq<char> {
    let b = base_name(path);
    b.take(first_at(b, seq!['.'], 0))
}

/// The short names of a list of paths.
pub open spec fn short_names(paths: Seq<Seq<char>>) -> Set<Seq<char>> {
    Set::new(
        |n: Seq<char>| exists|j: int| 0 <= j < paths.len() && short_name(#[trigger] paths[j]) == n,
    )
}

/// The short names of everything that some record lists as a dependency.
pub open spec fn dependent_names(records: Seq<Record>) -> Set<Seq<char>>
    decreases records.len(),
{
    if records.len() == 0 {
        Set::empty()
    } else {
        dependent_names(records.drop_last()).union(short_names(records.last().deps))
    }
}

/// The dependency index as a mathematical value: the module paths in the
/// order of their first appearance, and the dependency list of each.
pub struct DepIndex {
    pub keys: Seq<Seq<char>>,
    pub deps: Seq<Seq<Seq<char>>>,
}

impl DepIndex {
    /// Every key has its dependency list and no key occurs twice.
    pub open spec fn wf(self) -> bool {
        self.keys.len() == self.deps.len() && self.keys.no_duplicates()
    }

    /// The index without entries.
    pub open spec fn empty() -> DepIndex {
        DepIndex { keys: Seq::empty(), deps: Seq::empty() }
    }

    /// `key` has an entry.
    pub open spec fn has(self, key: Seq<char>) -> bool {
        self.keys.contains(key)
    }

    /// The dependencies listed for `key`; none when `key` has no entry.
    pub open spec fn deps_of(self, key: Seq<char>) -> Seq<Seq<char>> {
        if self.has(key) {
            self.deps[self.keys.index_of(key)]
        } else {
            Seq::empty()
        }
    }

    /// The index after a record for `key`: a later record replaces the
    /// dependency list of an earlier one and keeps its place.
    pub open spec fn insert(self, key: Seq<char>, deps: Seq<Seq<char>>) -> DepIndex {
        if self.has(key) {
            DepIndex { keys: self.keys, deps: self.deps.update(self.keys.index_of(key), deps) }
        } else {
            DepIndex { keys: self.keys.push(key), deps: self.deps.push(deps) }
        }
    }

    /// The index as a map from module path to dependency list.
    pub open spec fn as_map(self) -> Map<Seq<char>, Seq<Seq<char>>> {
        Map::new(|k: Seq<char>| self.has(k), |k: Seq<char>| self.deps_of(k))
    }

    /// Inserting into a well-formed index gives a well-formed index in which
    /// `key` has the dependency list `deps` and every other key what it had.
    pub proof fn lemma_insert(self, key: Seq<char>, deps: Seq<Seq<char>>)
        requires
            self.wf(),
        ensures
            self.insert(key, deps).wf(),
            self.insert(key, deps).has(key),
            self.insert(key, deps).deps_of(key) == deps,
            forall|k: Seq<char>|
                k != key ==> self.insert(key, deps).has(k) == self.has(k) && self.insert(
                    key,
                    deps,
                ).deps_of(k) == self.deps_of(k),
    {
        let after = self.insert(key, deps);
        if self.has(key) {
            let i = self.keys.index_of(key);
            assert(after.keys[i] == key);
            assert forall|k: Seq<char>| k != key implies after.has(k) == self.has(k)
                && after.deps_of(k) == self.deps_of(k) by {
                if self.has(k) {
                    assert(self.keys.index_of(k) != i);
                }
            }
        } else {
            let n = self.keys.len() as int;
            assert(after.keys[n] == key);
            assert(after.has(key));
            assert(after.keys.index_of(key) == n);
            assert forall|k: Seq<char>| k != key implies after.has(k) == self.has(k)
                && after.deps_of(k) == self.deps_of(k) by {
                if self.has(k) {
                    let j = self.keys.index_of(k);
                    assert(after.keys[j] == k);
                    assert(after.keys.index_of(k) == j);
                }
                if after.has(k) {
                    let j = after.keys.index_of(k);
                    assert(j != n);
                    assert(self.keys[j] == k);
                }
            }
        }
    }
}

/// The index built from a sequence of records, taken in order.
pub open spec fn index_of(records: Seq<Record>) -> DepIndex
    decreases records.len(),
{
    if records.len() == 0 {
        DepIndex::empty()
    } else {
        index_of(records.drop_last()).insert(records.last().path, records.last().deps)
    }
}

/// The index built from any records is well formed.
pub proof fn lemma_index_of_wf(records: Seq<Record>)
    ensures
        index_of(records).wf(),
    decreases records.len(),
{
    if records.len() > 0 {
        lemma_index_of_wf(records.drop_last());
        index_of(records.drop_last()).lemma_insert(records.last().path, records.last().deps);
    }
}

/// In the index of any descriptor a module path has one entry at most. So a
/// listed dependency that is also a key is one and the same string as that
/// key, and looking it up finds that key's entry and no other.
pub proof fn lemma_dependency_names_its_key(text: Seq<char>, i: int, p: int, j: int)
    requires
        0 <= i < index_of(descriptor_records(text)).deps.len(),
        0 <= p < index_of(descriptor_records(text)).deps[i].len(),
        0 <= j < index_of(descriptor_records(text)).keys.len(),
        index_of(descriptor_records(text)).deps[i][p] == index_of(descriptor_records(text)).keys[j],
    ensures
        ({
            let index = index_of(descriptor_records(text));
            let d = index.deps[i][p];
            &&& index.wf()
            &&& index.has(d)
            &&& index.keys.index_of(d) == j
            &&& index.deps_of(d) == index.deps[j]
            &&& index.as_map().dom().contains(d)
            &&& index.as_map()[d] == index.deps[j]
            &&& forall|k: int| 0 <= k < index.keys.len() && k != j ==> index.keys[k] != d
        }),
{
    lemma_index_of_wf(descriptor_records(text));
}

/// One entry of the index.
#[derive(Debug)]
pub struct Entry {
    pub key: Vec<char>,
    pub deps: Vec<Vec<char>>,
}

/// The index that a list of entries stands for.
pub open spec fn entries_view(es: Seq<Entry>) -> DepIndex {
    DepIndex {
        keys: Seq::new(es.len(), |i: int| es[i].key@),
        deps: Seq::new(es.len(), |i: int| views(es[i].deps@)),
    }
}

/// The place of `key` among the entries.
fn find_entry(es: &Vec<Entry>, key: &[char]) -> (r: Option<usize>)
    ensures
        match r {
            Some(i) => i < es.len() && entries_view(es@).keys[i as int] == key@,
            None => !entries_view(es@).has(key@),
        },
{
    let mut i: usize = 0;
    while i < es.len()
        invariant
            i <= es.len(),
            forall|j: int| 0 <= j < i ==> entries_view(es@).keys[j] != key@,
        decreases es.len() - i,
    {
        if same_chars(es[i].key.as_slice(), key) {
            assert(entries_view(es@).keys[i as int] == key@);
            return Some(i);
        }
        i += 1;
    }
    None
}

/// Records `deps` as the dependency list of `key`.
fn insert_entry(es: &mut Vec<Entry>, key: Vec<char>, deps: Vec<Vec<char>>)
    requires
        entries_view(old(es)@).wf(),
    ensures
        entries_view(final(es)@) == entries_view(old(es)@).insert(key@, views(deps@)),
        entries_view(final(es)@).wf(),
{
    let ghost before = entries_view(es@);
    proof {
        before.lemma_insert(key@, views(deps@));
    }
    match find_entry(es, key.as_slice()) {
        Some(i) => {
            assert(before.keys.index_of(key@) == i);
            es.set(i, Entry { key, deps });
            assert(entries_view(es@).keys =~= before.keys);
            assert(entries_view(es@).deps =~= before.deps.update(i as int, views(deps@)));
        },
        None => {
            es.push(Entry { key, deps });
            assert(entries_view(es@).keys =~= before.keys.push(key@));
            assert(entries_view(es@).deps =~= before.deps.push(views(deps@)));
        },
    }
}

/// The dependency index of one kernel.
#[derive(Debug)]
pub struct ModuleIndex {
    entries: Vec<Entry>,
}

impl View for ModuleIndex {
    type V = DepIndex;

    closed spec fn view(&self) -> DepIndex {
        entries_view(self.entries@)
    }
}

impl ModuleIndex {
    #[verifier::type_invariant]
    spec fn well_formed(self) -> bool {
        entries_view(self.entries@).wf()
    }

    /// The index without entries.
    pub fn new() -> (r: ModuleIndex)
        ensures
            r@ == DepIndex::empty(),
    {
        let entries: Vec<Entry> = Vec::new();
        assert(entries_view(entries@).keys =~= Seq::empty());
        assert(entries_view(entries@).deps =~= Seq::empty());
        ModuleIndex { entries }
    }

    /// The number of entries.
    pub fn len(&self) -> (r: usize)
        ensures
            r == self@.keys.len(),
            self@.wf(),
    {
        proof {
            use_type_invariant(self);
        }
        self.entries.len()
    }

    /// The module path of entry `i`.
    pub fn key(&self, i: usize) -> (r: &Vec<char>)
        requires
            i < self@.keys.len(),
        ensures
            r@ == self@.keys[i as int],
    {
        &self.entries[i].key
    }

    /// The dependency list of entry `i`.
    pub fn deps(&self, i: usize) -> (r: &Vec<Vec<char>>)
        requires
            i < self@.keys.len(),
        ensures
            views(r@) == self@.deps[i as int],
    {
        &self.entries[i].deps
    }

    /// The place of `key` in the index, if it has an entry.
    pub fn position(&self, key: &[char]) -> (r: Option<usize>)
        ensures
            self@.wf(),
            match r {
                Some(i) => i < self@.keys.len() && self@.keys[i as int] == key@
                    && self@.keys.index_of(key@) == i && self@.has(key@),
                None => !self@.has(key@),
            },
    {
        proof {
            use_type_invariant(self);
        }
        find_entry(&self.entries, key)
    }
}

/// A copy of a list of character vectors.
pub fn copy_list(v: &Vec<Vec<char>>) -> (out: Vec<Vec<char>>)
    ensures
        views(out@) == views(v@),
{
    let mut out: Vec<Vec<char>> = Vec::new();
    let mut i: usize = 0;
    assert(views(out@) =~= views(v@).take(0));
    while i < v.len()
        invariant
            i <= v.len(),
            views(out@) == views(v@).take(i as int),
        decreases v.len() - i,
    {
        push_chars(&mut out, copy_chars(v[i].as_slice()));
        assert(views(out@) =~= views(v@).take(i + 1));
        i += 1;
    }
    assert(views(v@).take(v.len() as int) =~= views(v@));
    out
}

impl Clone for ModuleIndex {
    fn clone(&self) -> (r: ModuleIndex)
        ensures
            r@ == self@,
    {
        proof {
            use_type_invariant(self);
        }
        let mut entries: Vec<Entry> = Vec::new();
        let mut i: usize = 0;
        assert(entries_view(entries@).keys =~= entries_view(self.entries@).keys.take(0));
        assert(entries_view(entries@).deps =~= entries_view(self.entries@).deps.take(0));
        while i < self.entries.len()
            invariant
                i <= self.entries.len(),
                entries.len() == i,
                entries_view(entries@).keys == entries_view(self.entries@).keys.take(i as int),
                entries_view(entries@).deps == entries_view(self.entries@).deps.take(i as int),
            decreases self.entries.len() - i,
        {
            let e = &self.entries[i];
            let ghost before = entries@;
            entries.push(Entry { key: copy_chars(e.key.as_slice()), deps: copy_list(&e.deps) });
            assert forall|k: int| 0 <= k < i implies entries_view(entries@).keys[k]
                == entries_view(self.entries@).keys[k] && entries_view(entries@).deps[k]
                == entries_view(self.entries@).deps[k] by {
                assert(entries@[k] == before[k]);
                assert(entries_view(before).keys[k] == entries_view(self.entries@).keys.take(
                    i as int,
                )[k]);
                assert(entries_view(before).deps[k] == entries_view(self.entries@).deps.take(
                    i as int,
                )[k]);
            }
            assert(entries_view(entries@).keys =~= entries_view(self.entries@).keys.take(i + 1));
            assert(entries_view(entries@).deps =~= entries_view(self.entries@).deps.take(i + 1));
            i += 1;
        }
        assert(entries_view(self.entries@).keys.take(self.entries.len() as int)
            =~= entries_view(self.entries@).keys);
        assert(entries_view(self.entries@).deps.take(self.entries.len() as int)
            =~= entries_view(self.entries@).deps);
        ModuleIndex { entries }
    }
}

/// What a descriptor text holds.
pub struct Descriptor {
    pub index: ModuleIndex,
    pub extension: Vec<char>,
    pub dependents: Vec<Vec<char>>,
}

/// The pattern `.ko`.
pub fn ko_pattern() -> (out: Vec<char>)
    ensures
        out@ == ko(),
{
    let mut out: Vec<char> = Vec::new();
    out.push('.');
    out.push('k');
    out.push('o');
    assert(out@ =~= ko());
    out
}

/// The extension that a module path shows: everything from its last `.ko`
/// on, if it holds one.
pub fn get_fext(path: &[char]) -> (r: Option<Vec<char>>)
    ensures
        match r {
            Some(e) => extension_of(path@) == Some(e@) && e@.len() >= 3,
            None => extension_of(path@) is None,
        },
{
    let pat = ko_pattern();
    proof {
        lemma_last_before(path@, ko(), path@.len() as int + 1);
    }
    match rfind(path, pat.as_slice()) {
        Some(i) => Some(copy_chars(slice_subrange(path, i, path.len()))),
        None => None,
    }
}

/// The short name of a module path: its base name up to the first `.`.
pub fn short_name_of(path: &[char]) -> (out: Vec<char>)
    ensures
        out@ == short_name(path@),
{
    let slash = pattern_of('/');
    let dot = pattern_of('.');
    proof {
        lemma_last_before(path@, seq!['/'], path@.len() as int + 1);
    }
    let n = path.len();
    let start: usize = match rfind(path, slash.as_slice()) {
        Some(i) => {
            assert(occurs_at(path@, slash@, i as int));
            assert(slash@.len() == 1);
            i + 1
        },
        None => 0,
    };
    let base = slice_subrange(path, start, n);
    let end = find(base, dot.as_slice(), 0);
    copy_chars(slice_subrange(base, 0, end))
}

/// The record that a line holds, if it holds one.
pub fn parse_record(line: &[char]) -> (r: Option<(Vec<char>, Vec<Vec<char>>)>)
    ensures
        match r {
            Some((path, deps)) => record_of(line@) == Some(
                Record { path: path@, deps: views(deps@) },
            ),
            None => record_of(line@) is None,
        },
{
    let colon = pattern_of(':');
    let i = find(line, colon.as_slice(), 0);
    if i < line.len() {
        let path = copy_chars(trim(slice_subrange(line, 0, i)));
        let list = trim(slice_subrange(line, i + 1, line.len()));
        let deps: Vec<Vec<char>> = if list.len() == 0 {
            let d: Vec<Vec<char>> = Vec::new();
            assert(views(d@) =~= Seq::empty());
            d
        } else {
            split(list, ' ')
        };
        Some((path, deps))
    } else {
        None
    }
}

/// The short names of the first `j + 1` paths: those of the first `j`, and
/// that of path `j`.
pub proof fn lemma_short_names_take(paths: Seq<Seq<char>>, j: int)
    requires
        0 <= j < paths.len(),
    ensures
        short_names(paths.take(j + 1)) == short_names(paths.take(j)).insert(short_name(paths[j])),
{
    let a = paths.take(j);
    let b = paths.take(j + 1);
    assert forall|n: Seq<char>| short_names(b).contains(n) <==> short_names(a).contains(n) || n
        == short_name(paths[j]) by {
        if short_names(a).contains(n) {
            let k = choose|k: int| 0 <= k < a.len() && short_name(#[trigger] a[k]) == n;
            assert(short_name(b[k]) == n);
        }
        if n == short_name(paths[j]) {
            assert(short_name(b[j]) == n);
        }
        if short_names(b).contains(n) {
            let k = choose|k: int| 0 <= k < b.len() && short_name(#[trigger] b[k]) == n;
            if k < j {
                assert(short_name(a[k]) == n);
            }
        }
    }
    assert(short_names(b) =~= short_names(a).insert(short_name(paths[j])));
}

/// Adds the short names of `deps` to the ascending list `names`.
fn add_dependents(names: &mut Vec<Vec<char>>, deps: &Vec<Vec<char>>)
    requires
        ascending(views(old(names)@)),
    ensures
        ascending(views(final(names)@)),
        views(final(names)@).to_set() == views(old(names)@).to_set().union(
            short_names(views(deps@)),
        ),
{
    let ghost before = views(names@).to_set();
    let mut j: usize = 0;
    assert(before.union(short_names(views(deps@).take(0))) =~= before);
    while j < deps.len()
        invariant
            j <= deps.len(),
            ascending(views(names@)),
            views(names@).to_set() == before.union(short_names(views(deps@).take(j as int))),
        decreases deps.len() - j,
    {
        insert_ascending(names, short_name_of(deps[j].as_slice()));
        proof {
            lemma_short_names_take(views(deps@), j as int);
            assert(views(names@).to_set() =~= before.union(
                short_names(views(deps@).take(j + 1)),
            ));
        }
        j += 1;
    }
    assert(views(deps@).take(deps.len() as int) =~= views(deps@));
}

/// Reads a descriptor text: the index of its records, the module extension
/// that its records show, and the short names of all listed dependencies.
pub fn parse_descriptor(text: &[char]) -> (r: Descriptor)
    ensures
        r.index@ == index_of(descriptor_records(text@)),
        r.extension@ == extension_in(descriptor_records(text@)),
        ascending(views(r.dependents@)),
        views(r.dependents@).to_set() == dependent_names(descriptor_records(text@)),
{
    let ls = lines(text);
    let mut entries: Vec<Entry> = Vec::new();
    let mut extension: Vec<char> = Vec::new();
    let mut dependents: Vec<Vec<char>> = Vec::new();
    let mut i: usize = 0;
    assert(entries_view(entries@).keys =~= Seq::empty());
    assert(entries_view(entries@).deps =~= Seq::empty());
    assert(views(dependents@) =~= Seq::empty());
    assert(views(dependents@).to_set() =~= Set::empty());
    while i < ls.len()
        invariant
            i <= ls.len(),
            views(ls@) == lines_of(text@),
            entries_view(entries@).wf(),
            entries_view(entries@) == index_of(records_of(views(ls@).take(i as int))),
            extension@ == extension_in(records_of(views(ls@).take(i as int))),
            ascending(views(dependents@)),
            views(dependents@).to_set() == dependent_names(
                records_of(views(ls@).take(i as int)),
            ),
        decreases ls.len() - i,
    {
        let ghost done = records_of(views(ls@).take(i as int));
        assert(views(ls@).take(i + 1).drop_last() =~= views(ls@).take(i as int));
        assert(views(ls@).take(i + 1).last() == ls@[i as int]@);
        match parse_record(ls[i].as_slice()) {
            Some((path, deps)) => {
                let ghost rec = Record { path: path@, deps: views(deps@) };
                assert(records_of(views(ls@).take(i + 1)) == done.push(rec));
                assert(done.push(rec).drop_last() =~= done);
                if extension.len() == 0 {
                    match get_fext(path.as_slice()) {
                        Some(e) => {
                            extension = e;
                        },
                        None => {},
                    }
                }
                add_dependents(&mut dependents, &deps);
                insert_entry(&mut entries, path, deps);
            },
            None => {
                assert(records_of(views(ls@).take(i + 1)) == done);
            },
        }
        i += 1;
    }
    assert(views(ls@).take(ls.len() as int) =~= views(ls@));
    Descriptor { index: ModuleIndex { entries }, extension, dependents }
}

} // verus!
