//! One kernel version and what its module tree says: where its modules
//! live, which modules there are, what each depends on, and how a loosely
//! given module name finds its module.

use crate::descriptor::{
    copy_list, dependent_names, descriptor_records, extension_in, index_of, parse_descriptor,
    DepIndex, ModuleIndex,
};
use crate::error::Error;
use crate::graph::{all_listed, closure_of, transitive_deps};
use crate::order::{ascending, insert_ascending};
use crate::resolve::{
    contains_char, has_char, lemma_key_resolves_to_itself, local_key, lookup_key, resolve_local,
    resolve_lookup, resolved,
};
use crate::text::{
    copy_chars, ends_with, from_chars, lemma_drop_last_contains, lemma_push_contains,
    list_contains, pattern_of, push_string, same_chars, string_views, to_chars, to_strings, views,
};
use vstd::prelude::*;
use vstd::string::StringExecFns;

verus! {

/// The directory below the root that holds one directory per kernel.
pub const MOD_D: &'static str = "/lib/modules";

/// The name of the descriptor inside a kernel's directory.
pub const MOD_DEP_F: &'static str = "modules.dep";

/// The program that the external lookup runs.
pub const MOD_INFO_EXE: &'static str = "/usr/sbin/modinfo";

/// The root as a prefix of paths: nothing for the host's own root.
pub open spec fn root_prefix(rootpath: Seq<char>) -> Seq<char> {
    if rootpath.len() == 0 || rootpath == seq!['/'] {
        Seq::empty()
    } else {
        rootpath
    }
}

/// The directory of kernel `kver` below `rootpath`.
pub open spec fn kernel_path(rootpath: Seq<char>, kver: Seq<char>) -> Seq<char> {
    root_prefix(rootpath) + "/lib/modules"@ + seq!['/'] + kver
}

/// The descriptor of kernel `kver` below `rootpath`.
pub open spec fn descriptor_path(rootpath: Seq<char>, kver: Seq<char>) -> Seq<char> {
    kernel_path(rootpath, kver) + seq!['/'] + "modules.dep"@
}

/// A kernel as a mathematical value.
pub struct KernelView {
    pub version: Seq<char>,
    pub path: Seq<char>,
    pub dep_path: Seq<char>,
    /// The kernel's directory holds a module tree.
    pub is_valid: bool,
    /// The file extension of this kernel's modules; empty while unknown.
    pub extension: Seq<char>,
    pub index: DepIndex,
    /// The short names of the modules that some module depends on.
    pub dependents: Set<Seq<char>>,
}

impl KernelView {
    /// The kernel as `new` makes it: located, with nothing read.
    pub open spec fn located(rootpath: Seq<char>, kver: Seq<char>) -> KernelView {
        KernelView {
            version: kver,
            path: kernel_path(rootpath, kver),
            dep_path: descriptor_path(rootpath, kver),
            is_valid: false,
            extension: Seq::empty(),
            index: DepIndex::empty(),
            dependents: Set::empty(),
        }
    }

    /// This kernel once the descriptor `text` has been read.
    pub open spec fn loaded(self, text: Seq<char>) -> KernelView {
        KernelView {
            is_valid: true,
            extension: extension_in(descriptor_records(text)),
            index: index_of(descriptor_records(text)),
            dependents: dependent_names(descriptor_records(text)),
            ..self
        }
    }

    /// Every module path that the index names, as a key or as a dependency.
    pub open spec fn modules(self) -> Set<Seq<char>> {
        self.index.keys.to_set().union(all_listed(self.index.deps).to_set())
    }
}

/// One kernel version and the dependency data of its modules.
#[derive(Debug)]
pub struct KernelInfo {
    pub version: String,
    path: String,
    dep_path: String,
    is_valid: bool,
    ext: Vec<char>,
    deplist: ModuleIndex,
    lookup_deplist: Vec<Vec<char>>,
}

impl View for KernelInfo {
    type V = KernelView;

    closed spec fn view(&self) -> KernelView {
        KernelView {
            version: self.version@,
            path: self.path@,
            dep_path: self.dep_path@,
            is_valid: self.is_valid,
            extension: self.ext@,
            index: self.deplist@,
            dependents: views(self.lookup_deplist@).to_set(),
        }
    }
}

impl Clone for KernelInfo {
    fn clone(&self) -> (r: KernelInfo)
        ensures
            r@ == self@,
    {
        KernelInfo {
            version: self.version.clone(),
            path: self.path.clone(),
            dep_path: self.dep_path.clone(),
            is_valid: self.is_valid,
            ext: copy_chars(self.ext.as_slice()),
            deplist: self.deplist.clone(),
            lookup_deplist: copy_list(&self.lookup_deplist),
        }
    }
}

/// Puts every one of `items` into the ascending `list`.
fn insert_all(list: &mut Vec<Vec<char>>, items: &Vec<Vec<char>>)
    requires
        ascending(views(old(list)@)),
    ensures
        ascending(views(final(list)@)),
        views(final(list)@).to_set() == views(old(list)@).to_set().union(views(items@).to_set()),
{
    let ghost before = views(list@).to_set();
    let mut j: usize = 0;
    assert(views(items@).take(0).to_set() =~= Set::empty());
    assert(before.union(Set::empty()) =~= before);
    while j < items.len()
        invariant
            j <= items.len(),
            ascending(views(list@)),
            views(list@).to_set() == before.union(views(items@).take(j as int).to_set()),
        decreases items.len() - j,
    {
        insert_ascending(list, copy_chars(items[j].as_slice()));
        proof {
            let seen = views(items@).take(j as int);
            assert(views(items@).take(j + 1) =~= seen.push(items@[j as int]@));
            seen.lemma_push_to_set_commute(items@[j as int]@);
            assert(views(list@).to_set() =~= before.union(
                views(items@).take(j + 1).to_set(),
            ));
        }
        j += 1;
    }
    assert(views(items@).take(items.len() as int) =~= views(items@));
}

impl KernelInfo {
    /// Locates kernel `kver` below `rootpath`, which is `""` or `"/"` for
    /// the host's own file system and a mount point otherwise. Nothing is
    /// read yet: the kernel counts as not valid until `init` has seen its
    /// module tree.
    pub fn new(rootpath: &str, kver: &str) -> (r: KernelInfo)
        ensures
            r@ == KernelView::located(rootpath@, kver@),
    {
        let root = to_chars(rootpath);
        let slash = pattern_of('/');
        let mut path = if root.len() == 0 || same_chars(root.as_slice(), slash.as_slice()) {
            String::new()
        } else {
            rootpath.to_string()
        };
        path.append(MOD_D);
        path.append("/");
        path.append(kver);
        let mut dep_path = path.clone();
        dep_path.append("/");
        dep_path.append(MOD_DEP_F);
        proof {
            reveal_strlit("/");
            assert("/"@ =~= seq!['/']);
        }
        let lookup_deplist: Vec<Vec<char>> = Vec::new();
        assert(views(lookup_deplist@).to_set() =~= Set::empty());
        KernelInfo {
            version: kver.to_string(),
            path,
            dep_path,
            is_valid: false,
            ext: Vec::new(),
            deplist: ModuleIndex::new(),
            lookup_deplist,
        }
    }

    /// Takes in what was found on disk: whether the kernel's directory
    /// holds a `kernel` subdirectory, and the text of the descriptor, or
    /// `None` where it could not be read.
    ///
    /// A kernel without module tree is not valid, which is a state and no
    /// failure; its descriptor is not looked at. A module tree without
    /// readable descriptor is a failure. A kernel whose module extension is
    /// known has been initialised and comes back as it is.
    pub fn init(self, has_kernel_dir: bool, descriptor: Option<&str>) -> (r: Result<
        KernelInfo,
        Error,
    >)
        ensures
            match r {
                Ok(k) => if self@.extension.len() > 0 {
                    k@ == self@
                } else if !has_kernel_dir {
                    k@ == (KernelView { is_valid: false, ..self@ })
                } else {
                    descriptor is Some && k@ == self@.loaded(descriptor.unwrap()@)
                },
                Err(e) => self@.extension.len() == 0 && has_kernel_dir && descriptor is None && e
                    == Error::DescriptorUnreadable,
            },
    {
        if self.ext.len() > 0 {
            return Ok(self);
        }
        self.load_deps(has_kernel_dir, descriptor)
    }

    /// Reads the descriptor of a kernel that has a module tree.
    fn load_deps(self, has_kernel_dir: bool, descriptor: Option<&str>) -> (r: Result<
        KernelInfo,
        Error,
    >)
        ensures
            match r {
                Ok(k) => if !has_kernel_dir {
                    k@ == (KernelView { is_valid: false, ..self@ })
                } else {
                    descriptor is Some && k@ == self@.loaded(descriptor.unwrap()@)
                },
                Err(e) => has_kernel_dir && descriptor is None && e == Error::DescriptorUnreadable,
            },
    {
        if !has_kernel_dir {
            return Ok(
                KernelInfo {
                    version: self.version,
                    path: self.path,
                    dep_path: self.dep_path,
                    is_valid: false,
                    ext: self.ext,
                    deplist: self.deplist,
                    lookup_deplist: self.lookup_deplist,
                },
            );
        }
        match descriptor {
            None => Err(Error::DescriptorUnreadable),
            Some(text) => {
                let chars = to_chars(text);
                let parsed = parse_descriptor(chars.as_slice());
                Ok(
                    KernelInfo {
                        version: self.version,
                        path: self.path,
                        dep_path: self.dep_path,
                        is_valid: true,
                        ext: parsed.extension,
                        deplist: parsed.index,
                        lookup_deplist: parsed.dependents,
                    },
                )
            },
        }
    }

    /// The directory of this kernel.
    pub fn get_kernel_path(&self) -> (r: String)
        ensures
            r@ == self@.path,
    {
        self.path.clone()
    }

    /// Whether this kernel has a module tree. Directories of kernels that
    /// were removed incompletely stay behind without one.
    pub fn is_valid(&self) -> (r: bool)
        ensures
            r == self@.is_valid,
    {
        self.is_valid
    }

    /// The path of this kernel's descriptor.
    pub fn get_dep_path(&self) -> (r: &str)
        ensures
            r@ == self@.dep_path,
    {
        self.dep_path.as_str()
    }

    /// The file extension of this kernel's modules; empty while unknown.
    pub fn get_extension(&self) -> (r: String)
        ensures
            r@ == self@.extension,
    {
        crate::text::from_chars(self.ext.as_slice())
    }

    /// Whether some module depends on the module with short name `name`.
    pub fn is_dep(&self, name: &str) -> (r: bool)
        ensures
            r == self@.dependents.contains(name@),
    {
        let n = to_chars(name);
        list_contains(&self.lookup_deplist, n.as_slice())
    }

    /// Every module path that the index names, as a key or as a
    /// dependency: each once, in ascending order.
    pub fn get_disk_modules(&self) -> (r: Vec<String>)
        ensures
            ascending(string_views(r@)),
            string_views(r@).to_set() == self@.modules(),
    {
        let mut found: Vec<Vec<char>> = Vec::new();
        let n = self.deplist.len();
        let mut i: usize = 0;
        let ghost keys = self@.index.keys;
        let ghost deps = self@.index.deps;
        assert(views(found@) =~= Seq::empty());
        assert(views(found@).to_set() =~= Set::empty());
        assert(keys.take(0).to_set() =~= Set::empty());
        assert(all_listed(deps.take(0)).to_set() =~= Set::empty());
        assert(Set::<Seq<char>>::empty().union(Set::empty()) =~= Set::empty());
        while i < n
            invariant
                i <= n,
                n == keys.len(),
                n == deps.len(),
                keys == self@.index.keys,
                deps == self@.index.deps,
                ascending(views(found@)),
                views(found@).to_set() == keys.take(i as int).to_set().union(
                    all_listed(deps.take(i as int)).to_set(),
                ),
            decreases n - i,
        {
            let ghost before = views(found@).to_set();
            insert_ascending(&mut found, copy_chars(self.deplist.key(i).as_slice()));
            insert_all(&mut found, self.deplist.deps(i));
            proof {
                assert(keys.take(i + 1) =~= keys.take(i as int).push(keys[i as int]));
                keys.take(i as int).lemma_push_to_set_commute(keys[i as int]);
                assert(deps.take(i + 1).drop_last() =~= deps.take(i as int));
                assert(deps.take(i + 1).last() == deps[i as int]);
                vstd::seq_lib::seq_to_set_distributes_over_add(
                    all_listed(deps.take(i as int)),
                    deps[i as int],
                );
                assert(views(found@).to_set() =~= keys.take(i + 1).to_set().union(
                    all_listed(deps.take(i + 1)).to_set(),
                ));
            }
            i += 1;
        }
        assert(keys.take(n as int) =~= keys);
        assert(deps.take(n as int) =~= deps);
        to_strings(&found)
    }
}

/// `key` is what `name` resolves to in kernel `v`, whatever `lookup` prints
/// for it: the key that the index alone gives, else the key that the output
/// of `lookup` names, else `name` itself.
pub open spec fn resolves_to<F: Fn(&String) -> String>(
    v: KernelView,
    lookup: F,
    name: String,
    key: Seq<char>,
) -> bool {
    match local_key(v.index, v.extension, name@) {
        Some(k) => key == k,
        None => exists|out: String| #[trigger]
            call_ensures(lookup, (&name,), out) && key == resolved(
                v.index,
                v.extension,
                name@,
                out@,
            ),
    }
}

/// A resolved name that asks for dependencies the index cannot give: it is
/// path-qualified and has no entry.
pub open spec fn unknown(index: DepIndex, key: Seq<char>) -> bool {
    has_char(key, '/') && !index.has(key)
}

/// The keys whose dependencies are asked for: those of `keys` that are
/// path-qualified, each once, in the order of their first occurrence. A
/// name that resolved to nothing path-qualified is passed over.
pub open spec fn selected(keys: Seq<Seq<char>>) -> Seq<Seq<char>>
    decreases keys.len(),
{
    if keys.len() == 0 {
        Seq::empty()
    } else {
        let before = selected(keys.drop_last());
        if has_char(keys.last(), '/') && !before.contains(keys.last()) {
            before.push(keys.last())
        } else {
            before
        }
    }
}

/// The selected keys are the path-qualified ones among `keys`, and none of
/// them is selected twice.
pub proof fn lemma_selected(keys: Seq<Seq<char>>)
    ensures
        selected(keys).no_duplicates(),
        forall|k: Seq<char>|
            #[trigger] selected(keys).contains(k) <==> keys.contains(k) && has_char(k, '/'),
    decreases keys.len(),
{
    if keys.len() > 0 {
        lemma_selected(keys.drop_last());
        lemma_drop_last_contains(keys);
        lemma_push_contains(selected(keys.drop_last()), keys.last());
    }
}

/// Resolving a key gives the key back, whatever the lookup is: a name that
/// is a key of the index, is path-qualified and carries the module
/// extension resolves to nothing but itself.
pub proof fn lemma_key_expands_to_itself<F: Fn(&String) -> String>(
    v: KernelView,
    lookup: F,
    name: String,
    key: Seq<char>,
)
    requires
        v.index.has(name@),
        has_char(name@, '/'),
        ends_with(name@, v.extension),
        resolves_to(v, lookup, name, key),
    ensures
        key == name@,
{
    lemma_key_resolves_to_itself(v.index, v.extension, name@, Seq::empty());
}

/// The keys of a dependency tree, in order.
pub open spec fn tree_keys(tree: Seq<(String, Vec<String>)>) -> Seq<Seq<char>> {
    Seq::new(tree.len(), |j: int| tree[j].0@)
}

/// `tree` gives for each of `keys`, in order, everything that it depends
/// on, each module once.
pub open spec fn tree_matches(
    index: DepIndex,
    keys: Seq<Seq<char>>,
    tree: Seq<(String, Vec<String>)>,
) -> bool {
    &&& tree_keys(tree) == keys
    &&& forall|j: int|
        0 <= j < tree.len() ==> {
            &&& index.has(#[trigger] tree[j].0@)
            &&& string_views(tree[j].1@).no_duplicates()
            &&& string_views(tree[j].1@).to_set() == closure_of(index, tree[j].0@)
        }
}

/// What asking for the dependencies of `wanted` names gives when the names
/// resolve to `keys`, one after the other. The answer is the tree of the
/// selected keys if none of the keys is unknown. Else it is the failure
/// that names the first unknown key, with which the resolving stops.
pub open spec fn deps_outcome(
    index: DepIndex,
    keys: Seq<Seq<char>>,
    wanted: nat,
    r: Result<Vec<(String, Vec<String>)>, Error>,
) -> bool {
    match r {
        Ok(tree) => {
            &&& keys.len() == wanted
            &&& forall|i: int| 0 <= i < keys.len() ==> !unknown(index, #[trigger] keys[i])
            &&& tree_matches(index, selected(keys), tree@)
        },
        Err(e) => {
            &&& 1 <= keys.len() <= wanted
            &&& unknown(index, keys.last())
            &&& forall|i: int| 0 <= i < keys.len() - 1 ==> !unknown(index, #[trigger] keys[i])
            &&& e matches Error::UnknownModule(m) && m@ == keys.last()
        },
    }
}

/// Every module that a dependency tree names, key after key, each key
/// followed by its dependencies.
pub open spec fn tree_list(tree: Seq<(String, Vec<String>)>) -> Seq<Seq<char>>
    decreases tree.len(),
{
    if tree.len() == 0 {
        Seq::empty()
    } else {
        tree_list(tree.drop_last()).push(tree.last().0@) + string_views(tree.last().1@)
    }
}

/// Every module that a dependency tree names, as a key or as a dependency.
pub open spec fn tree_modules(tree: Seq<(String, Vec<String>)>) -> Set<Seq<char>> {
    tree_list(tree).to_set()
}

/// The keys `keys` and everything that they depend on.
pub open spec fn with_closures(index: DepIndex, keys: Seq<Seq<char>>) -> Set<Seq<char>>
    decreases keys.len(),
{
    if keys.len() == 0 {
        Set::empty()
    } else {
        with_closures(index, keys.drop_last()).insert(keys.last()).union(
            closure_of(index, keys.last()),
        )
    }
}

/// What asking for the merged dependencies of `wanted` names gives when the
/// names resolve to `keys`: the selected keys and everything that they
/// depend on, each module once, or the failure of `deps_outcome`.
pub open spec fn merged_outcome(
    index: DepIndex,
    keys: Seq<Seq<char>>,
    wanted: nat,
    r: Result<Vec<String>, Error>,
) -> bool {
    match r {
        Ok(all) => {
            &&& keys.len() == wanted
            &&& forall|i: int| 0 <= i < keys.len() ==> !unknown(index, #[trigger] keys[i])
            &&& string_views(all@).no_duplicates()
            &&& string_views(all@).to_set() == with_closures(index, selected(keys))
        },
        Err(e) => {
            &&& 1 <= keys.len() <= wanted
            &&& unknown(index, keys.last())
            &&& forall|i: int| 0 <= i < keys.len() - 1 ==> !unknown(index, #[trigger] keys[i])
            &&& e matches Error::UnknownModule(m) && m@ == keys.last()
        },
    }
}

/// What `get_deps_for` answers for `names`: there are keys that the names
/// resolve to, one after the other, of which `r` is the outcome.
pub open spec fn deps_answer<F: Fn(&String) -> String>(
    v: KernelView,
    lookup: F,
    names: Seq<String>,
    r: Result<Vec<(String, Vec<String>)>, Error>,
) -> bool {
    exists|keys: Seq<Seq<char>>|
        {
            &&& #[trigger] deps_outcome(v.index, keys, names.len(), r)
            &&& forall|i: int|
                0 <= i < keys.len() ==> resolves_to(v, lookup, names[i], #[trigger] keys[i])
        }
}

/// What `get_deps_for_flatten` answers for `names`: there are keys that the
/// names resolve to, one after the other, of which `r` is the merged
/// outcome.
pub open spec fn merged_answer<F: Fn(&String) -> String>(
    v: KernelView,
    lookup: F,
    names: Seq<String>,
    r: Result<Vec<String>, Error>,
) -> bool {
    exists|keys: Seq<Seq<char>>|
        {
            &&& #[trigger] merged_outcome(v.index, keys, names.len(), r)
            &&& forall|i: int|
                0 <= i < keys.len() ==> resolves_to(v, lookup, names[i], #[trigger] keys[i])
        }
}

/// Whether `list` holds a string equal to `name`.
fn strings_contain(list: &Vec<String>, name: &String) -> (r: bool)
    ensures
        r == string_views(list@).contains(name@),
{
    let mut i: usize = 0;
    while i < list.len()
        invariant
            i <= list.len(),
            forall|k: int| 0 <= k < i ==> string_views(list@)[k] != name@,
        decreases list.len() - i,
    {
        if list[i] == *name {
            assert(string_views(list@)[i as int] == name@);
            return true;
        }
        i += 1;
    }
    false
}

/// Whether `tree` has the key `name`.
fn tree_has(tree: &Vec<(String, Vec<String>)>, name: &String) -> (r: bool)
    ensures
        r == tree_keys(tree@).contains(name@),
{
    let mut i: usize = 0;
    while i < tree.len()
        invariant
            i <= tree.len(),
            forall|k: int| 0 <= k < i ==> tree_keys(tree@)[k] != name@,
        decreases tree.len() - i,
    {
        if tree[i].0 == *name {
            assert(tree_keys(tree@)[i as int] == name@);
            return true;
        }
        i += 1;
    }
    false
}

/// Puts `x` at the end of `all` unless `all` holds it.
fn add_unique(all: &mut Vec<String>, x: &String)
    requires
        string_views(old(all)@).no_duplicates(),
    ensures
        string_views(final(all)@).no_duplicates(),
        string_views(final(all)@).to_set() == string_views(old(all)@).to_set().insert(x@),
{
    let ghost before = string_views(all@);
    if !strings_contain(all, x) {
        push_string(all, x.clone());
        proof {
            lemma_push_contains(before, x@);
        }
    }
    assert(string_views(all@).to_set() =~= before.to_set().insert(x@));
}

/// Every module that `tree` names, as a key or as a dependency, each once.
pub fn flatten_tree(tree: &Vec<(String, Vec<String>)>) -> (all: Vec<String>)
    ensures
        string_views(all@).no_duplicates(),
        string_views(all@).to_set() == tree_modules(tree@),
{
    let mut all: Vec<String> = Vec::new();
    let mut i: usize = 0;
    assert(string_views(all@) =~= Seq::empty());
    assert(tree@.take(0) =~= Seq::empty());
    assert(string_views(all@).to_set() =~= tree_list(tree@.take(0)).to_set());
    while i < tree.len()
        invariant
            i <= tree.len(),
            string_views(all@).no_duplicates(),
            string_views(all@).to_set() == tree_list(tree@.take(i as int)).to_set(),
        decreases tree.len() - i,
    {
        let ghost sofar = tree_list(tree@.take(i as int));
        add_unique(&mut all, &tree[i].0);
        let ghost base = string_views(all@).to_set();
        let deps = &tree[i].1;
        let mut k: usize = 0;
        assert(string_views(deps@).take(0).to_set() =~= Set::empty());
        assert(base.union(Set::empty()) =~= base);
        while k < deps.len()
            invariant
                k <= deps.len(),
                string_views(all@).no_duplicates(),
                string_views(all@).to_set() == base.union(
                    string_views(deps@).take(k as int).to_set(),
                ),
            decreases deps.len() - k,
        {
            add_unique(&mut all, &deps[k]);
            proof {
                let seen = string_views(deps@).take(k as int);
                assert(string_views(deps@).take(k + 1) =~= seen.push(deps@[k as int]@));
                seen.lemma_push_to_set_commute(deps@[k as int]@);
                assert(string_views(all@).to_set() =~= base.union(
                    string_views(deps@).take(k + 1).to_set(),
                ));
            }
            k += 1;
        }
        proof {
            assert(string_views(deps@).take(deps.len() as int) =~= string_views(deps@));
            assert(tree@.take(i + 1).drop_last() =~= tree@.take(i as int));
            assert(tree@.take(i + 1).last() == tree@[i as int]);
            sofar.lemma_push_to_set_commute(tree@[i as int].0@);
            vstd::seq_lib::seq_to_set_distributes_over_add(
                sofar.push(tree@[i as int].0@),
                string_views(deps@),
            );
        }
        i += 1;
    }
    assert(tree@.take(tree.len() as int) =~= tree@);
    all
}

/// Merges the answer of `get_deps_for` into one list.
fn merge_found<F: Fn(&String) -> String>(
    Ghost(v): Ghost<KernelView>,
    lookup: &F,
    Ghost(names): Ghost<Seq<String>>,
    found: Result<Vec<(String, Vec<String>)>, Error>,
) -> (r: Result<Vec<String>, Error>)
    requires
        deps_answer(v, *lookup, names, found),
    ensures
        merged_answer(v, *lookup, names, r),
{
    let ghost keys = choose|keys: Seq<Seq<char>>|
        {
            &&& #[trigger] deps_outcome(v.index, keys, names.len(), found)
            &&& forall|i: int|
                0 <= i < keys.len() ==> resolves_to(v, *lookup, names[i], #[trigger] keys[i])
        };
    match found {
        Ok(tree) => {
            let all = flatten_tree(&tree);
            proof {
                lemma_tree_modules(v.index, selected(keys), tree@);
                assert(merged_outcome(v.index, keys, names.len(), Ok(all)));
            }
            Ok(all)
        },
        Err(e) => {
            assert(merged_outcome(v.index, keys, names.len(), Err(e)));
            Err(e)
        },
    }
}

impl KernelInfo {
    /// The key that the index alone gives for `name`, if it gives one.
    pub fn resolve_local(&self, name: &str) -> (r: Option<String>)
        ensures
            match r {
                Some(k) => local_key(self@.index, self@.extension, name@) == Some(k@),
                None => local_key(self@.index, self@.extension, name@) is None,
            },
    {
        let n = to_chars(name);
        match resolve_local(&self.deplist, self.ext.as_slice(), n.as_slice()) {
            Some(i) => Some(from_chars(self.deplist.key(i).as_slice())),
            None => None,
        }
    }

    /// The key that the output of the external lookup names, if it names
    /// one that the index holds.
    pub fn resolve_lookup(&self, output: &str) -> (r: Option<String>)
        ensures
            match r {
                Some(k) => lookup_key(self@.index, output@) == Some(k@),
                None => lookup_key(self@.index, output@) is None,
            },
    {
        let o = to_chars(output);
        match resolve_lookup(&self.deplist, o.as_slice()) {
            Some(i) => Some(from_chars(self.deplist.key(i).as_slice())),
            None => None,
        }
    }

    /// What `name` resolves to when the external lookup prints `output`
    /// for it.
    pub fn resolve_with(&self, name: &str, output: &str) -> (r: String)
        ensures
            r@ == resolved(self@.index, self@.extension, name@, output@),
    {
        match self.resolve_local(name) {
            Some(k) => k,
            None => match self.resolve_lookup(output) {
                Some(k) => k,
                None => name.to_string(),
            },
        }
    }

    /// Finds the key of the module that `name` stands for. `lookup` is the
    /// external lookup: it is handed `name` as it was given and returns
    /// what the lookup printed. It is called only where the index alone
    /// gives no key. Where nothing is found the result is `name` itself;
    /// a result without `/` therefore tells that nothing was found.
    pub fn expand_module_name<F: Fn(&String) -> String>(&self, name: &String, lookup: &F) -> (r:
        String)
        requires
            call_requires(*lookup, (name,)),
        ensures
            resolves_to(self@, *lookup, *name, r@),
    {
        match self.resolve_local(name.as_str()) {
            Some(k) => k,
            None => {
                let out = lookup(name);
                match self.resolve_lookup(out.as_str()) {
                    Some(k) => k,
                    None => name.clone(),
                }
            },
        }
    }

    /// Everything that the module with key `name` depends on, directly or
    /// through other modules, each module once. A dependency that has no
    /// entry of its own is a leaf. A `name` without entry is a failure.
    pub fn get_mod_dep(&self, name: &String) -> (r: Result<Vec<String>, Error>)
        ensures
            match r {
                Ok(deps) => {
                    &&& self@.index.has(name@)
                    &&& string_views(deps@).no_duplicates()
                    &&& string_views(deps@).to_set() == closure_of(self@.index, name@)
                },
                Err(e) => !self@.index.has(name@) && e == Error::UnknownModule(*name),
            },
    {
        let n = to_chars(name.as_str());
        match self.deplist.position(n.as_slice()) {
            None => Err(Error::UnknownModule(name.clone())),
            Some(_) => {
                let deps = transitive_deps(&self.deplist, n.as_slice());
                Ok(to_strings(&deps))
            },
        }
    }

    /// The dependencies of each of `names`: every name is resolved with
    /// `expand_module_name`, a name that resolves to nothing path-qualified
    /// is passed over, and each key that remains comes with everything it
    /// depends on.
    pub fn get_deps_for<F: Fn(&String) -> String>(&self, names: &[String], lookup: F) -> (r:
        Result<Vec<(String, Vec<String>)>, Error>)
        requires
            forall|i: int|
                0 <= i < names.len() ==> call_requires(lookup, (#[trigger] &names[i],)),
        ensures
            deps_answer(self@, lookup, names@, r),
    {
        self.deps_for(names, &lookup)
    }

    /// `get_deps_for` with a borrowed lookup.
    pub(crate) fn deps_for<F: Fn(&String) -> String>(
        &self,
        names: &[String],
        lookup: &F,
    ) -> (r: Result<Vec<(String, Vec<String>)>, Error>)
        requires
            forall|i: int|
                0 <= i < names.len() ==> call_requires(*lookup, (#[trigger] &names[i],)),
        ensures
            deps_answer(self@, *lookup, names@, r),
    {
        let mut tree: Vec<(String, Vec<String>)> = Vec::new();
        let ghost mut keys: Seq<Seq<char>> = Seq::empty();
        let mut i: usize = 0;
        assert(tree_keys(tree@) =~= Seq::empty());
        while i < names.len()
            invariant
                i <= names.len(),
                keys.len() == i,
                forall|k: int|
                    0 <= k < names.len() ==> call_requires(*lookup, (#[trigger] &names[k],)),
                forall|k: int|
                    0 <= k < keys.len() ==> resolves_to(
                        self@,
                        *lookup,
                        names[k],
                        #[trigger] keys[k],
                    ),
                forall|k: int| 0 <= k < keys.len() ==> !unknown(self@.index, #[trigger] keys[k]),
                tree_matches(self@.index, selected(keys), tree@),
            decreases names.len() - i,
        {
            let ghost keys0 = keys;
            let key = self.expand_module_name(&names[i], lookup);
            proof {
                keys = keys0.push(key@);
                assert(keys.drop_last() =~= keys0);
            }
            let kc = to_chars(key.as_str());
            if contains_char(kc.as_slice(), '/') && !tree_has(&tree, &key) {
                match self.get_mod_dep(&key) {
                    Ok(deps) => {
                        let ghost tree0 = tree@;
                        tree.push((key, deps));
                        assert(tree_keys(tree@) =~= tree_keys(tree0).push(key@));
                    },
                    Err(e) => {
                        assert(deps_outcome(self@.index, keys, names@.len(), Err(e)));
                        assert(deps_answer(self@, *lookup, names@, Err(e)));
                        return Err(e);
                    },
                }
            } else {
                proof {
                    if has_char(key@, '/') {
                        let j = tree_keys(tree@).index_of(key@);
                        assert(tree@[j].0@ == key@);
                    }
                }
            }
            i += 1;
        }
        assert(deps_outcome(self@.index, keys, names@.len(), Ok(tree)));
        assert(deps_answer(self@, *lookup, names@, Ok(tree)));
        Ok(tree)
    }

    /// Same as `get_deps_for`, but merged: the keys that `names` resolve to
    /// and everything that they depend on, each module once.
    pub fn get_deps_for_flatten<F: Fn(&String) -> String>(
        &self,
        names: &[String],
        lookup: F,
    ) -> (r: Result<Vec<String>, Error>)
        requires
            forall|i: int|
                0 <= i < names.len() ==> call_requires(lookup, (#[trigger] &names[i],)),
        ensures
            merged_answer(self@, lookup, names@, r),
    {
        self.merged_deps_for(names, &lookup)
    }

    /// `get_deps_for_flatten` with a borrowed lookup.
    pub(crate) fn merged_deps_for<F: Fn(&String) -> String>(
        &self,
        names: &[String],
        lookup: &F,
    ) -> (r: Result<Vec<String>, Error>)
        requires
            forall|i: int|
                0 <= i < names.len() ==> call_requires(*lookup, (#[trigger] &names[i],)),
        ensures
            merged_answer(self@, *lookup, names@, r),
    {
        let found = self.deps_for(names, lookup);
        merge_found(Ghost(self@), lookup, Ghost(names@), found)
    }
}

/// A tree that matches `keys` names just the keys and what they depend on.
pub proof fn lemma_tree_modules(
    index: DepIndex,
    keys: Seq<Seq<char>>,
    tree: Seq<(String, Vec<String>)>,
)
    requires
        tree_matches(index, keys, tree),
    ensures
        tree_modules(tree) == with_closures(index, keys),
    decreases tree.len(),
{
    assert(tree_keys(tree).len() == tree.len());
    if tree.len() == 0 {
        assert(tree_list(tree).to_set() =~= Set::empty());
    } else {
        let n = tree.len() - 1;
        assert(tree_keys(tree.drop_last()) =~= keys.drop_last());
        assert forall|j: int| 0 <= j < n implies {
            &&& index.has(#[trigger] tree.drop_last()[j].0@)
            &&& string_views(tree.drop_last()[j].1@).no_duplicates()
            &&& string_views(tree.drop_last()[j].1@).to_set() == closure_of(
                index,
                tree.drop_last()[j].0@,
            )
        } by {
            assert(index.has(tree[j].0@));
        }
        lemma_tree_modules(index, keys.drop_last(), tree.drop_last());
        assert(tree_keys(tree)[n] == tree[n].0@);
        assert(index.has(tree[n].0@));
        let sofar = tree_list(tree.drop_last());
        sofar.lemma_push_to_set_commute(tree.last().0@);
        vstd::seq_lib::seq_to_set_distributes_over_add(
            sofar.push(tree.last().0@),
            string_views(tree.last().1@),
        );
    }
}

} // verus!
