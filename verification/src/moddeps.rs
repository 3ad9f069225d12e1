//! The modules of a running system and what they depend on.
//!
//! A `KModuleTree` answers for one kernel. Where no modules are named it
//! answers for the modules that are loaded, which it reads from the text of
//! the live module table.

use crate::error::Error;
use crate::kerman::{deps_answer, merged_answer, KernelInfo, KernelView};
use crate::modinfo::{lsmod, record_views, table_records, ModInfo, ModRecord};
use crate::text::{push_string, string_views};
use vstd::prelude::*;

verus! {

/// The dependency service of one kernel.
pub struct KModuleTree {
    kernel: KernelInfo,
}

/// The names of the loaded modules, in the order of the table.
pub open spec fn loaded_names(records: Seq<ModRecord>) -> Seq<Seq<char>> {
    Seq::new(records.len(), |i: int| records[i].name)
}

/// What asking for the dependencies of the loaded modules answers: the
/// table must read, and the answer is that of `get_deps_for` for the names
/// it holds.
pub open spec fn loaded_answer<F: Fn(&String) -> String>(
    v: KernelView,
    lookup: F,
    table: Seq<char>,
    r: Result<Vec<(String, Vec<String>)>, Error>,
) -> bool {
    match table_records(table) {
        None => r == Err::<Vec<(String, Vec<String>)>, Error>(Error::LiveTableMalformed),
        Some(records) => exists|asked: Seq<String>|
            string_views(asked) == loaded_names(records) && #[trigger] deps_answer(
                v,
                lookup,
                asked,
                r,
            ),
    }
}

/// What asking for the dependencies of `modules` answers: that of
/// `get_deps_for` for them, or for the loaded modules where none is named.
pub open spec fn specified_answer<F: Fn(&String) -> String>(
    v: KernelView,
    lookup: F,
    modules: Seq<String>,
    table: Seq<char>,
    r: Result<Vec<(String, Vec<String>)>, Error>,
) -> bool {
    if modules.len() > 0 {
        deps_answer(v, lookup, modules, r)
    } else {
        loaded_answer(v, lookup, table, r)
    }
}

/// `loaded_answer`, merged.
pub open spec fn merged_loaded_answer<F: Fn(&String) -> String>(
    v: KernelView,
    lookup: F,
    table: Seq<char>,
    r: Result<Vec<String>, Error>,
) -> bool {
    match table_records(table) {
        None => r == Err::<Vec<String>, Error>(Error::LiveTableMalformed),
        Some(records) => exists|asked: Seq<String>|
            string_views(asked) == loaded_names(records) && #[trigger] merged_answer(
                v,
                lookup,
                asked,
                r,
            ),
    }
}

/// `specified_answer`, merged.
pub open spec fn merged_specified_answer<F: Fn(&String) -> String>(
    v: KernelView,
    lookup: F,
    modules: Seq<String>,
    table: Seq<char>,
    r: Result<Vec<String>, Error>,
) -> bool {
    if modules.len() > 0 {
        merged_answer(v, lookup, modules, r)
    } else {
        merged_loaded_answer(v, lookup, table, r)
    }
}

/// The names of the records, in order.
fn names_of(records: &Vec<ModInfo>) -> (names: Vec<String>)
    ensures
        string_views(names@) == loaded_names(record_views(records@)),
{
    let mut names: Vec<String> = Vec::new();
    let mut i: usize = 0;
    assert(string_views(names@) =~= loaded_names(record_views(records@)).take(0));
    while i < records.len()
        invariant
            i <= records.len(),
            string_views(names@) == loaded_names(record_views(records@)).take(i as int),
        decreases records.len() - i,
    {
        push_string(&mut names, records[i].name.clone());
        assert(string_views(names@) =~= loaded_names(record_views(records@)).take(i + 1));
        i += 1;
    }
    assert(loaded_names(record_views(records@)).take(records.len() as int) =~= loaded_names(
        record_views(records@),
    ));
    names
}

impl KModuleTree {
    /// The kernel that this service answers for.
    pub closed spec fn kernel(&self) -> KernelView {
        self.kernel@
    }

    /// The service of `kernel`.
    pub fn new(kernel: KernelInfo) -> (r: KModuleTree)
        ensures
            r.kernel() == kernel@,
    {
        KModuleTree { kernel }
    }

    /// The names of the loaded modules, in the order of the live module
    /// table whose text is `table`.
    pub fn get_loaded_modules(&self, table: &str) -> (r: Result<Vec<String>, Error>)
        ensures
            match r {
                Ok(names) => table_records(table@) is Some && string_views(names@) == loaded_names(
                    table_records(table@).unwrap(),
                ),
                Err(e) => table_records(table@) is None && e == Error::LiveTableMalformed,
            },
    {
        match lsmod(table) {
            Ok(records) => Ok(names_of(&records)),
            Err(e) => Err(e),
        }
    }

    /// The dependencies of every loaded module.
    pub fn get_loaded_deps<F: Fn(&String) -> String>(&self, table: &str, lookup: F) -> (r: Result<
        Vec<(String, Vec<String>)>,
        Error,
    >)
        requires
            forall|n: &String| #[trigger] call_requires(lookup, (n,)),
        ensures
            loaded_answer(self.kernel(), lookup, table@, r),
    {
        match self.get_loaded_modules(table) {
            Ok(names) => {
                let r = self.kernel.deps_for(names.as_slice(), &lookup);
                assert(deps_answer(self.kernel(), lookup, names@, r));
                r
            },
            Err(e) => Err(e),
        }
    }

    /// The dependencies of `modules`, or of every loaded module where
    /// `modules` is empty. `table` is consulted in the latter case only.
    pub fn get_specified_deps<F: Fn(&String) -> String>(
        &self,
        modules: &[String],
        table: &str,
        lookup: F,
    ) -> (r: Result<Vec<(String, Vec<String>)>, Error>)
        requires
            forall|n: &String| #[trigger] call_requires(lookup, (n,)),
        ensures
            specified_answer(self.kernel(), lookup, modules@, table@, r),
    {
        if modules.len() == 0 {
            self.get_loaded_deps(table, lookup)
        } else {
            self.kernel.deps_for(modules, &lookup)
        }
    }

    /// Every loaded module that resolves and everything that these depend
    /// on, in one list without repetition.
    pub fn merge_loaded_deps<F: Fn(&String) -> String>(&self, table: &str, lookup: F) -> (r:
        Result<Vec<String>, Error>)
        requires
            forall|n: &String| #[trigger] call_requires(lookup, (n,)),
        ensures
            merged_loaded_answer(self.kernel(), lookup, table@, r),
    {
        match self.get_loaded_modules(table) {
            Ok(names) => {
                let r = self.kernel.merged_deps_for(names.as_slice(), &lookup);
                assert(merged_answer(self.kernel(), lookup, names@, r));
                r
            },
            Err(e) => Err(e),
        }
    }

    /// Every one of `modules` that resolves and everything that these
    /// depend on, in one list without repetition; for the loaded modules
    /// where `modules` is empty.
    pub fn merge_specified_deps<F: Fn(&String) -> String>(
        &self,
        modules: &[String],
        table: &str,
        lookup: F,
    ) -> (r: Result<Vec<String>, Error>)
        requires
            forall|n: &String| #[trigger] call_requires(lookup, (n,)),
        ensures
            merged_specified_answer(self.kernel(), lookup, modules@, table@, r),
    {
        if modules.len() == 0 {
            self.merge_loaded_deps(table, lookup)
        } else {
            self.kernel.merged_deps_for(modules, &lookup)
        }
    }
}

} // verus!
