//! Dependencies of kernel modules.
//!
//! For one kernel version the library reads the kernel's module-dependency
//! descriptor into an index, resolves loosely given module names to the
//! module paths of that index, and computes everything that a module needs
//! in order to load. It can start from the modules that a running system
//! has loaded, which it reads from the live module table.
//!
//! The library reads no file and starts no program. Its callers hand it the
//! texts: of the descriptor, of the live module table, and of what the
//! external lookup printed.

pub mod descriptor;
pub mod error;
pub mod graph;
pub mod kerman;
pub mod modinfo;
pub mod moddeps;
pub mod number;
pub mod order;
pub mod resolve;
pub mod text;
pub mod writer;

use crate::error::Error;
use crate::kerman::{KernelInfo, KernelView};
use crate::text::{from_chars, to_chars, trim, trimmed};
use vstd::prelude::*;
use vstd::slice::slice_subrange;
use vstd::string::StringExecFns;

verus! {

/// What was found on disk for one directory below the modules directory.
#[derive(Debug)]
pub struct KernelProbe {
    /// The name of the directory: the kernel version.
    pub version: String,
    /// Whether the directory holds a `kernel` subdirectory.
    pub has_kernel_dir: bool,
    /// The text of the directory's descriptor; `None` where it was not
    /// read or could not be read.
    pub descriptor: Option<String>,
}

/// A probe as a mathematical value.
pub struct ProbeView {
    pub version: Seq<char>,
    pub has_kernel_dir: bool,
    pub descriptor: Option<Seq<char>>,
}

impl View for KernelProbe {
    type V = ProbeView;

    open spec fn view(&self) -> ProbeView {
        ProbeView {
            version: self.version@,
            has_kernel_dir: self.has_kernel_dir,
            descriptor: match self.descriptor {
                Some(d) => Some(d@),
                None => None,
            },
        }
    }
}

/// The views of a list of probes.
pub open spec fn probe_views(v: Seq<KernelProbe>) -> Seq<ProbeView> {
    Seq::new(v.len(), |i: int| v[i]@)
}

/// The views of a list of kernels.
pub open spec fn kernel_views(v: Seq<KernelInfo>) -> Seq<KernelView> {
    Seq::new(v.len(), |i: int| v[i]@)
}

/// `s` without the `/` at its end, however many there are.
pub open spec fn without_trailing_slashes(s: Seq<char>) -> Seq<char>
    decreases s.len(),
{
    if s.len() > 0 && s.last() == '/' {
        without_trailing_slashes(s.drop_last())
    } else {
        s
    }
}

/// The root file system as a prefix of paths: the given path without the
/// white space around it and without the `/` at its end; empty where no
/// root is given.
pub open spec fn root_of(rootfs: Option<Seq<char>>) -> Seq<char> {
    match rootfs {
        Some(r) => without_trailing_slashes(trimmed(r)),
        None => Seq::empty(),
    }
}

/// The kernels that a list of probes amounts to, if every module tree has
/// its descriptor: one kernel for each probe with a module tree, in the
/// order of the probes. A probe without module tree adds nothing.
pub open spec fn installed(root: Seq<char>, found: Seq<ProbeView>) -> Option<Seq<KernelView>>
    decreases found.len(),
{
    if found.len() == 0 {
        Some(Seq::empty())
    } else {
        let p = found.last();
        match installed(root, found.drop_last()) {
            None => None,
            Some(kernels) => if !p.has_kernel_dir {
                Some(kernels)
            } else {
                match p.descriptor {
                    Some(text) => Some(
                        kernels.push(KernelView::located(root, p.version).loaded(text)),
                    ),
                    None => None,
                }
            },
        }
    }
}

/// A directory without module tree never shows among the installed
/// kernels: every listed kernel is valid and stands for a probe that has a
/// module tree and a descriptor, and a probe without module tree changes
/// nothing in the listing.
pub proof fn lemma_only_valid_kernels_listed(root: Seq<char>, found: Seq<ProbeView>)
    ensures
        match installed(root, found) {
            Some(kernels) => forall|i: int|
                0 <= i < kernels.len() ==> {
                    &&& (#[trigger] kernels[i]).is_valid
                    &&& exists|j: int|
                        0 <= j < found.len() && (#[trigger] found[j]).has_kernel_dir
                            && found[j].descriptor is Some && kernels[i] == KernelView::located(
                            root,
                            found[j].version,
                        ).loaded(found[j].descriptor.unwrap())
                },
            None => true,
        },
        forall|p: ProbeView|
            !p.has_kernel_dir ==> installed(root, #[trigger] found.push(p)) == installed(
                root,
                found,
            ),
    decreases found.len(),
{
    assert forall|p: ProbeView| !p.has_kernel_dir implies installed(
        root,
        #[trigger] found.push(p),
    ) == installed(root, found) by {
        assert(found.push(p).drop_last() =~= found);
    }
    if found.len() > 0 {
        lemma_only_valid_kernels_listed(root, found.drop_last());
        match installed(root, found) {
            Some(kernels) => {
                let before = installed(root, found.drop_last()).unwrap();
                assert forall|i: int| 0 <= i < kernels.len() implies {
                    &&& (#[trigger] kernels[i]).is_valid
                    &&& exists|j: int|
                        0 <= j < found.len() && (#[trigger] found[j]).has_kernel_dir
                            && found[j].descriptor is Some && kernels[i] == KernelView::located(
                            root,
                            found[j].version,
                        ).loaded(found[j].descriptor.unwrap())
                } by {
                    if i < before.len() {
                        assert(kernels[i] == before[i]);
                        let init = found.drop_last();
                        let j = choose|j: int|
                            0 <= j < init.len() && (#[trigger] init[j]).has_kernel_dir
                                && init[j].descriptor is Some && before[i] == KernelView::located(
                                root,
                                init[j].version,
                            ).loaded(init[j].descriptor.unwrap());
                        assert(found[j] == init[j]);
                    } else {
                        let j = found.len() - 1;
                        assert(found[j].has_kernel_dir);
                    }
                }
            },
            None => {},
        }
    }
}

/// The root file system as a prefix of paths.
pub fn normalize_root(rootfs: Option<&str>) -> (r: String)
    ensures
        r@ == root_of(
            match rootfs {
                Some(s) => Some(s@),
                None => None,
            },
        ),
{
    match rootfs {
        None => String::new(),
        Some(s) => {
            let chars = to_chars(s);
            let t = trim(chars.as_slice());
            let mut n: usize = t.len();
            assert(t@.take(t.len() as int) =~= t@);
            while n > 0 && t[n - 1] == '/'
                invariant
                    n <= t.len(),
                    without_trailing_slashes(t@) == without_trailing_slashes(t@.take(n as int)),
                decreases n,
            {
                assert(t@.take(n as int).drop_last() =~= t@.take(n - 1));
                n -= 1;
            }
            from_chars(slice_subrange(t, 0, n))
        },
    }
}

/// The directory that holds one directory per installed kernel.
pub fn modules_dir(rootfs: Option<&str>) -> (r: String)
    ensures
        r@ == root_of(
            match rootfs {
                Some(s) => Some(s@),
                None => None,
            },
        ) + "/lib/modules"@,
{
    let mut r = normalize_root(rootfs);
    r.append(kerman::MOD_D);
    r
}

/// The kernels that are installed below `rootfs`, given what was found in
/// each directory of its modules directory. A directory without module
/// tree is left out: such directories stay behind when a kernel is removed
/// incompletely. A module tree without readable descriptor fails the
/// listing.
pub fn get_kernel_infos(rootfs: Option<&str>, found: &[KernelProbe]) -> (r: Result<
    Vec<KernelInfo>,
    Error,
>)
    ensures
        match r {
            Ok(kernels) => {
                &&& installed(
                    root_of(
                        match rootfs {
                            Some(s) => Some(s@),
                            None => None,
                        },
                    ),
                    probe_views(found@),
                ) == Some(kernel_views(kernels@))
                &&& forall|i: int| 0 <= i < kernels.len() ==> (#[trigger] kernels[i])@.is_valid
            },
            Err(e) => {
                &&& installed(
                    root_of(
                        match rootfs {
                            Some(s) => Some(s@),
                            None => None,
                        },
                    ),
                    probe_views(found@),
                ) is None
                &&& e == Error::DescriptorUnreadable
            },
        },
{
    let root = normalize_root(rootfs);
    let mut kernels: Vec<KernelInfo> = Vec::new();
    let mut i: usize = 0;
    assert(kernel_views(kernels@) =~= Seq::empty());
    assert(probe_views(found@).take(0) =~= Seq::empty());
    while i < found.len()
        invariant
            i <= found.len(),
            root@ == root_of(
                match rootfs {
                    Some(s) => Some(s@),
                    None => None,
                },
            ),
            installed(root@, probe_views(found@).take(i as int)) == Some(kernel_views(kernels@)),
            forall|k: int| 0 <= k < kernels.len() ==> (#[trigger] kernels[k])@.is_valid,
        decreases found.len() - i,
    {
        assert(probe_views(found@).take(i + 1).drop_last() =~= probe_views(found@).take(i as int));
        assert(probe_views(found@).take(i + 1).last() == found@[i as int]@);
        let p = &found[i];
        if p.has_kernel_dir {
            let fresh = KernelInfo::new(root.as_str(), p.version.as_str());
            let text: Option<&str> = match &p.descriptor {
                Some(d) => Some(d.as_str()),
                None => None,
            };
            assert(text is None <==> found@[i as int]@.descriptor is None);
            match fresh.init(true, text) {
                Ok(k) => {
                    let ghost before = kernel_views(kernels@);
                    let ghost kv = k@;
                    kernels.push(k);
                    assert(kernel_views(kernels@) =~= before.push(kv));
                },
                Err(e) => {
                    proof {
                        lemma_unreadable(root@, probe_views(found@), i + 1);
                    }
                    return Err(e);
                },
            }
        }
        i += 1;
    }
    assert(probe_views(found@).take(found.len() as int) =~= probe_views(found@));
    Ok(kernels)
}

/// Once a prefix of the probes holds a module tree without descriptor, the
/// listing fails.
pub proof fn lemma_unreadable(root: Seq<char>, found: Seq<ProbeView>, n: int)
    requires
        0 <= n <= found.len(),
        installed(root, found.take(n)) is None,
    ensures
        installed(root, found) is None,
    decreases found.len() - n,
{
    if n < found.len() {
        assert(found.take(n + 1).drop_last() =~= found.take(n));
        lemma_unreadable(root, found, n + 1);
    } else {
        assert(found.take(n) =~= found);
    }
}

} // verus!
