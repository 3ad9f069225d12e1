use kmoddep::error::Error;
use kmoddep::kerman::{KernelInfo, MOD_D, MOD_DEP_F, MOD_INFO_EXE};
use kmoddep::{get_kernel_infos, modules_dir, normalize_root, KernelProbe};

fn probe(version: &str, has_kernel_dir: bool, descriptor: Option<&str>) -> KernelProbe {
    KernelProbe {
        version: version.to_string(),
        has_kernel_dir,
        descriptor: descriptor.map(|d| d.to_string()),
    }
}

#[test]
fn well_known_places() {
    assert_eq!(MOD_D, "/lib/modules");
    assert_eq!(MOD_DEP_F, "modules.dep");
    assert_eq!(MOD_INFO_EXE, "/usr/sbin/modinfo");
}

#[test]
fn root_is_trimmed_and_loses_trailing_slashes() {
    assert_eq!(normalize_root(None), "");
    assert_eq!(normalize_root(Some("")), "");
    assert_eq!(normalize_root(Some("/")), "");
    assert_eq!(normalize_root(Some("  /  ")), "");
    assert_eq!(normalize_root(Some("///")), "");
    assert_eq!(normalize_root(Some("/mnt/image")), "/mnt/image");
    assert_eq!(normalize_root(Some(" /mnt/image// \n")), "/mnt/image");
    assert_eq!(normalize_root(Some("relative/")), "relative");
}

#[test]
fn modules_directory_lies_below_the_root() {
    assert_eq!(modules_dir(None), "/lib/modules");
    assert_eq!(modules_dir(Some("/")), "/lib/modules");
    assert_eq!(modules_dir(Some("/mnt/image/")), "/mnt/image/lib/modules");
}

#[test]
fn invalidity_filtering() {
    let found = vec![
        probe("5.10.0", false, None),
        probe("6.1.0", true, Some("kernel/a.ko: kernel/b.ko\nkernel/b.ko:\n")),
        probe("5.15.0", false, Some("kernel/stale.ko:\n")),
        probe("6.6.0", true, Some("")),
    ];
    let kernels = get_kernel_infos(Some("/mnt/image/"), &found).unwrap();
    assert_eq!(kernels.len(), 2);
    assert_eq!(kernels[0].version, "6.1.0");
    assert_eq!(kernels[0].get_kernel_path(), "/mnt/image/lib/modules/6.1.0");
    assert_eq!(kernels[0].get_dep_path(), "/mnt/image/lib/modules/6.1.0/modules.dep");
    assert_eq!(kernels[0].get_disk_modules().len(), 2);
    assert_eq!(kernels[1].version, "6.6.0");
    assert!(kernels[1].get_disk_modules().is_empty());
    for k in &kernels {
        assert!(k.is_valid());
    }
}

#[test]
fn only_invalid_directories_give_an_empty_listing() {
    let found = vec![probe("5.10.0", false, None), probe("5.15.0", false, None)];
    assert!(get_kernel_infos(None, &found).unwrap().is_empty());
    assert!(get_kernel_infos(None, &[]).unwrap().is_empty());
}

#[test]
fn module_tree_without_descriptor_fails_the_listing() {
    let found = vec![
        probe("6.1.0", true, Some("kernel/a.ko:\n")),
        probe("6.6.0", true, None),
        probe("6.7.0", true, Some("kernel/a.ko:\n")),
    ];
    assert_eq!(get_kernel_infos(None, &found).err(), Some(Error::DescriptorUnreadable));
}

#[test]
fn clone_is_a_kernel_of_its_own_with_the_same_data() {
    let k = KernelInfo::new("/", "6.1.0")
        .init(true, Some("kernel/a.ko.xz: kernel/b.ko.xz\nkernel/b.ko.xz:\n"))
        .unwrap();
    let c = k.clone();
    drop(k);
    assert_eq!(c.version, "6.1.0");
    assert!(c.is_valid());
    assert_eq!(c.get_extension(), ".ko.xz");
    assert!(c.is_dep("b"));
    assert_eq!(c.get_disk_modules(), vec!["kernel/a.ko.xz".to_string(), "kernel/b.ko.xz".to_string()]);
    assert_eq!(c.get_mod_dep(&"kernel/a.ko.xz".to_string()).unwrap(), vec!["kernel/b.ko.xz".to_string()]);
}
