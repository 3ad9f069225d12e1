use kmoddep::error::Error;
use kmoddep::kerman::KernelInfo;
use kmoddep::moddeps::KModuleTree;

const DESCRIPTOR: &str = "kernel/fs/nfs/nfs.ko: kernel/net/sunrpc/sunrpc.ko kernel/fs/lockd/lockd.ko\n\
                          kernel/net/sunrpc/sunrpc.ko:\n\
                          kernel/fs/lockd/lockd.ko: kernel/net/sunrpc/sunrpc.ko\n\
                          kernel/fs/ext4/ext4.ko: kernel/fs/jbd2/jbd2.ko kernel/lib/crc16.ko\n\
                          kernel/fs/jbd2/jbd2.ko:\n\
                          kernel/lib/crc16.ko:\n";

const TABLE: &str = "lockd 1 1 nfs, Live 0x0\n\
                     ext4 761856 1 - Live 0xffffffffc0b00000\n\
                     zfs 1 0 - Live 0x0\n";

fn tree() -> KModuleTree {
    KModuleTree::new(KernelInfo::new("/", "6.1.0").init(true, Some(DESCRIPTOR)).unwrap())
}

fn no_lookup(_name: &String) -> String {
    String::new()
}

fn names(list: &[&str]) -> Vec<String> {
    list.iter().map(|s| s.to_string()).collect()
}

fn sorted(mut v: Vec<String>) -> Vec<String> {
    v.sort();
    v
}

#[test]
fn loaded_modules_are_the_names_of_the_table() {
    assert_eq!(tree().get_loaded_modules(TABLE).unwrap(), names(&["lockd", "ext4", "zfs"]));
    assert!(tree().get_loaded_modules("").unwrap().is_empty());
    assert_eq!(tree().get_loaded_modules("lockd 1 1\n").err(), Some(Error::LiveTableMalformed));
}

#[test]
fn loaded_dependencies_are_those_of_the_loaded_modules() {
    let deps = tree().get_loaded_deps(TABLE, no_lookup).unwrap();
    assert_eq!(deps.len(), 2);
    assert_eq!(deps[0].0, "kernel/fs/lockd/lockd.ko");
    assert_eq!(deps[0].1, names(&["kernel/net/sunrpc/sunrpc.ko"]));
    assert_eq!(deps[1].0, "kernel/fs/ext4/ext4.ko");
    assert_eq!(sorted(deps[1].1.clone()), names(&["kernel/fs/jbd2/jbd2.ko", "kernel/lib/crc16.ko"]));
    assert_eq!(tree().get_loaded_deps("broken", no_lookup).err(), Some(Error::LiveTableMalformed));
}

#[test]
fn specified_modules_are_used_where_given() {
    let deps = tree().get_specified_deps(&names(&["nfs"]), "broken table", no_lookup).unwrap();
    assert_eq!(deps.len(), 1);
    assert_eq!(deps[0].0, "kernel/fs/nfs/nfs.ko");
    assert_eq!(
        sorted(deps[0].1.clone()),
        names(&["kernel/fs/lockd/lockd.ko", "kernel/net/sunrpc/sunrpc.ko"])
    );
}

#[test]
fn empty_list_stands_for_the_loaded_modules() {
    let deps = tree().get_specified_deps(&[], TABLE, no_lookup).unwrap();
    assert_eq!(deps.len(), 2);
    assert_eq!(deps[0].0, "kernel/fs/lockd/lockd.ko");
    assert_eq!(deps[1].0, "kernel/fs/ext4/ext4.ko");
    assert_eq!(
        tree().get_specified_deps(&[], "broken table", no_lookup).err(),
        Some(Error::LiveTableMalformed)
    );
}

#[test]
fn merged_dependencies_hold_modules_and_their_dependencies_once() {
    let all = tree().merge_specified_deps(&names(&["nfs", "lockd"]), "", no_lookup).unwrap();
    assert_eq!(all.len(), 3);
    assert_eq!(
        sorted(all),
        names(&["kernel/fs/lockd/lockd.ko", "kernel/fs/nfs/nfs.ko", "kernel/net/sunrpc/sunrpc.ko"])
    );
    let all = tree().merge_loaded_deps(TABLE, no_lookup).unwrap();
    assert_eq!(
        sorted(all),
        names(&[
            "kernel/fs/ext4/ext4.ko",
            "kernel/fs/jbd2/jbd2.ko",
            "kernel/fs/lockd/lockd.ko",
            "kernel/lib/crc16.ko",
            "kernel/net/sunrpc/sunrpc.ko",
        ])
    );
    let same = tree().merge_specified_deps(&[], TABLE, no_lookup).unwrap();
    assert_eq!(same.len(), 5);
    assert_eq!(tree().merge_loaded_deps("x", no_lookup).err(), Some(Error::LiveTableMalformed));
}

#[test]
fn lookup_resolves_loaded_names_that_differ_from_file_names() {
    let lookup = |n: &String| {
        if n == "zfs" {
            "filename:       /lib/modules/6.1.0/kernel/fs/ext4/ext4.ko\n".to_string()
        } else {
            String::new()
        }
    };
    let deps = tree().get_loaded_deps("zfs 1 0 - Live 0x0\n", lookup).unwrap();
    assert_eq!(deps.len(), 1);
    assert_eq!(deps[0].0, "kernel/fs/ext4/ext4.ko");
}

#[test]
fn unknown_path_among_the_specified_modules_is_a_failure() {
    assert_eq!(
        tree().merge_specified_deps(&names(&["nfs", "no/such"]), "", no_lookup).err(),
        Some(Error::UnknownModule("no/such".to_string()))
    );
    assert_eq!(
        tree().get_specified_deps(&names(&["no/such"]), "", no_lookup).err(),
        Some(Error::UnknownModule("no/such".to_string()))
    );
}
