use kmoddep::descriptor::{get_fext, parse_descriptor, parse_record, short_name_of};
use kmoddep::error::Error;
use kmoddep::kerman::KernelInfo;
use kmoddep::text::{from_chars, to_chars};

fn chars(s: &str) -> Vec<char> {
    to_chars(s)
}

fn text(v: &[char]) -> String {
    from_chars(v)
}

fn kernel(descriptor: &str) -> KernelInfo {
    KernelInfo::new("/", "6.1.0").init(true, Some(descriptor)).unwrap()
}

#[test]
fn record_splits_at_first_colon_and_trims() {
    let (path, deps) = parse_record(&chars("  kernel/a.ko :  kernel/b.ko kernel/c.ko  ")).unwrap();
    assert_eq!(text(&path), "kernel/a.ko");
    let deps: Vec<String> = deps.iter().map(|d| text(d)).collect();
    assert_eq!(deps, vec!["kernel/b.ko".to_string(), "kernel/c.ko".to_string()]);
}

#[test]
fn record_with_blank_dependency_list_has_no_dependencies() {
    let (path, deps) = parse_record(&chars("kernel/a.ko:")).unwrap();
    assert_eq!(text(&path), "kernel/a.ko");
    assert!(deps.is_empty());
    let (_, deps) = parse_record(&chars("kernel/a.ko:   \t")).unwrap();
    assert!(deps.is_empty());
}

#[test]
fn line_without_colon_is_no_record() {
    assert!(parse_record(&chars("kernel/a.ko kernel/b.ko")).is_none());
    assert!(parse_record(&chars("")).is_none());
}

#[test]
fn record_keeps_what_follows_a_second_colon() {
    let (path, deps) = parse_record(&chars("a.ko: b:c.ko")).unwrap();
    assert_eq!(text(&path), "a.ko");
    assert_eq!(deps.len(), 1);
    assert_eq!(text(&deps[0]), "b:c.ko");
}

#[test]
fn extension_is_everything_from_the_last_ko() {
    assert_eq!(text(&get_fext(&chars("kernel/a/b.ko")).unwrap()), ".ko");
    assert_eq!(text(&get_fext(&chars("kernel/a/b.ko.xz")).unwrap()), ".ko.xz");
    assert_eq!(text(&get_fext(&chars("kernel/a/b.ko.zst")).unwrap()), ".ko.zst");
    assert_eq!(text(&get_fext(&chars("kernel/a.kofoo/b.ko.gz")).unwrap()), ".ko.gz");
    assert!(get_fext(&chars("kernel/a/b")).is_none());
    assert!(get_fext(&chars("")).is_none());
}

#[test]
fn short_name_is_base_name_up_to_first_dot() {
    assert_eq!(text(&short_name_of(&chars("kernel/net/sunrpc/sunrpc.ko.zst"))), "sunrpc");
    assert_eq!(text(&short_name_of(&chars("sunrpc.ko"))), "sunrpc");
    assert_eq!(text(&short_name_of(&chars("kernel/net/plain"))), "plain");
    assert_eq!(text(&short_name_of(&chars("kernel/net/"))), "");
    assert_eq!(text(&short_name_of(&chars(""))), "");
}

#[test]
fn descriptor_is_read_into_index_extension_and_dependents() {
    let d = parse_descriptor(&chars(
        "kernel/fs/nfs/nfs.ko.xz: kernel/net/sunrpc/sunrpc.ko.xz kernel/fs/lockd/lockd.ko.xz\n\
         this line is skipped\n\
         kernel/net/sunrpc/sunrpc.ko.xz:\n\
         kernel/fs/lockd/lockd.ko.xz: kernel/net/sunrpc/sunrpc.ko.xz\n",
    ));
    assert_eq!(d.index.len(), 3);
    assert_eq!(text(d.index.key(0)), "kernel/fs/nfs/nfs.ko.xz");
    assert_eq!(text(d.index.key(1)), "kernel/net/sunrpc/sunrpc.ko.xz");
    assert_eq!(text(d.index.key(2)), "kernel/fs/lockd/lockd.ko.xz");
    assert_eq!(d.index.deps(0).len(), 2);
    assert_eq!(d.index.deps(1).len(), 0);
    assert_eq!(text(&d.index.deps(2)[0]), "kernel/net/sunrpc/sunrpc.ko.xz");
    assert_eq!(text(&d.extension), ".ko.xz");
    let mut names: Vec<String> = d.dependents.iter().map(|n| text(n)).collect();
    names.sort();
    assert_eq!(names, vec!["lockd".to_string(), "sunrpc".to_string()]);
}

#[test]
fn later_record_replaces_the_dependencies_of_an_earlier_one() {
    let d = parse_descriptor(&chars("a.ko: b.ko\nc.ko:\na.ko: c.ko\n"));
    assert_eq!(d.index.len(), 2);
    assert_eq!(text(d.index.key(0)), "a.ko");
    assert_eq!(d.index.deps(0).len(), 1);
    assert_eq!(text(&d.index.deps(0)[0]), "c.ko");
    assert_eq!(d.index.position(&chars("c.ko")), Some(1));
    assert_eq!(d.index.position(&chars("b.ko")), None);
    let mut names: Vec<String> = d.dependents.iter().map(|n| text(n)).collect();
    names.sort();
    assert_eq!(names, vec!["b".to_string(), "c".to_string()]);
}

#[test]
fn extension_comes_from_the_first_record_that_shows_one() {
    let d = parse_descriptor(&chars("plain: other\nkernel/a.ko.zst:\nkernel/b.ko:\n"));
    assert_eq!(text(&d.extension), ".ko.zst");
    let d = parse_descriptor(&chars("plain: other\n"));
    assert_eq!(text(&d.extension), "");
}

#[test]
fn descriptor_with_windows_line_ends_reads_the_same() {
    let d = parse_descriptor(&chars("a.ko: b.ko\r\nb.ko:\r\n"));
    assert_eq!(d.index.len(), 2);
    assert_eq!(text(&d.index.deps(0)[0]), "b.ko");
    assert_eq!(d.index.deps(1).len(), 0);
}

#[test]
fn empty_descriptor_gives_empty_index() {
    let d = parse_descriptor(&chars(""));
    assert_eq!(d.index.len(), 0);
    assert!(d.extension.is_empty());
    assert!(d.dependents.is_empty());
}

#[test]
fn new_kernel_is_located_and_not_valid() {
    let k = KernelInfo::new("/", "6.1.0");
    assert_eq!(k.version, "6.1.0");
    assert_eq!(k.get_kernel_path(), "/lib/modules/6.1.0");
    assert_eq!(k.get_dep_path(), "/lib/modules/6.1.0/modules.dep");
    assert!(!k.is_valid());
    assert!(k.get_disk_modules().is_empty());
    let k = KernelInfo::new("", "6.1.0");
    assert_eq!(k.get_kernel_path(), "/lib/modules/6.1.0");
    let k = KernelInfo::new("/mnt/image", "5.15.0-generic");
    assert_eq!(k.get_kernel_path(), "/mnt/image/lib/modules/5.15.0-generic");
    assert_eq!(k.get_dep_path(), "/mnt/image/lib/modules/5.15.0-generic/modules.dep");
}

#[test]
fn kernel_without_module_tree_is_not_valid_and_holds_nothing() {
    let k = KernelInfo::new("/", "6.1.0").init(false, Some("a.ko: b.ko\n")).unwrap();
    assert!(!k.is_valid());
    assert!(k.get_disk_modules().is_empty());
    assert!(!k.is_dep("b"));
    let k = KernelInfo::new("/", "6.1.0").init(false, None).unwrap();
    assert!(!k.is_valid());
}

#[test]
fn module_tree_without_descriptor_is_a_failure() {
    let r = KernelInfo::new("/", "6.1.0").init(true, None);
    assert_eq!(r.err(), Some(Error::DescriptorUnreadable));
}

#[test]
fn initialised_kernel_is_not_initialised_again() {
    let k = kernel("kernel/a.ko: kernel/b.ko\n");
    let k = k.init(true, Some("kernel/x.ko:\n")).unwrap();
    assert_eq!(k.get_disk_modules(), vec!["kernel/a.ko".to_string(), "kernel/b.ko".to_string()]);
    let k = k.init(true, None).unwrap();
    assert!(k.is_valid());
    let k = k.init(false, None).unwrap();
    assert!(k.is_valid());
}

#[test]
fn is_dep_knows_the_short_names_of_dependencies() {
    let k = kernel("kernel/fs/nfs.ko.xz: kernel/net/sunrpc.ko.xz\nkernel/net/sunrpc.ko.xz:\n");
    assert!(k.is_dep("sunrpc"));
    assert!(!k.is_dep("nfs"));
    assert!(!k.is_dep("sunrpc.ko.xz"));
    assert!(!k.is_dep(""));
    assert_eq!(k.get_extension(), ".ko.xz");
}

#[test]
fn disk_modules_are_keys_and_dependencies_sorted_once_each() {
    let k = kernel("kernel/z.ko: kernel/m.ko kernel/a.ko\nkernel/m.ko: kernel/a.ko\nkernel/b.ko: extra/q.ko\n");
    assert_eq!(
        k.get_disk_modules(),
        vec![
            "extra/q.ko".to_string(),
            "kernel/a.ko".to_string(),
            "kernel/b.ko".to_string(),
            "kernel/m.ko".to_string(),
            "kernel/z.ko".to_string(),
        ]
    );
}

#[test]
fn disk_modules_sort_as_strings_do() {
    let descriptor = "b: a-b a_b aB ab a\nB: \u{e9} z \u{4e2d} \u{1f600} Z\n";
    let k = kernel(descriptor);
    let got = k.get_disk_modules();
    let mut want: Vec<String> = vec![
        "b", "a-b", "a_b", "aB", "ab", "a", "B", "\u{e9}", "z", "\u{4e2d}", "\u{1f600}", "Z",
    ]
    .into_iter()
    .map(|s| s.to_string())
    .collect();
    want.sort();
    want.dedup();
    assert_eq!(got, want);
}

#[test]
fn dependency_that_is_a_key_is_the_same_string() {
    let k = kernel("kernel/a.ko:   kernel/b.ko  \n  kernel/b.ko  :\n");
    let deps = k.get_mod_dep(&"kernel/a.ko".to_string()).unwrap();
    assert_eq!(deps, vec!["kernel/b.ko".to_string()]);
    assert!(k.get_mod_dep(&deps[0]).is_ok());
    assert_eq!(k.resolve_local(&deps[0]), Some("kernel/b.ko".to_string()));
}

#[test]
fn written_descriptor_reads_back() {
    let records: Vec<(&str, Vec<&str>)> = vec![
        ("kernel/fs/nfs/nfs.ko.xz", vec!["kernel/net/sunrpc/sunrpc.ko.xz", "kernel/fs/lockd/lockd.ko.xz"]),
        ("kernel/net/sunrpc/sunrpc.ko.xz", vec![]),
        ("kernel/fs/lockd/lockd.ko.xz", vec!["kernel/net/sunrpc/sunrpc.ko.xz"]),
        ("updates/dkms/r8168.ko.xz", vec![]),
    ];
    let mut written = String::new();
    for (path, deps) in &records {
        written.push_str(path);
        written.push_str(": ");
        written.push_str(&deps.join(" "));
        written.push('\n');
    }
    let d = parse_descriptor(&chars(&written));
    assert_eq!(d.index.len(), records.len());
    for (i, (path, deps)) in records.iter().enumerate() {
        assert_eq!(text(d.index.key(i)), *path);
        let got: Vec<String> = d.index.deps(i).iter().map(|x| text(x)).collect();
        assert_eq!(got, deps.iter().map(|x| x.to_string()).collect::<Vec<String>>());
        for dep in &got {
            let at = d.index.position(&chars(dep)).unwrap();
            assert_eq!(text(d.index.key(at)), *dep);
        }
    }
}

#[test]
fn index_clone_holds_the_same_entries() {
    let d = parse_descriptor(&chars("a.ko: b.ko c.ko\nb.ko:\n"));
    let c = d.index.clone();
    drop(d);
    assert_eq!(c.len(), 2);
    assert_eq!(text(c.key(0)), "a.ko");
    assert_eq!(text(&c.deps(0)[1]), "c.ko");
    assert_eq!(c.position(&chars("b.ko")), Some(1));
}
