use kmoddep::kerman::KernelInfo;

fn descriptor(modules: usize) -> String {
    let mut text = String::new();
    for i in 0..modules {
        text.push_str(&format!("kernel/drivers/net/ethernet/vendor{}/mod_{}.ko.zst:", i % 97, i));
        for d in 1..4 {
            let j = (i * 7 + d * 13) % modules;
            if j > i {
                text.push_str(&format!(" kernel/drivers/net/ethernet/vendor{}/mod_{}.ko.zst", j % 97, j));
            }
        }
        text.push('\n');
    }
    text
}

#[test]
fn large_descriptor_is_handled() {
    let modules = 6000;
    let k = KernelInfo::new("/", "6.1.0").init(true, Some(&descriptor(modules))).unwrap();
    let all = k.get_disk_modules();
    assert_eq!(all.len(), modules);
    let mut sorted = all.clone();
    sorted.sort();
    assert_eq!(all, sorted);
    let names: Vec<String> = (0..200).map(|i| format!("mod_{}", i * 29)).collect();
    let tree = k.get_deps_for(&names, |_n: &String| String::new()).unwrap();
    assert_eq!(tree.len(), 200);
    let merged = k.get_deps_for_flatten(&names, |_n: &String| String::new()).unwrap();
    assert!(merged.len() >= 200);
    assert!(k.is_dep("mod_5999"));
    assert!(!k.is_dep("mod_0"));
}
