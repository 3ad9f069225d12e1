use kmoddep::descriptor::parse_descriptor;
use kmoddep::error::Error;
use kmoddep::graph::transitive_deps;
use kmoddep::kerman::{flatten_tree, KernelInfo};
use kmoddep::text::{from_chars, to_chars};

fn kernel(descriptor: &str) -> KernelInfo {
    KernelInfo::new("/", "6.1.0").init(true, Some(descriptor)).unwrap()
}

fn no_lookup(_name: &String) -> String {
    String::new()
}

fn names(list: &[&str]) -> Vec<String> {
    list.iter().map(|s| s.to_string()).collect()
}

fn sorted(mut v: Vec<String>) -> Vec<String> {
    v.sort();
    v
}

const CHAIN: &str = "kernel/a.ko: kernel/b.ko kernel/c.ko\nkernel/b.ko: kernel/d.ko\nkernel/c.ko:\nkernel/d.ko:\n";
const DIAMOND: &str = "kernel/a.ko: kernel/b.ko kernel/c.ko\nkernel/b.ko: kernel/d.ko\nkernel/c.ko: kernel/d.ko\nkernel/d.ko:\n";

#[test]
fn closure_correctness() {
    let k = kernel("A: B C\nB: D\nC:\nD:\n");
    let deps = k.get_mod_dep(&"A".to_string()).unwrap();
    assert_eq!(sorted(deps), names(&["B", "C", "D"]));

    let k = kernel(CHAIN);
    let tree = k.get_deps_for(&names(&["a"]), no_lookup).unwrap();
    assert_eq!(tree.len(), 1);
    assert_eq!(tree[0].0, "kernel/a.ko");
    assert_eq!(sorted(tree[0].1.clone()), names(&["kernel/b.ko", "kernel/c.ko", "kernel/d.ko"]));
}

#[test]
fn diamond_handling() {
    let k = kernel("A: B C\nB: D\nC: D\nD:\n");
    let deps = k.get_mod_dep(&"A".to_string()).unwrap();
    assert_eq!(deps.len(), 3);
    assert_eq!(sorted(deps), names(&["B", "C", "D"]));

    let k = kernel("A: C B\nC: D\nB: D\nD:\n");
    let deps = k.get_mod_dep(&"A".to_string()).unwrap();
    assert_eq!(deps.len(), 3);
    assert_eq!(sorted(deps), names(&["B", "C", "D"]));

    let k = kernel(DIAMOND);
    let tree = k.get_deps_for(&names(&["a"]), no_lookup).unwrap();
    assert_eq!(tree[0].1.len(), 3);
    assert_eq!(sorted(tree[0].1.clone()), names(&["kernel/b.ko", "kernel/c.ko", "kernel/d.ko"]));
}

#[test]
fn cycle_ends_the_walk() {
    let k = kernel("A: B\nB: C\nC: A\n");
    assert_eq!(sorted(k.get_mod_dep(&"A".to_string()).unwrap()), names(&["A", "B", "C"]));
    assert_eq!(sorted(k.get_mod_dep(&"B".to_string()).unwrap()), names(&["A", "B", "C"]));
    let k = kernel("A: A\n");
    assert_eq!(k.get_mod_dep(&"A".to_string()).unwrap(), names(&["A"]));
}

#[test]
fn module_without_dependencies_has_empty_closure() {
    let k = kernel(CHAIN);
    assert!(k.get_mod_dep(&"kernel/c.ko".to_string()).unwrap().is_empty());
    assert_eq!(k.get_mod_dep(&"kernel/b.ko".to_string()).unwrap(), names(&["kernel/d.ko"]));
}

#[test]
fn dependency_without_entry_is_a_leaf() {
    let k = kernel("kernel/a.ko: kernel/b.ko kernel/gone.ko\nkernel/b.ko: kernel/lost.ko\n");
    assert_eq!(
        sorted(k.get_mod_dep(&"kernel/a.ko".to_string()).unwrap()),
        names(&["kernel/b.ko", "kernel/gone.ko", "kernel/lost.ko"])
    );
}

#[test]
fn unknown_module_is_a_failure() {
    let k = kernel(CHAIN);
    assert_eq!(
        k.get_mod_dep(&"kernel/none.ko".to_string()).err(),
        Some(Error::UnknownModule("kernel/none.ko".to_string()))
    );
    assert_eq!(
        k.get_deps_for(&names(&["a", "some/none", "b"]), no_lookup).err(),
        Some(Error::UnknownModule("some/none".to_string()))
    );
    assert_eq!(
        k.get_deps_for_flatten(&names(&["some/none"]), no_lookup).err(),
        Some(Error::UnknownModule("some/none".to_string()))
    );
}

#[test]
fn unresolved_bare_name_is_passed_over() {
    let k = kernel(CHAIN);
    let tree = k.get_deps_for(&names(&["ghost", "b", "phantom"]), no_lookup).unwrap();
    assert_eq!(tree.len(), 1);
    assert_eq!(tree[0].0, "kernel/b.ko");
    assert_eq!(tree[0].1, names(&["kernel/d.ko"]));
    assert!(k.get_deps_for(&names(&["ghost"]), no_lookup).unwrap().is_empty());
    assert!(k.get_deps_for(&[], no_lookup).unwrap().is_empty());
}

#[test]
fn names_that_resolve_to_one_key_give_one_entry() {
    let k = kernel(CHAIN);
    let tree = k.get_deps_for(&names(&["b", "kernel/b.ko", "b.ko", "c"]), no_lookup).unwrap();
    assert_eq!(tree.len(), 2);
    assert_eq!(tree[0].0, "kernel/b.ko");
    assert_eq!(tree[1].0, "kernel/c.ko");
    assert!(tree[1].1.is_empty());
}

#[test]
fn lookup_result_feeds_the_closure() {
    let k = kernel(CHAIN);
    let lookup = |n: &String| {
        if n == "bee" {
            "filename: /lib/modules/6.1.0/kernel/b.ko\n".to_string()
        } else {
            String::new()
        }
    };
    let tree = k.get_deps_for(&names(&["bee", "wasp"]), lookup).unwrap();
    assert_eq!(tree.len(), 1);
    assert_eq!(tree[0].0, "kernel/b.ko");
    assert_eq!(tree[0].1, names(&["kernel/d.ko"]));
}

#[test]
fn flattened_view_merges_keys_and_dependencies() {
    let k = kernel(DIAMOND);
    let all = k.get_deps_for_flatten(&names(&["b", "c"]), no_lookup).unwrap();
    assert_eq!(all.len(), 3);
    assert_eq!(sorted(all), names(&["kernel/b.ko", "kernel/c.ko", "kernel/d.ko"]));
    let all = k.get_deps_for_flatten(&names(&["a", "d", "ghost"]), no_lookup).unwrap();
    assert_eq!(sorted(all), names(&["kernel/a.ko", "kernel/b.ko", "kernel/c.ko", "kernel/d.ko"]));
    assert!(k.get_deps_for_flatten(&[], no_lookup).unwrap().is_empty());
}

#[test]
fn flatten_tree_lists_each_module_once() {
    let tree = vec![
        ("a".to_string(), names(&["b", "c"])),
        ("b".to_string(), names(&["c", "d"])),
        ("e".to_string(), names(&[])),
    ];
    assert_eq!(flatten_tree(&tree), names(&["a", "b", "c", "d", "e"]));
    assert!(flatten_tree(&Vec::new()).is_empty());
}

#[test]
fn walk_on_the_index_follows_listed_dependencies_only() {
    let d = parse_descriptor(&to_chars("a: b\nb: c\nx: a\nc:\n"));
    let got: Vec<String> = transitive_deps(&d.index, &to_chars("a")).iter().map(|n| from_chars(n)).collect();
    assert_eq!(sorted(got), names(&["b", "c"]));
    assert!(transitive_deps(&d.index, &to_chars("nowhere")).is_empty());
}

#[test]
fn deep_chain_is_walked_to_its_end() {
    let mut text = String::new();
    let n = 2000;
    for i in 0..n {
        text.push_str(&format!("kernel/m{}.ko: kernel/m{}.ko\n", i, i + 1));
    }
    text.push_str(&format!("kernel/m{}.ko:\n", n));
    let k = kernel(&text);
    let deps = k.get_mod_dep(&"kernel/m0.ko".to_string()).unwrap();
    assert_eq!(deps.len(), n);
    assert!(deps.contains(&format!("kernel/m{}.ko", n)));
}
