use consolidator::context::{BuildableDependency, SourceId};
use consolidator::ordered::SortKey;
use consolidator::text::str_lt;
use consolidator::version::{read_precedes, version_precedes};
use consolidator::{OrderedMap, OrderedSet};

fn dependency(name: &str, version: &str, target: &str, is_proc_macro: bool) -> BuildableDependency {
    BuildableDependency {
        name: name.to_string(),
        version: version.to_string(),
        buildable_target: target.to_string(),
        is_proc_macro,
    }
}

#[test]
fn text_is_ordered_by_code_point() {
    assert!(str_lt("a", "b"));
    assert!(!str_lt("b", "a"));
    assert!(!str_lt("a", "a"));
    assert!(str_lt("", "a"));
    assert!(!str_lt("a", ""));
    assert!(!str_lt("", ""));
    assert!(str_lt("ab", "abc"));
    assert!(!str_lt("abc", "ab"));
    assert!(str_lt("abc", "abd"));
    assert!(str_lt("Z", "a"));
    assert!(str_lt("a-b", "a_b"));
    assert!(str_lt("z", "é"));
    assert!(str_lt("é", "日"));
    assert!(str_lt("日", "😀"));
    assert!(!str_lt("😀", "日"));
}

#[test]
fn text_order_agrees_with_the_order_of_strings() {
    let samples = ["", "a", "ab", "b", "B", "cfg(unix)", "x86_64", "é", "日本", "😀", "a\u{0}", "~"];
    for a in samples {
        for b in samples {
            assert_eq!(str_lt(a, b), a < b, "{:?} and {:?}", a, b);
        }
    }
}

#[test]
fn versions_are_ordered_by_their_numbers() {
    assert!(version_precedes("9.0.0", "10.0.0"));
    assert!(!version_precedes("10.0.0", "9.0.0"));
    assert!(version_precedes("1.9.0", "1.10.0"));
    assert!(version_precedes("1.0.9", "1.0.10"));
    assert!(version_precedes("1.2.3", "2.0.0"));
    assert!(version_precedes("0.99.99", "1.0.0"));
    assert!(!version_precedes("2.0.0", "1.99.0"));
    assert!(!version_precedes("1.2.3", "1.2.3"));
}

#[test]
fn a_pre_release_comes_before_its_release() {
    assert!(version_precedes("1.0.0-alpha", "1.0.0"));
    assert!(!version_precedes("1.0.0", "1.0.0-alpha"));
    assert!(version_precedes("1.0.0-rc.1", "1.0.0+build"));
    assert!(version_precedes("1.0.0", "1.0.1-alpha"));
    assert!(version_precedes("1.0.0-alpha", "1.0.0-beta"));
    assert!(!version_precedes("1.0.0-beta", "1.0.0-alpha"));
    assert!(version_precedes("1.0.0+a", "1.0.0+b"));
}

#[test]
fn what_semver_does_not_read_is_ordered_as_text_and_comes_first() {
    assert!(version_precedes("1.0", "2.0"));
    assert!(!version_precedes("2.0", "1.0"));
    assert!(version_precedes("10.0", "9.0"));
    assert!(version_precedes("9.0", "0.0.1"));
    assert!(!version_precedes("0.0.1", "9.0"));
    assert!(version_precedes("", "0.0.0"));
    assert!(!version_precedes("1.0", "1.0"));
}

#[test]
fn the_parts_read_in_two_versions_decide_their_order() {
    let parts = |major: u64, minor: u64, patch: u64, pre: &str| {
        Some((major, minor, patch, pre.to_string()))
    };
    assert!(read_precedes(&parts(1, 2, 3, ""), "z", &parts(1, 2, 4, ""), "a"));
    assert!(read_precedes(&parts(1, 2, 3, ""), "z", &parts(1, 3, 0, ""), "a"));
    assert!(read_precedes(&parts(1, 9, 9, ""), "z", &parts(2, 0, 0, ""), "a"));
    assert!(!read_precedes(&parts(2, 0, 0, ""), "a", &parts(1, 9, 9, ""), "z"));
    assert!(read_precedes(&parts(1, 0, 0, "rc"), "z", &parts(1, 0, 0, ""), "a"));
    assert!(!read_precedes(&parts(1, 0, 0, ""), "a", &parts(1, 0, 0, "rc"), "z"));
    assert!(read_precedes(&parts(1, 0, 0, "x"), "a", &parts(1, 0, 0, "y"), "b"));
    assert!(!read_precedes(&parts(1, 0, 0, "x"), "b", &parts(1, 0, 0, "y"), "a"));
    assert!(read_precedes(&None, "z", &parts(0, 0, 0, ""), "a"));
    assert!(!read_precedes(&parts(0, 0, 0, ""), "a", &None, "z"));
    assert!(read_precedes(&None, "a", &None, "b"));
    assert!(!read_precedes(&None, "b", &None, "a"));
}

#[test]
fn sources_are_ordered_by_name_then_version() {
    let source = |name: &str, version: &str| SourceId {
        name: name.to_string(),
        version: version.to_string(),
    };
    assert!(source("a", "9.0.0").precedes(&source("b", "1.0.0")));
    assert!(!source("b", "1.0.0").precedes(&source("a", "9.0.0")));
    assert!(source("a", "9.0.0").precedes(&source("a", "10.0.0")));
    assert!(!source("a", "10.0.0").precedes(&source("a", "9.0.0")));
    assert!(!source("a", "1.0.0").precedes(&source("a", "1.0.0")));
    assert!(source("a", "b c").precedes(&source("a b", "c")));
}

#[test]
fn dependencies_are_ordered_field_by_field() {
    let base = dependency("n", "1.0.0", "//t", false);
    assert!(!base.precedes(&dependency("n", "1.0.0", "//t", false)));
    assert!(base.precedes(&dependency("n", "1.0.0", "//t", true)));
    assert!(!dependency("n", "1.0.0", "//t", true).precedes(&base));
    assert!(base.precedes(&dependency("n", "1.0.0", "//u", false)));
    assert!(dependency("n", "1.0.0", "//u", false).precedes(&dependency("n", "1.0.1", "//a", false)));
    assert!(dependency("n", "9.0.0", "//u", true).precedes(&dependency("o", "0.0.0", "//a", false)));
    assert!(!dependency("o", "0.0.0", "//a", false).precedes(&dependency("n", "9.0.0", "//u", true)));
    assert!(dependency("n", "9.0.0", "//z", true).precedes(&dependency("n", "10.0.0", "//a", false)));
    assert!(!dependency("n", "10.0.0", "//a", false).precedes(&dependency("n", "9.0.0", "//z", true)));
}

#[test]
fn a_map_keeps_its_keys_in_ascending_order() {
    let mut map: OrderedMap<String, u32> = OrderedMap::new();
    assert_eq!(map.len(), 0);
    assert_eq!(map.insert("m".to_string(), 1), None);
    assert_eq!(map.insert("a".to_string(), 2), None);
    assert_eq!(map.insert("z".to_string(), 3), None);
    assert_eq!(map.insert("f".to_string(), 4), None);
    assert_eq!(map.len(), 4);
    let keys: Vec<&str> = (0..map.len()).map(|i| map.key_at(i).as_str()).collect();
    assert_eq!(keys, vec!["a", "f", "m", "z"]);
    let values: Vec<u32> = (0..map.len()).map(|i| *map.value_at(i)).collect();
    assert_eq!(values, vec![2, 4, 1, 3]);
    assert_eq!(map.into_values(), vec![2, 4, 1, 3]);
}

#[test]
fn a_map_holds_one_value_for_a_key() {
    let mut map: OrderedMap<String, u32> = OrderedMap::new();
    map.insert("k".to_string(), 1);
    map.insert("j".to_string(), 5);
    assert_eq!(map.insert("k".to_string(), 2), Some(1));
    assert_eq!(map.len(), 2);
    assert_eq!(map.get(&"k".to_string()), Some(&2));
    assert_eq!(map.get(&"j".to_string()), Some(&5));
    assert_eq!(map.get(&"missing".to_string()), None);
    assert!(map.contains_key(&"j".to_string()));
    assert!(!map.contains_key(&"".to_string()));
}

#[test]
fn a_removed_key_is_gone_and_its_value_handed_back() {
    let mut map: OrderedMap<String, u32> = OrderedMap::new();
    map.insert("b".to_string(), 2);
    map.insert("a".to_string(), 1);
    map.insert("c".to_string(), 3);
    assert_eq!(map.remove(&"b".to_string()), Some(2));
    assert_eq!(map.remove(&"b".to_string()), None);
    assert_eq!(map.remove(&"zz".to_string()), None);
    assert_eq!(map.len(), 2);
    assert_eq!(map.key_at(0), "a");
    assert_eq!(map.key_at(1), "c");
    assert_eq!(map.remove(&"a".to_string()), Some(1));
    assert_eq!(map.remove(&"c".to_string()), Some(3));
    assert_eq!(map.len(), 0);
    assert!(map.into_values().is_empty());
}

#[test]
fn a_map_can_be_keyed_by_sources() {
    let mut map: OrderedMap<SourceId, u32> = OrderedMap::new();
    let source = |name: &str, version: &str| SourceId {
        name: name.to_string(),
        version: version.to_string(),
    };
    map.insert(source("b", "1.0.0"), 1);
    map.insert(source("a", "10.0.0"), 2);
    map.insert(source("a", "2.0.0"), 3);
    assert_eq!(map.into_values(), vec![3, 2, 1]);
}

#[test]
fn a_set_holds_each_element_once_in_ascending_order() {
    let mut set: OrderedSet<String> = OrderedSet::new();
    assert!(set.insert("b".to_string()));
    assert!(set.insert("a".to_string()));
    assert!(!set.insert("b".to_string()));
    assert!(set.insert("c".to_string()));
    assert_eq!(set.len(), 3);
    assert_eq!(set.element_at(0), "a");
    assert_eq!(set.element_at(1), "b");
    assert_eq!(set.element_at(2), "c");
    assert!(set.contains(&"a".to_string()));
    assert!(!set.contains(&"d".to_string()));
}

#[test]
fn a_set_of_dependencies_orders_them() {
    let mut set: OrderedSet<BuildableDependency> = OrderedSet::new();
    assert!(set.insert(dependency("b", "1.0.0", "//b", false)));
    assert!(set.insert(dependency("a", "10.0.0", "//a10", false)));
    assert!(set.insert(dependency("a", "2.0.0", "//a2", false)));
    assert!(set.insert(dependency("a", "1.0.0", "//a1", true)));
    assert!(!set.insert(dependency("a", "2.0.0", "//a2", false)));
    let targets: Vec<&str> =
        (0..set.len()).map(|i| set.element_at(i).buildable_target.as_str()).collect();
    assert_eq!(targets, vec!["//a1", "//a2", "//a10", "//b"]);
}
