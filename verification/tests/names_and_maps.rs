use jakar_tree::names::{normalize, order_of, push_decimal, with_number, NameOrder};
use jakar_tree::path::{custom_path_iter, NodePath};
use jakar_tree::registry::Registry;

fn path_of(segments: &[&str]) -> NodePath {
    NodePath { segments: segments.iter().map(|s| s.to_string()).collect() }
}

#[test]
fn order_is_bytewise() {
    assert_eq!(order_of("a", "b"), NameOrder::Before);
    assert_eq!(order_of("b", "a"), NameOrder::After);
    assert_eq!(order_of("abc", "abc"), NameOrder::Same);
    assert_eq!(order_of("", ""), NameOrder::Same);
    assert_eq!(order_of("", "a"), NameOrder::Before);
    assert_eq!(order_of("ab", "abc"), NameOrder::Before);
    assert_eq!(order_of("abc", "ab"), NameOrder::After);
    assert_eq!(order_of("B", "a"), NameOrder::Before);
    assert_eq!(order_of("Mesh_10", "Mesh_2"), NameOrder::Before);
    assert_eq!(order_of("z", "\u{e4}"), NameOrder::Before);
    assert_eq!(order_of("\u{e4}", "\u{20ac}"), NameOrder::Before);
}

#[test]
fn order_agrees_with_std() {
    let names = ["", "a", "A", "ab", "b", "Mesh", "Mesh_0", "Mesh_1", "\u{e4}", "\u{1F600}", "~"];
    for a in names.iter() {
        for b in names.iter() {
            let expected = match a.cmp(b) {
                std::cmp::Ordering::Less => NameOrder::Before,
                std::cmp::Ordering::Equal => NameOrder::Same,
                std::cmp::Ordering::Greater => NameOrder::After,
            };
            assert_eq!(order_of(a, b), expected);
        }
    }
}

#[test]
fn normalize_replaces_dots() {
    assert_eq!(normalize("a.b"), "a_b");
    assert_eq!(normalize("One_Two.dot"), "One_Two_dot");
    assert_eq!(normalize("..."), "___");
    assert_eq!(normalize(""), "");
    assert_eq!(normalize("plain"), "plain");
    assert_eq!(normalize("\u{e4}.\u{20ac}"), "\u{e4}_\u{20ac}");
    assert_eq!(normalize("a/b"), "a/b");
}

#[test]
fn normalize_is_idempotent() {
    let once = normalize("x.y.z");
    assert_eq!(normalize(&once), once);
    assert!(!once.contains('.'));
}

#[test]
fn decimal_digits_are_exact() {
    let cases =
        [(0usize, "0"), (7, "7"), (9, "9"), (10, "10"), (99, "99"), (100, "100"), (12345, "12345")];
    for (n, text) in cases {
        let mut s = String::from("n=");
        push_decimal(&mut s, n);
        assert_eq!(s, format!("n={}", text));
    }
    let mut s = String::new();
    push_decimal(&mut s, usize::MAX);
    assert_eq!(s, format!("{}", usize::MAX));
}

#[test]
fn numbered_names() {
    assert_eq!(with_number("Mesh", 0), "Mesh_0");
    assert_eq!(with_number("Mesh", 1), "Mesh_1");
    assert_eq!(with_number("Mesh", 10), "Mesh_10");
    assert_eq!(with_number("", 3), "_3");
    assert_ne!(with_number("Mesh", 1), with_number("Mesh", 10));
}

#[test]
fn path_codec_reverses() {
    let path = path_of(&["home", "teddy", "bear"]);
    assert_eq!(custom_path_iter(&path), vec!["bear", "teddy", "home"]);
    assert_eq!(custom_path_iter(&NodePath::root()), Vec::<String>::new());
    assert_eq!(custom_path_iter(&path_of(&["only"])), vec!["only"]);
}

#[test]
fn path_push_and_clone() {
    let mut path = NodePath::root();
    assert_eq!(path.len(), 0);
    path.push("a".to_string());
    path.push("b".to_string());
    assert_eq!(path.len(), 2);
    assert_eq!(path.segments, vec!["a", "b"]);
    let copy = path.clone();
    path.push("c".to_string());
    assert_eq!(copy.segments, vec!["a", "b"]);
    assert_eq!(path.segments, vec!["a", "b", "c"]);
}

#[test]
fn registry_keeps_names_in_order() {
    let mut registry = Registry::new();
    assert_eq!(registry.len(), 0);
    assert!(registry.insert("m".to_string(), path_of(&["m"])).is_none());
    assert!(registry.insert("a".to_string(), path_of(&["a"])).is_none());
    assert!(registry.insert("z".to_string(), path_of(&["z"])).is_none());
    assert!(registry.insert("B".to_string(), path_of(&["B"])).is_none());
    assert_eq!(registry.len(), 4);
    let names: Vec<String> = (0..registry.len()).map(|i| registry.name_at(i).clone()).collect();
    assert_eq!(names, vec!["B", "a", "m", "z"]);
    assert_eq!(registry.path_at(0).segments, vec!["B"]);
    assert_eq!(registry.path_at(3).segments, vec!["z"]);
}

#[test]
fn registry_lookup_and_replace() {
    let mut registry = Registry::new();
    registry.insert("a".to_string(), path_of(&["x", "a"]));
    registry.insert("b".to_string(), path_of(&["b"]));
    assert!(registry.contains_key("a"));
    assert!(!registry.contains_key("c"));
    assert!(!registry.contains_key(""));
    assert_eq!(registry.get("a").unwrap().segments, vec!["x", "a"]);
    assert!(registry.get("c").is_none());
    let before = registry.insert("a".to_string(), path_of(&["y", "a"]));
    assert_eq!(before.unwrap().segments, vec!["x", "a"]);
    assert_eq!(registry.len(), 2);
    assert_eq!(registry.get("a").unwrap().segments, vec!["y", "a"]);
    let copy = registry.clone();
    registry.insert("c".to_string(), path_of(&["c"]));
    assert_eq!(copy.len(), 2);
    assert_eq!(copy.get("a").unwrap().segments, vec!["y", "a"]);
}

#[test]
fn registry_unique_name_takes_first_free_number() {
    let mut registry = Registry::new();
    assert_eq!(registry.unique_name("Mesh".to_string()), "Mesh");
    registry.insert("Mesh".to_string(), NodePath::root());
    assert_eq!(registry.unique_name("Mesh".to_string()), "Mesh_0");
    registry.insert("Mesh_0".to_string(), NodePath::root());
    registry.insert("Mesh_1".to_string(), NodePath::root());
    registry.insert("Mesh_3".to_string(), NodePath::root());
    assert_eq!(registry.unique_name("Mesh".to_string()), "Mesh_2");
    assert_eq!(registry.unique_name("Light".to_string()), "Light");
    assert_eq!(registry.unique_name("Mesh_0".to_string()), "Mesh_0_0");
}

#[test]
fn registry_unique_name_past_ten() {
    let mut registry = Registry::new();
    registry.insert("n".to_string(), NodePath::root());
    for i in 0..11 {
        registry.insert(format!("n_{}", i), NodePath::root());
    }
    assert_eq!(registry.unique_name("n".to_string()), "n_11");
    assert_eq!(registry.len(), 12);
}
