use honey_explore::data::Node;
use honey_explore::paths::{get_links, split_dotted, str_lt};

#[test]
fn test_new() {
    let node = Node::new("root".to_string(), "".to_owned(), Some(1));

    assert_eq!(node.name, "root");
    assert_eq!(node.value, Some(1));
    assert!(node.children.is_empty());
}

#[test]
fn test_get_node() {
    let mut root = Node::new("root".to_string(), "".to_owned(), None);

    root.add_node("aws.s3.bucket", Some("abc".to_string()));
    root.add_node("aws.s3.key", Some("xyz".to_string()));
    root.add_node("aws.region", Some("us-east-1".to_string()));

    assert_eq!(
        root.get_node("aws.s3.bucket").unwrap().value,
        Some("abc".to_string())
    );
    assert_eq!(
        root.get_node("aws.s3.key").unwrap().value,
        Some("xyz".to_string())
    );
    assert_eq!(
        root.get_node("aws.region").unwrap().value,
        Some("us-east-1".to_string())
    );
    assert!(root.get_node("aws.s3.nonexistent").is_none());
}

#[test]
fn test_children_of_aws_s3() {
    let mut root = Node::new("root".to_string(), "".to_owned(), None);

    root.add_node("aws.s3.bucket", Some("abc".to_string()));
    root.add_node("aws.s3.key", Some("xyz".to_string()));
    root.add_node("aws.region", Some("us-east-1".to_string()));

    let aws_s3 = root.get_node("aws.s3").unwrap();
    assert!(aws_s3.get_node("bucket").is_some());
    assert!(aws_s3.get_node("key").is_some());
    assert!(aws_s3.get_node("nonexistent").is_none());
}

#[test]
fn distinct_names_hold_their_values() {
    let mut root = Node::new("root".to_string(), "".to_owned(), None);
    root.add_node("a", Some(1));
    root.add_node("a.b", Some(2));
    assert_eq!(root.get_node("a").unwrap().value, Some(1));
    assert_eq!(root.get_node("a.b").unwrap().value, Some(2));
}

#[test]
fn intermediate_nodes_have_no_value_and_children() {
    let mut root = Node::new("root".to_string(), "".to_owned(), None);
    root.add_node("a.b.c", Some(7));
    let a = root.get_node("a").unwrap();
    assert_eq!(a.value, None);
    assert!(!a.children.is_empty());
    let ab = root.get_node("a.b").unwrap();
    assert_eq!(ab.value, None);
    assert!(!ab.children.is_empty());
    assert_eq!(root.get_node("a.b.c").unwrap().value, Some(7));
}

#[test]
fn children_are_sorted_regardless_of_insertion_order() {
    let mut root = Node::new("root".to_string(), "".to_owned(), None);
    root.add_node("zeta", Some(1));
    root.add_node("alpha", Some(2));
    root.add_node("mid", Some(3));
    root.add_node("beta", Some(4));
    let names: Vec<&str> = root.children.iter().map(|c| c.name.as_str()).collect();
    assert_eq!(names, vec!["alpha", "beta", "mid", "zeta"]);
}

#[test]
fn reinsert_overwrites_without_touching_siblings() {
    let mut root = Node::new("root".to_string(), "".to_owned(), None);
    root.add_node("a.b", Some(1));
    root.add_node("a.c", Some(2));
    root.add_node("a.b", Some(9));
    assert_eq!(root.get_node("a.b").unwrap().value, Some(9));
    assert_eq!(root.get_node("a.c").unwrap().value, Some(2));
    assert_eq!(root.get_node("a").unwrap().children.len(), 2);
}

#[test]
fn unknown_and_too_deep_paths_are_not_found() {
    let mut root = Node::new("root".to_string(), "".to_owned(), None);
    root.add_node("a.b", Some(1));
    assert!(root.get_node("nope").is_none());
    assert!(root.get_node("a.b.c").is_none());
    assert!(root.get_node("a.nope").is_none());
}

#[test]
fn empty_name_addresses_the_root() {
    let mut root = Node::new("root".to_string(), "".to_owned(), None);
    root.add_node("a", Some(1));
    let found = root.get_node("").unwrap();
    assert_eq!(found.name, "root");
    assert_eq!(found.value, None);
}

#[test]
fn node_paths_follow_their_dotted_names() {
    let mut root = Node::new("root".to_string(), "".to_owned(), None);
    root.add_node("a.b.c", Some(1));
    assert_eq!(root.get_node("a").unwrap().path, "a");
    assert_eq!(root.get_node("a.b").unwrap().path, "a.b");
    assert_eq!(root.get_node("a.b.c").unwrap().path, "a.b.c");
}

#[test]
fn test_has_grandchild() {
    let mut root = Node::new("root".to_string(), "".to_owned(), None);
    root.add_node("a", Some(1));
    assert!(!root.has_grandchild());
    root.add_node("a.b", Some(2));
    assert!(root.has_grandchild());
}

#[test]
fn test_make_path() {
    assert_eq!(Node::<i32>::make_path("", "a"), "a");
    assert_eq!(Node::<i32>::make_path("a", "b"), "a.b");
    assert_eq!(Node::<i32>::make_path("a.b", "c"), "a.b.c");
}

#[test]
fn empty_name_updates_the_root_itself() {
    let mut root = Node::new("root".to_string(), "".to_owned(), None);
    root.add_node("a", Some(1));
    root.add_node("", Some(99));
    assert_eq!(root.value, Some(99));
    assert_eq!(root.get_node("").unwrap().value, Some(99));
    assert_eq!(root.get_node("a").unwrap().value, Some(1));
}

#[test]
fn test_get_links() {
    let names = vec!["a".to_string(), "b".to_string(), "c".to_string()];
    let links = get_links(&names);
    assert_eq!(links, vec!["a", "a.b", "a.b.c"]);
}

#[test]
fn test_split_dotted() {
    assert_eq!(split_dotted("a.b.c"), vec!["a", "b", "c"]);
    assert_eq!(split_dotted("abc"), vec!["abc"]);
    assert_eq!(split_dotted("a..b"), vec!["a", "", "b"]);
    assert!(split_dotted("").is_empty());
}

#[test]
fn test_str_lt() {
    assert!(str_lt("a", "b"));
    assert!(str_lt("a", "ab"));
    assert!(!str_lt("b", "a"));
    assert!(!str_lt("a", "a"));
    assert!(str_lt("", "a"));
}
