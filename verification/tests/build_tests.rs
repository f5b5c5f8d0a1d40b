use hosttree::builder::build;
use hosttree::model::{Group, Kind, ValidationError};

fn group(path: &str, hosts: &[&str], subgroups: Vec<Group>) -> Group {
    Group {
        path: path.to_string(),
        hosts: hosts.iter().map(|h| h.to_string()).collect(),
        subgroups,
    }
}

#[test]
fn merge_example() {
    let forest = vec![group("a", &["h1"], vec![]), group("a", &["h2"], vec![])];
    let built = build(&forest).unwrap();
    assert_eq!(built.len(), 1);
    assert_eq!(built[0].label, "a");
    assert!(matches!(built[0].kind, Kind::Folder));
    let kids = &built[0].children;
    assert_eq!(kids.len(), 2);
    assert_eq!(kids[0].label, "h1");
    assert!(matches!(kids[0].kind, Kind::Host));
    assert_eq!(kids[1].label, "h2");
    assert!(matches!(kids[1].kind, Kind::Host));
}

#[test]
fn sentinel_example() {
    let forest = vec![group("/", &["x"], vec![group("g", &["y"], vec![])])];
    let built = build(&forest).unwrap();
    // No folder is created for "/": its children are spliced into the top
    // level, subgroup results first, then the sentinel group's own hosts.
    assert_eq!(built.len(), 2);
    assert!(built.iter().all(|n| n.label != "/"));
    assert_eq!(built[0].label, "g");
    assert!(matches!(built[0].kind, Kind::Folder));
    assert_eq!(built[0].children.len(), 1);
    assert_eq!(built[0].children[0].label, "y");
    assert!(matches!(built[0].children[0].kind, Kind::Host));
    assert_eq!(built[1].label, "x");
    assert!(matches!(built[1].kind, Kind::Host));
}

#[test]
fn empty_path_is_rejected() {
    let forest = vec![group("a", &[], vec![group("", &["h"], vec![])])];
    assert!(matches!(build(&forest), Err(ValidationError::EmptyPath)));
}

#[test]
fn empty_group_is_a_valid_empty_folder() {
    let forest = vec![group("a", &[], vec![])];
    let built = build(&forest).unwrap();
    assert_eq!(built.len(), 1);
    assert_eq!(built[0].label, "a");
    assert!(matches!(built[0].kind, Kind::Folder));
    assert!(built[0].children.is_empty());
}

#[test]
fn nested_siblings_merge_deeply() {
    let forest = vec![
        group("a", &[], vec![group("b", &["h1"], vec![])]),
        group("a", &[], vec![group("b", &["h2"], vec![])]),
    ];
    let built = build(&forest).unwrap();
    assert_eq!(built.len(), 1);
    assert_eq!(built[0].label, "a");
    assert_eq!(built[0].children.len(), 1);
    assert_eq!(built[0].children[0].label, "b");
    let hosts = &built[0].children[0].children;
    assert_eq!(hosts.len(), 2);
    assert_eq!(hosts[0].label, "h1");
    assert_eq!(hosts[1].label, "h2");
}

#[test]
fn hoisted_folder_merges_with_sibling() {
    let forest = vec![
        group("/", &[], vec![group("a", &["h1"], vec![])]),
        group("a", &["h2"], vec![]),
    ];
    let built = build(&forest).unwrap();
    assert_eq!(built.len(), 1);
    assert_eq!(built[0].label, "a");
    let kids = &built[0].children;
    assert_eq!(kids.len(), 2);
    assert_eq!(kids[0].label, "h1");
    assert_eq!(kids[1].label, "h2");
}

#[test]
fn sentinel_with_hosts_and_subgroups() {
    // A sentinel group's own hosts attach as leaves at the parent's level
    // while its subgroup children are hoisted too.
    let forest = vec![group(
        "top",
        &["last"],
        vec![group("/", &["mid"], vec![group("inner", &[], vec![])])],
    )];
    let built = build(&forest).unwrap();
    assert_eq!(built.len(), 1);
    assert_eq!(built[0].label, "top");
    let kids = &built[0].children;
    assert_eq!(kids.len(), 3);
    assert_eq!(kids[0].label, "inner");
    assert!(matches!(kids[0].kind, Kind::Folder));
    assert_eq!(kids[1].label, "mid");
    assert!(matches!(kids[1].kind, Kind::Host));
    assert_eq!(kids[2].label, "last");
    assert!(matches!(kids[2].kind, Kind::Host));
}

#[test]
fn ids_are_unique_within_one_build() {
    let forest = vec![
        group("/", &["r1", "r2"], vec![group("a", &["h1"], vec![])]),
        group("a", &["h2"], vec![group("b", &[], vec![])]),
        group("c", &[], vec![]),
    ];
    let built = build(&forest).unwrap();
    let mut ids = Vec::new();
    fn collect(nodes: &[hosttree::model::TreeNode], ids: &mut Vec<u64>) {
        for n in nodes {
            ids.push(n.id);
            collect(&n.children, ids);
        }
    }
    collect(&built, &mut ids);
    for i in 0..ids.len() {
        for j in 0..i {
            assert_ne!(ids[i], ids[j]);
        }
    }
}

#[test]
fn build_is_deterministic() {
    let make = || vec![group("a", &["h1"], vec![group("b", &["h2"], vec![])])];
    let one = build(&make()).unwrap();
    let two = build(&make()).unwrap();
    fn same(a: &[hosttree::model::TreeNode], b: &[hosttree::model::TreeNode]) -> bool {
        a.len() == b.len()
            && a.iter().zip(b.iter()).all(|(x, y)| {
                x.id == y.id && x.label == y.label && same(&x.children, &y.children)
            })
    }
    assert!(same(&one, &two));
}
