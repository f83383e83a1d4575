use mdreader::anchors::{anchor_of, build_path_map};
use mdreader::entries::{collect_doc_entries, levels_fit, DocEntry};
use mdreader::reorder::reorder;
use mdreader::tree::{build_tree, FileNode, NodeKind, OrderConfig};

fn file(dir: &str, name: &str) -> FileNode {
    FileNode { name: name.to_string(), path: format!("{dir}/{name}"), kind: NodeKind::File }
}

fn dir(parent: &str, name: &str, children: Vec<FileNode>) -> FileNode {
    FileNode {
        name: name.to_string(),
        path: format!("{parent}/{name}"),
        kind: NodeKind::Dir(children),
    }
}

fn listing() -> Vec<FileNode> {
    vec![
        file("/r", "zeta.md"),
        file("/r", "Alpha.MD"),
        file("/r", "image.png"),
        dir("/r", "part-1", vec![file("/r/part-1", "b.md"), file("/r/part-1", "A.md")]),
        dir("/r", "empty", vec![file("/r/empty", "x.txt"), dir("/r/empty", "deep", vec![])]),
        dir("/r", "Appendices", vec![dir(
            "/r/Appendices",
            "inner",
            vec![file("/r/Appendices/inner", "i.md")],
        )]),
    ]
}

fn outline(nodes: &[FileNode]) -> Vec<String> {
    let mut out = Vec::new();
    for n in nodes {
        out.push(n.name.clone());
        if let NodeKind::Dir(children) = &n.kind {
            out.push("(".to_string());
            out.extend(outline(children));
            out.push(")".to_string());
        }
    }
    out
}

#[test]
fn the_tree_holds_markdown_files_in_order() {
    let tree = build_tree("/r", &listing(), &OrderConfig::new());
    assert_eq!(
        outline(&tree).join(" "),
        "Appendices ( inner ( i.md ) ) part-1 ( A.md b.md ) Alpha.MD zeta.md"
    );
    assert!(tree[0].is_dir());
    assert!(!tree[3].is_dir());
    assert_eq!(tree[1].path, "/r/part-1");
}

#[test]
fn names_are_compared_in_lower_case() {
    let nodes = vec![file("/r", "É.md"), file("/r", "z.md"), file("/r", "é.md"), file("/r", "B.md")];
    let tree = build_tree("/r", &nodes, &OrderConfig::new());
    assert_eq!(outline(&tree).join(" "), "B.md z.md É.md é.md");
}

#[test]
fn an_order_put_by_hand_is_applied() {
    let mut order = OrderConfig::new();
    order.insert(
        "/r".to_string(),
        vec!["zeta.md".to_string(), "gone.md".to_string(), "part-1".to_string()],
    );
    order.insert("/r/part-1".to_string(), vec!["b.md".to_string()]);
    let tree = build_tree("/r", &listing(), &order);
    assert_eq!(
        outline(&tree).join(" "),
        "zeta.md part-1 ( b.md A.md ) Appendices ( inner ( i.md ) ) Alpha.MD"
    );
}

#[test]
fn a_moved_node_stays_where_it_was_put() {
    let mut order = OrderConfig::new();
    let mut tree = build_tree("/r", &listing(), &order);
    assert!(reorder(&mut tree, &mut order, "/r", "/r/part-1", 1, 0));
    assert!(reorder(&mut tree, &mut order, "/r", "/r", 0, 3));
    let left = outline(&tree).join(" ");
    assert_eq!(left, "part-1 ( b.md A.md ) Alpha.MD zeta.md Appendices ( inner ( i.md ) )");
    let again = build_tree("/r", &listing(), &order);
    assert_eq!(outline(&again).join(" "), left);
}

#[test]
fn a_move_is_undone_by_moving_back() {
    let mut order = OrderConfig::new();
    let mut tree = build_tree("/r", &listing(), &order);
    let before = outline(&tree).join(" ");
    assert!(reorder(&mut tree, &mut order, "/r", "/r", 1, 3));
    assert_ne!(outline(&tree).join(" "), before);
    assert!(reorder(&mut tree, &mut order, "/r", "/r", 3, 1));
    assert_eq!(outline(&tree).join(" "), before);
    assert_eq!(order.entries().len(), 1);
    assert_eq!(order.entries()[0].0, "/r");
    assert_eq!(order.entries()[0].1, vec!["Appendices", "part-1", "Alpha.MD", "zeta.md"]);
}

#[test]
fn what_cannot_be_moved_stays() {
    let mut order = OrderConfig::new();
    let mut tree = build_tree("/r", &listing(), &order);
    let before = outline(&tree).join(" ");
    assert!(!reorder(&mut tree, &mut order, "/r", "/r", 0, 4));
    assert!(!reorder(&mut tree, &mut order, "/r", "/r", 2, 2));
    assert!(!reorder(&mut tree, &mut order, "/r", "/r/none", 0, 1));
    assert!(!reorder(&mut tree, &mut order, "/r", "/r/zeta.md", 0, 1));
    assert_eq!(outline(&tree).join(" "), before);
    assert!(order.entries().is_empty());
}

#[test]
fn siblings_can_be_put_in_order() {
    let mut order = OrderConfig::new();
    let mut nodes = vec![file("/r", "a.md"), file("/r", "b.md"), file("/r", "c.md")];
    order.set_order("/r", &vec![file("/r", "c.md"), file("/r", "a.md")]);
    order.apply("/other", &mut nodes);
    assert_eq!(outline(&nodes).join(" "), "a.md b.md c.md");
    order.apply("/r", &mut nodes);
    assert_eq!(outline(&nodes).join(" "), "c.md a.md b.md");
}

#[test]
fn entries_follow_the_tree() {
    let tree = build_tree("/r", &listing(), &OrderConfig::new());
    assert!(levels_fit(&listing(), 0));
    assert!(levels_fit(&tree, 0));
    assert!(levels_fit(&tree, usize::MAX - 2));
    assert!(!levels_fit(&tree, usize::MAX - 1));
    let entries = collect_doc_entries(&tree, 0);
    let shown: Vec<String> = entries
        .iter()
        .map(|e| match e {
            DocEntry::Section { name, dir_path, depth } => format!("{depth} {name} {dir_path}"),
            DocEntry::Document { path, depth } => format!("{depth} {path}"),
        })
        .collect();
    assert_eq!(
        shown,
        vec![
            "0 Appendices /r/Appendices",
            "1 inner /r/Appendices/inner",
            "2 /r/Appendices/inner/i.md",
            "0 part-1 /r/part-1",
            "1 /r/part-1/A.md",
            "1 /r/part-1/b.md",
            "0 /r/Alpha.MD",
            "0 /r/zeta.md",
        ]
    );
}

#[test]
fn documents_have_places() {
    let entries = vec![
        DocEntry::Document { path: "a.md".to_string(), depth: 0 },
        DocEntry::Section { name: "s".to_string(), dir_path: "s".to_string(), depth: 0 },
        DocEntry::Document { path: "b.md".to_string(), depth: 1 },
        DocEntry::Document { path: "c.md".to_string(), depth: 1 },
    ];
    let files = vec![Some("/r/a.md".to_string()), None, Some("/r/a.md".to_string())];
    let map = build_path_map(&entries, &files);
    assert_eq!(map.get("/r/a.md"), Some("doc-2"));
    assert_eq!(map.get("b.md"), Some("doc-1"));
    assert_eq!(map.get("a.md"), None);
    assert_eq!(map.get("c.md"), None);
}

#[test]
fn places_are_numbered() {
    assert_eq!(anchor_of(0), "doc-0");
    assert_eq!(anchor_of(10), "doc-10");
    assert_eq!(anchor_of(987654), "doc-987654");
    assert_ne!(anchor_of(1), anchor_of(11));
}
