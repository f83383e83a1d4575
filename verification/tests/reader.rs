use mdreader::reader::Reader;
use mdreader::sidebar::{choose_action, sidebar_row, SidebarAction};
use mdreader::tree::{FileNode, NodeKind, OrderConfig};
use mdreader::updates::UpdateState;

fn file(dir: &str, name: &str) -> FileNode {
    FileNode { name: name.to_string(), path: format!("{dir}/{name}"), kind: NodeKind::File }
}

fn names(nodes: &[FileNode]) -> Vec<&str> {
    nodes.iter().map(|n| n.name.as_str()).collect()
}

fn reader() -> Reader {
    let listing = vec![
        file("/docs", "b.md"),
        file("/docs", "a.md"),
        FileNode {
            name: "part-1-start".to_string(),
            path: "/docs/part-1-start".to_string(),
            kind: NodeKind::Dir(vec![file("/docs/part-1-start", "c.md")]),
        },
    ];
    Reader::open("/docs".to_string(), true, &listing, OrderConfig::new())
}

fn shown(action: &Option<SidebarAction>) -> String {
    match action {
        Some(SidebarAction::LoadFile(path)) => format!("load {path}"),
        Some(SidebarAction::Reorder { parent, from, to }) => format!("{parent} {from} {to}"),
        None => "none".to_string(),
    }
}

#[test]
fn the_reader_opens_on_a_tree() {
    let r = reader();
    assert_eq!(names(&r.tree), vec!["part-1-start", "a.md", "b.md"]);
    assert_eq!(r.root_input, "/docs");
    assert!(r.dark);
    assert!(r.can_export());
    assert_eq!(r.selected, None);
    assert_eq!(r.content, "");
    assert_eq!(r.root_display_name(), "docs");
    let empty = Reader::open("/".to_string(), false, &Vec::new(), OrderConfig::new());
    assert!(!empty.can_export());
    assert_eq!(empty.root_display_name(), "");
}

#[test]
fn files_are_shown_with_their_images() {
    let mut r = reader();
    r.load_file("/docs/a.md".to_string(), &Ok("![x](i.png \"Cap\")\n".to_string()));
    assert_eq!(r.content, "![x](file:///docs/i.png)\n\n*Cap*\n");
    assert_eq!(r.selected, Some("/docs/a.md".to_string()));
    r.load_file("/docs/b.md".to_string(), &Err("denied".to_string()));
    assert_eq!(r.content, "> **Error reading file:** denied");
    assert_eq!(r.selected, Some("/docs/b.md".to_string()));
}

#[test]
fn rows_offer_what_can_be_done() {
    let r = reader();
    let selected = Some("/docs/a.md".to_string());
    let first = sidebar_row(&r.tree, 0, "/docs", &selected);
    assert_eq!(first.label, "Part 1 — Start");
    assert!(!first.selected);
    assert_eq!(shown(&first.up), "none");
    assert_eq!(shown(&first.down), "/docs 0 1");
    assert_eq!(shown(&first.click), "none");
    let second = sidebar_row(&r.tree, 1, "/docs", &selected);
    assert_eq!(second.label, "a.md");
    assert!(second.selected);
    assert_eq!(shown(&second.up), "/docs 1 0");
    assert_eq!(shown(&second.down), "/docs 1 2");
    assert_eq!(shown(&second.click), "load /docs/a.md");
    let third = sidebar_row(&r.tree, 2, "/docs", &selected);
    assert!(!third.selected);
    assert_eq!(shown(&third.down), "none");
}

#[test]
fn a_row_comes_before_those_above_and_inside() {
    let load = |p: &str| Some(SidebarAction::LoadFile(p.to_string()));
    assert_eq!(shown(&choose_action(load("a"), load("b"), load("c"))), "load b");
    assert_eq!(shown(&choose_action(load("a"), None, load("c"))), "load a");
    assert_eq!(shown(&choose_action(None, None, load("c"))), "load c");
    assert_eq!(shown(&choose_action(None, None, None)), "none");
}

#[test]
fn offered_moves_can_be_made_and_undone() {
    let mut r = reader();
    let up = sidebar_row(&r.tree, 2, "/docs", &None).up;
    if let Some(SidebarAction::Reorder { parent, from, to }) = up {
        assert!(r.reorder(&parent, from, to));
    }
    assert_eq!(names(&r.tree), vec!["part-1-start", "b.md", "a.md"]);
    let down = sidebar_row(&r.tree, 1, "/docs", &None).down;
    if let Some(SidebarAction::Reorder { parent, from, to }) = down {
        assert!(r.reorder(&parent, from, to));
    }
    assert_eq!(names(&r.tree), vec!["part-1-start", "a.md", "b.md"]);
    assert!(!r.reorder("/docs/none", 0, 1));
}

#[test]
fn the_title_is_set_once() {
    let mut r = reader();
    assert_eq!(r.retitle("docs"), Some("MD Reader — docs".to_string()));
    assert_eq!(r.retitle("docs"), None);
    assert_eq!(r.retitle("other"), Some("MD Reader — other".to_string()));
}

#[test]
fn settings_are_applied_or_left() {
    let mut r = reader();
    r.load_file("/docs/a.md".to_string(), &Ok("x".to_string()));
    r.root_input = "/typed".to_string();
    r.toggle_settings();
    assert!(r.settings_open);
    assert_eq!(r.root_input, "/docs");
    r.root_input = "/typed".to_string();
    r.cancel_settings();
    assert!(!r.settings_open);
    assert_eq!(r.root_input, "/docs");
    assert_eq!(r.content, "x");
    r.toggle_settings();
    r.root_input = "/new".to_string();
    r.apply_settings(OrderConfig::new(), &vec![file("/new", "n.md")]);
    assert_eq!(r.root, "/new");
    assert_eq!(names(&r.tree), vec!["n.md"]);
    assert_eq!(r.selected, None);
    assert_eq!(r.content, "");
    assert!(!r.settings_open);
}

#[test]
fn the_tree_can_be_read_again() {
    let mut r = reader();
    let mut order = OrderConfig::new();
    order.insert("/docs".to_string(), vec!["z.md".to_string()]);
    r.refresh_tree(order, &vec![file("/docs", "y.md"), file("/docs", "z.md")]);
    assert_eq!(names(&r.tree), vec!["z.md", "y.md"]);
}

#[test]
fn the_status_bar_tells_of_exports() {
    let mut r = reader();
    assert_eq!(r.status_line(), None);
    r.load_file("/docs/a.md".to_string(), &Ok("x".to_string()));
    assert_eq!(r.status_line(), Some("/docs/a.md".to_string()));
    r.export_done(&Ok("/o.pdf".to_string()));
    assert_eq!(r.status_line(), Some("✔ PDF saved → /o.pdf".to_string()));
    r.export_done(&Err("Export cancelled.".to_string()));
    assert_eq!(r.status_line(), Some("✘ Export cancelled.".to_string()));
    r.dismiss_status();
    assert_eq!(r.status_line(), Some("/docs/a.md".to_string()));
}

#[test]
fn the_theme_can_be_turned() {
    let mut r = reader();
    r.toggle_theme();
    assert!(!r.dark);
    r.toggle_theme();
    assert!(r.dark);
}

#[test]
fn an_order_stays_when_the_tree_is_read_again() {
    let listing = vec![file("/docs", "a.md"), file("/docs", "b.md"), file("/docs", "c.md")];
    let mut r = Reader::open("/docs".to_string(), true, &listing, OrderConfig::new());
    assert!(r.reorder("/docs", 2, 0));
    let mut kept = OrderConfig::new();
    for (parent, children) in r.order.entries() {
        kept.insert(parent.clone(), children.clone());
    }
    r.refresh_tree(kept, &listing);
    assert_eq!(names(&r.tree), vec!["c.md", "a.md", "b.md"]);
}

#[test]
fn the_search_for_updates_is_polled() {
    let state: UpdateState<String, u32> = UpdateState::Checking;
    assert_eq!(state.repaint_after(), Some(1));
    let state = state.poll(None);
    assert!(matches!(state, UpdateState::Checking));
    let state = state.poll(Some(Some("2.0".to_string())));
    assert!(matches!(&state, UpdateState::Available(v) if v == "2.0"));
    assert_eq!(state.repaint_after(), None);
    let state: UpdateState<String, u32> = UpdateState::Downloading(7);
    assert_eq!(state.repaint_after(), Some(1));
    let state = state.poll(Some(None));
    assert!(matches!(state, UpdateState::Idle));
    assert_eq!(state.repaint_after(), None);
}
