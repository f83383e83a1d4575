//! The sidebar: what each file and directory offers to do.
use crate::links::same_text;
use crate::paths::text_of;
use crate::reorder::{can_move, lemma_moving_back, moved};
use crate::titles::{dir_display_name, dir_title};
use crate::tree::{lemma_children, trees, FileNode, Tree};
use vstd::prelude::*;

verus! {

/// What the sidebar asks for.
pub enum SidebarAction {
    /// Show the file at a path.
    LoadFile(String),
    /// Move a child of the directory `parent` to another place.
    Reorder { parent: String, from: usize, to: usize },
}

/// What the sidebar asks for, as texts.
pub enum ActionView {
    LoadFile(Seq<char>),
    Reorder { parent: Seq<char>, from: int, to: int },
}

impl View for SidebarAction {
    type V = ActionView;

    open spec fn view(&self) -> ActionView {
        match self {
            SidebarAction::LoadFile(path) => ActionView::LoadFile(path@),
            SidebarAction::Reorder { parent, from, to } => ActionView::Reorder {
                parent: parent@,
                from: *from as int,
                to: *to as int,
            },
        }
    }
}

/// The view of an action that may be missing.
pub open spec fn action_of(action: Option<SidebarAction>) -> Option<ActionView> {
    match action {
        Some(a) => Some(a@),
        None => None,
    }
}

/// A row of the sidebar: its label, whether it is the selected file, and what its buttons and a
/// click on it ask for.
pub struct SidebarRow {
    pub label: String,
    pub selected: bool,
    pub up: Option<SidebarAction>,
    pub down: Option<SidebarAction>,
    pub click: Option<SidebarAction>,
}

/// A row of the sidebar, as texts.
pub struct RowView {
    pub label: Seq<char>,
    pub selected: bool,
    pub up: Option<ActionView>,
    pub down: Option<ActionView>,
    pub click: Option<ActionView>,
}

impl View for SidebarRow {
    type V = RowView;

    open spec fn view(&self) -> RowView {
        RowView {
            label: self.label@,
            selected: self.selected,
            up: action_of(self.up),
            down: action_of(self.down),
            click: action_of(self.click),
        }
    }
}

/// The row of the sibling `i` among `ts`, the children of the directory `parent`. It can be moved
/// up unless it is the first one, and down unless it is the last one. A file can be shown, and is
/// marked where it is `selected`; a directory has its name as a title.
pub open spec fn row(
    ts: Seq<Tree>,
    i: int,
    parent: Seq<char>,
    selected: Option<Seq<char>>,
) -> RowView {
    RowView {
        label: match ts[i] {
            Tree::File { name, .. } => name,
            Tree::Dir { name, .. } => dir_title(name),
        },
        selected: match ts[i] {
            Tree::File { path, .. } => selected == Some(path),
            Tree::Dir { .. } => false,
        },
        up: if i > 0 {
            Some(ActionView::Reorder { parent, from: i, to: i - 1 })
        } else {
            None
        },
        down: if i + 1 < ts.len() {
            Some(ActionView::Reorder { parent, from: i, to: i + 1 })
        } else {
            None
        },
        click: match ts[i] {
            Tree::File { path, .. } => Some(ActionView::LoadFile(path)),
            Tree::Dir { .. } => None,
        },
    }
}

/// The row of the sibling `i` among `nodes`, the children of the directory `parent`, where
/// `selected` is the path of the file that is shown.
pub fn sidebar_row(
    nodes: &Vec<FileNode>,
    i: usize,
    parent: &str,
    selected: &Option<String>,
) -> (out: SidebarRow)
    requires
        i < nodes@.len(),
    ensures
        out@ == row(trees(nodes@), i as int, parent@, text_of(*selected)),
{
    let node = &nodes[i];
    proof {
        lemma_children(*node);
        assert(trees(nodes@)[i as int] == node.tree());
    }
    let up = if i > 0 {
        Some(SidebarAction::Reorder { parent: parent.to_string(), from: i, to: i - 1 })
    } else {
        None
    };
    let down = if i < nodes.len() - 1 {
        Some(SidebarAction::Reorder { parent: parent.to_string(), from: i, to: i + 1 })
    } else {
        None
    };
    if node.is_dir() {
        SidebarRow {
            label: dir_display_name(node.name.as_str()),
            selected: false,
            up,
            down,
            click: None,
        }
    } else {
        let shown = match selected {
            Some(path) => same_text(path.as_str(), node.path.as_str()),
            None => false,
        };
        SidebarRow {
            label: node.name.clone(),
            selected: shown,
            up,
            down,
            click: Some(SidebarAction::LoadFile(node.path.clone())),
        }
    }
}

/// What is done, where rows above asked for `before`, a row asks for `own`, and the rows inside it
/// for `inner`: the row comes before those above it, and those inside it come last.
pub open spec fn chosen<T>(before: Option<T>, own: Option<T>, inner: Option<T>) -> Option<T> {
    if own is Some {
        own
    } else if before is Some {
        before
    } else {
        inner
    }
}

/// What is done, where rows above asked for `before`, a row asks for `own`, and the rows inside it
/// for `inner`.
pub fn choose_action(
    before: Option<SidebarAction>,
    own: Option<SidebarAction>,
    inner: Option<SidebarAction>,
) -> (out: Option<SidebarAction>)
    ensures
        out == chosen(before, own, inner),
{
    if own.is_some() {
        own
    } else if before.is_some() {
        before
    } else {
        inner
    }
}

/// Every move that a row offers can be made, within its directory.
pub proof fn lemma_offered_moves_can_be_made(
    ts: Seq<Tree>,
    i: int,
    parent: Seq<char>,
    selected: Option<Seq<char>>,
)
    requires
        0 <= i < ts.len(),
    ensures
        row(ts, i, parent, selected).up matches Some(a) ==> a is Reorder && a->parent == parent
            && can_move(ts.len() as int, a->from, a->to) && 0 <= a->to,
        row(ts, i, parent, selected).down matches Some(a) ==> a is Reorder && a->parent == parent
            && can_move(ts.len() as int, a->from, a->to) && 0 <= a->to,
{
}

/// A move up is undone by the move down that the moved row offers then.
pub proof fn lemma_down_undoes_up(
    ts: Seq<Tree>,
    i: int,
    parent: Seq<char>,
    selected: Option<Seq<char>>,
)
    requires
        0 < i < ts.len(),
    ensures
        row(ts, i, parent, selected).up == Some(
            ActionView::Reorder { parent, from: i, to: i - 1 },
        ),
        row(moved(ts, i, i - 1), i - 1, parent, selected).down == Some(
            ActionView::Reorder { parent, from: i - 1, to: i },
        ),
        moved(moved(ts, i, i - 1), i - 1, i) == ts,
{
    lemma_moving_back(ts, i, i - 1);
}

} // verus!
