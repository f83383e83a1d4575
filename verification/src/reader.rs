//! The reader: what its window shows, and how that changes.
use crate::documents::{is_shown_text, viewer_text};
use crate::links::same_text;
use crate::order_laws::{dir_count, lemma_order_stays};
use crate::paths::{file_name, is_file_name_of, is_parent_of, or_empty, parent_dir, text_of};
use crate::reorder::{can_move, moved, siblings, with_siblings};
use crate::text::appended;
use crate::tree::{
    all_arranged, build_tree, in_order, names, trees, FileNode, OrderConfig, Tree,
};
use vstd::prelude::*;

verus! {

/// What the window of the reader shows: the tree of the directory `root` in the sidebar, the file
/// that is selected in it with its content, the settings, and a message.
pub struct Reader {
    pub root: String,
    pub dark: bool,
    pub order: OrderConfig,
    pub tree: Vec<FileNode>,
    pub selected: Option<String>,
    pub content: String,
    pub settings_open: bool,
    pub root_input: String,
    pub status: Option<String>,
    pub title: String,
}

/// What the window of the reader shows, as texts.
#[verifier::ext_equal]
pub struct ReaderView {
    pub root: Seq<char>,
    pub dark: bool,
    pub orders: Map<Seq<char>, Seq<Seq<char>>>,
    pub tree: Seq<Tree>,
    pub selected: Option<Seq<char>>,
    pub content: Seq<char>,
    pub settings_open: bool,
    pub root_input: Seq<char>,
    pub status: Option<Seq<char>>,
    pub title: Seq<char>,
}

impl View for Reader {
    type V = ReaderView;

    open spec fn view(&self) -> ReaderView {
        ReaderView {
            root: self.root@,
            dark: self.dark,
            orders: self.order@,
            tree: trees(self.tree@),
            selected: text_of(self.selected),
            content: self.content@,
            settings_open: self.settings_open,
            root_input: self.root_input@,
            status: text_of(self.status),
            title: self.title@,
        }
    }
}

/// The tree of markdown files in the directory `root`, which holds `listing`.
pub open spec fn shown_tree(
    root: Seq<char>,
    listing: Seq<Tree>,
    orders: Map<Seq<char>, Seq<Seq<char>>>,
) -> Seq<Tree> {
    in_order(all_arranged(listing, orders), orders, root)
}

/// The reader when it opens on the directory `root`, which holds `listing`.
pub open spec fn opened(
    root: Seq<char>,
    dark: bool,
    listing: Seq<Tree>,
    orders: Map<Seq<char>, Seq<Seq<char>>>,
) -> ReaderView {
    ReaderView {
        root,
        dark,
        orders,
        tree: shown_tree(root, listing, orders),
        selected: None,
        content: seq![],
        settings_open: false,
        root_input: root,
        status: None,
        title: seq![],
    }
}

/// `r` with the settings opened or closed, and the directory in them that the reader is open on.
pub open spec fn settings_toggled(r: ReaderView) -> ReaderView {
    ReaderView { settings_open: !r.settings_open, root_input: r.root, ..r }
}

/// `r` with the settings closed and nothing else changed.
pub open spec fn settings_cancelled(r: ReaderView) -> ReaderView {
    ReaderView { root_input: r.root, settings_open: false, ..r }
}

/// `r` with the settings applied: the reader is open on the directory that they name, which holds
/// `listing`, and no file is selected.
pub open spec fn settings_applied(
    r: ReaderView,
    listing: Seq<Tree>,
    orders: Map<Seq<char>, Seq<Seq<char>>>,
) -> ReaderView {
    ReaderView {
        root: r.root_input,
        orders,
        tree: shown_tree(r.root_input, listing, orders),
        selected: None,
        content: seq![],
        settings_open: false,
        ..r
    }
}

/// `r` in the other theme.
pub open spec fn theme_toggled(r: ReaderView) -> ReaderView {
    ReaderView { dark: !r.dark, ..r }
}

/// `r` with the tree built anew from `listing`.
pub open spec fn refreshed(
    r: ReaderView,
    listing: Seq<Tree>,
    orders: Map<Seq<char>, Seq<Seq<char>>>,
) -> ReaderView {
    ReaderView { orders, tree: shown_tree(r.root, listing, orders), ..r }
}

/// Whether there is anything to move from `from` to `to` among the children of `parent`.
pub open spec fn can_reorder(r: ReaderView, parent: Seq<char>, from: int, to: int) -> bool {
    siblings(r.tree, r.root, parent) matches Some(c) && can_move(c.len() as int, from, to)
}

/// `r` with the child at `from` of the directory `parent` moved to the place `to`, and the new
/// order kept.
pub open spec fn reordered(r: ReaderView, parent: Seq<char>, from: int, to: int) -> ReaderView {
    let new = moved(siblings(r.tree, r.root, parent)->0, from, to);
    ReaderView {
        orders: r.orders.insert(parent, names(new)),
        tree: with_siblings(r.tree, r.root, parent, new),
        ..r
    }
}

/// `out` is what is shown of the file at `path` with the text `content`.
pub open spec fn is_view_of(content: Seq<char>, path: Seq<char>, out: Seq<char>) -> bool {
    exists|parent: Option<Seq<char>>|
        is_parent_of(path, parent) && is_shown_text(
            content,
            #[trigger] or_empty(parent),
            false,
            out,
        )
}

impl Reader {
    /// The reader when it opens on the directory `root`, which holds `listing`.
    pub fn open(root: String, dark: bool, listing: &Vec<FileNode>, order: OrderConfig) -> (reader:
        Self)
        ensures
            reader@ == opened(root@, dark, trees(listing@), order@),
    {
        let tree = build_tree(root.as_str(), listing, &order);
        let reader = Reader {
            root_input: root.clone(),
            root,
            dark,
            order,
            tree,
            selected: None,
            content: String::new(),
            settings_open: false,
            status: None,
            title: String::new(),
        };
        assert(reader.content@ =~= seq![]);
        assert(reader.title@ =~= seq![]);
        reader
    }

    /// Shows the file at `path`, of which `read` is the text or the error that reading it gave.
    pub fn load_file(&mut self, path: String, read: &Result<String, String>)
        ensures
            final(self)@ == (ReaderView {
                selected: Some(path@),
                content: final(self)@.content,
                ..old(self)@
            }),
            match *read {
                Ok(text) => is_view_of(text@, path@, final(self)@.content),
                Err(error) => final(self)@.content == "> **Error reading file:** "@ + error@,
            },
    {
        match read {
            Ok(text) => {
                let dir = parent_dir(path.as_str());
                let ghost parent = choose|parent: Option<Seq<char>>|
                    is_parent_of(path@, parent) && dir@ == #[trigger] or_empty(parent);
                self.content = viewer_text(text.as_str(), dir.as_str());
                assert(is_shown_text(text@, or_empty(parent), false, self.content@));
            },
            Err(error) => {
                self.content = appended("> **Error reading file:** ", error.as_str());
            },
        }
        self.selected = Some(path);
    }

    /// Builds the tree anew from what the directory holds, in the order that was kept.
    pub fn refresh_tree(&mut self, order: OrderConfig, listing: &Vec<FileNode>)
        ensures
            final(self)@ == refreshed(old(self)@, trees(listing@), order@),
    {
        self.tree = build_tree(self.root.as_str(), listing, &order);
        self.order = order;
    }

    /// Moves the child at `from` of the directory `parent` to the place `to`, and keeps the new
    /// order. Tells whether anything was moved.
    pub fn reorder(&mut self, parent: &str, from: usize, to: usize) -> (changed: bool)
        ensures
            changed == can_reorder(old(self)@, parent@, from as int, to as int),
            final(self)@ == if changed {
                reordered(old(self)@, parent@, from as int, to as int)
            } else {
                old(self)@
            },
    {
        crate::reorder::reorder(
            &mut self.tree,
            &mut self.order,
            self.root.as_str(),
            parent,
            from,
            to,
        )
    }

    /// The name of the directory that the reader is open on.
    pub fn root_display_name(&self) -> (out: String)
        ensures
            exists|name: Option<Seq<char>>|
                is_file_name_of(self@.root, name) && out@ == #[trigger] or_empty(name),
    {
        let name = file_name(self.root.as_str());
        let ghost view = text_of(name);
        let out = match name {
            Some(n) => n,
            None => String::new(),
        };
        assert(out@ =~= or_empty(view));
        out
    }

    /// The title that the window gets for the directory name `name`, if it does not have it yet.
    pub fn retitle(&mut self, name: &str) -> (changed: Option<String>)
        ensures
            final(self)@ == (ReaderView { title: "MD Reader — "@ + name@, ..old(self)@ }),
            text_of(changed) == if old(self)@.title == "MD Reader — "@ + name@ {
                None
            } else {
                Some("MD Reader — "@ + name@)
            },
    {
        let title = appended("MD Reader — ", name);
        if same_text(title.as_str(), self.title.as_str()) {
            None
        } else {
            self.title = title.clone();
            Some(title)
        }
    }

    /// Opens or closes the settings, with the directory that the reader is open on.
    pub fn toggle_settings(&mut self)
        ensures
            final(self)@ == settings_toggled(old(self)@),
    {
        self.settings_open = !self.settings_open;
        self.root_input = self.root.clone();
    }

    /// Opens the reader on the directory that the settings name, which holds `listing`, with no
    /// file selected, and closes the settings.
    pub fn apply_settings(&mut self, order: OrderConfig, listing: &Vec<FileNode>)
        ensures
            final(self)@ == settings_applied(old(self)@, trees(listing@), order@),
    {
        self.root = self.root_input.clone();
        self.refresh_tree(order, listing);
        self.selected = None;
        self.content = String::new();
        self.settings_open = false;
        assert(self.content@ =~= seq![]);
    }

    /// Closes the settings and leaves all as it was.
    pub fn cancel_settings(&mut self)
        ensures
            final(self)@ == settings_cancelled(old(self)@),
    {
        self.root_input = self.root.clone();
        self.settings_open = false;
    }

    /// Turns a dark window into a light one, and the other way round.
    pub fn toggle_theme(&mut self)
        ensures
            final(self)@ == theme_toggled(old(self)@),
    {
        self.dark = !self.dark;
    }

    /// Whether there is anything to export.
    pub fn can_export(&self) -> (b: bool)
        ensures
            b == (self@.tree.len() > 0),
    {
        assert(self@.tree.len() == self.tree@.len());
        self.tree.len() > 0
    }

    /// Tells what came of an export.
    pub fn export_done(&mut self, result: &Result<String, String>)
        ensures
            final(self)@ == (ReaderView {
                status: Some(
                    match *result {
                        Ok(path) => "✔ PDF saved → "@ + path@,
                        Err(message) => "✘ "@ + message@,
                    },
                ),
                ..old(self)@
            }),
    {
        let message = match result {
            Ok(path) => appended("✔ PDF saved → ", path.as_str()),
            Err(message) => appended("✘ ", message.as_str()),
        };
        self.status = Some(message);
    }

    /// Takes the message away.
    pub fn dismiss_status(&mut self)
        ensures
            final(self)@ == (ReaderView { status: None, ..old(self)@ }),
    {
        self.status = None;
    }

    /// What the status bar shows: the message, or the path of the file that is selected.
    pub fn status_line(&self) -> (line: Option<String>)
        ensures
            text_of(line) == if self@.status is Some {
                self@.status
            } else {
                self@.selected
            },
    {
        match (&self.status, &self.selected) {
            (Some(message), _) => Some(message.clone()),
            (None, Some(path)) => Some(path.clone()),
            (None, None) => None,
        }
    }
}

/// Settings that are opened and cancelled leave the reader as it was.
pub proof fn lemma_cancelling_changes_nothing(r: ReaderView)
    requires
        !r.settings_open,
        r.root_input == r.root,
    ensures
        settings_cancelled(settings_toggled(r)) == r,
{
}

/// Applying settings that were not touched shows the directory anew, with no file selected.
pub proof fn lemma_applying_unchanged_settings(
    r: ReaderView,
    listing: Seq<Tree>,
    orders: Map<Seq<char>, Seq<Seq<char>>>,
)
    requires
        !r.settings_open,
    ensures
        settings_applied(settings_toggled(r), listing, orders) == (ReaderView {
            root_input: r.root,
            selected: None,
            content: seq![],
            ..refreshed(r, listing, orders)
        }),
{
}

/// A theme that is changed twice is the same.
pub proof fn lemma_theme_comes_back(r: ReaderView)
    ensures
        theme_toggled(theme_toggled(r)) == r,
{
}

/// A tree that was put in order by hand stays as it is when it is built anew from the same
/// directory, with the order that was kept. Siblings have different names, and no two directories
/// have one path.
pub proof fn lemma_refreshing_keeps_order(
    r: ReaderView,
    listing: Seq<Tree>,
    parent: Seq<char>,
    from: int,
    to: int,
)
    requires
        r.tree == shown_tree(r.root, listing, r.orders),
        0 <= from,
        0 <= to,
        can_reorder(r, parent, from, to),
        names(siblings(r.tree, r.root, parent)->0).no_duplicates(),
        dir_count(listing, r.root) == 0,
        dir_count(listing, parent) <= 1,
    ensures
        ({
            let there = reordered(r, parent, from, to);
            refreshed(there, listing, there.orders) == there
        }),
{
    lemma_order_stays(listing, r.orders, r.root, parent, from, to);
}

} // verus!
