//! What the window shows, and what it changes when something is asked of it.
use crate::reader::{
    can_reorder, opened, refreshed, reordered, settings_applied, settings_cancelled,
    settings_toggled, shown_tree, theme_toggled, ReaderView,
};
use crate::reorder::{moved, siblings, with_siblings};
use crate::sidebar::{chosen, row, ActionView};
use crate::titles::dir_title;
use crate::tree::{all_arranged, in_order, names, Tree};
use crate::updates::{is_busy, polled, UpdateState};
use vstd::prelude::*;

verus! {

/// A reader opens on the tree of its directory, with nothing selected and nothing to tell.
pub proof fn lemma_opening(
    root: Seq<char>,
    dark: bool,
    listing: Seq<Tree>,
    orders: Map<Seq<char>, Seq<Seq<char>>>,
)
    ensures
        ({
            let r = opened(root, dark, listing, orders);
            &&& r.root == root && r.root_input == root && r.dark == dark && r.orders == orders
            &&& r.tree == in_order(all_arranged(listing, orders), orders, root)
            &&& r.selected is None && r.status is None && !r.settings_open
            &&& r.content.len() == 0 && r.title.len() == 0
        }),
{
}

/// The settings are opened and closed in turn, with the directory that is open in them, and nothing
/// else changes.
pub proof fn lemma_settings(r: ReaderView)
    ensures
        settings_toggled(r).settings_open != r.settings_open,
        settings_toggled(r).root_input == r.root,
        !settings_cancelled(r).settings_open,
        settings_cancelled(r).root_input == r.root,
        theme_toggled(r).dark != r.dark,
        ({
            let a = settings_toggled(r);
            let b = settings_cancelled(r);
            let c = theme_toggled(r);
            &&& a.root == r.root && b.root == r.root && c.root == r.root
            &&& a.dark == r.dark && b.dark == r.dark
            &&& a.orders == r.orders && b.orders == r.orders && c.orders == r.orders
            &&& a.tree == r.tree && b.tree == r.tree && c.tree == r.tree
            &&& a.selected == r.selected && b.selected == r.selected && c.selected == r.selected
            &&& a.content == r.content && b.content == r.content && c.content == r.content
            &&& a.status == r.status && b.status == r.status && c.status == r.status
            &&& a.title == r.title && b.title == r.title && c.title == r.title
            &&& c.settings_open == r.settings_open && c.root_input == r.root_input
        }),
{
}

/// Settings that are applied open the reader on the directory that they name, with nothing
/// selected.
pub proof fn lemma_applied_settings(
    r: ReaderView,
    listing: Seq<Tree>,
    orders: Map<Seq<char>, Seq<Seq<char>>>,
)
    ensures
        ({
            let a = settings_applied(r, listing, orders);
            let fresh = opened(r.root_input, r.dark, listing, orders);
            &&& a.root == fresh.root && a.root_input == fresh.root_input
            &&& a.orders == fresh.orders && a.tree == fresh.tree
            &&& a.selected == fresh.selected && a.content == fresh.content
            &&& a.settings_open == fresh.settings_open && a.dark == r.dark
            &&& a.status == r.status && a.title == r.title
        }),
{
}

/// A tree that is built anew is that of the directory that is open, and nothing else changes.
pub proof fn lemma_refreshing(
    r: ReaderView,
    listing: Seq<Tree>,
    orders: Map<Seq<char>, Seq<Seq<char>>>,
)
    ensures
        ({
            let a = refreshed(r, listing, orders);
            &&& a.tree == opened(r.root, r.dark, listing, orders).tree
            &&& a.tree == shown_tree(r.root, listing, orders)
            &&& a.orders == orders
            &&& a == ReaderView { tree: a.tree, orders: a.orders, ..r }
        }),
{
}

/// Moving something changes the tree and the order of its directory, and nothing else.
pub proof fn lemma_reordering(r: ReaderView, parent: Seq<char>, from: int, to: int)
    requires
        0 <= from,
        0 <= to,
        can_reorder(r, parent, from, to),
    ensures
        ({
            let old = siblings(r.tree, r.root, parent)->0;
            let new = moved(old, from, to);
            let a = reordered(r, parent, from, to);
            &&& from < old.len() && to < old.len() && from != to
            &&& a.tree == with_siblings(r.tree, r.root, parent, new)
            &&& a.orders == r.orders.insert(parent, names(new))
            &&& a == ReaderView { tree: a.tree, orders: a.orders, ..r }
            &&& forall|i: int| 0 <= i < new.len() ==> names(new)[i] == (#[trigger] new[i]).name()
        }),
{
}

/// There is something to move exactly where the directory is there and has something at both of two
/// different places.
pub proof fn lemma_what_can_be_reordered(r: ReaderView, parent: Seq<char>, from: int, to: int)
    requires
        0 <= from,
        0 <= to,
    ensures
        can_reorder(r, parent, from, to) <==> {
            &&& siblings(r.tree, r.root, parent) is Some
            &&& from < siblings(r.tree, r.root, parent)->0.len()
            &&& to < siblings(r.tree, r.root, parent)->0.len()
            &&& from != to
        },
{
}

/// A row has the name of its file or the title of its directory. A click on a file shows it, every
/// row but the first can go up and every row but the last down by one place, and the file that is
/// selected is marked.
pub proof fn lemma_rows(
    ts: Seq<Tree>,
    i: int,
    parent: Seq<char>,
    selected: Option<Seq<char>>,
)
    requires
        0 <= i < ts.len(),
    ensures
        ({
            let r = row(ts, i, parent, selected);
            &&& ts[i] is File ==> r.label == ts[i].name() && r.click == Some(
                ActionView::LoadFile(ts[i]->File_path),
            ) && r.selected == (selected == Some(ts[i]->File_path))
            &&& ts[i] is Dir ==> r.label == dir_title(ts[i].name()) && r.click is None
                && !r.selected
            &&& r.up is Some <==> i > 0
            &&& r.down is Some <==> i < ts.len() - 1
            &&& i > 0 ==> r.up == Some(ActionView::Reorder { parent, from: i, to: i - 1 })
            &&& i < ts.len() - 1 ==> r.down == Some(
                ActionView::Reorder { parent, from: i, to: i + 1 },
            )
        }),
{
}

/// A row comes before the rows above it, and the rows inside it come last.
pub proof fn lemma_choices<T>(before: Option<T>, own: T, inner: Option<T>, x: T)
    ensures
        chosen(before, Some(own), inner) == Some(own),
        chosen(Some(x), None, inner) == Some(x),
        chosen(None, None, inner) == inner,
{
}

/// The search goes on until it has an answer, and the window is drawn again only while it goes on
/// or a version is being loaded.
pub proof fn lemma_search_for_versions<A, D>(state: UpdateState<A, D>, version: A, download: D)
    ensures
        polled(state, None) == state,
        polled(state, Some(None)) == UpdateState::<A, D>::Idle,
        polled(state, Some(Some(version))) == UpdateState::<A, D>::Available(version),
        is_busy(UpdateState::<A, D>::Checking),
        is_busy(UpdateState::<A, D>::Downloading(download)),
        !is_busy(UpdateState::<A, D>::Idle),
        !is_busy(UpdateState::<A, D>::Available(version)),
{
}

} // verus!
