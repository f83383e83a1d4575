//! The tree of markdown files that a directory holds, and the order of what stands in it.
use crate::links::same_text;
use crate::sorting::{sort_by_keys, stable_sorted, text_at_or_before, text_le};
use crate::text::{ascii_lowered, ends_with, text_views, to_ascii_lower, to_chars};
use vstd::prelude::*;
use vstd::utf8::is_ascii_chars;

verus! {

/// A file, or a directory with what it holds.
pub struct FileNode {
    pub name: String,
    pub path: String,
    pub kind: NodeKind,
}

/// What a node of the tree is.
pub enum NodeKind {
    File,
    Dir(Vec<FileNode>),
}

/// A file, or a directory with what it holds, as texts.
pub enum Tree {
    File { name: Seq<char>, path: Seq<char> },
    Dir { name: Seq<char>, path: Seq<char>, children: Seq<Tree> },
}

impl Tree {
    /// The name of the file or directory.
    pub open spec fn name(self) -> Seq<char> {
        match self {
            Tree::File { name, .. } => name,
            Tree::Dir { name, .. } => name,
        }
    }
}

impl FileNode {
    /// The node as texts.
    pub open spec fn tree(self) -> Tree
        decreases self,
    {
        match self.kind {
            NodeKind::File => Tree::File { name: self.name@, path: self.path@ },
            NodeKind::Dir(children) => Tree::Dir {
                name: self.name@,
                path: self.path@,
                children: Seq::new(
                    children@.len(),
                    |i: int|
                        if 0 <= i < children@.len() {
                            children@[i].tree()
                        } else {
                            arbitrary()
                        },
                ),
            },
        }
    }

    /// Whether the node is a directory.
    pub fn is_dir(&self) -> (b: bool)
        ensures
            b == (self.tree() is Dir),
    {
        match self.kind {
            NodeKind::Dir(_) => true,
            NodeKind::File => false,
        }
    }
}

/// The nodes as texts.
pub open spec fn trees(nodes: Seq<FileNode>) -> Seq<Tree> {
    nodes.map_values(|n: FileNode| n.tree())
}

/// The children of a directory's tree are the trees of its children.
pub proof fn lemma_children(node: FileNode)
    ensures
        match node.kind {
            NodeKind::File => node.tree() == (Tree::File { name: node.name@, path: node.path@ }),
            NodeKind::Dir(children) => node.tree() == (Tree::Dir {
                name: node.name@,
                path: node.path@,
                children: trees(children@),
            }),
        },
        node.tree().name() == node.name@,
{
    if let NodeKind::Dir(children) = node.kind {
        assert(node.tree()->children =~= trees(children@));
    }
}

/// What `str::to_lowercase` returns for a text: its lower-case form in Unicode.
pub uninterp spec fn lowercase(s: Seq<char>) -> Seq<char>;

/// `str::to_lowercase`: the text that it returns depends on the text alone, and for ASCII text it
/// is that text with its letters in lower case.
#[verifier::external_body]
pub(crate) fn to_lowercase(s: &str) -> (out: String)
    ensures
        out@ == lowercase(s@),
        is_ascii_chars(s@) ==> out@ == ascii_lowered(s@),
{
    s.to_lowercase()
}

/// `name` in lower case: the letters of ASCII text one by one, and any other text as a whole.
pub open spec fn lower(name: Seq<char>) -> Seq<char> {
    if is_ascii_chars(name) {
        ascii_lowered(name)
    } else {
        lowercase(name)
    }
}

/// The name of a markdown file.
pub open spec fn is_md_name(name: Seq<char>) -> bool {
    ".md"@.is_suffix_of(ascii_lowered(name))
}

/// The order of siblings by default: directories come first, and names stand in alphabetical
/// order, upper and lower case taken as the same.
pub open spec fn by_name() -> spec_fn(Tree, Tree) -> bool {
    |a: Tree, b: Tree|
        if (a is Dir) != (b is Dir) {
            a is Dir
        } else {
            text_le(lower(a.name()), lower(b.name()))
        }
}

/// The place of the last occurrence of `name` in `order`, or the length of `order` where it has
/// none.
pub open spec fn place(order: Seq<Seq<char>>, name: Seq<char>) -> int {
    last_place(order, name, order.len() as int, order.len() as int)
}

/// The place of the last occurrence of `name` among the first `n` of `order`, or `missing`.
pub open spec fn last_place(order: Seq<Seq<char>>, name: Seq<char>, n: int, missing: int) -> int
    decreases n,
{
    if n <= 0 {
        missing
    } else if order[n - 1] == name {
        n - 1
    } else {
        last_place(order, name, n - 1, missing)
    }
}

/// The order of siblings that `order` lists by name. Those that it does not list come last.
pub open spec fn by_place(order: Seq<Seq<char>>) -> spec_fn(Tree, Tree) -> bool {
    |a: Tree, b: Tree| place(order, a.name()) <= place(order, b.name())
}

/// The siblings `ts` in the directory `parent`, in the order that `orders` holds for it, if any.
pub open spec fn ordered(
    ts: Seq<Tree>,
    orders: Map<Seq<char>, Seq<Seq<char>>>,
    parent: Seq<char>,
) -> Seq<Tree> {
    if orders.contains_key(parent) {
        stable_sorted(ts, by_place(orders[parent]))
    } else {
        ts
    }
}

/// The siblings `ts` in the directory `parent`, in the order in which they are shown.
pub open spec fn in_order(
    ts: Seq<Tree>,
    orders: Map<Seq<char>, Seq<Seq<char>>>,
    parent: Seq<char>,
) -> Seq<Tree> {
    ordered(stable_sorted(ts, by_name()), orders, parent)
}

/// What the tree of markdown files holds of `t`: markdown files, and directories that hold some.
pub open spec fn arranged(t: Tree, orders: Map<Seq<char>, Seq<Seq<char>>>) -> Option<Tree>
    decreases t,
{
    match t {
        Tree::File { name, .. } => if is_md_name(name) {
            Some(t)
        } else {
            None
        },
        Tree::Dir { name, path, children } => {
            let kept = all_arranged(children, orders);
            if kept.len() == 0 {
                None
            } else {
                Some(Tree::Dir { name, path, children: in_order(kept, orders, path) })
            }
        },
    }
}

/// What the tree of markdown files holds of `ts`.
pub open spec fn all_arranged(
    ts: Seq<Tree>,
    orders: Map<Seq<char>, Seq<Seq<char>>>,
) -> Seq<Tree>
    decreases ts,
{
    if ts.len() == 0 {
        seq![]
    } else {
        let front = all_arranged(ts.drop_last(), orders);
        match arranged(ts.last(), orders) {
            Some(t) => front.push(t),
            None => front,
        }
    }
}

/// The order in which the names of the children of directories were put by hand.
pub struct OrderConfig {
    orders: Vec<(String, Vec<String>)>,
}

/// The map that a list of orders stands for: of two for one directory the later one counts.
pub open spec fn orders_of(
    orders: Seq<(Seq<char>, Seq<Seq<char>>)>,
) -> Map<Seq<char>, Seq<Seq<char>>>
    decreases orders.len(),
{
    if orders.len() == 0 {
        Map::empty()
    } else {
        orders_of(orders.drop_last()).insert(orders.last().0, orders.last().1)
    }
}

/// The views of a list of orders.
pub open spec fn order_views(
    orders: Seq<(String, Vec<String>)>,
) -> Seq<(Seq<char>, Seq<Seq<char>>)> {
    Seq::new(orders.len(), |i: int| (orders[i].0@, text_views(orders[i].1@)))
}

impl View for OrderConfig {
    type V = Map<Seq<char>, Seq<Seq<char>>>;

    closed spec fn view(&self) -> Map<Seq<char>, Seq<Seq<char>>> {
        orders_of(order_views(self.orders@))
    }
}

/// The names of siblings.
pub open spec fn names(ts: Seq<Tree>) -> Seq<Seq<char>> {
    ts.map_values(|t: Tree| t.name())
}

proof fn lemma_update_order(
    orders: Seq<(Seq<char>, Seq<Seq<char>>)>,
    i: int,
    value: Seq<Seq<char>>,
)
    requires
        0 <= i < orders.len(),
        forall|j: int| i < j < orders.len() ==> (#[trigger] orders[j]).0 != orders[i].0,
    ensures
        orders_of(orders.update(i, (orders[i].0, value))) == orders_of(orders).insert(
            orders[i].0,
            value,
        ),
    decreases orders.len(),
{
    let new = orders.update(i, (orders[i].0, value));
    if i == orders.len() - 1 {
        assert(new.drop_last() =~= orders.drop_last());
        assert(orders_of(new) =~= orders_of(orders).insert(orders[i].0, value));
    } else {
        let front = orders.drop_last();
        assert forall|j: int| i < j < front.len() implies (#[trigger] front[j]).0 != front[i].0 by {
            assert(orders[j].0 != orders[i].0);
        }
        lemma_update_order(front, i, value);
        assert(new.drop_last() =~= front.update(i, (front[i].0, value)));
        assert(orders[orders.len() - 1].0 != orders[i].0);
        assert(orders_of(new) =~= orders_of(orders).insert(orders[i].0, value));
    }
}

impl OrderConfig {
    /// No order put by hand.
    pub fn new() -> (config: Self)
        ensures
            config@ == Map::<Seq<char>, Seq<Seq<char>>>::empty(),
    {
        let config = OrderConfig { orders: Vec::new() };
        assert(order_views(config.orders@) =~= seq![]);
        config
    }

    /// Puts the children of `parent` in the order `names`, in place of the order they had.
    pub fn insert(&mut self, parent: String, names: Vec<String>)
        ensures
            final(self)@ == old(self)@.insert(parent@, text_views(names@)),
    {
        let ghost views = order_views(self.orders@);
        let mut i: usize = self.orders.len();
        while i > 0
            invariant
                i <= self.orders@.len(),
                self.orders@ == old(self).orders@,
                views == order_views(self.orders@),
                forall|j: int| i <= j < views.len() ==> (#[trigger] views[j]).0 != parent@,
            decreases i,
        {
            i -= 1;
            if same_text(self.orders[i].0.as_str(), parent.as_str()) {
                proof {
                    assert(views[i as int].0 == parent@);
                    lemma_update_order(views, i as int, text_views(names@));
                }
                self.orders.set(i, (parent, names));
                assert(order_views(self.orders@) =~= views.update(
                    i as int,
                    (parent@, text_views(names@)),
                ));
                return ;
            }
        }
        self.orders.push((parent, names));
        assert(order_views(self.orders@).drop_last() =~= views);
    }

    /// The directories with an order put by hand, and the names of their children.
    pub fn entries(&self) -> (entries: &Vec<(String, Vec<String>)>)
        ensures
            orders_of(order_views(entries@)) == self@,
    {
        &self.orders
    }

    /// The order of the children of `parent`, if it was put by hand.
    fn find(&self, parent: &str) -> (names: Option<&Vec<String>>)
        ensures
            match names {
                Some(n) => self@.contains_key(parent@) && text_views(n@) == self@[parent@],
                None => !self@.contains_key(parent@),
            },
    {
        let ghost all = order_views(self.orders@);
        let mut i: usize = self.orders.len();
        assert(all.take(all.len() as int) =~= all);
        while i > 0
            invariant
                i <= self.orders.len(),
                all == order_views(self.orders@),
                self@.contains_key(parent@) == orders_of(all.take(i as int)).contains_key(parent@),
                self@.contains_key(parent@) ==> self@[parent@] == orders_of(
                    all.take(i as int),
                )[parent@],
            decreases i,
        {
            assert(all.take(i as int).drop_last() =~= all.take(i - 1));
            i -= 1;
            if same_text(self.orders[i].0.as_str(), parent) {
                return Some(&self.orders[i].1);
            }
        }
        None
    }

    /// Puts `children` in the order that was put by hand for the directory `parent`. Children
    /// that it does not name come last and keep the order that they have.
    pub fn apply(&self, parent: &str, children: &mut Vec<FileNode>)
        ensures
            trees(final(children)@) == ordered(trees(old(children)@), self@, parent@),
    {
        match self.find(parent) {
            Some(names) => {
                let mut taken: Vec<FileNode> = Vec::new();
                std::mem::swap(&mut taken, children);
                let sorted = sort_by_place(taken, names);
                *children = sorted;
            },
            None => {},
        }
    }

    /// Takes the order of `children` as the one put by hand for the directory `parent`.
    pub fn set_order(&mut self, parent: &str, children: &Vec<FileNode>)
        ensures
            final(self)@ == old(self)@.insert(parent@, names(trees(children@))),
    {
        let mut list: Vec<String> = Vec::new();
        let mut i: usize = 0;
        while i < children.len()
            invariant
                i <= children.len(),
                list@.len() == i,
                forall|j: int| 0 <= j < i ==> (#[trigger] list@[j])@ == children@[j].name@,
            decreases children.len() - i,
        {
            list.push(children[i].name.clone());
            i += 1;
        }
        proof {
            assert forall|j: int| 0 <= j < list@.len() implies text_views(list@)[j] == names(
                trees(children@),
            )[j] by {
                lemma_children(children@[j]);
            }
            assert(text_views(list@) =~= names(trees(children@)));
        }
        self.insert(parent.to_owned(), list);
    }
}

fn find_place(order: &Vec<String>, name: &str) -> (r: usize)
    ensures
        r == place(text_views(order@), name@),
{
    let ghost o = text_views(order@);
    let len = order.len();
    let mut n: usize = len;
    while n > 0
        invariant
            n <= len,
            len == order@.len(),
            o == text_views(order@),
            place(o, name@) == last_place(o, name@, n as int, len as int),
        decreases n,
    {
        if same_text(order[n - 1].as_str(), name) {
            return n - 1;
        }
        n -= 1;
    }
    len
}

fn sort_by_place(nodes: Vec<FileNode>, order: &Vec<String>) -> (out: Vec<FileNode>)
    ensures
        trees(out@) == stable_sorted(trees(nodes@), by_place(text_views(order@))),
{
    let ghost o = text_views(order@);
    let mut keys: Vec<usize> = Vec::new();
    let mut i: usize = 0;
    while i < nodes.len()
        invariant
            i <= nodes.len(),
            o == text_views(order@),
            keys@.len() == i,
            forall|k: int| 0 <= k < i ==> #[trigger] keys@[k] == place(o, nodes@[k].name@),
        decreases nodes.len() - i,
    {
        keys.push(find_place(order, nodes[i].name.as_str()));
        i += 1;
    }
    let le = |a: &usize, b: &usize| -> (r: bool)
        ensures
            r == (*a <= *b),
        { *a <= *b };
    let ghost model = |n: FileNode| n.tree();
    let ghost fits = |k: usize, n: FileNode| k == place(o, n.name@);
    proof {
        assert forall|a: usize, b: usize, x: FileNode, y: FileNode, r: bool| #[trigger]
            fits(a, x) && #[trigger] fits(b, y) && #[trigger] le.ensures((&a, &b), r) implies r
            == by_place(o)(model(x), model(y)) by {
            lemma_children(x);
            lemma_children(y);
        }
    }
    sort_by_keys::<usize, FileNode, Tree, _>(
        keys,
        nodes,
        le,
        Ghost(fits),
        Ghost(model),
        Ghost(by_place(o)),
    )
}

/// What siblings are sorted by when no order was put by hand.
struct NameKey {
    dir: bool,
    lower: Vec<char>,
}

fn sort_by_name(nodes: Vec<FileNode>) -> (out: Vec<FileNode>)
    ensures
        trees(out@) == stable_sorted(trees(nodes@), by_name()),
{
    let ghost fits = |k: NameKey, n: FileNode|
        k.dir == (n.tree() is Dir) && k.lower@ == lower(n.name@);
    let mut keys: Vec<NameKey> = Vec::new();
    let mut i: usize = 0;
    while i < nodes.len()
        invariant
            i <= nodes.len(),
            keys@.len() == i,
            fits == (|k: NameKey, n: FileNode|
                k.dir == (n.tree() is Dir) && k.lower@ == lower(n.name@)),
            forall|k: int| 0 <= k < i ==> fits(keys@[k], #[trigger] nodes@[k]),
        decreases nodes.len() - i,
    {
        let lower = to_lowercase(nodes[i].name.as_str());
        keys.push(NameKey { dir: nodes[i].is_dir(), lower: to_chars(lower.as_str()) });
        i += 1;
    }
    let le = |a: &NameKey, b: &NameKey| -> (r: bool)
        ensures
            r == (if a.dir != b.dir {
                a.dir
            } else {
                text_le(a.lower@, b.lower@)
            }),
        {
            if a.dir != b.dir {
                a.dir
            } else {
                text_at_or_before(a.lower.as_slice(), b.lower.as_slice())
            }
        };
    let ghost model = |n: FileNode| n.tree();
    proof {
        assert forall|a: NameKey, b: NameKey, x: FileNode, y: FileNode, r: bool| #[trigger]
            fits(a, x) && #[trigger] fits(b, y) && #[trigger] le.ensures((&a, &b), r) implies r
            == by_name()(model(x), model(y)) by {
            lemma_children(x);
            lemma_children(y);
        }
    }
    sort_by_keys::<NameKey, FileNode, Tree, _>(
        keys,
        nodes,
        le,
        Ghost(fits),
        Ghost(model),
        Ghost(by_name()),
    )
}

fn name_is_md(name: &str) -> (b: bool)
    ensures
        b == is_md_name(name@),
{
    let chars = to_chars(name);
    let lower = to_ascii_lower(chars.as_slice());
    ends_with(lower.as_slice(), ".md")
}

impl FileNode {
    /// What the tree of markdown files holds of the file or directory `listing`: a markdown file,
    /// or a directory that holds some, with its children in order.
    pub fn from_listing(listing: &FileNode, order: &OrderConfig) -> (node: Option<FileNode>)
        ensures
            match arranged(listing.tree(), order@) {
                Some(t) => node is Some && node->0.tree() == t,
                None => node is None,
            },
        decreases *listing,
    {
        proof {
            lemma_children(*listing);
        }
        match &listing.kind {
            NodeKind::File => {
                if name_is_md(listing.name.as_str()) {
                    let node = FileNode {
                        name: listing.name.clone(),
                        path: listing.path.clone(),
                        kind: NodeKind::File,
                    };
                    Some(node)
                } else {
                    None
                }
            },
            NodeKind::Dir(children) => {
                let kept = Self::all_from_listing(children, order);
                if kept.len() == 0 {
                    return None;
                }
                let mut sorted = sort_by_name(kept);
                order.apply(listing.path.as_str(), &mut sorted);
                let node = FileNode {
                    name: listing.name.clone(),
                    path: listing.path.clone(),
                    kind: NodeKind::Dir(sorted),
                };
                proof {
                    lemma_children(node);
                }
                Some(node)
            },
        }
    }

    fn all_from_listing(listing: &Vec<FileNode>, order: &OrderConfig) -> (nodes: Vec<FileNode>)
        ensures
            trees(nodes@) == all_arranged(trees(listing@), order@),
        decreases *listing,
    {
        let ghost all = trees(listing@);
        let mut nodes: Vec<FileNode> = Vec::new();
        let mut i: usize = 0;
        assert(trees(nodes@) =~= all_arranged(all.take(0), order@));
        while i < listing.len()
            invariant
                i <= listing.len(),
                all == trees(listing@),
                trees(nodes@) == all_arranged(all.take(i as int), order@),
            decreases listing.len() - i,
        {
            proof {
                assert(all.take(i + 1).drop_last() =~= all.take(i as int));
                assert(all.take(i + 1).last() == listing@[i as int].tree());
            }
            let ghost before = trees(nodes@);
            match Self::from_listing(&listing[i], order) {
                Some(node) => {
                    nodes.push(node);
                    assert(trees(nodes@) =~= before.push(node.tree()));
                },
                None => {},
            }
            i += 1;
        }
        assert(all.take(all.len() as int) =~= all);
        nodes
    }
}

/// The tree of markdown files in the directory `root`, which holds `listing`.
pub fn build_tree(root: &str, listing: &Vec<FileNode>, order: &OrderConfig) -> (nodes: Vec<FileNode>)
    ensures
        trees(nodes@) == in_order(all_arranged(trees(listing@), order@), order@, root@),
{
    let kept = FileNode::all_from_listing(listing, order);
    let mut nodes = sort_by_name(kept);
    order.apply(root, &mut nodes);
    nodes
}

} // verus!
