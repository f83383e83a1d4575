//! The logic of a markdown reader that exports a directory of documents as one book.
use vstd::prelude::*;

pub mod anchors;
pub mod book;
pub mod book_calls;
pub mod book_laws;
pub mod caption_laws;
pub mod chapter_laws;
pub mod cli;
pub mod documents;
pub mod entries;
pub mod entry_laws;
pub mod figure_laws;
pub mod figures;
pub mod heading_laws;
pub mod image_laws;
pub mod images;
pub mod index_laws;
pub mod lines;
pub mod link_laws;
pub mod links;
pub mod listing_laws;
pub mod markdown;
pub mod move_laws;
pub mod order_laws;
pub mod outline;
pub mod page;
pub mod path_laws;
pub mod paths;
pub mod printing;
pub mod program_calls;
pub mod reader;
pub mod reorder;
pub mod request_laws;
pub mod sidebar;
pub mod sorting;
pub mod text;
pub mod text_calls;
pub mod text_laws;
pub mod title_laws;
pub mod titles;
pub mod toc;
pub mod tree;
pub mod tree_laws;
pub mod updates;
pub mod uri_laws;
pub mod window_laws;

verus! {

} // verus!
