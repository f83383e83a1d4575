# mdreader

The logic of a markdown reader that exports a directory of documents as one book, written in Rust
and verified with Verus.

## Library (`src/`)

| Module | What it holds |
|---|---|
| `text`, `lines`, `paths` | text as characters, as lines, and as paths |
| `images`, `image_laws` | which image URIs are local paths, and how they become `file://` URLs |
| `figures`, `figure_laws` | images with a title that stand alone on a line, as captions and as HTML |
| `documents` | the text of a document as it is shown |
| `titles`, `title_laws` | the names of documents and directories as readers see them |
| `toc` | indexes of links, their introductions, and tables of contents inside documents |
| `links` | links between documents, and how they become links inside the book |
| `sorting`, `tree`, `tree_laws` | the tree of markdown files and its order |
| `reorder`, `order_laws` | moving a file or directory, and the order that stays |
| `entries`, `anchors` | the documents of a tree one after the other, and their places in the book |
| `outline`, `page`, `markdown` | the table of contents, the page, and markdown as HTML |
| `book`, `book_laws` | the book, and what holds of every book |
| `cli`, `printing` | the command line, and printing to PDF with a browser |
| `sidebar`, `reader` | what the window shows, and how that changes |
| `updates` | the search for a newer version |

Contracts are stated over sequences of characters and over trees of them. Functions whose names
begin with `lemma_` and that are public state what holds of the library as a whole.

What the library believes without proof stands behind small wrappers: `comrak::markdown_to_html`,
four functions of `std::path::Path`, `str::to_lowercase`, `char::to_uppercase` and `String::push`.
The functions of `Path` behave differently on different operating systems, so two results are
stated of each: the one where slashes alone part components, and the one on Windows. Less is stated
of verbatim paths on Windows (`\\?\`), and of the parent of a drive with a dot behind it.

## Program (`app/`)

The window, the files on disk, the settings that are kept, and the browser that prints the book.

## Tests (`tests/`)

One file for each part of the library.
