//! The places of documents in the book, and the map from files to them.
use crate::entries::{doc_views, DocEntry, Entry};
use crate::links::TextMap;
use crate::paths::texts_of;
use crate::text::{push_chars, push_str, to_text};
use vstd::prelude::*;

verus! {

/// The character of the decimal digit `d`.
pub open spec fn digit(d: nat) -> char {
    ('0' as u32 + d) as char
}

/// `n` in decimal digits.
pub open spec fn decimal(n: nat) -> Seq<char>
    decreases n,
{
    if n < 10 {
        seq![digit(n)]
    } else {
        decimal(n / 10).push(digit(n % 10))
    }
}

/// `n` in decimal digits.
pub fn to_decimal(n: usize) -> (out: Vec<char>)
    ensures
        out@ == decimal(n as nat),
    decreases n,
{
    if n < 10 {
        let mut out: Vec<char> = Vec::new();
        out.push((48u8 + n as u8) as char);
        assert(out@ =~= seq![digit(n as nat)]);
        out
    } else {
        let mut out = to_decimal(n / 10);
        out.push((48u8 + (n % 10) as u8) as char);
        out
    }
}

/// The place in the book of the document with the number `k`, counted from zero.
pub open spec fn anchor(k: nat) -> Seq<char> {
    "doc-"@ + decimal(k)
}

/// The place in the book of the document with the number `k`, counted from zero.
pub fn anchor_of(k: usize) -> (out: String)
    ensures
        out@ == anchor(k as nat),
{
    let mut out: Vec<char> = Vec::new();
    push_str(&mut out, "doc-");
    let number = to_decimal(k);
    push_chars(&mut out, number.as_slice());
    assert(out@ =~= anchor(k as nat));
    to_text(out.as_slice())
}

proof fn lemma_digit(d: nat)
    requires
        d < 10,
    ensures
        digit(d) as u32 == 48 + d,
{
}

proof fn lemma_decimal_is_injective(a: nat, b: nat)
    requires
        decimal(a) == decimal(b),
    ensures
        a == b,
    decreases a,
{
    lemma_digit(a % 10);
    lemma_digit(b % 10);
    lemma_decimal_ends(a);
    lemma_decimal_ends(b);
    assert(digit(a % 10) == digit(b % 10));
    if a < 10 {
        assert(decimal(b).len() == 1);
        if b >= 10 {
            assert(decimal(b / 10).len() == 0);
            lemma_decimal_ends(b / 10);
        }
    } else {
        if b < 10 {
            assert(decimal(a / 10).len() == 0);
            lemma_decimal_ends(a / 10);
        } else {
            assert(decimal(a).drop_last() =~= decimal(a / 10));
            assert(decimal(b).drop_last() =~= decimal(b / 10));
            lemma_decimal_is_injective(a / 10, b / 10);
        }
    }
}

proof fn lemma_decimal_ends(n: nat)
    ensures
        decimal(n).len() > 0,
        decimal(n).last() == digit(n % 10),
{
}

/// Documents with different numbers have different places.
pub proof fn lemma_anchors_differ(a: nat, b: nat)
    requires
        a != b,
    ensures
        anchor(a) != anchor(b),
{
    if anchor(a) == anchor(b) {
        let n = "doc-"@.len() as int;
        assert(anchor(a).skip(n) =~= decimal(a));
        assert(anchor(b).skip(n) =~= decimal(b));
        lemma_decimal_is_injective(a, b);
    }
}

/// The number of documents among the first `n` of `entries`.
pub open spec fn document_count(entries: Seq<Entry>, n: int) -> nat
    decreases n,
{
    if n <= 0 {
        0
    } else {
        document_count(entries, n - 1) + if entries[n - 1] is Document {
            1nat
        } else {
            0nat
        }
    }
}

/// The file of the document with the number `k` and the path `path`: what `files` holds for it,
/// or the path where that holds nothing.
pub open spec fn file_of(files: Seq<Option<Seq<char>>>, k: int, path: Seq<char>) -> Seq<char> {
    if 0 <= k < files.len() && files[k] is Some {
        files[k]->0
    } else {
        path
    }
}

/// The places of the files of the documents among the first `n` of `entries`. Of two documents
/// with one file the later one counts.
pub open spec fn places(
    entries: Seq<Entry>,
    files: Seq<Option<Seq<char>>>,
    n: int,
) -> Map<Seq<char>, Seq<char>>
    decreases n,
{
    if n <= 0 {
        Map::empty()
    } else {
        let front = places(entries, files, n - 1);
        match entries[n - 1] {
            Entry::Section { .. } => front,
            Entry::Document { path, .. } => {
                let k = document_count(entries, n - 1);
                front.insert(file_of(files, k as int, path), anchor(k))
            },
        }
    }
}

/// The map from the files of the documents among `entries` to their places in the book. For each
/// document, `files` holds the absolute path of its file, if there is one.
pub fn build_path_map(entries: &Vec<DocEntry>, files: &Vec<Option<String>>) -> (map: TextMap)
    ensures
        map@ == places(doc_views(entries@), texts_of(files@), entries@.len() as int),
{
    let ghost all = doc_views(entries@);
    let mut map = TextMap::new();
    let mut k: usize = 0;
    let mut i: usize = 0;
    while i < entries.len()
        invariant
            i <= entries.len(),
            all == doc_views(entries@),
            k <= i,
            k == document_count(all, i as int),
            map@ == places(all, texts_of(files@), i as int),
        decreases entries.len() - i,
    {
        assert(all[i as int] == entries@[i as int]@);
        match &entries[i] {
            DocEntry::Section { .. } => {},
            DocEntry::Document { path, .. } => {
                let mut file = path.clone();
                if k < files.len() {
                    if let Some(f) = &files[k] {
                        file = f.clone();
                    }
                }
                map.insert(file, anchor_of(k));
                k += 1;
            },
        }
        i += 1;
    }
    map
}

/// A document whose file is that of no later document is found at its own place.
pub proof fn lemma_document_is_found(
    entries: Seq<Entry>,
    files: Seq<Option<Seq<char>>>,
    i: int,
    n: int,
)
    requires
        0 <= i < n <= entries.len(),
        entries[i] is Document,
        forall|j: int|
            i < j < n && (#[trigger] entries[j]) is Document ==> file_of(
                files,
                document_count(entries, j) as int,
                entries[j]->Document_path,
            ) != file_of(files, document_count(entries, i) as int, entries[i]->Document_path),
    ensures
        ({
            let k = document_count(entries, i);
            let file = file_of(files, k as int, entries[i]->Document_path);
            &&& places(entries, files, n).contains_key(file)
            &&& places(entries, files, n)[file] == anchor(k)
        }),
    decreases n,
{
    if i < n - 1 {
        lemma_document_is_found(entries, files, i, n - 1);
        if entries[n - 1] is Document {
            assert(file_of(
                files,
                document_count(entries, n - 1) as int,
                entries[n - 1]->Document_path,
            ) != file_of(files, document_count(entries, i) as int, entries[i]->Document_path));
        }
    }
}

/// Nothing but the files of documents is found, and each at the place of a document with that
/// file.
pub proof fn lemma_only_documents_are_found(
    entries: Seq<Entry>,
    files: Seq<Option<Seq<char>>>,
    n: int,
    file: Seq<char>,
)
    requires
        0 <= n <= entries.len(),
        places(entries, files, n).contains_key(file),
    ensures
        exists|i: int|
            0 <= i < n && (#[trigger] entries[i]) is Document && file == file_of(
                files,
                document_count(entries, i) as int,
                entries[i]->Document_path,
            ) && places(entries, files, n)[file] == anchor(document_count(entries, i)),
    decreases n,
{
    if n > 0 {
        let k = document_count(entries, n - 1);
        if entries[n - 1] is Document && file == file_of(
            files,
            k as int,
            entries[n - 1]->Document_path,
        ) {
            assert(entries[n - 1] is Document);
        } else {
            lemma_only_documents_are_found(entries, files, n - 1, file);
        }
    }
}

} // verus!
