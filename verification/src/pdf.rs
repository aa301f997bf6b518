//! Recognising PDF files and naming the pages that are rendered from them.

use vstd::prelude::*;
use crate::text::{decimal, push_decimal};

verus! {

/// How far into a file the `%PDF-` header may start and end.
pub const HEADER_WINDOW: usize = 1024;

/// The five header bytes `%PDF-` stand in `bytes` at offset `at`.
pub open spec fn header_at(bytes: Seq<u8>, at: int) -> bool {
    &&& 0 <= at
    &&& at + 5 <= bytes.len()
    &&& bytes.subrange(at, at + 5) == seq![0x25u8, 0x50u8, 0x44u8, 0x46u8, 0x2du8]
}

/// The header lies whole within the first kilobyte.
pub open spec fn has_header(bytes: Seq<u8>) -> bool {
    exists|at: int| at + 5 <= HEADER_WINDOW && #[trigger] header_at(bytes, at)
}

/// Does this file look like a PDF? The `%PDF-` header must lie whole within
/// the first kilobyte; junk before it is tolerated.
pub fn is_pdf(bytes: &[u8]) -> (found: bool)
    ensures
        found == has_header(bytes@),
{
    let limit: usize = if bytes.len() < HEADER_WINDOW { bytes.len() } else { HEADER_WINDOW };
    let mut i: usize = 0;
    while i + 5 <= limit
        invariant
            limit <= bytes@.len(),
            limit <= HEADER_WINDOW,
            i <= limit,
            limit == bytes@.len() || limit == HEADER_WINDOW,
            forall|at: int| at < i ==> !#[trigger] header_at(bytes@, at),
        decreases limit - i,
    {
        if bytes[i] == 0x25 && bytes[i + 1] == 0x50 && bytes[i + 2] == 0x44
            && bytes[i + 3] == 0x46 && bytes[i + 4] == 0x2d {
            assert(bytes@.subrange(i as int, i + 5)
                =~= seq![0x25u8, 0x50u8, 0x44u8, 0x46u8, 0x2du8]);
            assert(header_at(bytes@, i as int));
            return true;
        }
        assert(!header_at(bytes@, i as int)) by {
            if header_at(bytes@, i as int) {
                let w = bytes@.subrange(i as int, i + 5);
                assert(w[0] == bytes@[i as int]);
                assert(w[1] == bytes@[i + 1]);
                assert(w[2] == bytes@[i + 2]);
                assert(w[3] == bytes@[i + 3]);
                assert(w[4] == bytes@[i + 4]);
            }
        }
        i += 1;
    }
    false
}

/// A file in memory, by its name and its bytes.
pub struct NamedFile {
    pub name: Seq<char>,
    pub bytes: Seq<u8>,
}

/// The name of a page, counted from zero: the plain name where there is only
/// one, else with its number, counted from one.
pub open spec fn page_name(stem: Seq<char>, index: nat, count: nat) -> Seq<char> {
    if count == 1 {
        stem
    } else {
        stem + " p"@ + decimal(index + 1)
    }
}

/// The first `n` pages by name, without those that were not rendered.
pub open spec fn named_pages(stem: Seq<char>, pages: Seq<Option<Vec<u8>>>, n: nat) -> Seq<
    NamedFile,
>
    decreases n,
{
    if n == 0 {
        seq![]
    } else {
        let before = named_pages(stem, pages, (n - 1) as nat);
        match pages[n - 1] {
            Some(png) => before.push(
                NamedFile { name: page_name(stem, (n - 1) as nat, pages.len()), bytes: png@ },
            ),
            None => before,
        }
    }
}

/// Files by their names and bytes.
pub open spec fn files_view(files: Seq<(String, Vec<u8>)>) -> Seq<NamedFile> {
    Seq::new(files.len(), |i: int| NamedFile { name: files[i].0@, bytes: files[i].1@ })
}

/// The name of a page of a document, by its index and the number of pages.
pub fn name_page(stem: &str, index: usize, count: usize) -> (r: String)
    requires
        index < count,
    ensures
        r@ == page_name(stem@, index as nat, count as nat),
{
    let mut name = stem.to_owned();
    if count != 1 {
        name.append(" p");
        push_decimal(&mut name, (index + 1) as u64);
    }
    assert(name@ =~= page_name(stem@, index as nat, count as nat));
    name
}

/// Names the rendered pages of a document.
pub fn name_pages(stem: &str, pages: Vec<Option<Vec<u8>>>) -> (r: Vec<(String, Vec<u8>)>)
    ensures
        files_view(r@) == named_pages(stem@, pages@, pages@.len()),
{
    let ghost all = pages@;
    let count: usize = pages.len();
    let mut r: Vec<(String, Vec<u8>)> = Vec::new();
    let mut index: usize = 0;
    assert(files_view(r@) =~= seq![]);
    for page in it: pages.into_iter()
        invariant
            it.seq() == all,
            count == all.len(),
            index == it.index(),
            index <= count,
            files_view(r@) == named_pages(stem@, all, index as nat),
    {
        let ghost before = files_view(r@);
        assert(page == all[index as int]);
        match page {
            Some(png) => {
                let name = name_page(stem, index, count);
                let ghost file = NamedFile { name: name@, bytes: png@ };
                r.push((name, png));
                assert(files_view(r@) =~= before.push(file));
            },
            None => {},
        }
        index += 1;
    }
    r
}

/// Every page that was drawn is delivered with its own picture, under the
/// name of the document: with the number of the page, counted from one,
/// unless there is only one. Pages that could not be drawn are left out, and
/// the others keep their numbers.
pub proof fn law_pages_keep_their_numbers(
    stem: Seq<char>,
    pages: Seq<Option<Vec<u8>>>,
    n: nat,
    k: int,
)
    requires
        0 <= k < n <= pages.len(),
    ensures
        pages[k] matches Some(png) ==> named_pages(stem, pages, n).contains(
            NamedFile {
                name: if pages.len() == 1 {
                    stem
                } else {
                    stem + " p"@ + decimal((k + 1) as nat)
                },
                bytes: png@,
            },
        ),
        named_pages(stem, pages, n).len() <= n,
        pages[n - 1] is None ==> named_pages(stem, pages, n) == named_pages(
            stem,
            pages,
            (n - 1) as nat,
        ),
        pages[n - 1] is Some ==> named_pages(stem, pages, n).len() == named_pages(
            stem,
            pages,
            (n - 1) as nat,
        ).len() + 1,
    decreases n,
{
    let before = named_pages(stem, pages, (n - 1) as nat);
    let now = named_pages(stem, pages, n);
    if n > 1 {
        law_pages_keep_their_numbers(
            stem,
            pages,
            (n - 1) as nat,
            if k < n - 1 {
                k
            } else {
                0
            },
        );
    } else {
        assert(before.len() == 0);
    }
    if let Some(png) = pages[k] {
        let file = NamedFile {
            name: if pages.len() == 1 {
                stem
            } else {
                stem + " p"@ + decimal((k + 1) as nat)
            },
            bytes: png@,
        };
        if k < n - 1 {
            let i = choose|i: int| 0 <= i < before.len() && before[i] == file;
            assert(now[i] == file);
        } else {
            assert(now[before.len() as int] == file);
        }
    }
}

} // verus!
