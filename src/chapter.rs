use vstd::prelude::*;
use crate::error::DocumentError;
use crate::outline::{Bookmark, BookmarkDestination, bookmark_destination_to_page_index, page_index, table_lookup, table_view};
use crate::pages::ObjectRef;

verus! {

/// How the title of the airport directory chapter's bookmark ends.
pub const DIRECTORY_SUFFIX: &'static str = ": AIRPORT/FACILITY DIRECTORY";

pub open spec fn ends_with(s: Seq<char>, suffix: Seq<char>) -> bool {
    s.len() >= suffix.len() && s.subrange(s.len() - suffix.len(), s.len() as int) == suffix
}

/// Whether `title` ends with `suffix`.
pub fn title_ends_with(title: &str, suffix: &str) -> (r: bool)
    ensures
        r == ends_with(title@, suffix@),
{
    let n = title.unicode_len();
    let m = suffix.unicode_len();
    if n < m {
        return false;
    }
    let mut i: usize = 0;
    while i < m
        invariant
            n == title@.len(),
            m == suffix@.len(),
            m <= n,
            i <= m,
            forall|j: int| 0 <= j < i ==> title@[n - m + j] == suffix@[j],
        decreases m - i,
    {
        if title.get_char(n - m + i) != suffix.get_char(i) {
            assert(title@.subrange(n - m, n as int)[i as int] != suffix@[i as int]);
            return false;
        }
        i = i + 1;
    }
    assert(title@.subrange(n - m, n as int) =~= suffix@);
    true
}

/// The page that a bookmark's destination resolves to (see `bookmark_destination_to_page_index`).
pub open spec fn destination_page(
    d: BookmarkDestination,
    table: Seq<(String, u32)>,
    pages: Seq<ObjectRef>,
) -> Option<u32> {
    match d {
        BookmarkDestination::Named(n) => table_lookup(table_view(table), n@),
        BookmarkDestination::Page(p) => page_index(pages, p),
    }
}

/// Bookmark `i` is the first whose title ends with `suffix`.
pub open spec fn is_first_chapter(bookmarks: Seq<Bookmark>, suffix: Seq<char>, i: int) -> bool {
    &&& 0 <= i < bookmarks.len()
    &&& ends_with(bookmarks[i].title@, suffix)
    &&& forall|j: int| 0 <= j < i ==> !ends_with(#[trigger] bookmarks[j].title@, suffix)
}

/// The pages of the chapter of bookmark `i`: from its page up to, not
/// including, the page of the next bookmark, or up to `page_count` where it is
/// the last. An unresolvable bookmark fails with `ResolutionFailure`.
pub open spec fn chapter_range(
    bookmarks: Seq<Bookmark>,
    i: int,
    table: Seq<(String, u32)>,
    pages: Seq<ObjectRef>,
    page_count: u32,
) -> Result<(u32, u32), DocumentError> {
    match destination_page(bookmarks[i].destination, table, pages) {
        None => Err(DocumentError::ResolutionFailure),
        Some(start) => if i + 1 < bookmarks.len() {
            match destination_page(bookmarks[i + 1].destination, table, pages) {
                None => Err(DocumentError::ResolutionFailure),
                Some(end) => Ok((start, end)),
            }
        } else {
            Ok((start, page_count))
        },
    }
}

/// Finds the first bookmark whose title ends with `suffix`.
pub fn find_chapter(bookmarks: &Vec<Bookmark>, suffix: &str) -> (r: Option<usize>)
    ensures
        r matches Some(i) ==> is_first_chapter(bookmarks@, suffix@, i as int),
        r is None ==> forall|j: int| 0 <= j < bookmarks@.len() ==> !ends_with(#[trigger] bookmarks@[j].title@, suffix@),
{
    let mut i: usize = 0;
    while i < bookmarks.len()
        invariant
            i <= bookmarks.len(),
            forall|j: int| 0 <= j < i ==> !ends_with(#[trigger] bookmarks@[j].title@, suffix@),
        decreases bookmarks.len() - i,
    {
        if title_ends_with(bookmarks[i].title.as_str(), suffix) {
            return Some(i);
        }
        i = i + 1;
    }
    None
}

/// The page range `[start, end)` of the chapter whose bookmark title is the
/// first to end with `suffix`; `ResolutionFailure` where there is none, or
/// where it or the bookmark after it cannot be resolved to a page.
pub fn chapter_page_range(
    bookmarks: &Vec<Bookmark>,
    suffix: &str,
    destination_pages: &Vec<(String, u32)>,
    page_references: &Vec<ObjectRef>,
    page_count: u32,
) -> (r: Result<(u32, u32), DocumentError>)
    ensures
        (forall|j: int| 0 <= j < bookmarks@.len() ==> !ends_with(#[trigger] bookmarks@[j].title@, suffix@))
            ==> r == Err::<(u32, u32), DocumentError>(DocumentError::ResolutionFailure),
        forall|i: int|
            is_first_chapter(bookmarks@, suffix@, i) ==> r == chapter_range(
                bookmarks@,
                i,
                destination_pages@,
                page_references@,
                page_count,
            ),
{
    let i = match find_chapter(bookmarks, suffix) {
        Some(i) => i,
        None => return Err(DocumentError::ResolutionFailure),
    };
    proof {
        assert forall|k: int| is_first_chapter(bookmarks@, suffix@, k) implies k == i by {
            if k < i {
                assert(!ends_with(bookmarks@[k].title@, suffix@));
            } else if k > i {
                assert(!ends_with(bookmarks@[i as int].title@, suffix@));
            }
        }
    }
    let start = match bookmark_destination_to_page_index(&bookmarks[i].destination, destination_pages, page_references) {
        Some(s) => s,
        None => return Err(DocumentError::ResolutionFailure),
    };
    if i < bookmarks.len() - 1 {
        match bookmark_destination_to_page_index(&bookmarks[i + 1].destination, destination_pages, page_references) {
            Some(e) => Ok((start, e)),
            None => Err(DocumentError::ResolutionFailure),
        }
    } else {
        Ok((start, page_count))
    }
}

/// The page range of the airport directory chapter (see `chapter_page_range`).
pub fn directory_page_range(
    bookmarks: &Vec<Bookmark>,
    destination_pages: &Vec<(String, u32)>,
    page_references: &Vec<ObjectRef>,
    page_count: u32,
) -> (r: Result<(u32, u32), DocumentError>)
    ensures
        (forall|j: int| 0 <= j < bookmarks@.len() ==> !ends_with(#[trigger] bookmarks@[j].title@, DIRECTORY_SUFFIX@))
            ==> r == Err::<(u32, u32), DocumentError>(DocumentError::ResolutionFailure),
        forall|i: int|
            is_first_chapter(bookmarks@, DIRECTORY_SUFFIX@, i) ==> r == chapter_range(
                bookmarks@,
                i,
                destination_pages@,
                page_references@,
                page_count,
            ),
{
    chapter_page_range(bookmarks, DIRECTORY_SUFFIX, destination_pages, page_references, page_count)
}

} // verus!
