use vstd::prelude::*;
use crate::pages::{ObjectRef, index_of, position_of};

verus! {

/// Where a bookmark leads: a named destination, or a page by identity.
#[derive(Debug, Clone)]
pub enum BookmarkDestination {
    Named(String),
    Page(ObjectRef),
}

/// A resolved top-level bookmark; `index` is its position among the resolved ones.
#[derive(Debug, Clone)]
pub struct Bookmark {
    pub index: usize,
    pub title: String,
    pub destination: BookmarkDestination,
}

/// The action of an outline entry, as far as bookmark resolution reads it.
#[derive(Debug, Clone)]
pub enum OutlineAction {
    /// The entry carries no action.
    Absent,
    /// A go-to action with an explicit destination, and the page it names, if any.
    GotoPage(Option<ObjectRef>),
    /// A go-to action with a named destination.
    GotoNamed(String),
    /// Any other kind of action.
    Other,
}

/// One entry of the top-level outline list, decoded.
#[derive(Debug, Clone)]
pub struct OutlineEntry {
    pub title: Option<String>,
    pub dest: Option<String>,
    pub action: OutlineAction,
}

/// Whether an outline entry yields a bookmark: it has a title and a destination
/// string, a go-to action with a page, or a go-to action with a name.
pub open spec fn yields_bookmark(e: OutlineEntry) -> bool {
    &&& e.title is Some
    &&& (e.dest is Some || e.action matches OutlineAction::GotoPage(Some(_))
        || e.action is GotoNamed)
}

/// Whether `b` is the bookmark that entry `e` yields at position `index`.
pub open spec fn is_bookmark_of(b: Bookmark, e: OutlineEntry, index: int) -> bool {
    &&& b.index == index
    &&& b.title@ == e.title->Some_0@
    &&& match e.dest {
        Some(d) => b.destination matches BookmarkDestination::Named(n) && n@ == d@,
        None => match e.action {
            OutlineAction::GotoPage(Some(p)) => b.destination == BookmarkDestination::Page(p),
            OutlineAction::GotoNamed(d) => b.destination matches BookmarkDestination::Named(n)
                && n@ == d@,
            _ => false,
        },
    }
}

/// The entries of an outline list that yield bookmarks, in order.
pub open spec fn bookmark_entries(entries: Seq<OutlineEntry>) -> Seq<OutlineEntry> {
    entries.filter(|e: OutlineEntry| yields_bookmark(e))
}

/// The bookmark that an entry yields, if it yields one.
fn entry_bookmark(e: &OutlineEntry, index: usize) -> (r: Option<Bookmark>)
    ensures
        r is Some <==> yields_bookmark(*e),
        r matches Some(b) ==> is_bookmark_of(b, *e, index as int),
{
    let title = match &e.title {
        Some(t) => t.clone(),
        None => return None,
    };
    if let Some(d) = &e.dest {
        return Some(
            Bookmark { index, title, destination: BookmarkDestination::Named(d.clone()) },
        );
    }
    match &e.action {
        OutlineAction::GotoPage(Some(p)) => Some(
            Bookmark { index, title, destination: BookmarkDestination::Page(*p) },
        ),
        OutlineAction::GotoNamed(d) => Some(
            Bookmark { index, title, destination: BookmarkDestination::Named(d.clone()) },
        ),
        _ => None,
    }
}

/// The top-level bookmarks of an outline list: one for each entry that yields
/// one, numbered from zero in list order. Entries without a title or a usable
/// destination are skipped and take no number.
pub fn get_top_level_bookmarks(entries: &Vec<OutlineEntry>) -> (r: Vec<Bookmark>)
    ensures
        r@.len() == bookmark_entries(entries@).len(),
        forall|k: int|
            0 <= k < r@.len() ==> is_bookmark_of(#[trigger] r@[k], bookmark_entries(entries@)[k], k),
{
    let ghost pred = |e: OutlineEntry| yields_bookmark(e);
    let mut r: Vec<Bookmark> = Vec::new();
    let mut i: usize = 0;
    while i < entries.len()
        invariant
            i <= entries.len(),
            pred == (|e: OutlineEntry| yields_bookmark(e)),
            r@.len() == entries@.take(i as int).filter(pred).len(),
            forall|k: int|
                0 <= k < r@.len() ==> is_bookmark_of(
                    #[trigger] r@[k],
                    entries@.take(i as int).filter(pred)[k],
                    k,
                ),
        decreases entries.len() - i,
    {
        let ghost prefix = entries@.take(i as int);
        proof {
            assert(entries@.take(i + 1) =~= prefix.push(entries@[i as int]));
            prefix.lemma_filter_push(entries@[i as int], pred);
        }
        let b = entry_bookmark(&entries[i], r.len());
        if let Some(b) = b {
            r.push(b);
        }
        i = i + 1;
    }
    assert(entries@.take(entries@.len() as int) =~= entries@);
    r
}

/// A named destination of the document and the page it points to, if any.
#[derive(Debug, Clone)]
pub struct NamedDestination {
    pub name: String,
    pub page: Option<ObjectRef>,
}

/// The page index that a named destination maps to, if its page is among `pages`
/// at an index that fits in `u32`.
pub open spec fn named_page_index(d: NamedDestination, pages: Seq<ObjectRef>) -> Option<u32> {
    match d.page {
        Some(p) => page_index(pages, p),
        None => None,
    }
}

/// The index of page `p` among `pages`, where it is there at an index that fits in `u32`.
pub open spec fn page_index(pages: Seq<ObjectRef>, p: ObjectRef) -> Option<u32> {
    match index_of(pages, p) {
        Some(i) => if 0 <= i <= u32::MAX { Some(i as u32) } else { None },
        None => None,
    }
}

/// The name-to-page table: one row for each named destination with a page
/// index, in the order of `named`.
pub open spec fn destination_table(named: Seq<NamedDestination>, pages: Seq<ObjectRef>) -> Seq<
    (Seq<char>, u32),
>
    decreases named.len(),
{
    if named.len() == 0 {
        Seq::empty()
    } else {
        let rest = destination_table(named.drop_last(), pages);
        match named_page_index(named.last(), pages) {
            Some(i) => rest.push((named.last().name@, i)),
            None => rest,
        }
    }
}

/// The page that the table gives `name`: its last row for that name wins.
pub open spec fn table_lookup(table: Seq<(Seq<char>, u32)>, name: Seq<char>) -> Option<u32>
    decreases table.len(),
{
    if table.len() == 0 {
        None
    } else if table.last().0 == name {
        Some(table.last().1)
    } else {
        table_lookup(table.drop_last(), name)
    }
}

/// Builds the name-to-page table of the named destinations.
pub fn get_destination_pages(named: &Vec<NamedDestination>, pages: &Vec<ObjectRef>) -> (r: Vec<
    (String, u32),
>)
    ensures
        r@.len() == destination_table(named@, pages@).len(),
        forall|k: int|
            0 <= k < r@.len() ==> (#[trigger] r@[k]).0@ == destination_table(named@, pages@)[k].0
                && r@[k].1 == destination_table(named@, pages@)[k].1,
{
    let mut r: Vec<(String, u32)> = Vec::new();
    let mut i: usize = 0;
    while i < named.len()
        invariant
            i <= named.len(),
            r@.len() == destination_table(named@.take(i as int), pages@).len(),
            forall|k: int|
                0 <= k < r@.len() ==> (#[trigger] r@[k]).0@ == destination_table(
                    named@.take(i as int),
                    pages@,
                )[k].0 && r@[k].1 == destination_table(named@.take(i as int), pages@)[k].1,
        decreases named.len() - i,
    {
        let d = &named[i];
        proof {
            assert(named@.take(i + 1).drop_last() =~= named@.take(i as int));
            assert(named@.take(i + 1).last() == named@[i as int]);
        }
        let ghost before = r@;
        let ghost prev = destination_table(named@.take(i as int), pages@);
        if let Some(p) = d.page {
            if let Some(pi) = position_of(pages, p) {
                if pi <= 0xffff_ffffusize {
                    let name = d.name.clone();
                    r.push((name, pi as u32));
                    assert(named_page_index(*d, pages@) == Some(pi as u32));
                    assert(r@ == before.push((name, pi as u32)));
                }
            }
        }
        i = i + 1;
        assert(destination_table(named@.take(i as int), pages@).len() == r@.len());
    }
    assert(named@.take(named@.len() as int) =~= named@);
    r
}

/// A name-to-page table with its names as character sequences.
pub open spec fn table_view(t: Seq<(String, u32)>) -> Seq<(Seq<char>, u32)> {
    t.map_values(|e: (String, u32)| (e.0@, e.1))
}

/// Looks `name` up in a name-to-page table; the last row for it wins.
pub fn lookup_destination(table: &Vec<(String, u32)>, name: &String) -> (r: Option<u32>)
    ensures
        r == table_lookup(table_view(table@), name@),
{
    let ghost t = table_view(table@);
    let mut r: Option<u32> = None;
    let mut i: usize = 0;
    while i < table.len()
        invariant
            i <= table.len(),
            t == table_view(table@),
            r == table_lookup(t.take(i as int), name@),
        decreases table.len() - i,
    {
        proof {
            assert(t.take(i + 1).drop_last() =~= t.take(i as int));
        }
        if table[i].0 == *name {
            r = Some(table[i].1);
        }
        i = i + 1;
    }
    assert(t.take(t.len() as int) =~= t);
    r
}

/// The zero-based page index of a bookmark's destination: a name through the
/// table, a page by its position among `page_references`.
pub fn bookmark_destination_to_page_index(
    destination: &BookmarkDestination,
    destination_pages: &Vec<(String, u32)>,
    page_references: &Vec<ObjectRef>,
) -> (r: Option<u32>)
    ensures
        match destination {
            BookmarkDestination::Named(n) => r == table_lookup(
                table_view(destination_pages@),
                n@,
            ),
            BookmarkDestination::Page(p) => r == page_index(page_references@, *p),
        },
{
    match destination {
        BookmarkDestination::Named(n) => lookup_destination(destination_pages, n),
        BookmarkDestination::Page(p) => match position_of(page_references, *p) {
            Some(i) => if i <= 0xffff_ffffusize {
                Some(i as u32)
            } else {
                None
            },
            None => None,
        },
    }
}

} // verus!
