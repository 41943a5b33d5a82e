//! Listing a directory: its entries, without the sidecar file, in the order
//! that the directory's order record asks for.

use crate::order::{
    is_order_file, key_before, key_of, lemma_key_before, lemma_rank_in_valid_order,
    lemma_rank_of, sort_key, valid_order, FileOrder, SortKey, SortKeyView, ORDER_FILE_NAME,
};
use crate::sorting::{
    ahead, arranged, as_ints, has_key, is_stable_order, key_order, lemma_stable_order_same,
    lemma_stable_order_unique, stable_order,
};
use crate::text::{lex_lt, lowercase_of};
use vstd::prelude::*;

verus! {

/// One file or folder as a listing presents it.
#[derive(Debug, PartialEq, Eq)]
pub struct Entry {
    /// File or folder name.
    pub name: String,
    /// Path relative to the vault root.
    pub path: String,
    /// Whether the entry is a folder.
    pub is_dir: bool,
    /// Time of the last change, in seconds since the epoch, in decimal.
    pub modified: String,
}

/// An `Entry` with its texts as sequences of characters.
pub ghost struct EntryView {
    pub name: Seq<char>,
    pub path: Seq<char>,
    pub is_dir: bool,
    pub modified: Seq<char>,
}

impl View for Entry {
    type V = EntryView;

    open spec fn view(&self) -> EntryView {
        EntryView {
            name: self.name@,
            path: self.path@,
            is_dir: self.is_dir,
            modified: self.modified@,
        }
    }
}

impl DeepView for Entry {
    type V = EntryView;

    open spec fn deep_view(&self) -> EntryView {
        self@
    }
}

impl Entry {
    /// A copy of the entry.
    pub fn duplicate(&self) -> (copy: Entry)
        ensures
            copy@ == self@,
    {
        Entry {
            name: self.name.clone(),
            path: self.path.clone(),
            is_dir: self.is_dir,
            modified: self.modified.clone(),
        }
    }
}

/// The entry at an index is shown unless it is the sidecar file.
pub open spec fn shown_in(found: Seq<EntryView>) -> spec_fn(int) -> bool {
    |k: int| found[k].name != ORDER_FILE_NAME@
}

/// The key by which an entry is placed.
pub open spec fn entry_key(e: EntryView, order: Seq<Seq<char>>) -> SortKeyView {
    key_of(!e.is_dir, e.name, order)
}

/// The order of `entries` under the record `order`, as a relation on their
/// indices.
pub open spec fn entry_order(entries: Seq<EntryView>, order: Seq<Seq<char>>) -> spec_fn(
    int,
    int,
) -> bool {
    |a: int, b: int| key_before(entry_key(entries[a], order), entry_key(entries[b], order))
}

/// `listing` shows the entries of `found` at the indices `pos`, and `pos` is
/// the stable ascending order of the entries that are shown.
pub open spec fn is_listing_by(
    listing: Seq<EntryView>,
    found: Seq<EntryView>,
    order: Seq<Seq<char>>,
    pos: Seq<int>,
) -> bool {
    &&& is_stable_order(pos, found.len() as int, shown_in(found), entry_order(found, order))
    &&& listing == arranged(found, pos)
}

/// `listing` is the listing of a directory in which `found` was found and
/// whose order record is `order`: every entry but the sidecar file, each
/// once, directories first, then by rank, then by lower-case name; entries
/// that this does not tell apart stay as they were found.
pub open spec fn is_listing(
    listing: Seq<EntryView>,
    found: Seq<EntryView>,
    order: Seq<Seq<char>>,
) -> bool {
    exists|pos: Seq<int>| is_listing_by(listing, found, order, pos)
}

/// The listing of a directory in which `found` was found and whose order
/// record is `order`.
pub fn list_entries(found: &Vec<Entry>, order: &FileOrder) -> (listing: Vec<Entry>)
    ensures
        is_listing(listing.deep_view(), found.deep_view(), order@),
{
    let ghost all = found.deep_view();
    let mut keys: Vec<Option<SortKey>> = Vec::new();
    let mut i: usize = 0;
    while i < found.len()
        invariant
            i <= found.len(),
            all == found.deep_view(),
            keys.len() == i,
            forall|v: int|
                0 <= v < i ==> match #[trigger] keys@[v] {
                    Some(key) => shown_in(all)(v) && key@ == entry_key(all[v], order@),
                    None => !shown_in(all)(v),
                },
        decreases found.len() - i,
    {
        let entry = &found[i];
        assert(entry@ == all[i as int]);
        if is_order_file(entry.name.as_str()) {
            keys.push(None);
        } else {
            keys.push(Some(sort_key(!entry.is_dir, entry.name.as_str(), order)));
        }
        i += 1;
    }
    let pos = stable_order(&keys);
    proof {
        lemma_stable_order_same(
            as_ints(pos@),
            all.len() as int,
            has_key(keys@),
            key_order(keys@),
            shown_in(all),
            entry_order(all, order@),
        );
    }
    let mut listing: Vec<Entry> = Vec::new();
    let mut k: usize = 0;
    while k < pos.len()
        invariant
            k <= pos.len(),
            all == found.deep_view(),
            forall|a: int| 0 <= a < pos.len() ==> 0 <= #[trigger] as_ints(pos@)[a] < found.len(),
            listing.len() == k,
            forall|a: int| 0 <= a < k ==> (#[trigger] listing@[a])@ == all[as_ints(pos@)[a]],
        decreases pos.len() - k,
    {
        let from: usize = pos[k];
        assert(as_ints(pos@)[k as int] == from);
        listing.push(found[from].duplicate());
        k += 1;
    }
    proof {
        assert(listing.deep_view() =~= arranged(all, as_ints(pos@)));
        assert(is_listing_by(listing.deep_view(), all, order@, as_ints(pos@)));
    }
    listing
}

// ---------------------------------------------------------------------------
// What a listing promises
// ---------------------------------------------------------------------------

/// The listing of a directory is unique.
pub proof fn lemma_listing_unique(
    one: Seq<EntryView>,
    other: Seq<EntryView>,
    found: Seq<EntryView>,
    order: Seq<Seq<char>>,
)
    requires
        is_listing(one, found, order),
        is_listing(other, found, order),
    ensures
        one == other,
{
    let p = choose|p: Seq<int>| is_listing_by(one, found, order, p);
    let q = choose|q: Seq<int>| is_listing_by(other, found, order, q);
    let by_entry = entry_order(found, order);
    assert forall|a: int, b: int| #[trigger] by_entry(a, b) implies !by_entry(b, a) by {
        let x = entry_key(found[a], order);
        let y = entry_key(found[b], order);
        lemma_key_before(x, y, x);
    }
    lemma_stable_order_unique(p, q, found.len() as int, shown_in(found), by_entry);
}

/// A listing shows the entries that were found, the sidecar file apart, and
/// nothing else: every entry that it shows was found and is no sidecar, and
/// every entry that was found and is no sidecar is shown.
pub proof fn lemma_listing_shows_all(
    listing: Seq<EntryView>,
    found: Seq<EntryView>,
    order: Seq<Seq<char>>,
)
    requires
        is_listing(listing, found, order),
    ensures
        forall|i: int| 0 <= i < listing.len() ==> found.contains(#[trigger] listing[i]),
        forall|i: int| 0 <= i < listing.len() ==> (#[trigger] listing[i]).name != ORDER_FILE_NAME@,
        forall|k: int|
            0 <= k < found.len() && found[k].name != ORDER_FILE_NAME@ ==> listing.contains(
                #[trigger] found[k],
            ),
{
    let pos = choose|pos: Seq<int>| is_listing_by(listing, found, order, pos);
    assert forall|i: int| 0 <= i < listing.len() implies found.contains(#[trigger] listing[i])
        && listing[i].name != ORDER_FILE_NAME@ by {
        assert(listing[i] == found[pos[i]]);
        assert(shown_in(found)(pos[i]));
    }
    assert forall|k: int|
        0 <= k < found.len() && found[k].name != ORDER_FILE_NAME@ implies listing.contains(
        #[trigger] found[k],
    ) by {
        assert(shown_in(found)(k));
        assert(pos.contains(k));
        let at = choose|at: int| 0 <= at < pos.len() && pos[at] == k;
        assert(listing[at] == found[k]);
    }
}

/// Without an order record a listing shows directories before files, and
/// each of the two groups sorted by lower-case name.
pub proof fn lemma_listing_without_order(
    listing: Seq<EntryView>,
    found: Seq<EntryView>,
    i: int,
    j: int,
)
    requires
        is_listing(listing, found, Seq::<Seq<char>>::empty()),
        0 <= i < j < listing.len(),
    ensures
        listing[j].is_dir ==> listing[i].is_dir,
        listing[i].is_dir == listing[j].is_dir ==> !lex_lt(
            lowercase_of(listing[j].name),
            lowercase_of(listing[i].name),
        ),
{
    let order = Seq::<Seq<char>>::empty();
    let pos = choose|pos: Seq<int>| is_listing_by(listing, found, order, pos);
    assert(ahead(entry_order(found, order), pos[i], pos[j]));
    lemma_key_before(
        entry_key(listing[i], order),
        entry_key(listing[j], order),
        entry_key(listing[i], order),
    );
}

/// Entries that a valid order record names are listed in the order in which
/// the record names them, and before every entry of their kind that the
/// record does not name.
pub proof fn lemma_listing_follows_order(
    listing: Seq<EntryView>,
    found: Seq<EntryView>,
    order: Seq<Seq<char>>,
    i: int,
    j: int,
)
    requires
        is_listing(listing, found, order),
        valid_order(order),
        0 <= i < listing.len(),
        0 <= j < listing.len(),
        listing[i].is_dir == listing[j].is_dir,
    ensures
        forall|p: int, q: int|
            0 <= p < q < order.len() && #[trigger] order[p] == listing[i].name
                && #[trigger] order[q] == listing[j].name ==> i < j,
        order.contains(listing[i].name) && !order.contains(listing[j].name) ==> i < j,
{
    let pos = choose|pos: Seq<int>| is_listing_by(listing, found, order, pos);
    let by_entry = entry_order(found, order);
    let x = entry_key(listing[i], order);
    let y = entry_key(listing[j], order);
    lemma_key_before(x, y, x);
    lemma_rank_of(order, listing[i].name);
    lemma_rank_of(order, listing[j].name);
    if j < i {
        assert(ahead(by_entry, pos[j], pos[i]));
    }
    assert forall|p: int, q: int|
        0 <= p < q < order.len() && #[trigger] order[p] == listing[i].name && #[trigger] order[q]
            == listing[j].name implies i < j by {
        lemma_rank_in_valid_order(order, p);
        lemma_rank_in_valid_order(order, q);
    }
}

} // verus!
