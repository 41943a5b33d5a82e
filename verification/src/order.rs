//! The order record of a directory: the names of its entries in the order in
//! which their owner wants to see them, kept in a sidecar file inside the
//! directory itself.

use crate::sorting::Ranked;
use crate::text::{
    chars_of, lemma_lex_irreflexive, lemma_lex_total, lemma_lex_transitive, lex_less, lex_lt,
    lowercase, lowercase_of, push_char, same_text,
};
use vstd::prelude::*;
use vstd::string::*;

verus! {

/// Name of the sidecar file that keeps the order record of a directory.
pub const ORDER_FILE_NAME: &'static str = ".tau_order.json";

/// The order record of one directory.
#[derive(Debug, Clone, PartialEq, Eq)]
pub struct FileOrder {
    /// Names of entries, first to last.
    pub order: Vec<String>,
}

impl View for FileOrder {
    type V = Seq<Seq<char>>;

    open spec fn view(&self) -> Seq<Seq<char>> {
        self.order.deep_view()
    }
}

/// Rank of `name` in an order record: the index of its last occurrence, or
/// none where the record does not name it. (A valid record names nothing
/// twice; where one does, the later place counts.)
pub open spec fn rank_of(order: Seq<Seq<char>>, name: Seq<char>) -> Option<int>
    decreases order.len(),
{
    if order.len() == 0 {
        None
    } else if order.last() == name {
        Some(order.len() - 1)
    } else {
        rank_of(order.drop_last(), name)
    }
}

/// A record is valid when it names nothing twice.
pub open spec fn valid_order(order: Seq<Seq<char>>) -> bool {
    order.no_duplicates()
}

/// What a rank is: a place of the name in the record with no later place.
pub proof fn lemma_rank_of(order: Seq<Seq<char>>, name: Seq<char>)
    ensures
        match rank_of(order, name) {
            Some(r) => {
                &&& 0 <= r < order.len()
                &&& order[r] == name
                &&& forall|j: int| r < j < order.len() ==> order[j] != name
            },
            None => !order.contains(name),
        },
    decreases order.len(),
{
    if order.len() > 0 && order.last() != name {
        let rest = order.drop_last();
        lemma_rank_of(rest, name);
        match rank_of(rest, name) {
            Some(r) => {
                assert(rest[r] == order[r]);
                assert forall|j: int| r < j < order.len() implies order[j] != name by {
                    if j < rest.len() {
                        assert(rest[j] == order[j]);
                    }
                }
            },
            None => {
                assert forall|j: int| 0 <= j < order.len() implies order[j] != name by {
                    if j < rest.len() {
                        assert(rest[j] == order[j]);
                        assert(rest.contains(rest[j]));
                    }
                }
            },
        }
    }
}

/// In a valid record the rank of a name is the one place where it stands.
pub proof fn lemma_rank_in_valid_order(order: Seq<Seq<char>>, i: int)
    requires
        valid_order(order),
        0 <= i < order.len(),
    ensures
        rank_of(order, order[i]) == Some(i),
{
    lemma_rank_of(order, order[i]);
    assert(order.contains(order[i]));
}

impl FileOrder {
    /// A record that names nothing.
    pub fn empty() -> (r: FileOrder)
        ensures
            r@ == Seq::<Seq<char>>::empty(),
    {
        let r = FileOrder { order: Vec::new() };
        assert(r@ =~= Seq::<Seq<char>>::empty());
        r
    }

    /// The rank of `name`, if the record names it.
    pub fn rank(&self, name: &str) -> (r: Option<usize>)
        ensures
            match r {
                Some(i) => rank_of(self@, name@) == Some(i as int),
                None => rank_of(self@, name@).is_none(),
            },
    {
        let ghost order = self@;
        let mut i: usize = self.order.len();
        assert(order.take(i as int) == order);
        while i > 0
            invariant
                i <= self.order.len(),
                order == self@,
                rank_of(order, name@) == rank_of(order.take(i as int), name@),
            decreases i,
        {
            i -= 1;
            proof {
                let upto = order.take(i as int + 1);
                assert(upto.last() == self.order@[i as int]@);
                assert(upto.drop_last() == order.take(i as int));
            }
            if same_text(self.order[i].as_str(), name) {
                return Some(i);
            }
        }
        None
    }
}

/// The record that governs a directory: the one that its sidecar file held,
/// or the empty record where the file was missing, unreadable or malformed.
/// A bad sidecar never stops a listing.
pub fn read_file_order(stored: Option<FileOrder>) -> (r: FileOrder)
    ensures
        r@ == match stored {
            Some(found) => found@,
            None => Seq::<Seq<char>>::empty(),
        },
{
    match stored {
        Some(found) => found,
        None => FileOrder::empty(),
    }
}

/// Where the sidecar of the directory `dir` is: the plain name for the
/// empty path, else `dir`, a `/` unless `dir` ends in one, and the name.
pub open spec fn order_file_path(dir: Seq<char>) -> Seq<char> {
    if dir.len() == 0 || dir.last() == '/' {
        dir + ORDER_FILE_NAME@
    } else {
        dir + seq!['/'] + ORDER_FILE_NAME@
    }
}

/// Path of the sidecar file of the directory `dir_path`.
pub fn get_order_file_path(dir_path: &str) -> (path: String)
    ensures
        path@ == order_file_path(dir_path@),
{
    let dir = chars_of(dir_path);
    let mut path = dir_path.to_owned();
    if dir.len() > 0 && dir[dir.len() - 1] != '/' {
        push_char(&mut path, '/');
        assert(path@ == dir_path@ + seq!['/']);
    }
    path.append(ORDER_FILE_NAME);
    path
}

/// Whether `name` is the name of the sidecar file.
pub fn is_order_file(name: &str) -> (r: bool)
    ensures
        r == (name@ == ORDER_FILE_NAME@),
{
    same_text(name, ORDER_FILE_NAME)
}

// ---------------------------------------------------------------------------
// The key by which entries are ordered
// ---------------------------------------------------------------------------

/// What the place of an entry depends on.
#[derive(Debug, PartialEq, Eq)]
pub struct SortKey {
    /// Files come after directories.
    pub is_file: bool,
    /// Rank in the order record, if the record names the entry.
    pub rank: Option<usize>,
    /// The name in lower case.
    pub folded: Vec<char>,
}

/// A `SortKey` seen as plain values.
pub ghost struct SortKeyView {
    pub is_file: bool,
    pub rank: Option<int>,
    pub folded: Seq<char>,
}

impl View for SortKey {
    type V = SortKeyView;

    open spec fn view(&self) -> SortKeyView {
        SortKeyView {
            is_file: self.is_file,
            rank: match self.rank {
                Some(r) => Some(r as int),
                None => None,
            },
            folded: self.folded@,
        }
    }
}

/// The tie-break chain: directories before files; within one kind a ranked
/// entry before an unranked one, two ranked ones by rank, two unranked ones
/// by their lower-case names.
pub open spec fn key_before(a: SortKeyView, b: SortKeyView) -> bool {
    if a.is_file != b.is_file {
        !a.is_file
    } else {
        match (a.rank, b.rank) {
            (Some(x), Some(y)) => x < y,
            (Some(_), None) => true,
            (None, Some(_)) => false,
            (None, None) => lex_lt(a.folded, b.folded),
        }
    }
}

/// `key_before` is a strict weak order.
pub proof fn lemma_key_before(a: SortKeyView, b: SortKeyView, c: SortKeyView)
    ensures
        !key_before(a, a),
        key_before(a, b) ==> !key_before(b, a),
        key_before(a, b) && key_before(b, c) ==> key_before(a, c),
        key_before(a, b) ==> key_before(a, c) || key_before(c, b),
{
    lemma_lex_irreflexive(a.folded);
    lemma_lex_total(a.folded, c.folded);
    lemma_lex_total(c.folded, b.folded);
    if lex_lt(a.folded, b.folded) {
        if lex_lt(b.folded, a.folded) {
            lemma_lex_transitive(a.folded, b.folded, a.folded);
        }
        if lex_lt(b.folded, c.folded) {
            lemma_lex_transitive(a.folded, b.folded, c.folded);
        }
        if lex_lt(c.folded, a.folded) {
            lemma_lex_transitive(c.folded, a.folded, b.folded);
        }
    }
}

impl Ranked for SortKey {
    open spec fn before(&self, other: &Self) -> bool {
        key_before(self@, other@)
    }

    fn is_before(&self, other: &Self) -> (r: bool) {
        if self.is_file != other.is_file {
            !self.is_file
        } else {
            match (self.rank, other.rank) {
                (Some(x), Some(y)) => x < y,
                (Some(_), None) => true,
                (None, Some(_)) => false,
                (None, None) => lex_less(&self.folded, &other.folded),
            }
        }
    }

    proof fn lemma_strict_weak(a: &Self, b: &Self, c: &Self) {
        lemma_key_before(a@, b@, c@);
    }
}

/// The key of the entry called `name`, given its kind and the order record
/// of its directory.
pub open spec fn key_of(is_file: bool, name: Seq<char>, order: Seq<Seq<char>>) -> SortKeyView {
    SortKeyView { is_file, rank: rank_of(order, name), folded: lowercase_of(name) }
}

/// The key of the entry called `name`.
pub fn sort_key(is_file: bool, name: &str, order: &FileOrder) -> (key: SortKey)
    ensures
        key@ == key_of(is_file, name@, order@),
{
    let folded = lowercase(name);
    SortKey { is_file, rank: order.rank(name), folded: chars_of(folded.as_str()) }
}

} // verus!
