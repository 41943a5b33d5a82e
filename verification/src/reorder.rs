//! Moving one entry of a directory next to another one, and the order record
//! that results.

use crate::error::{VaultError, VaultErrorView};
use crate::listing::{entry_key, entry_order, is_listing, is_listing_by, shown_in, EntryView};
use crate::order::{
    is_order_file, key_before, key_of, lemma_key_before, lemma_rank_in_valid_order, sort_key,
    valid_order, FileOrder, SortKey, ORDER_FILE_NAME,
};
use crate::sorting::{
    ahead, arranged, as_ints, has_key, is_stable_order, key_order, lemma_stable_order_distinct,
    lemma_stable_order_same, lemma_stable_order_unique, stable_order,
};
use crate::text::{chars_of, same_text, text_of};
use vstd::prelude::*;
use vstd::string::*;

verus! {

/// On which side of the target the moved entry is put.
#[derive(Debug, Clone, Copy, PartialEq, Eq, Structural)]
pub enum Position {
    Before,
    After,
}

/// What a position word means: `before` is `Before`, every other word is
/// `After`.
pub open spec fn position_of(word: Seq<char>) -> Position {
    if word == "before"@ {
        Position::Before
    } else {
        Position::After
    }
}

/// Reads a position word.
pub fn parse_position(word: &str) -> (p: Position)
    ensures
        p == position_of(word@),
{
    if same_text(word, "before") {
        Position::Before
    } else {
        Position::After
    }
}

// ---------------------------------------------------------------------------
// The name at the end of a path
// ---------------------------------------------------------------------------

/// `/` and `\` part the segments of a path.
pub open spec fn is_separator(c: char) -> bool {
    c == '/' || c == '\\'
}

/// Where the last segment of `path` starts: right after the last separator,
/// or at 0 where there is none.
pub open spec fn segment_start(path: Seq<char>) -> int
    decreases path.len(),
{
    if path.len() == 0 {
        0
    } else if is_separator(path.last()) {
        path.len() as int
    } else {
        segment_start(path.drop_last())
    }
}

/// The last segment of `path`: the name that the path ends in.
pub open spec fn final_segment(path: Seq<char>) -> Seq<char> {
    path.skip(segment_start(path))
}

/// The last segment starts at the beginning or after a separator, and holds
/// no separator.
pub proof fn lemma_segment_start(path: Seq<char>)
    ensures
        0 <= segment_start(path) <= path.len(),
        segment_start(path) == 0 || is_separator(path[segment_start(path) - 1]),
        forall|k: int| segment_start(path) <= k < path.len() ==> !is_separator(path[k]),
    decreases path.len(),
{
    if path.len() > 0 && !is_separator(path.last()) {
        let rest = path.drop_last();
        lemma_segment_start(rest);
        assert forall|k: int| segment_start(path) <= k < path.len() implies !is_separator(
            path[k],
        ) by {
            if k < rest.len() {
                assert(rest[k] == path[k]);
            }
        }
        if segment_start(path) > 0 {
            assert(rest[segment_start(path) - 1] == path[segment_start(path) - 1]);
        }
    }
}

/// The name that `path` ends in.
pub fn entry_name(path: &str) -> (name: String)
    ensures
        name@ == final_segment(path@),
{
    let chars = chars_of(path);
    let mut start: usize = chars.len();
    assert(chars@.take(start as int) == chars@);
    while start > 0 && chars[start - 1] != '/' && chars[start - 1] != '\\'
        invariant
            start <= chars.len(),
            segment_start(chars@.take(start as int)) == segment_start(chars@),
        decreases start,
    {
        proof {
            let upto = chars@.take(start as int);
            assert(upto.last() == chars@[start - 1]);
            assert(upto.drop_last() == chars@.take(start - 1));
        }
        start -= 1;
    }
    proof {
        let upto = chars@.take(start as int);
        if start > 0 {
            assert(upto.last() == chars@[start - 1]);
        }
        assert(segment_start(chars@) == start);
    }
    let name = text_of(&chars, start, chars.len());
    name
}

// ---------------------------------------------------------------------------
// The order in which a directory stands now
// ---------------------------------------------------------------------------

/// The name at an index is a candidate unless it is the sidecar file.
pub open spec fn named_in(names: Seq<Seq<char>>) -> spec_fn(int) -> bool {
    |k: int| names[k] != ORDER_FILE_NAME@
}

/// The order of `names` under the record `order`: by rank, then by
/// lower-case name, with no split between directories and files.
pub open spec fn name_order(names: Seq<Seq<char>>, order: Seq<Seq<char>>) -> spec_fn(
    int,
    int,
) -> bool {
    |a: int, b: int| key_before(key_of(false, names[a], order), key_of(false, names[b], order))
}

/// `current` holds the names at the indices `pos`, and `pos` is the stable
/// ascending order of the names that are candidates.
pub open spec fn is_current_order_by(
    current: Seq<Seq<char>>,
    names: Seq<Seq<char>>,
    order: Seq<Seq<char>>,
    pos: Seq<int>,
) -> bool {
    &&& is_stable_order(pos, names.len() as int, named_in(names), name_order(names, order))
    &&& current == arranged(names, pos)
}

/// `current` is the order in which a directory stands: the names found in
/// it, the sidecar file apart, by rank in the record `order` and then by
/// lower-case name.
pub open spec fn is_current_order(
    current: Seq<Seq<char>>,
    names: Seq<Seq<char>>,
    order: Seq<Seq<char>>,
) -> bool {
    exists|pos: Seq<int>| is_current_order_by(current, names, order, pos)
}

/// The order in which the directory stands whose entries are called `names`
/// and whose order record is `order`.
pub fn current_order(names: &Vec<String>, order: &FileOrder) -> (current: Vec<String>)
    ensures
        is_current_order(current.deep_view(), names.deep_view(), order@),
{
    let ghost all = names.deep_view();
    let mut keys: Vec<Option<SortKey>> = Vec::new();
    let mut i: usize = 0;
    while i < names.len()
        invariant
            i <= names.len(),
            all == names.deep_view(),
            keys.len() == i,
            forall|v: int|
                0 <= v < i ==> match #[trigger] keys@[v] {
                    Some(key) => named_in(all)(v) && key@ == key_of(false, all[v], order@),
                    None => !named_in(all)(v),
                },
        decreases names.len() - i,
    {
        let name = names[i].as_str();
        assert(name@ == all[i as int]);
        if is_order_file(name) {
            keys.push(None);
        } else {
            keys.push(Some(sort_key(false, name, order)));
        }
        i += 1;
    }
    let pos = stable_order(&keys);
    proof {
        lemma_stable_order_same(
            as_ints(pos@),
            all.len() as int,
            has_key(keys@),
            key_order(keys@),
            named_in(all),
            name_order(all, order@),
        );
    }
    let mut current: Vec<String> = Vec::new();
    let mut k: usize = 0;
    while k < pos.len()
        invariant
            k <= pos.len(),
            all == names.deep_view(),
            forall|a: int| 0 <= a < pos.len() ==> 0 <= #[trigger] as_ints(pos@)[a] < names.len(),
            current.len() == k,
            forall|a: int| 0 <= a < k ==> (#[trigger] current@[a])@ == all[as_ints(pos@)[a]],
        decreases pos.len() - k,
    {
        let from: usize = pos[k];
        assert(as_ints(pos@)[k as int] == from);
        current.push(names[from].clone());
        k += 1;
    }
    proof {
        assert(current.deep_view() =~= arranged(all, as_ints(pos@)));
        assert(is_current_order_by(current.deep_view(), all, order@, as_ints(pos@)));
    }
    current
}

// ---------------------------------------------------------------------------
// The move
// ---------------------------------------------------------------------------

/// `name` stands in `list` at index `i` and nowhere before.
pub open spec fn found_at(list: Seq<Seq<char>>, name: Seq<char>, i: int) -> bool {
    &&& 0 <= i < list.len()
    &&& list[i] == name
    &&& forall|j: int| 0 <= j < i ==> list[j] != name
}

/// The first index at which `name` stands in `list`.
pub open spec fn first_index(list: Seq<Seq<char>>, name: Seq<char>) -> int {
    choose|i: int| found_at(list, name, i)
}

/// A name stands first at one index only.
pub proof fn lemma_first_index(list: Seq<Seq<char>>, name: Seq<char>, i: int)
    requires
        found_at(list, name, i),
    ensures
        first_index(list, name) == i,
        list.contains(name),
{
    let c = first_index(list, name);
    assert(found_at(list, name, c));
    if c < i {
        assert(list[c] != name);
    } else if i < c {
        assert(list[i] != name);
    }
}

/// Where the entry taken from index `src` of a list of `len` entries goes
/// back in, counted in the list without it: next to the target, which stood
/// at `tgt` and has moved down by one if the entry stood before it; and at
/// the end where that would be beyond the end, as it is for the last entry
/// put after itself.
pub open spec fn insertion_index(src: int, tgt: int, position: Position, len: int) -> int {
    let next_to = match position {
        Position::Before => if src < tgt {
            tgt - 1
        } else {
            tgt
        },
        Position::After => if src < tgt {
            tgt
        } else {
            tgt + 1
        },
    };
    if next_to < len {
        next_to
    } else {
        len - 1
    }
}

/// The list with the entry at `src` taken out and put back next to the one
/// at `tgt`.
pub open spec fn moved(list: Seq<Seq<char>>, src: int, tgt: int, position: Position) -> Seq<
    Seq<char>,
> {
    list.remove(src).insert(insertion_index(src, tgt, position, list.len() as int), list[src])
}

/// Message for a move whose source or target is not in the directory.
pub open spec fn not_in_directory(source: Seq<char>, target: Seq<char>) -> Seq<char> {
    "Could not find source '"@ + source + "' or target '"@ + target + "' in directory"@
}

/// What a move gives: the new list, or `NotFound` where the list lacks the
/// source or the target.
pub open spec fn move_result(
    list: Seq<Seq<char>>,
    source: Seq<char>,
    target: Seq<char>,
    position: Position,
) -> Result<Seq<Seq<char>>, VaultErrorView> {
    if list.contains(source) && list.contains(target) {
        Ok(moved(list, first_index(list, source), first_index(list, target), position))
    } else {
        Err(VaultErrorView::NotFound(not_in_directory(source, target)))
    }
}

/// A result with its texts as sequences of characters.
pub open spec fn names_result_view(r: Result<Vec<String>, VaultError>) -> Result<
    Seq<Seq<char>>,
    VaultErrorView,
> {
    match r {
        Ok(list) => Ok(list.deep_view()),
        Err(e) => Err(e@),
    }
}

/// The first index at which `name` stands in `list`, if it stands there.
pub fn position_of_name(list: &Vec<String>, name: &str) -> (r: Option<usize>)
    ensures
        match r {
            Some(i) => found_at(list.deep_view(), name@, i as int),
            None => !list.deep_view().contains(name@),
        },
{
    let ghost all = list.deep_view();
    let mut i: usize = 0;
    while i < list.len()
        invariant
            i <= list.len(),
            all == list.deep_view(),
            forall|j: int| 0 <= j < i ==> all[j] != name@,
        decreases list.len() - i,
    {
        if same_text(list[i].as_str(), name) {
            return Some(i);
        }
        i += 1;
    }
    None
}

/// Takes the entry called `source` out of `list` and puts it back next to
/// the one called `target`, on the side that `position` names. The last
/// entry put after itself stays last.
pub fn move_entry(list: Vec<String>, source: &str, target: &str, position: Position) -> (r: Result<
    Vec<String>,
    VaultError,
>)
    ensures
        names_result_view(r) == move_result(list.deep_view(), source@, target@, position),
{
    let ghost all = list.deep_view();
    let src = position_of_name(&list, source);
    let tgt = position_of_name(&list, target);
    match (src, tgt) {
        (Some(src), Some(tgt)) => {
            proof {
                lemma_first_index(all, source@, src as int);
                lemma_first_index(all, target@, tgt as int);
            }
            assert(src < list.len() && tgt < list.len());
            let mut list = list;
            let item = list.remove(src);
            assert(list.deep_view() =~= all.remove(src as int));
            let next_to: usize = match position {
                Position::Before => if src < tgt {
                    tgt - 1
                } else {
                    tgt
                },
                Position::After => if src < tgt {
                    tgt
                } else {
                    tgt + 1
                },
            };
            let at: usize = if next_to <= list.len() {
                next_to
            } else {
                list.len()
            };
            list.insert(at, item);
            assert(list.deep_view() =~= moved(all, src as int, tgt as int, position));
            Ok(list)
        },
        _ => {
            let mut message = "Could not find source '".to_owned();
            message.append(source);
            message.append("' or target '");
            message.append(target);
            message.append("' in directory");
            Err(VaultError::NotFound(message))
        },
    }
}

// ---------------------------------------------------------------------------
// What a move promises
// ---------------------------------------------------------------------------

/// Index in the old list of the item that stands at `i` after the item at
/// `src` was taken out and put back at `at`.
pub open spec fn origin(i: int, src: int, at: int) -> int {
    if i == at {
        src
    } else {
        let k = if i < at {
            i
        } else {
            i - 1
        };
        if k < src {
            k
        } else {
            k + 1
        }
    }
}

/// A move rearranges the list: every place of the new list holds the item of
/// one place of the old list, and no two places that of the same.
pub proof fn lemma_moved_rearranges(list: Seq<Seq<char>>, src: int, tgt: int, position: Position)
    requires
        0 <= src < list.len(),
        0 <= tgt < list.len(),
            ensures
        moved(list, src, tgt, position).len() == list.len(),
        forall|i: int|
            0 <= i < list.len() ==> {
                &&& 0 <= #[trigger] origin(
                    i,
                    src,
                    insertion_index(src, tgt, position, list.len() as int),
                ) < list.len()
                &&& moved(list, src, tgt, position)[i] == list[origin(
                    i,
                    src,
                    insertion_index(src, tgt, position, list.len() as int),
                )]
            },
        forall|i: int, j: int|
            0 <= i < j < list.len() ==> #[trigger] origin(
                i,
                src,
                insertion_index(src, tgt, position, list.len() as int),
            ) != #[trigger] origin(
                j,
                src,
                insertion_index(src, tgt, position, list.len() as int),
            ),
        forall|k: int|
            0 <= k < list.len() ==> moved(list, src, tgt, position).contains(#[trigger] list[k]),
{
    let at = insertion_index(src, tgt, position, list.len() as int);
    let new = moved(list, src, tgt, position);
    assert forall|k: int| 0 <= k < list.len() implies new.contains(#[trigger] list[k]) by {
        let i = if k == src {
            at
        } else {
            let m = if k < src {
                k
            } else {
                k - 1
            };
            if m < at {
                m
            } else {
                m + 1
            }
        };
        assert(origin(i, src, at) == k);
        assert(new[i] == list[k]);
    }
}

/// After a move of one entry next to another, the two are neighbours: the
/// moved one stands right after the target for `After`, right before it for
/// `Before`.
pub proof fn lemma_moved_is_adjacent(list: Seq<Seq<char>>, src: int, tgt: int, position: Position)
    requires
        0 <= src < list.len(),
        0 <= tgt < list.len(),
        src != tgt,
    ensures
        ({
            let at = insertion_index(src, tgt, position, list.len() as int);
            let new = moved(list, src, tgt, position);
            &&& 0 <= at < list.len()
            &&& new[at] == list[src]
            &&& match position {
                Position::After => at >= 1 && new[at - 1] == list[tgt],
                Position::Before => at + 1 < list.len() && new[at + 1] == list[tgt],
            }
        }),
{
    lemma_moved_rearranges(list, src, tgt, position);
    let at = insertion_index(src, tgt, position, list.len() as int);
    match position {
        Position::After => {
            assert(origin(at - 1, src, at) == tgt);
        },
        Position::Before => {
            assert(origin(at + 1, src, at) == tgt);
        },
    }
}

/// An entry put before itself stays where it is, and so does the last
/// entry put after itself: the list is what it was.
pub proof fn lemma_moved_next_to_itself(list: Seq<Seq<char>>, at: int, position: Position)
    requires
        0 <= at < list.len(),
        position == Position::Before || at == list.len() - 1,
    ensures
        moved(list, at, at, position) == list,
{
    assert(moved(list, at, at, position) =~= list);
}

/// A move changes nothing but the place of the moved entry: with that entry
/// taken out, the list is what it was.
pub proof fn lemma_moved_keeps_others(list: Seq<Seq<char>>, src: int, tgt: int, position: Position)
    requires
        0 <= src < list.len(),
        0 <= tgt < list.len(),
            ensures
        moved(list, src, tgt, position).remove(
            insertion_index(src, tgt, position, list.len() as int),
        ) == list.remove(src),
{
    assert(moved(list, src, tgt, position).remove(
        insertion_index(src, tgt, position, list.len() as int),
    ) =~= list.remove(src));
}

/// A move of a list that holds no name twice gives such a list again.
pub proof fn lemma_moved_no_duplicates(
    list: Seq<Seq<char>>,
    src: int,
    tgt: int,
    position: Position,
)
    requires
        0 <= src < list.len(),
        0 <= tgt < list.len(),
                list.no_duplicates(),
    ensures
        moved(list, src, tgt, position).no_duplicates(),
{
    lemma_moved_rearranges(list, src, tgt, position);
    let at = insertion_index(src, tgt, position, list.len() as int);
    let new = moved(list, src, tgt, position);
    assert forall|i: int, j: int| 0 <= i < new.len() && 0 <= j < new.len() && i != j implies new[i]
        != new[j] by {
        if i < j {
            assert(origin(i, src, at) != origin(j, src, at));
        } else {
            assert(origin(j, src, at) != origin(i, src, at));
        }
    }
}

// ---------------------------------------------------------------------------
// Reordering a directory
// ---------------------------------------------------------------------------

/// The order in which a directory stands is unique.
pub proof fn lemma_current_order_unique(
    one: Seq<Seq<char>>,
    other: Seq<Seq<char>>,
    names: Seq<Seq<char>>,
    order: Seq<Seq<char>>,
)
    requires
        is_current_order(one, names, order),
        is_current_order(other, names, order),
    ensures
        one == other,
{
    let p = choose|p: Seq<int>| is_current_order_by(one, names, order, p);
    let q = choose|q: Seq<int>| is_current_order_by(other, names, order, q);
    let by_name = name_order(names, order);
    assert forall|a: int, b: int| #[trigger] by_name(a, b) implies !by_name(b, a) by {
        let x = key_of(false, names[a], order);
        let y = key_of(false, names[b], order);
        lemma_key_before(x, y, x);
    }
    lemma_stable_order_unique(p, q, names.len() as int, named_in(names), by_name);
}

/// A result with its texts as sequences of characters.
pub open spec fn order_result_view(r: Result<FileOrder, VaultError>) -> Result<
    Seq<Seq<char>>,
    VaultErrorView,
> {
    match r {
        Ok(record) => Ok(record@),
        Err(e) => Err(e@),
    }
}

/// What reordering gives once the directory's present order is known: the
/// move of the entry that `source` ends in next to the one that `target`
/// ends in.
pub open spec fn reorder_result(
    current: Seq<Seq<char>>,
    source: Seq<char>,
    target: Seq<char>,
    word: Seq<char>,
) -> Result<Seq<Seq<char>>, VaultErrorView> {
    move_result(current, final_segment(source), final_segment(target), position_of(word))
}

/// `r` is what reordering the directory gives.
pub open spec fn is_reordering(
    r: Result<Seq<Seq<char>>, VaultErrorView>,
    names: Seq<Seq<char>>,
    order: Seq<Seq<char>>,
    source: Seq<char>,
    target: Seq<char>,
    word: Seq<char>,
) -> bool {
    exists|current: Seq<Seq<char>>| #[trigger]
        is_current_order(current, names, order) && r == reorder_result(
            current,
            source,
            target,
            word,
        )
}

/// The order record that results when, in the directory whose entries are
/// called `names` and whose record is `order`, the entry `source` is moved
/// next to the entry `target`. `source` and `target` may be paths: the
/// names they end in count.
pub fn reorder_entries(
    names: &Vec<String>,
    order: &FileOrder,
    source: &str,
    target: &str,
    position: &str,
) -> (r: Result<FileOrder, VaultError>)
    ensures
        is_reordering(
            order_result_view(r),
            names.deep_view(),
            order@,
            source@,
            target@,
            position@,
        ),
{
    let current = current_order(names, order);
    let source_name = entry_name(source);
    let target_name = entry_name(target);
    let side = parse_position(position);
    let ghost now = current.deep_view();
    let r = match move_entry(current, source_name.as_str(), target_name.as_str(), side) {
        Ok(list) => Ok(FileOrder { order: list }),
        Err(e) => Err(e),
    };
    assert(order_result_view(r) == reorder_result(now, source@, target@, position@));
    r
}

// ---------------------------------------------------------------------------
// A reordering and the listing that follows it
// ---------------------------------------------------------------------------

/// The names of entries, in their order.
pub open spec fn names_of(found: Seq<EntryView>) -> Seq<Seq<char>> {
    found.map_values(|e: EntryView| e.name)
}

/// A directory that stands in the order of a record which names each of its
/// entries once, and nothing else, stands as the record says.
#[verifier::rlimit(40)]
pub proof fn lemma_record_is_current_order(
    again: Seq<Seq<char>>,
    names: Seq<Seq<char>>,
    record: Seq<Seq<char>>,
)
    requires
        names.no_duplicates(),
        record.no_duplicates(),
        forall|k: int|
            0 <= k < record.len() ==> names.contains(#[trigger] record[k]) && record[k]
                != ORDER_FILE_NAME@,
        forall|v: int|
            0 <= v < names.len() && names[v] != ORDER_FILE_NAME@ ==> record.contains(
                #[trigger] names[v],
            ),
        is_current_order(again, names, record),
    ensures
        again == record,
{
    let by_name = name_order(names, record);
    let pos = Seq::new(record.len(), |k: int| names.index_of(record[k]));
    assert forall|k: int| 0 <= k < record.len() implies 0 <= #[trigger] pos[k] < names.len()
        && names[pos[k]] == record[k] by {
        assert(names.contains(record[k]));
    }
    assert forall|v: int| 0 <= v < names.len() && named_in(names)(v) implies #[trigger] pos.contains(
        v,
    ) by {
        assert(record.contains(names[v]));
        let k = choose|k: int| 0 <= k < record.len() && record[k] == names[v];
        assert(names[pos[k]] == names[v]);
        assert(pos[k] == v);
    }
    assert forall|i: int, j: int| 0 <= i < j < pos.len() implies ahead(
        by_name,
        #[trigger] pos[i],
        #[trigger] pos[j],
    ) by {
        lemma_rank_in_valid_order(record, i);
        lemma_rank_in_valid_order(record, j);
    }
    assert(is_stable_order(pos, names.len() as int, named_in(names), by_name));
    let q = choose|q: Seq<int>| is_current_order_by(again, names, record, q);
    assert forall|a: int, b: int| #[trigger] by_name(a, b) implies !by_name(b, a) by {
        let x = key_of(false, names[a], record);
        let y = key_of(false, names[b], record);
        lemma_key_before(x, y, x);
    }
    lemma_stable_order_unique(pos, q, names.len() as int, named_in(names), by_name);
    assert(again =~= record);
}

/// The record that a move gives, where the directory holds no name twice:
/// it is valid, and it names every entry of the directory but the sidecar
/// file, and nothing else.
#[verifier::rlimit(40)]
pub proof fn lemma_reordered_record(
    names: Seq<Seq<char>>,
    order: Seq<Seq<char>>,
    current: Seq<Seq<char>>,
    source: Seq<char>,
    target: Seq<char>,
    position: Position,
    record: Seq<Seq<char>>,
)
    requires
        names.no_duplicates(),
        is_current_order(current, names, order),
        move_result(current, source, target, position) == Ok::<
            Seq<Seq<char>>,
            VaultErrorView,
        >(record),
    ensures
        valid_order(record),
        current.no_duplicates(),
        found_at(current, source, first_index(current, source)),
        found_at(current, target, first_index(current, target)),
        forall|k: int|
            0 <= k < record.len() ==> names.contains(#[trigger] record[k]) && record[k]
                != ORDER_FILE_NAME@,
        forall|v: int|
            0 <= v < names.len() && names[v] != ORDER_FILE_NAME@ ==> record.contains(
                #[trigger] names[v],
            ),
{
    let pos = choose|pos: Seq<int>| is_current_order_by(current, names, order, pos);
    let by_name = name_order(names, order);
    assert forall|a: int| !#[trigger] by_name(a, a) by {
        let x = key_of(false, names[a], order);
        lemma_key_before(x, x, x);
    }
    assert forall|i: int, j: int| 0 <= i < current.len() && 0 <= j < current.len() && i
        != j implies current[i] != current[j] by {
        lemma_stable_order_distinct(pos, names.len() as int, named_in(names), by_name, i, j);
    }
    let src = first_index(current, source);
    let tgt = first_index(current, target);
    assert(found_at(current, source, src)) by {
        let i = choose|i: int| 0 <= i < current.len() && current[i] == source;
        let least = least_place(current, source, i);
    }
    assert(found_at(current, target, tgt)) by {
        let i = choose|i: int| 0 <= i < current.len() && current[i] == target;
        let least = least_place(current, target, i);
    }
    let at = insertion_index(src, tgt, position, current.len() as int);
    lemma_moved_rearranges(current, src, tgt, position);
    lemma_moved_no_duplicates(current, src, tgt, position);
    assert forall|k: int| 0 <= k < record.len() implies names.contains(#[trigger] record[k])
        && record[k] != ORDER_FILE_NAME@ by {
        let o = origin(k, src, at);
        assert(record[k] == current[o]);
        assert(current[o] == names[pos[o]]);
        assert(named_in(names)(pos[o]));
    }
    assert forall|v: int|
        0 <= v < names.len() && names[v] != ORDER_FILE_NAME@ implies record.contains(
        #[trigger] names[v],
    ) by {
        assert(named_in(names)(v));
        assert(pos.contains(v));
        let i = choose|i: int| 0 <= i < pos.len() && pos[i] == v;
        assert(current[i] == names[v]);
        assert(record.contains(current[i]));
    }
}

/// Two entries of one kind whose ranks follow one another stand side by
/// side in the listing, where the record is valid and ranks every entry
/// that is shown, and no two entries have one name.
#[verifier::rlimit(40)]
pub proof fn lemma_neighbours_in_listing(
    listing: Seq<EntryView>,
    found: Seq<EntryView>,
    record: Seq<Seq<char>>,
    a: int,
    b: int,
    rank: int,
)
    requires
        is_listing(listing, found, record),
        valid_order(record),
        names_of(found).no_duplicates(),
        forall|v: int|
            0 <= v < found.len() && found[v].name != ORDER_FILE_NAME@ ==> record.contains(
                #[trigger] found[v].name,
            ),
        0 <= a < found.len(),
        0 <= b < found.len(),
        found[a].is_dir == found[b].is_dir,
        0 <= rank,
        rank + 1 < record.len(),
        record[rank] == found[a].name,
        record[rank + 1] == found[b].name,
        found[a].name != ORDER_FILE_NAME@,
        found[b].name != ORDER_FILE_NAME@,
    ensures
        exists|i: int|
            0 <= i && i + 1 < listing.len() && #[trigger] listing[i] == found[a] && listing[i + 1]
                == found[b],
{
    let names = names_of(found);
    let pos = choose|pos: Seq<int>| is_listing_by(listing, found, record, pos);
    let by_entry = entry_order(found, record);
    assert forall|v: int| !#[trigger] by_entry(v, v) by {
        let x = entry_key(found[v], record);
        lemma_key_before(x, x, x);
    }
    assert(shown_in(found)(a) && shown_in(found)(b));
    assert(pos.contains(a));
    assert(pos.contains(b));
    let first = choose|i: int| 0 <= i < pos.len() && pos[i] == a;
    let second = choose|i: int| 0 <= i < pos.len() && pos[i] == b;
    lemma_rank_in_valid_order(record, rank);
    lemma_rank_in_valid_order(record, rank + 1);
    let ka = entry_key(found[a], record);
    let kb = entry_key(found[b], record);
    assert(key_before(ka, kb));
    lemma_key_before(ka, kb, ka);
    if second < first {
        assert(ahead(by_entry, pos[second], pos[first]));
    }
    assert(names[a] == found[a].name && names[b] == found[b].name);
    assert(first < second);
    if first + 1 < second {
        let x = pos[first + 1];
        lemma_stable_order_distinct(pos, found.len() as int, shown_in(found), by_entry, first + 1, first);
        lemma_stable_order_distinct(pos, found.len() as int, shown_in(found), by_entry, first + 1, second);
        assert(names[x] == found[x].name);
        assert(shown_in(found)(x));
        assert(record.contains(found[x].name));
        let rx = choose|k: int| 0 <= k < record.len() && record[k] == found[x].name;
        lemma_rank_in_valid_order(record, rx);
        let kx = entry_key(found[x], record);
        assert(kx.rank == Some(rx) && ka.rank == Some(rank) && kb.rank == Some(rank + 1));
        assert(rx != rank && rx != rank + 1);
        assert(ahead(by_entry, pos[first], x));
        assert(ahead(by_entry, x, pos[second]));
        lemma_key_before(ka, kx, ka);
        lemma_key_before(kx, kb, kx);
        assert(!key_before(kx, ka));
        assert(!key_before(kb, kx));
        assert(false);
    }
    assert(listing[first] == found[a]);
    assert(listing[first + 1] == found[b]);
}

/// A move whose source and target are two entries, done once more on the
/// directory as the record that came out orders it, gives that record
/// again.
#[verifier::rlimit(40)]
pub proof fn lemma_reorder_again(
    names: Seq<Seq<char>>,
    order: Seq<Seq<char>>,
    current: Seq<Seq<char>>,
    source: Seq<char>,
    target: Seq<char>,
    position: Position,
    record: Seq<Seq<char>>,
    again: Seq<Seq<char>>,
)
    requires
        names.no_duplicates(),
        is_current_order(current, names, order),
        source != target,
        move_result(current, source, target, position) == Ok::<
            Seq<Seq<char>>,
            VaultErrorView,
        >(record),
        is_current_order(again, names, record),
    ensures
        move_result(again, source, target, position) == Ok::<Seq<Seq<char>>, VaultErrorView>(
            record,
        ),
{
    lemma_reordered_record(names, order, current, source, target, position, record);
    let src = first_index(current, source);
    let tgt = first_index(current, target);
    lemma_moved_is_adjacent(current, src, tgt, position);
    let at = insertion_index(src, tgt, position, current.len() as int);
    let at_target = match position {
        Position::After => at - 1,
        Position::Before => at + 1,
    };
    lemma_record_is_current_order(again, names, record);
    assert(found_at(record, source, at));
    assert(found_at(record, target, at_target));
    lemma_first_index(record, source, at);
    lemma_first_index(record, target, at_target);
    assert(moved(record, at, at_target, position) =~= record);
}

/// Reordering, then listing: when the entry called `source` has been moved
/// next to the one called `target`, which is of its kind, and the record
/// that came out governs the directory, then the listing shows the two side
/// by side, `source` right after `target` for `After` and right before it
/// for `Before`; and the same reordering once more gives the same record.
///
/// The directory holds no name twice, and `source` and `target` are the
/// names of two entries, not of one.
#[verifier::rlimit(40)]
pub proof fn lemma_reorder_then_list(
    found: Seq<EntryView>,
    order: Seq<Seq<char>>,
    current: Seq<Seq<char>>,
    source: Seq<char>,
    target: Seq<char>,
    position: Position,
    record: Seq<Seq<char>>,
    listing: Seq<EntryView>,
)
    requires
        names_of(found).no_duplicates(),
        is_current_order(current, names_of(found), order),
        source != target,
        move_result(current, source, target, position) == Ok::<
            Seq<Seq<char>>,
            VaultErrorView,
        >(record),
        forall|a: int, b: int|
            0 <= a < found.len() && 0 <= b < found.len() && found[a].name == source
                && found[b].name == target ==> found[a].is_dir == found[b].is_dir,
        is_listing(listing, found, record),
    ensures
        exists|i: int|
            0 <= i && i + 1 < listing.len() && match position {
                Position::After => (#[trigger] listing[i]).name == target && listing[i + 1].name
                    == source,
                Position::Before => (#[trigger] listing[i]).name == source && listing[i + 1].name
                    == target,
            },
        forall|again: Seq<Seq<char>>| #[trigger]
            is_current_order(again, names_of(found), record) ==> move_result(
                again,
                source,
                target,
                position,
            ) == Ok::<Seq<Seq<char>>, VaultErrorView>(record),
{
    let names = names_of(found);
    assert forall|again: Seq<Seq<char>>| #[trigger]
        is_current_order(again, names, record) implies move_result(
        again,
        source,
        target,
        position,
    ) == Ok::<Seq<Seq<char>>, VaultErrorView>(record) by {
        lemma_reorder_again(names, order, current, source, target, position, record, again);
    }
    lemma_reordered_record(names, order, current, source, target, position, record);
    let pos = choose|pos: Seq<int>| is_current_order_by(current, names, order, pos);
    let src = first_index(current, source);
    let tgt = first_index(current, target);
    lemma_moved_is_adjacent(current, src, tgt, position);
    let at = insertion_index(src, tgt, position, current.len() as int);
    let a = pos[src];
    let b = pos[tgt];
    assert(found[a].name == source && found[b].name == target);
    assert(named_in(names)(a) && named_in(names)(b));
    assert forall|v: int|
        0 <= v < found.len() && found[v].name != ORDER_FILE_NAME@ implies record.contains(
        #[trigger] found[v].name,
    ) by {
        assert(names[v] == found[v].name);
    }
    match position {
        Position::After => {
            lemma_neighbours_in_listing(listing, found, record, b, a, at - 1);
            let i = choose|i: int|
                0 <= i && i + 1 < listing.len() && #[trigger] listing[i] == found[b] && listing[i
                    + 1] == found[a];
            assert(listing[i].name == target && listing[i + 1].name == source);
        },
        Position::Before => {
            lemma_neighbours_in_listing(listing, found, record, a, b, at);
            let i = choose|i: int|
                0 <= i && i + 1 < listing.len() && #[trigger] listing[i] == found[a] && listing[i
                    + 1] == found[b];
            assert(listing[i].name == source && listing[i + 1].name == target);
        },
    }
}

/// The first place of `name` in `list`, searched downwards from a place
/// where it stands.
proof fn least_place(list: Seq<Seq<char>>, name: Seq<char>, i: int) -> (least: int)
    requires
        0 <= i < list.len(),
        list[i] == name,
    ensures
        found_at(list, name, least),
    decreases i,
{
    if exists|j: int| 0 <= j < i && list[j] == name {
        let j = choose|j: int| 0 <= j < i && list[j] == name;
        least_place(list, name, j)
    } else {
        i
    }
}

} // verus!
