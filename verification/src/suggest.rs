//! Suggesting link targets: how close a note's name is to a query, and the
//! ten closest notes.

use crate::sorting::{
    as_ints, has_key, is_stable_order, key_order, lemma_stable_order_same, stable_order, Ranked,
};
use crate::text::{
    chars_of, contains_char, contains_text, lemma_utf8_len_concat, lemma_utf8_len_single,
    lowercase, lowercase_of, occurs_at, occurs_in, text_of, utf8_len,
};
use vstd::prelude::*;
use vstd::string::*;

verus! {

// ---------------------------------------------------------------------------
// Scores
// ---------------------------------------------------------------------------

/// How close a name is to a query, as an exact fraction between 0 and 1.
///
/// The lengths are those of the lower-case forms in bytes.
#[derive(Debug, Clone, Copy, PartialEq, Eq)]
pub enum Score {
    /// The name holds the query: `1 - query_len / (2 * name_len)`.
    Contains { query_len: usize, name_len: usize },
    /// It does not: `shared / longest`, where `shared` counts the characters
    /// of the query that occur in the name and `longest` is the greater of
    /// the two lengths.
    Overlap { shared: usize, longest: usize },
}

/// A `Score` over the natural numbers.
pub ghost enum ScoreView {
    Contains { query_len: nat, name_len: nat },
    Overlap { shared: nat, longest: nat },
}

impl View for Score {
    type V = ScoreView;

    open spec fn view(&self) -> ScoreView {
        match self {
            Score::Contains { query_len, name_len } => ScoreView::Contains {
                query_len: *query_len as nat,
                name_len: *name_len as nat,
            },
            Score::Overlap { shared, longest } => ScoreView::Overlap {
                shared: *shared as nat,
                longest: *longest as nat,
            },
        }
    }
}

impl ScoreView {
    /// The score is a number between 0 and 1. The one pair that has no
    /// score is the empty query with the empty name.
    pub open spec fn valid(self) -> bool {
        match self {
            ScoreView::Contains { query_len, name_len } => 1 <= name_len && query_len <= name_len,
            ScoreView::Overlap { shared, longest } => 1 <= longest && shared <= longest,
        }
    }

    /// Numerator of the score.
    pub open spec fn numer(self) -> int {
        match self {
            ScoreView::Contains { query_len, name_len } => 2 * name_len - query_len,
            ScoreView::Overlap { shared, longest } => shared as int,
        }
    }

    /// Denominator of the score.
    pub open spec fn denom(self) -> int {
        match self {
            ScoreView::Contains { query_len, name_len } => 2 * (name_len as int),
            ScoreView::Overlap { shared, longest } => longest as int,
        }
    }

    /// The score is greater than one tenth.
    pub open spec fn above_threshold(self) -> bool {
        self.valid() && 10 * self.numer() > self.denom()
    }

    /// The score is greater than `other`; a pair without a score is below
    /// every score.
    pub open spec fn outranks(self, other: ScoreView) -> bool {
        self.valid() && (!other.valid() || self.numer() * other.denom() > other.numer()
            * self.denom())
    }
}

/// A score lies between 0 and 1, and at one half or above where the name
/// holds the query.
pub proof fn lemma_score_range(s: ScoreView)
    requires
        s.valid(),
    ensures
        0 <= s.numer() <= s.denom(),
        0 < s.denom(),
        s is Contains ==> s.denom() <= 2 * s.numer(),
        s is Contains ==> s.above_threshold(),
{
}

/// Of three fractions with positive denominators, the first is above the
/// third if it is above the second and the second not below the third, or
/// not below the second and the second above the third.
proof fn lemma_fraction_chain(a: int, b: int, c: int, d: int, e: int, f: int)
    requires
        b > 0,
        d > 0,
        f > 0,
        a * d >= c * b,
        c * f >= e * d,
    ensures
        a * f >= e * b,
        a * d > c * b || c * f > e * d ==> a * f > e * b,
{
    assert((a * d) * f >= (c * b) * f) by (nonlinear_arith)
        requires
            a * d >= c * b,
            f > 0,
    ;
    assert((c * f) * b >= (e * d) * b) by (nonlinear_arith)
        requires
            c * f >= e * d,
            b > 0,
    ;
    assert((c * b) * f == (c * f) * b) by (nonlinear_arith);
    assert((a * d) * f == (a * f) * d) by (nonlinear_arith);
    assert((e * d) * b == (e * b) * d) by (nonlinear_arith);
    assert((a * f) * d >= (e * b) * d);
    assert(a * f >= e * b) by (nonlinear_arith)
        requires
            (a * f) * d >= (e * b) * d,
            d > 0,
    ;
    if a * d > c * b {
        assert((a * d) * f > (c * b) * f) by (nonlinear_arith)
            requires
                a * d > c * b,
                f > 0,
        ;
        assert((a * f) * d > (e * b) * d);
        assert(a * f > e * b) by (nonlinear_arith)
            requires
                (a * f) * d > (e * b) * d,
                d > 0,
        ;
    }
    if c * f > e * d {
        assert((c * f) * b > (e * d) * b) by (nonlinear_arith)
            requires
                c * f > e * d,
                b > 0,
        ;
        assert((a * f) * d > (e * b) * d);
        assert(a * f > e * b) by (nonlinear_arith)
            requires
                (a * f) * d > (e * b) * d,
                d > 0,
        ;
    }
}

/// `outranks` is a strict weak order.
pub proof fn lemma_outranks(a: ScoreView, b: ScoreView, c: ScoreView)
    ensures
        !a.outranks(a),
        a.outranks(b) ==> !b.outranks(a),
        a.outranks(b) && b.outranks(c) ==> a.outranks(c),
        a.outranks(b) ==> a.outranks(c) || c.outranks(b),
{
    if a.valid() && b.valid() && c.valid() {
        lemma_score_range(a);
        lemma_score_range(b);
        lemma_score_range(c);
        if a.outranks(b) && b.outranks(c) {
            lemma_fraction_chain(a.numer(), a.denom(), b.numer(), b.denom(), c.numer(), c.denom());
        }
        if a.outranks(b) && !a.outranks(c) && !c.outranks(b) {
            lemma_fraction_chain(c.numer(), c.denom(), a.numer(), a.denom(), b.numer(), b.denom());
        }
    }
}

/// A name that holds the query scores above every name that does not hold
/// it and shares with it less than half of the longer length.
pub proof fn lemma_holding_outranks(a: ScoreView, b: ScoreView)
    requires
        a.valid(),
        a is Contains,
        b matches ScoreView::Overlap { shared, longest } && 2 * shared < longest,
    ensures
        a.outranks(b),
        !b.outranks(a),
{
    lemma_score_range(a);
    if b.valid() {
        let (n, d, m, l) = (a.numer(), a.denom(), b.numer(), b.denom());
        assert(n * l > m * d) by (nonlinear_arith)
            requires
                d <= 2 * n,
                0 < d,
                2 * m < l,
                0 <= m,
        ;
    }
}

/// The product of two machine words fits in sixteen bytes.
proof fn lemma_product_fits(x: u128, y: u128)
    requires
        x <= u64::MAX,
        y <= u64::MAX,
    ensures
        x * y <= u128::MAX,
{
    assert(x * y <= 0xffff_ffff_ffff_ffff * 0xffff_ffff_ffff_ffff) by (nonlinear_arith)
        requires
            0 <= x <= 0xffff_ffff_ffff_ffff,
            0 <= y <= 0xffff_ffff_ffff_ffff,
    ;
}

/// A length as a sixteen-byte number.
fn wide(n: usize) -> (w: u128)
    ensures
        w == n,
        w <= u64::MAX,
{
    n as u128
}

/// Whether `x * y > z * w`.
fn product_exceeds(x: u128, y: u128, z: u128, w: u128) -> (r: bool)
    requires
        x <= u64::MAX,
        y <= u64::MAX,
        z <= u64::MAX,
        w <= u64::MAX,
    ensures
        r == (x * y > z * w),
{
    proof {
        lemma_product_fits(x, y);
        lemma_product_fits(z, w);
    }
    x * y > z * w
}

impl Score {
    /// Whether the score is a number (see `ScoreView::valid`).
    pub fn is_valid(&self) -> (r: bool)
        ensures
            r == self@.valid(),
    {
        match *self {
            Score::Contains { query_len, name_len } => 1 <= name_len && query_len <= name_len,
            Score::Overlap { shared, longest } => 1 <= longest && shared <= longest,
        }
    }

    /// Whether the score is greater than one tenth.
    pub fn is_above_threshold(&self) -> (r: bool)
        ensures
            r == self@.above_threshold(),
    {
        if !self.is_valid() {
            return false;
        }
        match *self {
            Score::Contains { query_len, name_len } => true,
            Score::Overlap { shared, longest } => {
                let m: u128 = wide(shared);
                10 * m > wide(longest)
            },
        }
    }

    /// Whether the score is greater than `other`.
    #[verifier::rlimit(40)]
    pub fn is_greater(&self, other: &Score) -> (r: bool)
        ensures
            r == self@.outranks(other@),
    {
        if !self.is_valid() {
            return false;
        }
        if !other.is_valid() {
            return true;
        }
        match (*self, *other) {
            (
                Score::Contains { query_len: q1, name_len: c1 },
                Score::Contains { query_len: q2, name_len: c2 },
            ) => {
                let r = product_exceeds(wide(q2), wide(c1), wide(q1), wide(c2));
                assert(r == ((2 * c1 - q1) * (2 * c2) > (2 * c2 - q2) * (2 * c1)))
                    by (nonlinear_arith)
                    requires
                        r == (q2 * c1 > q1 * c2),
                ;
                r
            },
            (
                Score::Overlap { shared: m1, longest: l1 },
                Score::Overlap { shared: m2, longest: l2 },
            ) => product_exceeds(wide(m1), wide(l2), wide(m2), wide(l1)),
            (
                Score::Contains { query_len: q, name_len: c },
                Score::Overlap { shared: m, longest: l },
            ) => {
                if l - m > m {
                    assert((2 * c - q) * l > m * (2 * c)) by (nonlinear_arith)
                        requires
                            l - m > m,
                            q <= c,
                            1 <= c,
                            0 <= m,
                    ;
                    true
                } else {
                    let gap: usize = l - m;
                    let twice: u128 = 2 * wide(gap);
                    let r = product_exceeds(wide(c), twice, wide(q), wide(l));
                    assert(r == ((2 * c - q) * l > m * (2 * c))) by (nonlinear_arith)
                        requires
                            r == (c * (2 * (l - m)) > q * l),
                    ;
                    r
                }
            },
            (
                Score::Overlap { shared: m, longest: l },
                Score::Contains { query_len: q, name_len: c },
            ) => {
                if l - m > m {
                    assert(!(m * (2 * c) > (2 * c - q) * l)) by (nonlinear_arith)
                        requires
                            l - m > m,
                            q <= c,
                            1 <= c,
                            0 <= m,
                    ;
                    false
                } else {
                    let gap: usize = l - m;
                    let twice: u128 = 2 * wide(gap);
                    let r = product_exceeds(wide(q), wide(l), wide(c), twice);
                    assert(r == (m * (2 * c) > (2 * c - q) * l)) by (nonlinear_arith)
                        requires
                            r == (q * l > c * (2 * (l - m))),
                    ;
                    r
                }
            },
        }
    }
}

impl Ranked for Score {
    open spec fn before(&self, other: &Self) -> bool {
        self@.outranks(other@)
    }

    fn is_before(&self, other: &Self) -> (r: bool) {
        self.is_greater(other)
    }

    proof fn lemma_strict_weak(a: &Self, b: &Self, c: &Self) {
        lemma_outranks(a@, b@, c@);
    }
}

// ---------------------------------------------------------------------------
// Similarity
// ---------------------------------------------------------------------------

/// A character of the query counts when it occurs in the name.
pub open spec fn occurs_in_name(name: Seq<char>) -> spec_fn(char) -> bool {
    |c: char| name.contains(c)
}

/// Number of characters of `query`, each counted as often as it stands
/// there, that occur in `name`.
pub open spec fn shared_count(query: Seq<char>, name: Seq<char>) -> nat {
    query.filter(occurs_in_name(name)).len()
}

/// The greater of two numbers.
pub open spec fn longest_of(a: nat, b: nat) -> nat {
    if a >= b {
        a
    } else {
        b
    }
}

/// Score of two texts that are in lower case already.
pub open spec fn folded_score(query: Seq<char>, name: Seq<char>) -> ScoreView {
    if occurs_in(name, query) {
        ScoreView::Contains { query_len: utf8_len(query), name_len: utf8_len(name) }
    } else {
        ScoreView::Overlap {
            shared: shared_count(query, name),
            longest: longest_of(utf8_len(query), utf8_len(name)),
        }
    }
}

/// How close the name of a note is to a query, letter case aside.
pub open spec fn score_of(query: Seq<char>, name: Seq<char>) -> ScoreView {
    folded_score(lowercase_of(query), lowercase_of(name))
}

/// Filtering one more item keeps it or drops it.
pub proof fn lemma_filter_step<T>(s: Seq<T>, keep: spec_fn(T) -> bool, i: int)
    requires
        0 <= i < s.len(),
    ensures
        s.take(i + 1).filter(keep) == if keep(s[i]) {
            s.take(i).filter(keep).push(s[i])
        } else {
            s.take(i).filter(keep)
        },
{
    reveal(Seq::filter);
    assert(s.take(i + 1).drop_last() == s.take(i));
}

/// A text takes at least one byte for each of its characters.
pub proof fn lemma_utf8_len_at_least(s: Seq<char>)
    ensures
        s.len() <= utf8_len(s),
    decreases s.len(),
{
    if s.len() > 0 {
        lemma_utf8_len_at_least(s.drop_last());
        assert(s == s.drop_last() + seq![s.last()]);
        lemma_utf8_len_concat(s.drop_last(), seq![s.last()]);
        lemma_utf8_len_single(s.last());
    } else {
        assert(vstd::utf8::encode_utf8(s) == Seq::<u8>::empty());
    }
}

/// Every score has its place between 0 and 1, but for the empty query with
/// the empty name, which has none; and where the name holds the query the
/// score is above the threshold.
pub proof fn lemma_folded_score_valid(query: Seq<char>, name: Seq<char>)
    ensures
        folded_score(query, name).valid() <==> !(query.len() == 0 && name.len() == 0),
        occurs_in(name, query) && name.len() > 0 ==> folded_score(query, name).above_threshold(),
{
    lemma_utf8_len_at_least(query);
    lemma_utf8_len_at_least(name);
    if occurs_in(name, query) {
        let i = choose|i: int| occurs_at(name, query, i);
        let upto = name.take(i + query.len());
        assert(name == upto + name.skip(i + query.len()));
        lemma_utf8_len_concat(upto, name.skip(i + query.len()));
        assert(upto == name.take(i) + query);
        lemma_utf8_len_concat(name.take(i), query);
        if name.len() == 0 {
            assert(query.len() == 0);
        }
    } else {
        if query.len() == 0 {
            assert(occurs_at(name, query, 0)) by {
                assert(name.subrange(0, 0) =~= query);
            }
        }
        query.lemma_filter_len(occurs_in_name(name));
    }
}

/// Score of two texts that are in lower case already.
pub fn folded_similarity(query_lower: &str, note_lower: &str) -> (s: Score)
    ensures
        s@ == folded_score(query_lower@, note_lower@),
{
    let q = chars_of(query_lower);
    let c = chars_of(note_lower);
    let query_len: usize = query_lower.as_bytes().len();
    let name_len: usize = note_lower.as_bytes().len();
    if contains_text(&c, &q) {
        return Score::Contains { query_len, name_len };
    }
    let ghost keep = occurs_in_name(c@);
    let mut shared: usize = 0;
    let mut i: usize = 0;
    proof {
        reveal(Seq::filter);
        assert(q@.take(0).filter(keep).len() == 0);
    }
    while i < q.len()
        invariant
            i <= q.len(),
            keep == occurs_in_name(c@),
            shared == q@.take(i as int).filter(keep).len(),
            shared <= i,
        decreases q.len() - i,
    {
        proof {
            lemma_filter_step(q@, keep, i as int);
        }
        if contains_char(&c, q[i]) {
            shared += 1;
        }
        i += 1;
    }
    assert(q@.take(q.len() as int) == q@);
    let longest: usize = if query_len >= name_len {
        query_len
    } else {
        name_len
    };
    Score::Overlap { shared, longest }
}

/// How close the name of a note is to a query, letter case aside.
pub fn calculate_similarity(query: &str, note_name: &str) -> (s: Score)
    ensures
        s@ == score_of(query@, note_name@),
{
    let query_lower = lowercase(query);
    let note_lower = lowercase(note_name);
    folded_similarity(query_lower.as_str(), note_lower.as_str())
}

// ---------------------------------------------------------------------------
// Notes among the files of a vault
// ---------------------------------------------------------------------------

/// Index of the last `.` of a file name, or -1 where it holds none.
pub open spec fn last_dot(name: Seq<char>) -> int
    decreases name.len(),
{
    if name.len() == 0 {
        -1
    } else if name.last() == '.' {
        name.len() - 1
    } else {
        last_dot(name.drop_last())
    }
}

/// A file name has an extension where a `.` stands in it that is not its
/// first character; the name `..` has none.
pub open spec fn has_extension(name: Seq<char>) -> bool {
    last_dot(name) > 0 && name != seq!['.', '.']
}

/// The extension of a file name: what follows its last `.`.
pub open spec fn extension_of(name: Seq<char>) -> Option<Seq<char>> {
    if has_extension(name) {
        Some(name.skip(last_dot(name) + 1))
    } else {
        None
    }
}

/// The stem of a file name: what stands before its last `.`, or all of it
/// where it has no extension.
pub open spec fn stem_of(name: Seq<char>) -> Seq<char> {
    if has_extension(name) {
        name.take(last_dot(name))
    } else {
        name
    }
}

/// A note is a file with the extension `md`.
pub open spec fn is_note_name(name: Seq<char>) -> bool {
    extension_of(name) == Some(seq!['m', 'd'])
}

/// The last `.` is a `.` with none after it.
pub proof fn lemma_last_dot(name: Seq<char>)
    ensures
        -1 <= last_dot(name) < name.len(),
        last_dot(name) >= 0 ==> name[last_dot(name)] == '.',
        forall|k: int| last_dot(name) < k < name.len() ==> name[k] != '.',
    decreases name.len(),
{
    if name.len() > 0 && name.last() != '.' {
        let rest = name.drop_last();
        lemma_last_dot(rest);
        assert forall|k: int| last_dot(name) < k < name.len() implies name[k] != '.' by {
            if k < rest.len() {
                assert(rest[k] == name[k]);
            }
        }
        if last_dot(name) >= 0 {
            assert(rest[last_dot(name)] == name[last_dot(name)]);
        }
    }
}

/// Where the extension of a file name starts, if it has one: the index
/// after its last `.`.
fn extension_start(name: &Vec<char>) -> (r: Option<usize>)
    ensures
        match r {
            Some(at) => has_extension(name@) && at == last_dot(name@) + 1 && 2 <= at
                <= name.len(),
            None => !has_extension(name@),
        },
{
    let mut i: usize = name.len();
    assert(name@.take(i as int) == name@);
    while i > 0 && name[i - 1] != '.'
        invariant
            i <= name.len(),
            last_dot(name@.take(i as int)) == last_dot(name@),
        decreases i,
    {
        proof {
            let upto = name@.take(i as int);
            assert(upto.last() == name@[i - 1]);
            assert(upto.drop_last() == name@.take(i - 1));
        }
        i -= 1;
    }
    proof {
        if i > 0 {
            assert(name@.take(i as int).last() == name@[i - 1]);
        }
        assert(last_dot(name@) == i - 1);
    }
    if i <= 1 {
        return None;
    }
    if name.len() == 2 && name[0] == '.' {
        assert(name@ =~= seq!['.', '.']);
        return None;
    }
    proof {
        if name@ == seq!['.', '.'] {
            assert(name@.len() == 2 && name@[0] == '.');
        }
    }
    Some(i)
}

/// Whether a file of this name is a note.
pub fn is_markdown(file_name: &str) -> (r: bool)
    ensures
        r == is_note_name(file_name@),
{
    let name = chars_of(file_name);
    match extension_start(&name) {
        Some(at) => {
            let r = name.len() - at == 2 && name[at] == 'm' && name[at + 1] == 'd';
            proof {
                let ext = name@.skip(at as int);
                if r {
                    assert(ext =~= seq!['m', 'd']);
                } else if ext == seq!['m', 'd'] {
                    assert(ext.len() == 2 && ext[0] == 'm' && ext[1] == 'd');
                }
            }
            r
        },
        None => false,
    }
}

/// The name of the note that the file of this name holds: its stem.
pub fn note_stem(file_name: &str) -> (stem: String)
    ensures
        stem@ == stem_of(file_name@),
{
    let name = chars_of(file_name);
    match extension_start(&name) {
        Some(at) => text_of(&name, 0, at - 1),
        None => {
            let stem = text_of(&name, 0, name.len());
            assert(name@.subrange(0, name@.len() as int) == name@);
            stem
        },
    }
}

/// What a walk through the vault does with an entry that it meets.
#[derive(Debug, Clone, Copy, PartialEq, Eq, Structural)]
pub enum WalkAction {
    /// A directory: walk through it too.
    Descend,
    /// A note: read it.
    Read,
    /// Any other file: pass it by.
    Skip,
}

/// What a walk through the vault does with the entry called `file_name`.
pub fn walk_action(file_name: &str, is_dir: bool) -> (action: WalkAction)
    ensures
        action == if is_dir {
            WalkAction::Descend
        } else if is_note_name(file_name@) {
            WalkAction::Read
        } else {
            WalkAction::Skip
        },
{
    if is_dir {
        WalkAction::Descend
    } else if is_markdown(file_name) {
        WalkAction::Read
    } else {
        WalkAction::Skip
    }
}

// ---------------------------------------------------------------------------
// Suggestions
// ---------------------------------------------------------------------------

/// At most this many suggestions are made.
pub const MAX_SUGGESTIONS: usize = 10;

/// A note of the vault: its name, which is the stem of its file's name, and
/// the path of the file relative to the vault root.
#[derive(Debug, Clone, PartialEq, Eq)]
pub struct Note {
    pub name: String,
    pub path: String,
}

/// A `Note` with its texts as sequences of characters.
pub ghost struct NoteView {
    pub name: Seq<char>,
    pub path: Seq<char>,
}

impl View for Note {
    type V = NoteView;

    open spec fn view(&self) -> NoteView {
        NoteView { name: self.name@, path: self.path@ }
    }
}

impl DeepView for Note {
    type V = NoteView;

    open spec fn deep_view(&self) -> NoteView {
        self@
    }
}

/// A note that is offered as the target of a link, with its score.
#[derive(Debug, PartialEq, Eq)]
pub struct LinkSuggestion {
    pub note_name: String,
    pub note_path: String,
    pub similarity_score: Score,
}

/// A `LinkSuggestion` with its texts as sequences of characters.
pub ghost struct LinkSuggestionView {
    pub note_name: Seq<char>,
    pub note_path: Seq<char>,
    pub similarity_score: ScoreView,
}

impl View for LinkSuggestion {
    type V = LinkSuggestionView;

    open spec fn view(&self) -> LinkSuggestionView {
        LinkSuggestionView {
            note_name: self.note_name@,
            note_path: self.note_path@,
            similarity_score: self.similarity_score@,
        }
    }
}

impl DeepView for LinkSuggestion {
    type V = LinkSuggestionView;

    open spec fn deep_view(&self) -> LinkSuggestionView {
        self@
    }
}

/// The suggestion that a note makes for a query.
pub open spec fn suggestion_for(query: Seq<char>, note: NoteView) -> LinkSuggestionView {
    LinkSuggestionView {
        note_name: note.name,
        note_path: note.path,
        similarity_score: score_of(query, note.name),
    }
}

/// The note at an index is kept when its score is above the threshold.
pub open spec fn kept_for(query: Seq<char>, notes: Seq<NoteView>) -> spec_fn(int) -> bool {
    |k: int| score_of(query, notes[k].name).above_threshold()
}

/// The order of the notes by score, higher scores first, as a relation on
/// their indices.
pub open spec fn score_order(query: Seq<char>, notes: Seq<NoteView>) -> spec_fn(int, int) -> bool {
    |a: int, b: int| score_of(query, notes[a].name).outranks(score_of(query, notes[b].name))
}

/// `pos` is the stable order, by falling score, of the notes whose score is
/// above the threshold, and `suggestions` are the first ten of them.
pub open spec fn is_suggestions_by(
    suggestions: Seq<LinkSuggestionView>,
    query: Seq<char>,
    notes: Seq<NoteView>,
    pos: Seq<int>,
) -> bool {
    &&& is_stable_order(pos, notes.len() as int, kept_for(query, notes), score_order(query, notes))
    &&& suggestions.len() == if pos.len() <= MAX_SUGGESTIONS {
        pos.len()
    } else {
        MAX_SUGGESTIONS as nat
    }
    &&& forall|i: int|
        0 <= i < suggestions.len() ==> #[trigger] suggestions[i] == suggestion_for(
            query,
            notes[pos[i]],
        )
}

/// `suggestions` are what `notes` offer for `query`: the notes whose score
/// is above one tenth, the higher score first, notes of one score in the
/// order in which they came, and the first ten of these at most.
pub open spec fn is_suggestions(
    suggestions: Seq<LinkSuggestionView>,
    query: Seq<char>,
    notes: Seq<NoteView>,
) -> bool {
    exists|pos: Seq<int>| is_suggestions_by(suggestions, query, notes, pos)
}

/// The notes to suggest as targets of a link for which `query` has been
/// typed.
#[verifier::rlimit(40)]
pub fn suggest_links(query: &str, notes: &Vec<Note>) -> (suggestions: Vec<LinkSuggestion>)
    ensures
        is_suggestions(suggestions.deep_view(), query@, notes.deep_view()),
{
    let ghost all = notes.deep_view();
    let mut scores: Vec<Score> = Vec::new();
    let mut keys: Vec<Option<Score>> = Vec::new();
    let mut i: usize = 0;
    while i < notes.len()
        invariant
            i <= notes.len(),
            all == notes.deep_view(),
            scores.len() == i,
            keys.len() == i,
            forall|v: int| 0 <= v < i ==> (#[trigger] scores@[v])@ == score_of(query@, all[v].name),
            forall|v: int|
                0 <= v < i ==> #[trigger] keys@[v] == if kept_for(query@, all)(v) {
                    Some(scores@[v])
                } else {
                    None
                },
        decreases notes.len() - i,
    {
        let score = calculate_similarity(query, notes[i].name.as_str());
        assert(notes@[i as int]@ == all[i as int]);
        scores.push(score);
        keys.push(
            if score.is_above_threshold() {
                Some(score)
            } else {
                None
            },
        );
        i += 1;
    }
    let pos = stable_order(&keys);
    proof {
        lemma_stable_order_same(
            as_ints(pos@),
            all.len() as int,
            has_key(keys@),
            key_order(keys@),
            kept_for(query@, all),
            score_order(query@, all),
        );
    }
    let count: usize = if pos.len() <= MAX_SUGGESTIONS {
        pos.len()
    } else {
        MAX_SUGGESTIONS
    };
    let mut suggestions: Vec<LinkSuggestion> = Vec::new();
    let mut k: usize = 0;
    while k < count
        invariant
            k <= count <= pos.len(),
            all == notes.deep_view(),
            scores.len() == notes.len(),
            forall|a: int| 0 <= a < pos.len() ==> 0 <= #[trigger] as_ints(pos@)[a] < notes.len(),
            forall|v: int|
                0 <= v < scores.len() ==> (#[trigger] scores@[v])@ == score_of(
                    query@,
                    all[v].name,
                ),
            suggestions.len() == k,
            forall|a: int|
                0 <= a < k ==> (#[trigger] suggestions@[a])@ == suggestion_for(
                    query@,
                    all[as_ints(pos@)[a]],
                ),
        decreases count - k,
    {
        let from: usize = pos[k];
        assert(as_ints(pos@)[k as int] == from);
        let note = &notes[from];
        assert(note@ == all[from as int]);
        suggestions.push(
            LinkSuggestion {
                note_name: note.name.clone(),
                note_path: note.path.clone(),
                similarity_score: scores[from],
            },
        );
        k += 1;
    }
    proof {
        assert(is_suggestions_by(suggestions.deep_view(), query@, all, as_ints(pos@)));
    }
    suggestions
}

/// The suggestions for a query are unique.
pub proof fn lemma_suggestions_unique(
    one: Seq<LinkSuggestionView>,
    other: Seq<LinkSuggestionView>,
    query: Seq<char>,
    notes: Seq<NoteView>,
)
    requires
        is_suggestions(one, query, notes),
        is_suggestions(other, query, notes),
    ensures
        one == other,
{
    let p = choose|p: Seq<int>| is_suggestions_by(one, query, notes, p);
    let q = choose|q: Seq<int>| is_suggestions_by(other, query, notes, q);
    let by_score = score_order(query, notes);
    assert forall|a: int, b: int| #[trigger] by_score(a, b) implies !by_score(b, a) by {
        let x = score_of(query, notes[a].name);
        let y = score_of(query, notes[b].name);
        lemma_outranks(x, y, x);
    }
    crate::sorting::lemma_stable_order_unique(
        p,
        q,
        notes.len() as int,
        kept_for(query, notes),
        by_score,
    );
    assert(one =~= other);
}

/// Suggestions come in falling order of their scores, every one of them is
/// above the threshold, and there are ten at most.
pub proof fn lemma_suggestions_ranked(
    suggestions: Seq<LinkSuggestionView>,
    query: Seq<char>,
    notes: Seq<NoteView>,
    i: int,
    j: int,
)
    requires
        is_suggestions(suggestions, query, notes),
        0 <= i <= j < suggestions.len(),
    ensures
        suggestions.len() <= MAX_SUGGESTIONS,
        suggestions[i].similarity_score.above_threshold(),
        !suggestions[j].similarity_score.outranks(suggestions[i].similarity_score),
{
    let pos = choose|pos: Seq<int>| is_suggestions_by(suggestions, query, notes, pos);
    let by_score = score_order(query, notes);
    assert(kept_for(query, notes)(pos[i]));
    let x = suggestions[i].similarity_score;
    let y = suggestions[j].similarity_score;
    lemma_outranks(x, y, x);
    if i < j {
        assert(crate::sorting::ahead(by_score, pos[i], pos[j]));
    }
}

/// Among the suggestions, every note whose name holds the query, letter
/// case aside, stands before every note whose name does not hold it and
/// shares with it less than half of the longer length.
pub proof fn lemma_holding_names_first(
    suggestions: Seq<LinkSuggestionView>,
    query: Seq<char>,
    notes: Seq<NoteView>,
    i: int,
    j: int,
)
    requires
        is_suggestions(suggestions, query, notes),
        0 <= i < suggestions.len(),
        0 <= j < suggestions.len(),
        suggestions[i].similarity_score is Contains,
        suggestions[j].similarity_score matches ScoreView::Overlap { shared, longest } && 2
            * shared < longest,
    ensures
        i < j,
        occurs_in(lowercase_of(suggestions[i].note_name), lowercase_of(query)),
        !occurs_in(lowercase_of(suggestions[j].note_name), lowercase_of(query)),
{
    let pos = choose|pos: Seq<int>| is_suggestions_by(suggestions, query, notes, pos);
    let by_score = score_order(query, notes);
    let x = suggestions[i].similarity_score;
    let y = suggestions[j].similarity_score;
    assert(kept_for(query, notes)(pos[i]));
    lemma_holding_outranks(x, y);
    if j < i {
        assert(crate::sorting::ahead(by_score, pos[j], pos[i]));
    }
}

} // verus!
