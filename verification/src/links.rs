//! Links between notes: `[[target]]` and `[[target|display text]]` in the
//! text of a note.

use crate::error::{VaultError, VaultErrorView, framed};
use crate::text::{
    char_width, chars_of, lemma_utf8_len_concat, lemma_utf8_len_step, text_of, utf8_len,
};
use vstd::prelude::*;
use vstd::string::*;

verus! {

/// A reference from one note to another.
#[derive(Debug, Clone, PartialEq, Eq)]
pub struct Link {
    /// Path of the note that holds the link, relative to the vault root.
    pub source_file: String,
    /// The note that the link points to; may hold path segments.
    pub target_note: String,
    /// The text to show in place of the target, if the link gives one.
    pub display_text: Option<String>,
    /// Byte offset of the link in the text of its note.
    pub position: usize,
    /// Length in bytes of the link, brackets included.
    pub length: usize,
}

/// A `Link` with its texts as sequences of characters.
pub ghost struct LinkView {
    pub source_file: Seq<char>,
    pub target_note: Seq<char>,
    pub display_text: Option<Seq<char>>,
    pub position: nat,
    pub length: nat,
}

impl View for Link {
    type V = LinkView;

    open spec fn view(&self) -> LinkView {
        LinkView {
            source_file: self.source_file@,
            target_note: self.target_note@,
            display_text: match self.display_text {
                Some(t) => Some(t@),
                None => None,
            },
            position: self.position as nat,
            length: self.length as nat,
        }
    }
}

impl DeepView for Link {
    type V = LinkView;

    open spec fn deep_view(&self) -> LinkView {
        self@
    }
}

// ---------------------------------------------------------------------------
// The syntax
// ---------------------------------------------------------------------------

/// The two characters that a link's inner text cannot hold.
pub open spec fn is_bracket(c: char) -> bool {
    c == '[' || c == ']'
}

/// `text[start..end]` is a link: two opening brackets, one or more
/// characters that are no brackets, two closing brackets.
pub open spec fn link_span(text: Seq<char>, start: int, end: int) -> bool {
    &&& 0 <= start
    &&& start + 5 <= end <= text.len()
    &&& text[start] == '['
    &&& text[start + 1] == '['
    &&& text[end - 2] == ']'
    &&& text[end - 1] == ']'
    &&& forall|k: int| start + 2 <= k < end - 2 ==> !is_bracket(#[trigger] text[k])
}

/// A link opens at `start`.
pub open spec fn link_opens(text: Seq<char>, start: int) -> bool {
    exists|end: int| link_span(text, start, end)
}

/// Where the link that opens at `start` ends.
pub open spec fn link_end(text: Seq<char>, start: int) -> int {
    choose|end: int| link_span(text, start, end)
}

/// A link that opens at `start` ends in one place only: at the first two
/// closing brackets.
pub proof fn lemma_link_end(text: Seq<char>, start: int, end: int)
    requires
        link_span(text, start, end),
    ensures
        link_opens(text, start),
        link_end(text, start) == end,
{
    let other = link_end(text, start);
    assert(link_span(text, start, other));
    if other < end {
        assert(is_bracket(text[other - 2]));
    } else if end < other {
        assert(is_bracket(text[end - 2]));
    }
}

/// The links of `text` from index `from` on, as pairs of start and end: the
/// leftmost link first, then the links of what follows it. Links do not
/// overlap.
pub open spec fn spans_from(text: Seq<char>, from: int) -> Seq<(int, int)>
    decreases text.len() - from,
{
    if from < 0 || from >= text.len() {
        Seq::empty()
    } else if link_opens(text, from) {
        seq![(from, link_end(text, from))] + spans_from(text, link_end(text, from))
    } else {
        spans_from(text, from + 1)
    }
}

/// What the scan finds: every span is a link, the spans come from left to
/// right without overlap, and a link that is not among them opens inside
/// one that is.
#[verifier::rlimit(40)]
pub proof fn lemma_spans_from(text: Seq<char>, from: int)
    requires
        0 <= from,
    ensures
        forall|i: int|
            0 <= i < spans_from(text, from).len() ==> {
                let span = #[trigger] spans_from(text, from)[i];
                from <= span.0 && link_span(text, span.0, span.1)
            },
        forall|i: int, j: int|
            0 <= i < j < spans_from(text, from).len() ==> (#[trigger] spans_from(text, from)[i]).1
                <= (#[trigger] spans_from(text, from)[j]).0,
        forall|s: int|
            from <= s && #[trigger] link_opens(text, s) ==> exists|i: int|
                0 <= i < spans_from(text, from).len() && (#[trigger] spans_from(text, from)[i]).0
                    <= s < spans_from(text, from)[i].1,
    decreases text.len() - from,
{
    let spans = spans_from(text, from);
    if from >= text.len() {
        assert forall|s: int| from <= s implies !#[trigger] link_opens(text, s) by {
            if link_opens(text, s) {
                assert(link_span(text, s, link_end(text, s)));
            }
        }
    } else if link_opens(text, from) {
        let end = link_end(text, from);
        assert(link_span(text, from, end));
        let rest = spans_from(text, end);
        lemma_spans_from(text, end);
        assert(spans == seq![(from, end)] + rest);
        assert forall|i: int| 0 <= i < spans.len() implies {
            let span = #[trigger] spans[i];
            from <= span.0 && link_span(text, span.0, span.1)
        } by {
            if i > 0 {
                assert(spans[i] == rest[i - 1]);
            }
        }
        assert forall|i: int, j: int| 0 <= i < j < spans.len() implies (#[trigger] spans[i]).1 <= (
        #[trigger] spans[j]).0 by {
            assert(spans[j] == rest[j - 1]);
            if i > 0 {
                assert(spans[i] == rest[i - 1]);
            }
        }
        assert forall|s: int| from <= s && #[trigger] link_opens(text, s) implies exists|i: int|
            0 <= i < spans.len() && (#[trigger] spans[i]).0 <= s < spans[i].1 by {
            if s < end {
                assert(spans[0].0 <= s < spans[0].1);
            } else {
                let k = choose|k: int| 0 <= k < rest.len() && (#[trigger] rest[k]).0 <= s < rest[k].1;
                assert(spans[k + 1] == rest[k]);
                assert(spans[k + 1].0 <= s < spans[k + 1].1);
            }
        }
    } else {
        let rest = spans_from(text, from + 1);
        lemma_spans_from(text, from + 1);
        assert(spans == rest);
        assert forall|i: int| 0 <= i < spans.len() implies {
            let span = #[trigger] spans[i];
            from <= span.0 && link_span(text, span.0, span.1)
        } by {
            let span = rest[i];
            assert(from + 1 <= span.0 && link_span(text, span.0, span.1));
        }
    }
}

/// Index of the first `|` of `inner`, or its length where it holds none.
pub open spec fn pipe_index(inner: Seq<char>) -> int
    decreases inner.len(),
{
    if inner.len() == 0 {
        0
    } else if inner[0] == '|' {
        0
    } else {
        1 + pipe_index(inner.drop_first())
    }
}

/// The first `|` stands where nothing before it is one.
pub proof fn lemma_pipe_index(inner: Seq<char>, p: int)
    requires
        0 <= p <= inner.len(),
        forall|k: int| 0 <= k < p ==> inner[k] != '|',
        p < inner.len() ==> inner[p] == '|',
    ensures
        pipe_index(inner) == p,
    decreases p,
{
    if p > 0 {
        let rest = inner.drop_first();
        assert forall|k: int| 0 <= k < p - 1 implies rest[k] != '|' by {
            assert(rest[k] == inner[k + 1]);
        }
        if p < inner.len() {
            assert(rest[p - 1] == inner[p]);
        }
        lemma_pipe_index(rest, p - 1);
    }
}

/// The link that `text[start..end]` spells, found in the note `source`:
/// what stands between the brackets is the target, or, where it holds a
/// `|`, the target before the first `|` and the display text after it.
pub open spec fn link_of(text: Seq<char>, source: Seq<char>, start: int, end: int) -> LinkView {
    let inner = text.subrange(start + 2, end - 2);
    let p = pipe_index(inner);
    LinkView {
        source_file: source,
        target_note: inner.take(p),
        display_text: if p < inner.len() {
            Some(inner.skip(p + 1))
        } else {
            None
        },
        position: utf8_len(text.take(start)),
        length: utf8_len(text.subrange(start, end)),
    }
}

/// The links of a note with the text `content`, found in the file `source`.
pub open spec fn links_in(content: Seq<char>, source: Seq<char>) -> Seq<LinkView> {
    spans_from(content, 0).map_values(|span: (int, int)| link_of(content, source, span.0, span.1))
}

// ---------------------------------------------------------------------------
// The scanner
// ---------------------------------------------------------------------------

/// Looks for a link that opens at `start`: its end and the place of its
/// first `|`, if it has one.
fn link_at(text: &Vec<char>, start: usize) -> (r: Option<(usize, Option<usize>)>)
    requires
        start < text.len(),
    ensures
        match r {
            Some((end, pipe)) => {
                &&& link_span(text@, start as int, end as int)
                &&& pipe_index(text@.subrange(start + 2, end - 2)) == match pipe {
                    Some(p) => p - (start + 2),
                    None => end - 2 - (start + 2),
                }
                &&& match pipe {
                    Some(p) => start + 2 <= p < end - 2,
                    None => true,
                }
            },
            None => !link_opens(text@, start as int),
        },
{
    let n: usize = text.len();
    if text[start] != '[' || n - start < 5 || text[start + 1] != '[' {
        assert forall|end: int| !link_span(text@, start as int, end) by {}
        return None;
    }
    let first: usize = start + 2;
    let mut j: usize = first;
    let mut pipe: Option<usize> = None;
    while j < n && text[j] != '[' && text[j] != ']'
        invariant
            first == start + 2,
            first <= j <= n,
            n == text.len(),
            forall|k: int| first <= k < j ==> !is_bracket(#[trigger] text@[k]),
            match pipe {
                Some(p) => first <= p < j && text@[p as int] == '|' && forall|k: int|
                    first <= k < p ==> text@[k] != '|',
                None => forall|k: int| first <= k < j ==> text@[k] != '|',
            },
        decreases n - j,
    {
        if pipe.is_none() && text[j] == '|' {
            pipe = Some(j);
        }
        j += 1;
    }
    if j > first && n - j >= 2 && text[j] == ']' && text[j + 1] == ']' {
        let end: usize = j + 2;
        proof {
            let inner = text@.subrange(first as int, j as int);
            match pipe {
                Some(p) => {
                    lemma_pipe_index(inner, p - first);
                },
                None => {
                    lemma_pipe_index(inner, j - first);
                },
            }
        }
        Some((end, pipe))
    } else {
        assert forall|end: int| !link_span(text@, start as int, end) by {
            if link_span(text@, start as int, end) {
                if end - 2 < j {
                    assert(!is_bracket(text@[end - 2]));
                } else if end - 2 > j {
                    assert(is_bracket(text@[j as int]));
                }
            }
        }
        None
    }
}

/// Number of bytes that `text[from..to]` takes in UTF-8.
fn width_between(text: &Vec<char>, from: usize, to: usize) -> (w: usize)
    requires
        from <= to <= text.len(),
        utf8_len(text@) <= usize::MAX,
    ensures
        w == utf8_len(text@.subrange(from as int, to as int)),
        utf8_len(text@.take(to as int)) == utf8_len(text@.take(from as int)) + w,
        utf8_len(text@.take(to as int)) <= utf8_len(text@),
{
    let ghost part = text@.subrange(from as int, to as int);
    proof {
        assert(text@.take(to as int) == text@.take(from as int) + part);
        lemma_utf8_len_concat(text@.take(from as int), part);
        assert(text@ == text@.take(to as int) + text@.skip(to as int));
        lemma_utf8_len_concat(text@.take(to as int), text@.skip(to as int));
        assert(part.take(0) == Seq::<char>::empty());
        assert(utf8_len(Seq::<char>::empty()) == 0);
    }
    let mut w: usize = 0;
    let mut i: usize = from;
    while i < to
        invariant
            from <= i <= to <= text.len(),
            part == text@.subrange(from as int, to as int),
            w == utf8_len(part.take(i - from)),
            utf8_len(part) <= usize::MAX,
        decreases to - i,
    {
        proof {
            lemma_utf8_len_step(part, i - from);
        }
        w += char_width(text[i]);
        i += 1;
    }
    assert(part.take(to - from) == part);
    w
}

/// The link that `text[start..end]` spells.
fn link_from(
    text: &Vec<char>,
    source_file: &str,
    start: usize,
    end: usize,
    pipe: Option<usize>,
    position: usize,
    length: usize,
) -> (link: Link)
    requires
        link_span(text@, start as int, end as int),
        pipe_index(text@.subrange(start + 2, end - 2)) == match pipe {
            Some(p) => p - (start + 2),
            None => end - 2 - (start + 2),
        },
        match pipe {
            Some(p) => start + 2 <= p < end - 2,
            None => true,
        },
        position == utf8_len(text@.take(start as int)),
        length == utf8_len(text@.subrange(start as int, end as int)),
    ensures
        link@ == link_of(text@, source_file@, start as int, end as int),
{
    let ghost inner = text@.subrange(start + 2, end - 2);
    let (target_note, display_text) = match pipe {
        Some(p) => {
            let target = text_of(text, start + 2, p);
            let display = text_of(text, p + 1, end - 2);
            assert(target@ == inner.take(p - (start + 2)));
            assert(display@ == inner.skip(p - (start + 2) + 1));
            (target, Some(display))
        },
        None => {
            let target = text_of(text, start + 2, end - 2);
            assert(target@ == inner.take(inner.len() as int));
            (target, None)
        },
    };
    Link { source_file: source_file.to_owned(), target_note, display_text, position, length }
}

/// The links of a note with the text `content`, found in the file
/// `source_file`.
#[verifier::rlimit(40)]
pub fn parse_links_from_content(content: &str, source_file: &str) -> (links: Vec<Link>)
    ensures
        links.deep_view() == links_in(content@, source_file@),
{
    let text = chars_of(content);
    let n: usize = text.len();
    let bytes = content.as_bytes();
    let total: usize = bytes.len();
    assert(utf8_len(text@) == total);
    let mut links: Vec<Link> = Vec::new();
    let ghost mut spans: Seq<(int, int)> = Seq::empty();
    let mut i: usize = 0;
    let mut offset: usize = 0;
    proof {
        assert(text@.take(0) == Seq::<char>::empty());
        assert(utf8_len(Seq::<char>::empty()) == 0);
    }
    while i < n
        invariant
            i <= n,
            n == text.len(),
            text@ == content@,
            utf8_len(text@) <= usize::MAX,
            offset == utf8_len(text@.take(i as int)),
            spans_from(text@, 0) == spans + spans_from(text@, i as int),
            links.len() == spans.len(),
            forall|k: int|
                0 <= k < links.len() ==> (#[trigger] links@[k])@ == link_of(
                    text@,
                    source_file@,
                    spans[k].0,
                    spans[k].1,
                ),
        decreases n - i,
    {
        match link_at(&text, i) {
            Some((end, pipe)) => {
                proof {
                    lemma_link_end(text@, i as int, end as int);
                }
                let length = width_between(&text, i, end);
                links.push(link_from(&text, source_file, i, end, pipe, offset, length));
                proof {
                    let tail = spans_from(text@, end as int);
                    assert(spans + (seq![(i as int, end as int)] + tail) == spans.push(
                        (i as int, end as int),
                    ) + tail);
                    spans = spans.push((i as int, end as int));
                }
                offset += length;
                i = end;
            },
            None => {
                proof {
                    lemma_utf8_len_step(text@, i as int);
                }
                offset += char_width(text[i]);
                i += 1;
            },
        }
    }
    proof {
        assert(spans + Seq::<(int, int)>::empty() == spans);
        assert(links.deep_view() =~= links_in(content@, source_file@));
    }
    links
}

// ---------------------------------------------------------------------------
// Links of one file, links of all files
// ---------------------------------------------------------------------------

/// A note as it was read: its path relative to the vault root, and its
/// text.
#[derive(Debug, PartialEq, Eq)]
pub struct NoteFile {
    pub path: String,
    pub content: String,
}

/// A `NoteFile` with its texts as sequences of characters.
pub ghost struct NoteFileView {
    pub path: Seq<char>,
    pub content: Seq<char>,
}

impl View for NoteFile {
    type V = NoteFileView;

    open spec fn view(&self) -> NoteFileView {
        NoteFileView { path: self.path@, content: self.content@ }
    }
}

impl DeepView for NoteFile {
    type V = NoteFileView;

    open spec fn deep_view(&self) -> NoteFileView {
        self@
    }
}

/// A result with its texts as sequences of characters.
pub open spec fn links_result_view(r: Result<Vec<Link>, VaultError>) -> Result<
    Seq<LinkView>,
    VaultErrorView,
> {
    match r {
        Ok(links) => Ok(links.deep_view()),
        Err(e) => Err(e@),
    }
}

/// The links of the note at `rel`, whose text is `content`; `NotFound`
/// where there is no such file, which `None` stands for.
pub fn get_links_from_file(rel: &str, content: Option<&str>) -> (r: Result<Vec<Link>, VaultError>)
    ensures
        links_result_view(r) == match content {
            Some(text) => Ok::<Seq<LinkView>, VaultErrorView>(links_in(text@, rel@)),
            None => Err::<Seq<LinkView>, VaultErrorView>(
                VaultErrorView::NotFound(framed("File '"@, rel@, "' does not exist"@)),
            ),
        },
{
    match content {
        Some(text) => Ok(parse_links_from_content(text, rel)),
        None => Err(VaultError::file_missing(rel)),
    }
}

/// The links of all of `files`, file after file.
pub open spec fn links_of_all(files: Seq<NoteFileView>) -> Seq<LinkView>
    decreases files.len(),
{
    if files.len() == 0 {
        Seq::empty()
    } else {
        links_of_all(files.drop_last()) + links_in(files.last().content, files.last().path)
    }
}

/// The links of all the notes of a vault: those of each of `files`, in the
/// order of the files, each with the path of its file.
pub fn get_all_links(files: &Vec<NoteFile>) -> (links: Vec<Link>)
    ensures
        links.deep_view() == links_of_all(files.deep_view()),
{
    let ghost all = files.deep_view();
    let mut links: Vec<Link> = Vec::new();
    let mut i: usize = 0;
    assert(links.deep_view() =~= links_of_all(all.take(0)));
    while i < files.len()
        invariant
            i <= files.len(),
            all == files.deep_view(),
            links.deep_view() == links_of_all(all.take(i as int)),
        decreases files.len() - i,
    {
        let file = &files[i];
        let mut found = parse_links_from_content(file.content.as_str(), file.path.as_str());
        let ghost before = links.deep_view();
        let ghost added = found.deep_view();
        links.append(&mut found);
        proof {
            assert(all.take(i + 1).drop_last() == all.take(i as int));
            assert(all.take(i + 1).last() == file@);
            assert(links.deep_view() =~= before + added);
        }
        i += 1;
    }
    assert(all.take(files.len() as int) == all);
    links
}

} // verus!
