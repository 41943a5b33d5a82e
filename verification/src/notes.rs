//! Creating, reading, writing, renaming and deleting notes and folders.
//!
//! The file system is not reached from here. An operation is given what was
//! seen on disk and answers with its error or with the steps to take on
//! disk, in order; whoever takes them stops at the first that fails and
//! reports it with `FsStep::failure`.

use crate::error::{failure_text, framed, VaultError, VaultErrorView};
use crate::vault::{text_result_view, AppState};
use vstd::prelude::*;
use vstd::string::*;
use vstd::utf8::*;

verus! {

/// One step on disk. Every path is relative to the vault root.
#[derive(Debug, PartialEq, Eq)]
pub enum FsStep {
    /// Create the directories above the path, as far as they are missing.
    MakeParents { rel: String },
    /// Create the directory and those above it, as far as they are missing.
    MakeDirs { rel: String },
    /// Create the file, empty.
    CreateEmpty { rel: String },
    /// Write the bytes to the file, in place of what it held.
    Write { rel: String, bytes: Vec<u8> },
    /// Read the file.
    Read { rel: String },
    /// Give the entry at `from` the path `to`.
    Rename { from: String, to: String },
    /// Remove the directory and all that it holds.
    RemoveDir { rel: String },
    /// Remove the file.
    RemoveFile { rel: String },
}

/// An `FsStep` with its texts as sequences of characters.
pub ghost enum FsStepView {
    MakeParents { rel: Seq<char> },
    MakeDirs { rel: Seq<char> },
    CreateEmpty { rel: Seq<char> },
    Write { rel: Seq<char>, bytes: Seq<u8> },
    Read { rel: Seq<char> },
    Rename { from: Seq<char>, to: Seq<char> },
    RemoveDir { rel: Seq<char> },
    RemoveFile { rel: Seq<char> },
}

impl View for FsStep {
    type V = FsStepView;

    open spec fn view(&self) -> FsStepView {
        match self {
            FsStep::MakeParents { rel } => FsStepView::MakeParents { rel: rel@ },
            FsStep::MakeDirs { rel } => FsStepView::MakeDirs { rel: rel@ },
            FsStep::CreateEmpty { rel } => FsStepView::CreateEmpty { rel: rel@ },
            FsStep::Write { rel, bytes } => FsStepView::Write { rel: rel@, bytes: bytes@ },
            FsStep::Read { rel } => FsStepView::Read { rel: rel@ },
            FsStep::Rename { from, to } => FsStepView::Rename { from: from@, to: to@ },
            FsStep::RemoveDir { rel } => FsStepView::RemoveDir { rel: rel@ },
            FsStep::RemoveFile { rel } => FsStepView::RemoveFile { rel: rel@ },
        }
    }
}

impl DeepView for FsStep {
    type V = FsStepView;

    open spec fn deep_view(&self) -> FsStepView {
        self@
    }
}

impl FsStepView {
    /// What the step attempts, as the message of its failure names it.
    pub open spec fn attempt(self) -> Seq<char> {
        match self {
            FsStepView::MakeParents { .. } => "Failed to create parent directories"@,
            FsStepView::MakeDirs { .. } => "Failed to create folder"@,
            FsStepView::CreateEmpty { .. } => "Failed to create note"@,
            FsStepView::Write { .. } => "Failed to write note"@,
            FsStepView::Read { .. } => "Failed to read note"@,
            FsStepView::Rename { .. } => "Failed to rename entry"@,
            FsStepView::RemoveDir { .. } => "Failed to delete directory"@,
            FsStepView::RemoveFile { .. } => "Failed to delete file"@,
        }
    }
}

impl FsStep {
    /// What the step attempts, as the message of its failure names it.
    pub fn attempt(&self) -> (s: &'static str)
        ensures
            s@ == self@.attempt(),
    {
        match self {
            FsStep::MakeParents { .. } => "Failed to create parent directories",
            FsStep::MakeDirs { .. } => "Failed to create folder",
            FsStep::CreateEmpty { .. } => "Failed to create note",
            FsStep::Write { .. } => "Failed to write note",
            FsStep::Read { .. } => "Failed to read note",
            FsStep::Rename { .. } => "Failed to rename entry",
            FsStep::RemoveDir { .. } => "Failed to delete directory",
            FsStep::RemoveFile { .. } => "Failed to delete file",
        }
    }

    /// The error to report when the file system fails at this step and
    /// gives `cause`.
    pub fn failure(&self, cause: &str) -> (e: VaultError)
        ensures
            e@ == VaultErrorView::IoFailure(failure_text(self@.attempt(), cause@)),
    {
        VaultError::io_failure(self.attempt(), cause)
    }
}

/// What stands at a path on disk.
#[derive(Debug, Clone, Copy, PartialEq, Eq, Structural)]
pub enum PathKind {
    Missing,
    File,
    Directory,
}

/// The steps of an operation, or its error, with texts as sequences of
/// characters.
pub open spec fn plan_view(r: Result<Vec<FsStep>, VaultError>) -> Result<
    Seq<FsStepView>,
    VaultErrorView,
> {
    match r {
        Ok(steps) => Ok(steps.deep_view()),
        Err(e) => Err(e@),
    }
}

/// What an operation answers that has checked nothing but the vault root.
pub open spec fn rooted(state: Option<Seq<char>>, steps: Seq<FsStepView>) -> Result<
    Seq<FsStepView>,
    VaultErrorView,
> {
    if state.is_some() {
        Ok(steps)
    } else {
        Err(VaultErrorView::VaultUnset)
    }
}

/// Creating the note at `rel`, given whether something stands there
/// already: the directories above it are made, and the file is created
/// empty only where nothing stands. A note that exists is left as it is, so
/// that creating it again changes nothing.
pub fn create_note(state: &AppState, rel: &str, present: bool) -> (r: Result<
    Vec<FsStep>,
    VaultError,
>)
    ensures
        plan_view(r) == rooted(
            state@,
            if present {
                seq![FsStepView::MakeParents { rel: rel@ }]
            } else {
                seq![FsStepView::MakeParents { rel: rel@ }, FsStepView::CreateEmpty { rel: rel@ }]
            },
        ),
{
    if state.vault_path.is_none() {
        return Err(VaultError::VaultUnset);
    }
    let mut steps: Vec<FsStep> = Vec::new();
    steps.push(FsStep::MakeParents { rel: rel.to_owned() });
    if !present {
        steps.push(FsStep::CreateEmpty { rel: rel.to_owned() });
    }
    assert(plan_view(Ok(steps)) =~= rooted(
        state@,
        if present {
            seq![FsStepView::MakeParents { rel: rel@ }]
        } else {
            seq![FsStepView::MakeParents { rel: rel@ }, FsStepView::CreateEmpty { rel: rel@ }]
        },
    )) by {
        assert(steps.deep_view() =~= if present {
            seq![FsStepView::MakeParents { rel: rel@ }]
        } else {
            seq![FsStepView::MakeParents { rel: rel@ }, FsStepView::CreateEmpty { rel: rel@ }]
        });
    }
    Ok(steps)
}

/// Creating the folder at `rel`, with the folders above it. A folder that
/// exists is no error.
pub fn create_folder(state: &AppState, rel: &str) -> (r: Result<Vec<FsStep>, VaultError>)
    ensures
        plan_view(r) == rooted(state@, seq![FsStepView::MakeDirs { rel: rel@ }]),
{
    if state.vault_path.is_none() {
        return Err(VaultError::VaultUnset);
    }
    let mut steps: Vec<FsStep> = Vec::new();
    steps.push(FsStep::MakeDirs { rel: rel.to_owned() });
    assert(steps.deep_view() =~= seq![FsStepView::MakeDirs { rel: rel@ }]);
    Ok(steps)
}

/// Reading the note at `rel`, given whether it exists: `NotFound` where it
/// does not. What is read goes to `decode_note`.
pub fn read_note(state: &AppState, rel: &str, present: bool) -> (r: Result<Vec<FsStep>, VaultError>)
    ensures
        plan_view(r) == if state@.is_none() {
            Err::<Seq<FsStepView>, VaultErrorView>(VaultErrorView::VaultUnset)
        } else if !present {
            Err::<Seq<FsStepView>, VaultErrorView>(
                VaultErrorView::NotFound(framed("File '"@, rel@, "' does not exist"@)),
            )
        } else {
            Ok::<Seq<FsStepView>, VaultErrorView>(seq![FsStepView::Read { rel: rel@ }])
        },
{
    if state.vault_path.is_none() {
        return Err(VaultError::VaultUnset);
    }
    if !present {
        return Err(VaultError::file_missing(rel));
    }
    let mut steps: Vec<FsStep> = Vec::new();
    steps.push(FsStep::Read { rel: rel.to_owned() });
    assert(steps.deep_view() =~= seq![FsStepView::Read { rel: rel@ }]);
    Ok(steps)
}

/// Writing `content` to the note at `rel`: the directories above it are
/// made, and the file is given the bytes of `content` in UTF-8, whatever it
/// held.
pub fn write_note(state: &AppState, rel: &str, content: &str) -> (r: Result<Vec<FsStep>, VaultError>)
    ensures
        plan_view(r) == rooted(
            state@,
            seq![
                FsStepView::MakeParents { rel: rel@ },
                FsStepView::Write { rel: rel@, bytes: encode_utf8(content@) },
            ],
        ),
{
    if state.vault_path.is_none() {
        return Err(VaultError::VaultUnset);
    }
    let mut steps: Vec<FsStep> = Vec::new();
    steps.push(FsStep::MakeParents { rel: rel.to_owned() });
    steps.push(FsStep::Write { rel: rel.to_owned(), bytes: content.as_bytes_vec() });
    assert(steps.deep_view() =~= seq![
        FsStepView::MakeParents { rel: rel@ },
        FsStepView::Write { rel: rel@, bytes: encode_utf8(content@) },
    ]);
    Ok(steps)
}

/// Renaming the entry at `from` to `to`, given whether each of the two
/// exists: `NotFound` where `from` does not, `AlreadyExists` where `to`
/// does, and then no step is taken, so that nothing on disk is touched.
pub fn rename_entry(
    state: &AppState,
    from: &str,
    to: &str,
    from_present: bool,
    to_present: bool,
) -> (r: Result<Vec<FsStep>, VaultError>)
    ensures
        plan_view(r) == if state@.is_none() {
            Err::<Seq<FsStepView>, VaultErrorView>(VaultErrorView::VaultUnset)
        } else if !from_present {
            Err::<Seq<FsStepView>, VaultErrorView>(
                VaultErrorView::NotFound(framed("Source path '"@, from@, "' does not exist"@)),
            )
        } else if to_present {
            Err::<Seq<FsStepView>, VaultErrorView>(
                VaultErrorView::AlreadyExists(
                    framed("Destination path '"@, to@, "' already exists"@),
                ),
            )
        } else {
            Ok::<Seq<FsStepView>, VaultErrorView>(
                seq![
                    FsStepView::MakeParents { rel: to@ },
                    FsStepView::Rename { from: from@, to: to@ },
                ],
            )
        },
{
    if state.vault_path.is_none() {
        return Err(VaultError::VaultUnset);
    }
    if !from_present {
        return Err(VaultError::source_missing(from));
    }
    if to_present {
        return Err(VaultError::destination_taken(to));
    }
    let mut steps: Vec<FsStep> = Vec::new();
    steps.push(FsStep::MakeParents { rel: to.to_owned() });
    steps.push(FsStep::Rename { from: from.to_owned(), to: to.to_owned() });
    assert(steps.deep_view() =~= seq![
        FsStepView::MakeParents { rel: to@ },
        FsStepView::Rename { from: from@, to: to@ },
    ]);
    Ok(steps)
}

/// Deleting the entry at `rel`, given what stands there: `NotFound` where
/// nothing does; a directory goes with all that it holds.
pub fn delete_entry(state: &AppState, rel: &str, kind: PathKind) -> (r: Result<
    Vec<FsStep>,
    VaultError,
>)
    ensures
        plan_view(r) == if state@.is_none() {
            Err::<Seq<FsStepView>, VaultErrorView>(VaultErrorView::VaultUnset)
        } else {
            match kind {
                PathKind::Missing => Err::<Seq<FsStepView>, VaultErrorView>(
                    VaultErrorView::NotFound(framed("Path '"@, rel@, "' does not exist"@)),
                ),
                PathKind::Directory => Ok::<Seq<FsStepView>, VaultErrorView>(
                    seq![FsStepView::RemoveDir { rel: rel@ }],
                ),
                PathKind::File => Ok::<Seq<FsStepView>, VaultErrorView>(
                    seq![FsStepView::RemoveFile { rel: rel@ }],
                ),
            }
        },
{
    if state.vault_path.is_none() {
        return Err(VaultError::VaultUnset);
    }
    let mut steps: Vec<FsStep> = Vec::new();
    match kind {
        PathKind::Missing => {
            return Err(VaultError::path_missing(rel));
        },
        PathKind::Directory => {
            steps.push(FsStep::RemoveDir { rel: rel.to_owned() });
            assert(steps.deep_view() =~= seq![FsStepView::RemoveDir { rel: rel@ }]);
        },
        PathKind::File => {
            steps.push(FsStep::RemoveFile { rel: rel.to_owned() });
            assert(steps.deep_view() =~= seq![FsStepView::RemoveFile { rel: rel@ }]);
        },
    }
    Ok(steps)
}

// ---------------------------------------------------------------------------
// The text of a note
// ---------------------------------------------------------------------------

/// Trusted: `String::from_utf8` gives the text that the bytes encode where
/// they are valid UTF-8, and an error where they are not; the error is
/// dropped here.
#[verifier::external_body]
fn text_from_utf8(bytes: Vec<u8>) -> (r: Option<String>)
    ensures
        match r {
            Some(text) => valid_utf8(bytes@) && text@ == decode_utf8(bytes@),
            None => !valid_utf8(bytes@),
        },
{
    String::from_utf8(bytes).ok()
}

/// Message for a file that does not hold text.
pub open spec fn not_text() -> Seq<char> {
    failure_text("Failed to read note"@, "stream did not contain valid UTF-8"@)
}

/// What the bytes of a note decode to: their text where they are valid
/// UTF-8, `DecodeError` where they are not.
pub open spec fn decoded(bytes: Seq<u8>) -> Result<Seq<char>, VaultErrorView> {
    if valid_utf8(bytes) {
        Ok(decode_utf8(bytes))
    } else {
        Err(VaultErrorView::DecodeError(not_text()))
    }
}

/// The text of a note whose file holds `bytes`.
pub fn decode_note(bytes: Vec<u8>) -> (r: Result<String, VaultError>)
    ensures
        text_result_view(r) == decoded(bytes@),
{
    match text_from_utf8(bytes) {
        Some(text) => Ok(text),
        None => Err(
            VaultError::decode_error("Failed to read note", "stream did not contain valid UTF-8"),
        ),
    }
}

/// What is written for a text reads back as that text: the bytes that
/// `write_note` hands out decode to the content that it was given.
pub proof fn lemma_written_note_reads_back(content: Seq<char>)
    ensures
        decoded(encode_utf8(content)) == Ok::<Seq<char>, VaultErrorView>(content),
{
    encode_utf8_valid_utf8(content);
    encode_utf8_decode_utf8(content);
}

} // verus!
