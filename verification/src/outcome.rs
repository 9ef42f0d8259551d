//! The verdict on a file: whether the type found in its bytes agrees with
//! the type that its extension declares, and the tally over many files.

use crate::file_manager::{get_file_info, leading, uppercase, FileManagerError, FileSignature};
use crate::matching::{search_result, Signatures};
use crate::trie::MagicNumberTrie;
use std::path::PathBuf;
use vstd::prelude::*;
use vstd::string::StringExecFns;

verus! {

/// `std::path::PathBuf`. A path is only carried from the caller into the
/// result; nothing here looks inside it.
#[verifier::external_type_specification]
#[verifier::external_body]
pub struct ExPathBuf(PathBuf);

/// What the error says when a path does not lead to a regular file.
pub const NOT_A_FILE: &'static str = "The provided path is not a file.";

/// The actual type that is reported when the bytes are not recognized.
pub const UNKNOWN: &'static str = "Unknown";

/// The verdict on one file.
#[derive(Debug)]
pub enum FileResult {
    /// The type found in the bytes agrees with the declared type.
    Correct(PathBuf),
    /// The bytes were recognized as another type, or not at all.
    Incorrect { path: PathBuf, declared_type: String, actual_type: String },
    /// The file could not be judged.
    Error { path: PathBuf, error_message: String },
}

/// A verdict with its texts as sequences of characters.
pub enum FileResultView {
    Correct(PathBuf),
    Incorrect { path: PathBuf, declared_type: Seq<char>, actual_type: Seq<char> },
    Error { path: PathBuf, error_message: Seq<char> },
}

impl View for FileResult {
    type V = FileResultView;

    open spec fn view(&self) -> FileResultView {
        match self {
            FileResult::Correct(path) => FileResultView::Correct(*path),
            FileResult::Incorrect { path, declared_type, actual_type } => FileResultView::Incorrect {
                path: *path,
                declared_type: declared_type@,
                actual_type: actual_type@,
            },
            FileResult::Error { path, error_message } => FileResultView::Error {
                path: *path,
                error_message: error_message@,
            },
        }
    }
}

/// `needle` occurs in `hay` as a run of consecutive characters.
pub open spec fn is_substring(needle: Seq<char>, hay: Seq<char>) -> bool {
    exists|start: int|
        0 <= start && start + needle.len() <= hay.len() && #[trigger] hay.subrange(
            start,
            start + needle.len(),
        ) == needle
}

/// Calls `str::contains` with a string as the pattern: whether `needle`
/// matches a sub-slice of `hay`. Both are valid UTF-8, so a match of the bytes
/// is a match of whole characters.
#[verifier::external_body]
fn contains(hay: &str, needle: &str) -> (found: bool)
    ensures
        found == is_substring(needle@, hay@),
{
    hay.contains(needle)
}

/// The verdict on a file that declares `declared_type` and whose bytes were
/// recognized as `actual_type`, or not recognized.
///
/// The file is correct when the actual type contains the declared type as a
/// substring, case-sensitively; labels may be longer than extensions. Bytes
/// that were not recognized make the file incorrect, with the actual type
/// `UNKNOWN`.
pub open spec fn classification(
    path: PathBuf,
    declared_type: Seq<char>,
    actual_type: Option<Seq<char>>,
) -> FileResultView {
    match actual_type {
        Some(actual_type) => if is_substring(declared_type, actual_type) {
            FileResultView::Correct(path)
        } else {
            FileResultView::Incorrect { path, declared_type, actual_type }
        },
        None => FileResultView::Incorrect { path, declared_type, actual_type: UNKNOWN@ },
    }
}

/// Judges a file from its declared type and from what the search found in its
/// bytes.
pub fn classify(path: PathBuf, file_info: FileSignature, actual_type: Option<String>) -> (verdict: FileResult)
    ensures
        verdict@ == classification(path, file_info.declared_type@, actual_type.deep_view()),
{
    let mut file_info = file_info;
    match actual_type {
        Some(actual_type) => {
            file_info.actual_type = actual_type;
            if contains(file_info.actual_type.as_str(), file_info.declared_type.as_str()) {
                FileResult::Correct(path)
            } else {
                FileResult::Incorrect {
                    path,
                    declared_type: file_info.declared_type,
                    actual_type: file_info.actual_type,
                }
            }
        },
        None => FileResult::Incorrect {
            path,
            declared_type: file_info.declared_type,
            actual_type: String::from_str(UNKNOWN),
        },
    }
}

/// The verdict on a file, from what was found at its path.
///
/// A path that is not a regular file is an error, and so is a file without
/// an extension or one that could not be read, in this order. Otherwise at
/// most `buffer_size` leading bytes are searched for a signature and the
/// result is compared with the extension in upper case.
pub open spec fn file_verdict(
    path: PathBuf,
    is_file: bool,
    extension: Option<&str>,
    read: Result<Vec<u8>, String>,
    sigs: Signatures,
    offsets: Seq<u32>,
    buffer_size: u32,
) -> FileResultView {
    if !is_file {
        FileResultView::Error { path, error_message: NOT_A_FILE@ }
    } else {
        match extension {
            None => FileResultView::Error { path, error_message: FileManagerError::MissingExtension.spec_message() },
            Some(extension) => match read {
                Err(reason) => FileResultView::Error { path, error_message: reason@ },
                Ok(head) => classification(
                    path,
                    uppercase(extension@),
                    search_result(sigs, offsets, leading(head@, buffer_size as nat)),
                ),
            },
        }
    }
}

/// Judges one file against the catalog.
///
/// The caller reports what it found at `path`: whether it is a regular file,
/// the extension of the file name if there is one, and what reading the start
/// of the file gave. Nothing is read here. A failure concerns this file only
/// and comes back as an `Error` verdict.
pub fn process_file(
    path: PathBuf,
    is_file: bool,
    extension: Option<&str>,
    read: Result<Vec<u8>, String>,
    trie: &MagicNumberTrie,
) -> (verdict: FileResult)
    ensures
        verdict@ == file_verdict(path, is_file, extension, read, trie@, trie.offsets(), trie.spec_max_buffer_size()),
{
    if !is_file {
        return FileResult::Error { path, error_message: String::from_str(NOT_A_FILE) };
    }
    let file_info = match get_file_info(extension, read, trie.max_buffer_size()) {
        Ok(file_info) => file_info,
        Err(error) => {
            return FileResult::Error { path, error_message: error.message() };
        },
    };
    let actual_type = trie.search(file_info.buffer.as_slice());
    classify(path, file_info, actual_type)
}

/// The tally over the verdicts of a run.
#[derive(Debug)]
pub struct Report {
    /// How many files were judged.
    pub total: usize,
    /// How many of them were correct.
    pub correct: usize,
    /// The incorrect ones, in the order in which they came.
    pub incorrect: Vec<FileResult>,
    /// The ones that could not be judged, in the order in which they came.
    pub errors: Vec<FileResult>,
}

/// The verdicts that say a file is correct.
pub open spec fn is_correct() -> spec_fn(FileResult) -> bool {
    |verdict: FileResult| verdict is Correct
}

/// The verdicts that say a file is incorrect.
pub open spec fn is_incorrect() -> spec_fn(FileResult) -> bool {
    |verdict: FileResult| verdict is Incorrect
}

/// The verdicts that say a file could not be judged.
pub open spec fn is_error() -> spec_fn(FileResult) -> bool {
    |verdict: FileResult| verdict is Error
}

/// Tallies the verdicts: counts the correct files and collects the incorrect
/// ones and the errors, each in the order in which they came.
pub fn report(results: Vec<FileResult>) -> (summary: Report)
    ensures
        summary.total == results@.len(),
        summary.correct == results@.filter(is_correct()).len(),
        summary.incorrect@ == results@.filter(is_incorrect()),
        summary.errors@ == results@.filter(is_error()),
{
    let total_files = results.len();
    let ghost all = results@;
    let mut correct_files: usize = 0;
    let mut incorrect_files: Vec<FileResult> = Vec::new();
    let mut error_files: Vec<FileResult> = Vec::new();
    for verdict in it: results
        invariant
            all.len() <= usize::MAX,
            it.seq() == all,
            correct_files == all.take(it.index() as int).filter(is_correct()).len(),
            incorrect_files@ == all.take(it.index() as int).filter(is_incorrect()),
            error_files@ == all.take(it.index() as int).filter(is_error()),
    {
        proof {
            let seen = all.take(it.index() as int);
            assert(all.take(it.index() + 1) =~= seen.push(verdict));
            seen.lemma_filter_push(verdict, is_correct());
            seen.lemma_filter_push(verdict, is_incorrect());
            seen.lemma_filter_push(verdict, is_error());
            all.take(it.index() + 1).lemma_filter_len(is_correct());
        }
        match verdict {
            FileResult::Correct(_) => {
                correct_files += 1;
            },
            FileResult::Incorrect { .. } => {
                incorrect_files.push(verdict);
            },
            FileResult::Error { .. } => {
                error_files.push(verdict);
            },
        }
    }
    assert(all.take(all.len() as int) =~= all);
    Report { total: total_files, correct: correct_files, incorrect: incorrect_files, errors: error_files }
}

} // verus!
