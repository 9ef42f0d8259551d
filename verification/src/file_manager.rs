//! What is known of a candidate file before its bytes are matched: the type
//! that its extension declares and the leading bytes that were read from it.

use vstd::prelude::*;
use vstd::string::StringExecFns;

verus! {

/// What the error says when a file name has no extension.
pub const MISSING_EXTENSION: &'static str = "File has no extension";

/// Why a file could not be inspected. Such a failure concerns one file only.
#[derive(Debug)]
pub enum FileManagerError {
    /// The file name has no extension, so it declares no type.
    MissingExtension,
    /// The file could not be read; the text says why.
    Unreadable(String),
}

impl FileManagerError {
    /// The explanation to show for the error.
    pub open spec fn spec_message(&self) -> Seq<char> {
        match self {
            FileManagerError::MissingExtension => MISSING_EXTENSION@,
            FileManagerError::Unreadable(reason) => reason@,
        }
    }

    /// The explanation to show for the error.
    pub fn message(&self) -> (text: String)
        ensures
            text@ == self.spec_message(),
    {
        match self {
            FileManagerError::MissingExtension => String::from_str(MISSING_EXTENSION),
            FileManagerError::Unreadable(reason) => reason.clone(),
        }
    }
}

/// A file as it is handed to the matching: the type declared by its
/// extension, the type found in its bytes once that is known, and the leading
/// bytes themselves.
#[derive(Debug)]
pub struct FileSignature {
    /// The file type as declared by the extension, in upper case.
    pub declared_type: String,
    /// The file type found in the bytes; empty until a search has been made.
    pub actual_type: String,
    /// The leading bytes of the file.
    pub buffer: Vec<u8>,
}

/// The first `limit` items of `bytes`, or all of them if there are fewer.
pub open spec fn leading(bytes: Seq<u8>, limit: nat) -> Seq<u8> {
    if bytes.len() <= limit {
        bytes
    } else {
        bytes.take(limit as int)
    }
}

impl FileSignature {
    /// The record of a file whose extension declares `declared_type` and
    /// whose content starts with `head`. At most `buffer_size` bytes of
    /// `head` are kept; the actual type is left empty.
    pub fn new(declared_type: String, head: Vec<u8>, buffer_size: u32) -> (info: FileSignature)
        ensures
            info.declared_type@ == declared_type@,
            info.actual_type@ == Seq::<char>::empty(),
            info.buffer@ == leading(head@, buffer_size as nat),
    {
        let mut buffer = head;
        buffer.truncate(buffer_size as usize);
        FileSignature { declared_type, actual_type: String::new(), buffer }
    }
}

impl Default for FileSignature {
    /// A record with no declared type, no actual type and no bytes.
    fn default() -> (info: FileSignature)
        ensures
            info.declared_type@ == Seq::<char>::empty(),
            info.actual_type@ == Seq::<char>::empty(),
            info.buffer@ == Seq::<u8>::empty(),
    {
        FileSignature { declared_type: String::new(), actual_type: String::new(), buffer: Vec::new() }
    }
}

/// The upper-case form of a text, as `str::to_uppercase` computes it from the
/// Unicode case mappings.
pub uninterp spec fn uppercase(text: Seq<char>) -> Seq<char>;

/// Calls `str::to_uppercase`. The result is a function of the text alone; it
/// is not stated here character by character but named `uppercase`.
#[verifier::external_body]
fn to_uppercase(text: &str) -> (upper: String)
    ensures
        upper@ == uppercase(text@),
{
    text.to_uppercase()
}

/// What `get_file_info` returns for the given findings.
pub open spec fn file_info_for(
    extension: Option<&str>,
    read: Result<Vec<u8>, String>,
    buffer_size: u32,
    outcome: Result<FileSignature, FileManagerError>,
) -> bool {
    match extension {
        None => outcome == Err::<FileSignature, FileManagerError>(FileManagerError::MissingExtension),
        Some(extension) => match read {
            Err(reason) => outcome matches Err(FileManagerError::Unreadable(text)) && text@ == reason@,
            Ok(head) => outcome matches Ok(info) && info.declared_type@ == uppercase(extension@)
                && info.actual_type@ == Seq::<char>::empty() && info.buffer@ == leading(
                head@,
                buffer_size as nat,
            ),
        },
    }
}

/// Gathers what is known of a file before matching.
///
/// `extension` is the extension of the file name, if it has one; `read` is
/// what reading the start of the file gave: its leading bytes, or the reason
/// why it could not be read.
///
/// A file without an extension is refused first, whatever reading gave. A
/// file that could not be read is refused with the reason. Otherwise the
/// record holds the extension in upper case as the declared type, an empty
/// actual type, and at most `buffer_size` leading bytes.
pub fn get_file_info(
    extension: Option<&str>,
    read: Result<Vec<u8>, String>,
    buffer_size: u32,
) -> (outcome: Result<FileSignature, FileManagerError>)
    ensures
        file_info_for(extension, read, buffer_size, outcome),
{
    let declared_type = match extension {
        Some(extension) => to_uppercase(extension),
        None => {
            return Err(FileManagerError::MissingExtension);
        },
    };
    match read {
        Ok(head) => Ok(FileSignature::new(declared_type, head, buffer_size)),
        Err(reason) => Err(FileManagerError::Unreadable(reason)),
    }
}

} // verus!
