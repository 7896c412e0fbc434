use vstd::prelude::*;

use crate::decimal::{decimal, decimal_chars};
use crate::document::SourceFormat;
use crate::text::{append_chars, chars_of, string_of};

verus! {

/// The largest file, in bytes, that is read: 100 MiB.
pub const MAX_FILE_SIZE: u64 = 100 * 1024 * 1024;

/// Why a file path was refused before its content was converted.
#[derive(Clone, Copy, Debug, PartialEq, Eq, Structural)]
pub enum GuardError {
    /// The path does not exist or cannot be made canonical.
    PathInvalid,
    /// The file has no extension (`missing`), or one that is not accepted.
    UnsupportedExtension { missing: bool },
    /// The file is larger than `MAX_FILE_SIZE`.
    FileTooLarge { size: u64 },
    /// The file's metadata, or (`reading`) its content, could not be read.
    AccessError { reading: bool },
}

/// Where the check of a path stands. Each state names the next outside step:
/// resolve the path, measure the file, read it; `Ready` (the content may be
/// converted) and `Rejected` are final. The extension only admits a file: the
/// content's format is told from the content.
#[derive(Clone, Copy, Debug, PartialEq, Eq, Structural)]
pub enum GuardState {
    Resolving,
    Measuring,
    Reading,
    Ready,
    Rejected { error: GuardError },
}

/// What the outside step reported.
#[derive(Debug)]
pub enum GuardEvent {
    /// The path was made canonical; this is its extension, if it has one.
    Resolved { extension: Option<String> },
    ResolveFailed,
    /// The file's size in bytes.
    Measured { size: u64 },
    MeasureFailed,
    Loaded,
    LoadFailed,
}

/// The format that a file extension declares; comparison is case-sensitive.
pub open spec fn extension_format(ext: Seq<char>) -> Option<SourceFormat> {
    if ext == "ohh"@ {
        Some(SourceFormat::Native)
    } else if ext == "txt"@ {
        Some(SourceFormat::Plain)
    } else if ext == "json"@ {
        Some(SourceFormat::Json)
    } else {
        None
    }
}

/// The check's transitions: resolve, then the extension, then the size, then
/// the read. An event that does not answer the current step changes nothing.
pub open spec fn next_state(s: GuardState, e: GuardEvent) -> GuardState {
    match s {
        GuardState::Resolving => match e {
            GuardEvent::ResolveFailed => GuardState::Rejected { error: GuardError::PathInvalid },
            GuardEvent::Resolved { extension } => match extension {
                None => GuardState::Rejected {
                    error: GuardError::UnsupportedExtension { missing: true },
                },
                Some(x) => match extension_format(x@) {
                    Some(_) => GuardState::Measuring,
                    None => GuardState::Rejected {
                        error: GuardError::UnsupportedExtension { missing: false },
                    },
                },
            },
            _ => s,
        },
        GuardState::Measuring => match e {
            GuardEvent::Measured { size } => if size > MAX_FILE_SIZE {
                GuardState::Rejected { error: GuardError::FileTooLarge { size } }
            } else {
                GuardState::Reading
            },
            GuardEvent::MeasureFailed => GuardState::Rejected {
                error: GuardError::AccessError { reading: false },
            },
            _ => s,
        },
        GuardState::Reading => match e {
            GuardEvent::Loaded => GuardState::Ready,
            GuardEvent::LoadFailed => GuardState::Rejected {
                error: GuardError::AccessError { reading: true },
            },
            _ => s,
        },
        _ => s,
    }
}

/// Reads the format that a file extension declares.
pub fn format_of_extension(ext: &String) -> (r: Option<SourceFormat>)
    ensures
        r == extension_format(ext@),
{
    if *ext == "ohh".to_owned() {
        Some(SourceFormat::Native)
    } else if *ext == "txt".to_owned() {
        Some(SourceFormat::Plain)
    } else if *ext == "json".to_owned() {
        Some(SourceFormat::Json)
    } else {
        None
    }
}

impl GuardState {
    /// The state after `event`.
    pub fn step(self, event: &GuardEvent) -> (r: GuardState)
        ensures
            r == next_state(self, *event),
    {
        match self {
            GuardState::Resolving => match event {
                GuardEvent::ResolveFailed => GuardState::Rejected {
                    error: GuardError::PathInvalid,
                },
                GuardEvent::Resolved { extension } => match extension {
                    None => GuardState::Rejected {
                        error: GuardError::UnsupportedExtension { missing: true },
                    },
                    Some(x) => match format_of_extension(x) {
                        Some(_) => GuardState::Measuring,
                        None => GuardState::Rejected {
                            error: GuardError::UnsupportedExtension { missing: false },
                        },
                    },
                },
                _ => self,
            },
            GuardState::Measuring => match event {
                GuardEvent::Measured { size } => if *size > MAX_FILE_SIZE {
                    GuardState::Rejected { error: GuardError::FileTooLarge { size: *size } }
                } else {
                    GuardState::Reading
                },
                GuardEvent::MeasureFailed => GuardState::Rejected {
                    error: GuardError::AccessError { reading: false },
                },
                _ => self,
            },
            GuardState::Reading => match event {
                GuardEvent::Loaded => GuardState::Ready,
                GuardEvent::LoadFailed => GuardState::Rejected {
                    error: GuardError::AccessError { reading: true },
                },
                _ => self,
            },
            _ => self,
        }
    }
}

impl GuardError {
    pub open spec fn message_spec(&self) -> Seq<char> {
        match self {
            GuardError::PathInvalid => "Invalid file path or file does not exist"@,
            GuardError::UnsupportedExtension { missing } => if *missing {
                "File must have an extension"@
            } else {
                "Invalid file type. Only .ohh, .txt, or .json files are supported"@
            },
            GuardError::FileTooLarge { size } => "File too large: "@ + decimal(
                (*size / 1024 / 1024) as nat,
            ) + " MB (maximum 100 MB)"@,
            GuardError::AccessError { reading } => if *reading {
                "Failed to read file"@
            } else {
                "Cannot access file"@
            },
        }
    }

    /// A short description of the refusal, for the user.
    pub fn message(&self) -> (r: String)
        ensures
            r@ == self.message_spec(),
    {
        match self {
            GuardError::PathInvalid => string_of(
                &chars_of("Invalid file path or file does not exist"),
            ),
            GuardError::UnsupportedExtension { missing } => if *missing {
                string_of(&chars_of("File must have an extension"))
            } else {
                string_of(
                    &chars_of("Invalid file type. Only .ohh, .txt, or .json files are supported"),
                )
            },
            GuardError::FileTooLarge { size } => {
                let mut out = chars_of("File too large: ");
                append_chars(&mut out, &decimal_chars(*size / 1024 / 1024));
                append_chars(&mut out, &chars_of(" MB (maximum 100 MB)"));
                string_of(&out)
            },
            GuardError::AccessError { reading } => if *reading {
                string_of(&chars_of("Failed to read file"))
            } else {
                string_of(&chars_of("Cannot access file"))
            },
        }
    }
}

/// A final state stays as it is, whatever is reported after it.
pub proof fn lemma_final_states_stay(s: GuardState, e: GuardEvent)
    requires
        s is Ready || s is Rejected,
    ensures
        next_state(s, e) == s,
{
}

/// The extension is checked before the size: a file whose extension is not
/// accepted is refused for it, however large the file, and is never measured.
pub proof fn lemma_extension_checked_before_size(ext: String, size: u64)
    requires
        extension_format(ext@) is None,
    ensures
        ({
            let s = next_state(GuardState::Resolving, GuardEvent::Resolved { extension: Some(ext) });
            &&& s == GuardState::Rejected {
                error: GuardError::UnsupportedExtension { missing: false },
            }
            &&& next_state(s, GuardEvent::Measured { size }) == s
        }),
{
}

/// The size is checked before the read: a file over `MAX_FILE_SIZE` is
/// refused for its size and its content is never read.
pub proof fn lemma_size_checked_before_read(size: u64)
    requires
        size > MAX_FILE_SIZE,
    ensures
        ({
            let s = next_state(GuardState::Measuring, GuardEvent::Measured { size });
            &&& s == GuardState::Rejected { error: GuardError::FileTooLarge { size } }
            &&& next_state(s, GuardEvent::Loaded) == s
        }),
{
}


/// The check sees a path only through what resolving it reported: two paths
/// that resolve alike (a path with `..` segments and its canonical form, say)
/// are admitted or refused alike, and a path that does not resolve is invalid.
pub proof fn lemma_resolution_decides(e1: GuardEvent, e2: GuardEvent)
    requires
        e1 is Resolved,
        e2 is Resolved,
        e1->Resolved_extension is Some <==> e2->Resolved_extension is Some,
        e1->Resolved_extension is Some ==> e1->Resolved_extension->Some_0@
            == e2->Resolved_extension->Some_0@,
    ensures
        next_state(GuardState::Resolving, e1) == next_state(GuardState::Resolving, e2),
        next_state(GuardState::Resolving, GuardEvent::ResolveFailed) == (GuardState::Rejected {
            error: GuardError::PathInvalid,
        }),
{
}

} // verus!
