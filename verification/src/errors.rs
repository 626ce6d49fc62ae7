//! The texts of errors.
use vstd::prelude::*;

use crate::buf::BufferError;
use crate::buffer_pool::BpmError;
use crate::disk::IoErrorKind;
use crate::index::page_codec::PageCodecError;
use crate::index::{IndexError, InsertError, RemoveError};
use crate::text::{decimal, digits, joined};

verus! {

/// A text between two others.
fn between(before: &str, text: &str, after: &str) -> (res: String)
    ensures
        res@ == before@ + text@ + after@,
{
    let mut s = joined(before, text);
    s.append(after);
    s
}

/// Two numbers in a text.
fn numbers(before: &str, a: u64, middle: &str, b: u64, after: &str) -> (res: String)
    ensures
        res@ == before@ + digits(a as nat) + middle@ + digits(b as nat) + after@,
{
    let mut s = joined(before, decimal(a).as_str());
    s.append(middle);
    s.append(decimal(b).as_str());
    s.append(after);
    s
}

/// What an error of the pool says.
pub open spec fn bpm_text(e: BpmError) -> Seq<char> {
    match e {
        BpmError::Poisoned => "Lock poisoned"@,
        BpmError::NoFreeFrame => "No free frame available"@,
        BpmError::Io(io) => "io error: "@ + io.message@,
        BpmError::FrameMissing => "Frame missing"@,
        BpmError::MutexPanic => "Mutex panicked"@,
        BpmError::FramePinned => "Cannot evict a frame which is pinned"@,
        BpmError::ChannelClosed => "Channel closed"@,
        BpmError::FrameInUse => "Frame in use"@,
    }
}

impl BpmError {
    /// The error as text.
    pub fn describe(&self) -> (res: String)
        ensures
            res@ == bpm_text(*self),
    {
        match self {
            BpmError::Poisoned => "Lock poisoned".to_owned(),
            BpmError::NoFreeFrame => "No free frame available".to_owned(),
            BpmError::Io(io) => joined("io error: ", io.message.as_str()),
            BpmError::FrameMissing => "Frame missing".to_owned(),
            BpmError::MutexPanic => "Mutex panicked".to_owned(),
            BpmError::FramePinned => "Cannot evict a frame which is pinned".to_owned(),
            BpmError::ChannelClosed => "Channel closed".to_owned(),
            BpmError::FrameInUse => "Frame in use".to_owned(),
        }
    }
}

/// What is wrong with a page.
pub open spec fn codec_text(e: PageCodecError) -> Seq<char> {
    match e {
        PageCodecError::BufferError(BufferError::BufferTooSmall { needed, actual }) =>
            "buffer too small (needed "@ + digits(needed as nat) + " bytes, got "@ + digits(
                actual as nat,
            ) + " bytes)"@,
        PageCodecError::BadMagic => "bad page magic"@,
        PageCodecError::InvalidPageKind(kind) => "invalid page kind: "@ + digits(kind as nat),
        PageCodecError::UnsupportedVersion(v) => "unsupported page version "@ + digits(v as nat),
        PageCodecError::WrongPageKind { expected, actual } => "wrong page kind (expected "@
            + digits(expected as nat) + ", got "@ + digits(actual as nat) + ")"@,
        PageCodecError::InvalidKeyLen { expected, actual } => "invalid key length (expected "@
            + digits(expected as nat) + ", got "@ + digits(actual as nat) + ")"@,
        PageCodecError::InvalidSize => "invalid page size fields"@,
        PageCodecError::BufferError(BufferError::Overflow) => "numeric overflow decoding page"@,
        PageCodecError::Malformed(msg) => "malformed page: "@ + msg@,
    }
}

impl PageCodecError {
    /// The error as text.
    pub fn describe(&self) -> (res: String)
        ensures
            res@ == codec_text(*self),
    {
        match self {
            PageCodecError::BufferError(BufferError::BufferTooSmall { needed, actual }) => numbers(
                "buffer too small (needed ",
                *needed as u64,
                " bytes, got ",
                *actual as u64,
                " bytes)",
            ),
            PageCodecError::BadMagic => "bad page magic".to_owned(),
            PageCodecError::InvalidPageKind(kind) => joined(
                "invalid page kind: ",
                decimal(*kind as u64).as_str(),
            ),
            PageCodecError::UnsupportedVersion(v) => joined(
                "unsupported page version ",
                decimal(*v as u64).as_str(),
            ),
            PageCodecError::WrongPageKind { expected, actual } => numbers(
                "wrong page kind (expected ",
                *expected as u64,
                ", got ",
                *actual as u64,
                ")",
            ),
            PageCodecError::InvalidKeyLen { expected, actual } => numbers(
                "invalid key length (expected ",
                *expected as u64,
                ", got ",
                *actual as u64,
                ")",
            ),
            PageCodecError::InvalidSize => "invalid page size fields".to_owned(),
            PageCodecError::BufferError(BufferError::Overflow) =>
                "numeric overflow decoding page".to_owned(),
            PageCodecError::Malformed(msg) => joined("malformed page: ", *msg),
        }
    }
}

/// Why a key was not added.
pub open spec fn insert_text(e: InsertError) -> Seq<char> {
    match e {
        InsertError::DuplicateKey => "key already exists"@,
        InsertError::InvalidKey => "invalid key"@,
        InsertError::InvalidValue => "invalid value"@,
        InsertError::BpmError => "bpm error"@,
        InsertError::BadRoot => "error getting root while inserting"@,
        InsertError::GenericError(msg) => "error while inserting: "@ + msg@,
    }
}

impl InsertError {
    /// The error as text.
    pub fn describe(&self) -> (res: String)
        ensures
            res@ == insert_text(*self),
    {
        match self {
            InsertError::DuplicateKey => "key already exists".to_owned(),
            InsertError::InvalidKey => "invalid key".to_owned(),
            InsertError::InvalidValue => "invalid value".to_owned(),
            InsertError::BpmError => "bpm error".to_owned(),
            InsertError::BadRoot => "error getting root while inserting".to_owned(),
            InsertError::GenericError(msg) => joined("error while inserting: ", msg.as_str()),
        }
    }
}

/// Why a key was not taken out.
pub open spec fn remove_text(e: RemoveError) -> Seq<char> {
    match e {
        RemoveError::KeyNotFound => "key not found"@,
        RemoveError::GenericError(msg) => "error while removing: "@ + msg@,
    }
}

impl RemoveError {
    /// The error as text.
    pub fn describe(&self) -> (res: String)
        ensures
            res@ == remove_text(*self),
    {
        match self {
            RemoveError::KeyNotFound => "key not found".to_owned(),
            RemoveError::GenericError(msg) => joined("error while removing: ", msg.as_str()),
        }
    }
}

/// What an error of an index says.
pub open spec fn index_error_text(e: IndexError) -> Seq<char> {
    match e {
        IndexError::Insert(x) => "insert failed: "@ + insert_text(x),
        IndexError::Remove(x) => "remove failed: "@ + remove_text(x),
        IndexError::BpmError(x) => "BPM error: "@ + bpm_text(x),
        IndexError::PageError(x) => "page decode/encode error: "@ + codec_text(x),
        IndexError::LatchError => "error reading or acquiring latch"@,
        IndexError::Lookup => "lookup error"@,
    }
}

impl IndexError {
    /// The error as text.
    pub fn describe(&self) -> (res: String)
        ensures
            res@ == index_error_text(*self),
    {
        match self {
            IndexError::Insert(x) => joined("insert failed: ", x.describe().as_str()),
            IndexError::Remove(x) => joined("remove failed: ", x.describe().as_str()),
            IndexError::BpmError(x) => joined("BPM error: ", x.describe().as_str()),
            IndexError::PageError(x) => joined(
                "page decode/encode error: ",
                x.describe().as_str(),
            ),
            IndexError::LatchError => "error reading or acquiring latch".to_owned(),
            IndexError::Lookup => "lookup error".to_owned(),
        }
    }
}

/// A text in quotes. Texts of errors hold nothing that would have to be escaped.
pub open spec fn quoted(s: Seq<char>) -> Seq<char> {
    "\""@ + s + "\""@
}

fn quote(s: &str) -> (res: String)
    ensures
        res@ == quoted(s@),
{
    between("\"", s, "\"")
}

pub open spec fn kind_name(k: IoErrorKind) -> Seq<char> {
    match k {
        IoErrorKind::NotFound => "NotFound"@,
        IoErrorKind::Other => "Other"@,
    }
}

fn name_kind(k: IoErrorKind) -> (res: &'static str)
    ensures
        res@ == kind_name(k),
{
    match k {
        IoErrorKind::NotFound => "NotFound",
        IoErrorKind::Other => "Other",
    }
}

/// An error of the pool by its name.
pub open spec fn bpm_name(e: BpmError) -> Seq<char> {
    match e {
        BpmError::Poisoned => "Poisoned"@,
        BpmError::NoFreeFrame => "NoFreeFrame"@,
        BpmError::Io(io) => "Io(Custom { kind: "@ + kind_name(io.kind) + ", error: "@ + quoted(
            io.message@,
        ) + " })"@,
        BpmError::FrameMissing => "FrameMissing"@,
        BpmError::MutexPanic => "MutexPanic"@,
        BpmError::FramePinned => "FramePinned"@,
        BpmError::ChannelClosed => "ChannelClosed"@,
        BpmError::FrameInUse => "FrameInUse"@,
    }
}

fn name_bpm(e: &BpmError) -> (res: String)
    ensures
        res@ == bpm_name(*e),
{
    match e {
        BpmError::Poisoned => "Poisoned".to_owned(),
        BpmError::NoFreeFrame => "NoFreeFrame".to_owned(),
        BpmError::Io(io) => {
            let mut s = between("Io(Custom { kind: ", name_kind(io.kind), ", error: ");
            s.append(quote(io.message.as_str()).as_str());
            s.append(" })");
            s
        },
        BpmError::FrameMissing => "FrameMissing".to_owned(),
        BpmError::MutexPanic => "MutexPanic".to_owned(),
        BpmError::FramePinned => "FramePinned".to_owned(),
        BpmError::ChannelClosed => "ChannelClosed".to_owned(),
        BpmError::FrameInUse => "FrameInUse".to_owned(),
    }
}

/// What is wrong with a page, by its name.
pub open spec fn codec_name(e: PageCodecError) -> Seq<char> {
    match e {
        PageCodecError::BadMagic => "BadMagic"@,
        PageCodecError::UnsupportedVersion(v) => "UnsupportedVersion("@ + digits(v as nat) + ")"@,
        PageCodecError::WrongPageKind { expected, actual } => "WrongPageKind { expected: "@
            + digits(expected as nat) + ", actual: "@ + digits(actual as nat) + " }"@,
        PageCodecError::InvalidPageKind(kind) => "InvalidPageKind("@ + digits(kind as nat) + ")"@,
        PageCodecError::InvalidKeyLen { expected, actual } => "InvalidKeyLen { expected: "@
            + digits(expected as nat) + ", actual: "@ + digits(actual as nat) + " }"@,
        PageCodecError::InvalidSize => "InvalidSize"@,
        PageCodecError::Malformed(msg) => "Malformed("@ + quoted(msg@) + ")"@,
        PageCodecError::BufferError(BufferError::Overflow) => "BufferError(Overflow)"@,
        PageCodecError::BufferError(BufferError::BufferTooSmall { needed, actual }) =>
            "BufferError(BufferTooSmall { needed: "@ + digits(needed as nat) + ", actual: "@
            + digits(actual as nat) + " })"@,
    }
}

fn name_codec(e: &PageCodecError) -> (res: String)
    ensures
        res@ == codec_name(*e),
{
    match e {
        PageCodecError::BadMagic => "BadMagic".to_owned(),
        PageCodecError::UnsupportedVersion(v) => between(
            "UnsupportedVersion(",
            decimal(*v as u64).as_str(),
            ")",
        ),
        PageCodecError::WrongPageKind { expected, actual } => numbers(
            "WrongPageKind { expected: ",
            *expected as u64,
            ", actual: ",
            *actual as u64,
            " }",
        ),
        PageCodecError::InvalidPageKind(kind) => between(
            "InvalidPageKind(",
            decimal(*kind as u64).as_str(),
            ")",
        ),
        PageCodecError::InvalidKeyLen { expected, actual } => numbers(
            "InvalidKeyLen { expected: ",
            *expected as u64,
            ", actual: ",
            *actual as u64,
            " }",
        ),
        PageCodecError::InvalidSize => "InvalidSize".to_owned(),
        PageCodecError::Malformed(msg) => between("Malformed(", quote(*msg).as_str(), ")"),
        PageCodecError::BufferError(BufferError::Overflow) => "BufferError(Overflow)".to_owned(),
        PageCodecError::BufferError(BufferError::BufferTooSmall { needed, actual }) => numbers(
            "BufferError(BufferTooSmall { needed: ",
            *needed as u64,
            ", actual: ",
            *actual as u64,
            " })",
        ),
    }
}

/// Why a key was not added, by its name.
pub open spec fn insert_name(e: InsertError) -> Seq<char> {
    match e {
        InsertError::DuplicateKey => "DuplicateKey"@,
        InsertError::InvalidKey => "InvalidKey"@,
        InsertError::InvalidValue => "InvalidValue"@,
        InsertError::BpmError => "BpmError"@,
        InsertError::BadRoot => "BadRoot"@,
        InsertError::GenericError(msg) => "GenericError("@ + quoted(msg@) + ")"@,
    }
}

fn name_insert(e: &InsertError) -> (res: String)
    ensures
        res@ == insert_name(*e),
{
    match e {
        InsertError::DuplicateKey => "DuplicateKey".to_owned(),
        InsertError::InvalidKey => "InvalidKey".to_owned(),
        InsertError::InvalidValue => "InvalidValue".to_owned(),
        InsertError::BpmError => "BpmError".to_owned(),
        InsertError::BadRoot => "BadRoot".to_owned(),
        InsertError::GenericError(msg) => between(
            "GenericError(",
            quote(msg.as_str()).as_str(),
            ")",
        ),
    }
}

/// Why a key was not taken out, by its name.
pub open spec fn remove_name(e: RemoveError) -> Seq<char> {
    match e {
        RemoveError::KeyNotFound => "KeyNotFound"@,
        RemoveError::GenericError(msg) => "GenericError("@ + quoted(msg@) + ")"@,
    }
}

fn name_remove(e: &RemoveError) -> (res: String)
    ensures
        res@ == remove_name(*e),
{
    match e {
        RemoveError::KeyNotFound => "KeyNotFound".to_owned(),
        RemoveError::GenericError(msg) => between(
            "GenericError(",
            quote(msg.as_str()).as_str(),
            ")",
        ),
    }
}

/// An error of an index by its name.
pub open spec fn index_name(e: IndexError) -> Seq<char> {
    match e {
        IndexError::Insert(x) => "Insert("@ + insert_name(x) + ")"@,
        IndexError::Remove(x) => "Remove("@ + remove_name(x) + ")"@,
        IndexError::Lookup => "Lookup"@,
        IndexError::BpmError(x) => "BpmError("@ + bpm_name(x) + ")"@,
        IndexError::PageError(x) => "PageError("@ + codec_name(x) + ")"@,
        IndexError::LatchError => "LatchError"@,
    }
}

pub fn name_index(e: &IndexError) -> (res: String)
    ensures
        res@ == index_name(*e),
{
    match e {
        IndexError::Insert(x) => between("Insert(", name_insert(x).as_str(), ")"),
        IndexError::Remove(x) => between("Remove(", name_remove(x).as_str(), ")"),
        IndexError::Lookup => "Lookup".to_owned(),
        IndexError::BpmError(x) => between("BpmError(", name_bpm(x).as_str(), ")"),
        IndexError::PageError(x) => between("PageError(", name_codec(x).as_str(), ")"),
        IndexError::LatchError => "LatchError".to_owned(),
    }
}

} // verus!
