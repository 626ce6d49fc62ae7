//! The texts of errors.
use cmudb::buf::BufferError;
use cmudb::buffer_pool::BpmError;
use cmudb::disk::{IoError, IoErrorKind};
use cmudb::errors::name_index;
use cmudb::index::page_codec::PageCodecError;
use cmudb::index::{IndexError, InsertError, RemoveError};

fn missing() -> BpmError {
    BpmError::Io(IoError {
        kind: IoErrorKind::NotFound,
        message: "page 3 missing".to_string(),
    })
}

#[test]
fn errors_say_what_is_wrong() {
    for (error, text) in [
        (BpmError::Poisoned, "Lock poisoned"),
        (BpmError::NoFreeFrame, "No free frame available"),
        (missing(), "io error: page 3 missing"),
        (BpmError::FrameMissing, "Frame missing"),
        (BpmError::MutexPanic, "Mutex panicked"),
        (BpmError::FramePinned, "Cannot evict a frame which is pinned"),
        (BpmError::ChannelClosed, "Channel closed"),
        (BpmError::FrameInUse, "Frame in use"),
    ] {
        assert_eq!(error.describe(), text);
    }
    for (error, text) in [
        (
            PageCodecError::BufferError(BufferError::BufferTooSmall {
                needed: 12,
                actual: 8,
            }),
            "buffer too small (needed 12 bytes, got 8 bytes)",
        ),
        (PageCodecError::BadMagic, "bad page magic"),
        (PageCodecError::InvalidPageKind(9), "invalid page kind: 9"),
        (PageCodecError::UnsupportedVersion(300), "unsupported page version 300"),
        (
            PageCodecError::WrongPageKind {
                expected: 1,
                actual: 2,
            },
            "wrong page kind (expected 1, got 2)",
        ),
        (
            PageCodecError::InvalidKeyLen {
                expected: 4,
                actual: 16,
            },
            "invalid key length (expected 4, got 16)",
        ),
        (PageCodecError::InvalidSize, "invalid page size fields"),
        (
            PageCodecError::BufferError(BufferError::Overflow),
            "numeric overflow decoding page",
        ),
        (PageCodecError::Malformed("no keys"), "malformed page: no keys"),
    ] {
        assert_eq!(error.describe(), text);
    }
    for (error, text) in [
        (
            IndexError::Insert(InsertError::DuplicateKey),
            "insert failed: key already exists",
        ),
        (
            IndexError::Insert(InsertError::GenericError("x".to_string())),
            "insert failed: error while inserting: x",
        ),
        (
            IndexError::Insert(InsertError::BadRoot),
            "insert failed: error getting root while inserting",
        ),
        (
            IndexError::Remove(RemoveError::KeyNotFound),
            "remove failed: key not found",
        ),
        (
            IndexError::BpmError(BpmError::FrameInUse),
            "BPM error: Frame in use",
        ),
        (
            IndexError::PageError(PageCodecError::BadMagic),
            "page decode/encode error: bad page magic",
        ),
        (IndexError::LatchError, "error reading or acquiring latch"),
        (IndexError::Lookup, "lookup error"),
    ] {
        assert_eq!(error.describe(), text);
    }
}

#[test]
fn index_errors_have_names() {
    for error in [
        IndexError::Insert(InsertError::DuplicateKey),
        IndexError::Insert(InsertError::InvalidKey),
        IndexError::Insert(InsertError::InvalidValue),
        IndexError::Insert(InsertError::BpmError),
        IndexError::Insert(InsertError::BadRoot),
        IndexError::Insert(InsertError::GenericError("x y".to_string())),
        IndexError::Remove(RemoveError::KeyNotFound),
        IndexError::Remove(RemoveError::GenericError("z".to_string())),
        IndexError::Lookup,
        IndexError::LatchError,
        IndexError::BpmError(BpmError::Poisoned),
        IndexError::BpmError(BpmError::NoFreeFrame),
        IndexError::BpmError(BpmError::FrameMissing),
        IndexError::BpmError(BpmError::MutexPanic),
        IndexError::BpmError(BpmError::FramePinned),
        IndexError::BpmError(BpmError::ChannelClosed),
        IndexError::BpmError(BpmError::FrameInUse),
        IndexError::PageError(PageCodecError::BadMagic),
        IndexError::PageError(PageCodecError::UnsupportedVersion(7)),
        IndexError::PageError(PageCodecError::WrongPageKind {
            expected: 1,
            actual: 2,
        }),
        IndexError::PageError(PageCodecError::InvalidPageKind(3)),
        IndexError::PageError(PageCodecError::InvalidKeyLen {
            expected: 4,
            actual: 5,
        }),
        IndexError::PageError(PageCodecError::InvalidSize),
        IndexError::PageError(PageCodecError::Malformed("no keys")),
        IndexError::PageError(PageCodecError::BufferError(BufferError::Overflow)),
        IndexError::PageError(PageCodecError::BufferError(BufferError::BufferTooSmall {
            needed: 1,
            actual: 0,
        })),
    ] {
        assert_eq!(name_index(&error), format!("{:?}", error));
    }
    assert_eq!(
        name_index(&IndexError::BpmError(missing())),
        "BpmError(Io(Custom { kind: NotFound, error: \"page 3 missing\" }))"
    );
}
