//! Which part of a file a hash covers.
use vstd::prelude::*;

verus! {

/// Bytes hashed by a partial (prefix or suffix) hash: 4 KiB.
pub const PARTIAL_HASH_SIZE: u64 = 4096;

/// The part of a file that a hash covers.
#[derive(Clone, Copy, PartialEq, Eq, Structural, Debug)]
pub enum FileHash {
    /// The whole file.
    Full,
    /// At most this many bytes from the start.
    Prefix(u64),
    /// At most this many bytes from the end.
    Suffix(u64),
}

/// Where reading starts in a file of `size` bytes, and how many bytes are
/// read at most from there.
pub open spec fn read_window(h: FileHash, size: u64) -> (u64, u64) {
    match h {
        FileHash::Full => (0, u64::MAX),
        FileHash::Prefix(max_bytes) => (0, max_bytes),
        FileHash::Suffix(max_bytes) => (
            if size > max_bytes {
                (size - max_bytes) as u64
            } else {
                0
            },
            u64::MAX,
        ),
    }
}

/// How many bytes of a read buffer of `buf_len` bytes are used.
pub open spec fn limited_len(h: FileHash, buf_len: usize) -> usize {
    match h {
        FileHash::Prefix(limit) | FileHash::Suffix(limit) => if (limit as int) < buf_len {
            limit as usize
        } else {
            buf_len
        },
        FileHash::Full => buf_len,
    }
}

/// How many bytes of a file of `size` bytes a hash of kind `h` is counted as
/// reading (at most 4 KiB for a partial hash).
pub open spec fn counted_bytes(h: FileHash, size: u64) -> u64 {
    let max_bytes = match h {
        FileHash::Full => u64::MAX,
        _ => PARTIAL_HASH_SIZE,
    };
    if max_bytes < size {
        max_bytes
    } else {
        size
    }
}

impl FileHash {
    /// Where to start reading a file of `size` bytes, and how many bytes to
    /// read at most: a suffix starts its window `max_bytes` before the end
    /// (or at the start of a shorter file).
    pub fn window(self, size: u64) -> (w: (u64, u64))
        ensures
            w == read_window(self, size),
    {
        match self {
            FileHash::Full => (0, u64::MAX),
            FileHash::Prefix(max_bytes) => (0, max_bytes),
            FileHash::Suffix(max_bytes) => (size.saturating_sub(max_bytes), u64::MAX),
        }
    }

    /// The length of the part of a read buffer of `buf_len` bytes to read
    /// into: a partial hash never reads more than its limit at once.
    pub fn limited(self, buf_len: usize) -> (n: usize)
        ensures
            n == limited_len(self, buf_len),
            n <= buf_len,
    {
        match self {
            FileHash::Prefix(limit) | FileHash::Suffix(limit) => {
                if limit < buf_len as u64 {
                    limit as usize
                } else {
                    buf_len
                }
            },
            FileHash::Full => buf_len,
        }
    }

    /// The bytes a hash of this kind is counted as reading from a file of
    /// `size` bytes.
    pub fn bytes_read(self, size: u64) -> (n: u64)
        ensures
            n == counted_bytes(self, size),
    {
        let max_bytes = match self {
            FileHash::Full => u64::MAX,
            _ => PARTIAL_HASH_SIZE,
        };
        if max_bytes < size {
            max_bytes
        } else {
            size
        }
    }

    /// The name of the kind of hash, as shown to the user.
    pub fn label(self) -> (s: &'static str)
        ensures
            self is Full ==> s@ == "full"@,
            self is Prefix ==> s@ == "prefix"@,
            self is Suffix ==> s@ == "suffix"@,
    {
        match self {
            FileHash::Full => "full",
            FileHash::Prefix(_) => "prefix",
            FileHash::Suffix(_) => "suffix",
        }
    }
}

} // verus!
