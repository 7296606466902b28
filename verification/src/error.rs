//! What can go wrong, and how it is worded.

use vstd::prelude::*;
use vstd::string::*;
use crate::text::joined;

verus! {

/// A failure of the decoder. Each ends the decoding of the current input.
#[derive(Clone, Copy, Debug, PartialEq, Eq, Structural)]
pub enum CodecError {
    /// The input ended in the middle of a field or a symbol.
    TruncatedStream,
    /// The origin pointer or a table of code lengths is out of range.
    InvalidBlock,
    /// No code of any length matches the bits read.
    InvalidCode,
    /// A check value stored in the input differs from the one computed.
    CrcMismatch { expected: u32, actual: u32 },
    /// A marker, a table or a run length breaks the format's rules.
    CorruptData,
}

/// A failure reported to the user.
#[derive(Debug)]
pub enum Error {
    /// Several failures, in the order in which they occurred.
    Array(Vec<Error>),
    /// A failed read or write, with the system's description of it.
    Io(String),
    /// Output was bound for the terminal without `-c`.
    CannotWriteToStdout(),
    /// The input's name does not end in `.bz2`.
    CannotGuessOriginalName(String),
    /// The output file is there already and `-f` was not given.
    FileExists(String),
    /// The input is not fit for the operation; the text says why.
    InvalidInput(String),
    /// The compressed input is damaged.
    Codec(CodecError),
}

/// One hexadecimal digit.
pub open spec fn hex_digit(d: int) -> Seq<char> {
    if d == 0 {
        "0"@
    } else if d == 1 {
        "1"@
    } else if d == 2 {
        "2"@
    } else if d == 3 {
        "3"@
    } else if d == 4 {
        "4"@
    } else if d == 5 {
        "5"@
    } else if d == 6 {
        "6"@
    } else if d == 7 {
        "7"@
    } else if d == 8 {
        "8"@
    } else if d == 9 {
        "9"@
    } else if d == 10 {
        "a"@
    } else if d == 11 {
        "b"@
    } else if d == 12 {
        "c"@
    } else if d == 13 {
        "d"@
    } else if d == 14 {
        "e"@
    } else {
        "f"@
    }
}

/// The lowest `digits` hexadecimal digits of `v`, most significant first.
pub open spec fn hex(v: int, digits: nat) -> Seq<char>
    decreases digits,
{
    if digits == 0 {
        Seq::empty()
    } else {
        hex(v / 16, (digits - 1) as nat) + hex_digit(v % 16)
    }
}

fn hex_digit_str(d: u32) -> (r: &'static str)
    requires
        d < 16,
    ensures
        r@ == hex_digit(d as int),
{
    if d == 0 {
        "0"
    } else if d == 1 {
        "1"
    } else if d == 2 {
        "2"
    } else if d == 3 {
        "3"
    } else if d == 4 {
        "4"
    } else if d == 5 {
        "5"
    } else if d == 6 {
        "6"
    } else if d == 7 {
        "7"
    } else if d == 8 {
        "8"
    } else if d == 9 {
        "9"
    } else if d == 10 {
        "a"
    } else if d == 11 {
        "b"
    } else if d == 12 {
        "c"
    } else if d == 13 {
        "d"
    } else if d == 14 {
        "e"
    } else {
        "f"
    }
}

/// Writes the lowest `digits` hexadecimal digits of `v`.
pub fn hex_text(v: u32, digits: u32) -> (r: String)
    ensures
        r@ == hex(v as int, digits as nat),
    decreases digits,
{
    if digits == 0 {
        String::new()
    } else {
        let mut r: String = hex_text(v / 16, digits - 1);
        r.append(hex_digit_str(v % 16));
        r
    }
}

impl CodecError {
    /// The wording of a decoder failure.
    pub open spec fn text(self) -> Seq<char> {
        match self {
            CodecError::TruncatedStream => "bzip2: Compressed data ends unexpectedly."@,
            CodecError::InvalidBlock => "bzip2: Compressed block is not valid."@,
            CodecError::InvalidCode => "bzip2: Compressed data holds an unknown code."@,
            CodecError::CrcMismatch { expected, actual } => "bzip2: CRC mismatch: expected 0x"@
                + hex(expected as int, 8) + ", found 0x"@ + hex(actual as int, 8),
            CodecError::CorruptData => "bzip2: Compressed data is corrupt."@,
        }
    }

    /// Words the failure for the user.
    pub fn message(&self) -> (r: String)
        ensures
            r@ == self.text(),
    {
        match self {
            CodecError::TruncatedStream => String::from_str(
                "bzip2: Compressed data ends unexpectedly.",
            ),
            CodecError::InvalidBlock => String::from_str("bzip2: Compressed block is not valid."),
            CodecError::InvalidCode => String::from_str(
                "bzip2: Compressed data holds an unknown code.",
            ),
            CodecError::CrcMismatch { expected, actual } => {
                let mut r: String = String::from_str("bzip2: CRC mismatch: expected 0x");
                let e: String = hex_text(*expected, 8);
                r.append(e.as_str());
                r.append(", found 0x");
                let a: String = hex_text(*actual, 8);
                r.append(a.as_str());
                r
            },
            CodecError::CorruptData => String::from_str("bzip2: Compressed data is corrupt."),
        }
    }
}

/// The wording of each failure in `errs`, one per line.
pub open spec fn lines(errs: Seq<Error>) -> Seq<char>
    decreases errs,
{
    if errs.len() == 0 {
        Seq::empty()
    } else {
        lines(errs.drop_last()) + errs.last().text() + "\n"@
    }
}

impl Error {
    /// The wording of a failure.
    pub open spec fn text(self) -> Seq<char>
        decreases self,
    {
        match self {
            Error::Array(errs) => lines(errs@),
            Error::Io(e) => "I/O error: "@ + e@,
            Error::CannotWriteToStdout() =>
                "bzip2: I won't write compressed data to a terminal. Use -c for redirecting the output to a file."@,
            Error::CannotGuessOriginalName(name) => "bzip2: Can't guess original name for "@
                + name@ + " -- using "@ + name@ + ".out instead"@,
            Error::FileExists(file) => "bzip2: Output file "@ + file@ + " already exists."@,
            Error::InvalidInput(msg) => msg@,
            Error::Codec(e) => e.text(),
        }
    }

    /// Words the failure for the user.
    pub fn message(&self) -> (r: String)
        ensures
            r@ == self.text(),
        decreases self,
    {
        match self {
            Error::Array(errs) => {
                let mut r: String = String::new();
                let mut i: usize = 0;
                while i < errs.len()
                    invariant
                        i <= errs@.len(),
                        r@ == lines(errs@.subrange(0, i as int)),
                        decreases_to!(*self => *errs),
                    decreases errs@.len() - i,
                {
                    proof {
                        assert(decreases_to!(*errs => errs@[i as int]));
                        let head = errs@.subrange(0, i as int + 1);
                        assert(head.drop_last() =~= errs@.subrange(0, i as int));
                        assert(head.last() == errs@[i as int]);
                    }
                    let line: String = errs[i].message();
                    r.append(line.as_str());
                    r.append("\n");
                    i += 1;
                }
                assert(errs@.subrange(0, i as int) =~= errs@);
                assert(lines(Seq::<Error>::empty()) =~= Seq::<char>::empty());
                r
            },
            Error::Io(e) => joined("I/O error: ", e.as_str()),
            Error::CannotWriteToStdout() => String::from_str(
                "bzip2: I won't write compressed data to a terminal. Use -c for redirecting the output to a file.",
            ),
            Error::CannotGuessOriginalName(name) => {
                let mut r: String = joined("bzip2: Can't guess original name for ", name.as_str());
                r.append(" -- using ");
                r.append(name.as_str());
                r.append(".out instead");
                r
            },
            Error::FileExists(file) => {
                let mut r: String = joined("bzip2: Output file ", file.as_str());
                r.append(" already exists.");
                r
            },
            Error::InvalidInput(msg) => msg.clone(),
            Error::Codec(e) => e.message(),
        }
    }

    /// Sums up a run: the value where nothing failed, the one failure where
    /// one occurred, all of them otherwise.
    pub fn error_or<T>(ok_item: T, errs: Vec<Error>) -> (r: Result<T, Error>)
        ensures
            errs@.len() == 0 ==> r == Ok::<T, Error>(ok_item),
            errs@.len() == 1 ==> r == Err::<T, Error>(errs@[0]),
            errs@.len() > 1 ==> r == Err::<T, Error>(Error::Array(errs)),
    {
        let mut errs = errs;
        if errs.len() == 0 {
            Ok(ok_item)
        } else if errs.len() == 1 {
            match errs.pop() {
                Some(e) => Err(e),
                None => Ok(ok_item),
            }
        } else {
            Err(Error::Array(errs))
        }
    }
}

} // verus!
