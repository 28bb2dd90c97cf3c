//! The failures that encoding and decoding report.

use vstd::prelude::*;
use vstd::string::StringExecFns;

verus! {

/// Why the buffer could not carry out a read or a write.
#[derive(Debug, Clone, Copy, PartialEq, Eq, Structural)]
pub enum IoErrorKind {
    /// A read reached past the last byte of the buffer.
    UnexpectedEof,
    /// The value handed to an encoder has no encoding.
    InvalidInput,
    /// A write would end beyond the largest offset that the format can address.
    StorageFull,
}

/// The error of `String::from_utf8`, carried through unread.
#[verifier::external_type_specification]
#[verifier::external_body]
pub struct ExFromUtf8Error(std::string::FromUtf8Error);

/// What an error says, with nothing of the machine left in it.
pub enum Failure {
    /// The buffer refused a read or a write.
    Io(IoErrorKind),
    /// The payload of a string was not UTF-8.
    Utf8,
    /// A field at the given offset is malformed.
    Binary(u64),
}

/// Why a value could not be written or read.
#[derive(Debug)]
pub enum ZeroFormatterError {
    /// The buffer refused a read or a write.
    IoError(IoErrorKind),
    /// The payload of a string was not UTF-8.
    FromUtf8Error(std::string::FromUtf8Error),
    /// A length, size, count or key at the given offset is outside its domain.
    InvalidBinary(u64),
}

/// What every encoder and decoder returns.
pub type ZeroFormatterResult<T> = Result<T, ZeroFormatterError>;

impl View for ZeroFormatterError {
    type V = Failure;

    open spec fn view(&self) -> Failure {
        match self {
            ZeroFormatterError::IoError(k) => Failure::Io(*k),
            ZeroFormatterError::FromUtf8Error(_) => Failure::Utf8,
            ZeroFormatterError::InvalidBinary(o) => Failure::Binary(*o),
        }
    }
}

impl From<std::string::FromUtf8Error> for ZeroFormatterError {
    fn from(err: std::string::FromUtf8Error) -> (r: ZeroFormatterError) {
        ZeroFormatterError::FromUtf8Error(err)
    }
}

impl vstd::std_specs::convert::FromSpecImpl<std::string::FromUtf8Error> for ZeroFormatterError {
    open spec fn obeys_from_spec() -> bool {
        true
    }

    open spec fn from_spec(err: std::string::FromUtf8Error) -> ZeroFormatterError {
        ZeroFormatterError::FromUtf8Error(err)
    }
}

/// The character of a decimal digit.
pub open spec fn digit_of(d: nat) -> char {
    if d == 0 {
        '0'
    } else if d == 1 {
        '1'
    } else if d == 2 {
        '2'
    } else if d == 3 {
        '3'
    } else if d == 4 {
        '4'
    } else if d == 5 {
        '5'
    } else if d == 6 {
        '6'
    } else if d == 7 {
        '7'
    } else if d == 8 {
        '8'
    } else {
        '9'
    }
}

/// The decimal digits of `n`, without leading zeros.
pub open spec fn digits_of(n: nat) -> Seq<char>
    decreases n,
{
    if n < 10 {
        seq![digit_of(n)]
    } else {
        digits_of(n / 10).push(digit_of(n % 10))
    }
}

/// What each kind of failure is called.
pub open spec fn description_of(f: Failure) -> Seq<char> {
    match f {
        Failure::Io(IoErrorKind::UnexpectedEof) => "unexpected end of file"@,
        Failure::Io(IoErrorKind::InvalidInput) => "invalid input parameter"@,
        Failure::Io(IoErrorKind::StorageFull) => "no storage space"@,
        Failure::Utf8 => "invalid utf-8"@,
        Failure::Binary(_) => "Binary does not valid."@,
    }
}

/// What a failure says of itself: its description, and in front of it the
/// offset where a malformed field was found.
pub open spec fn message_of(f: Failure) -> Seq<char> {
    match f {
        Failure::Binary(offset) => "[offset "@ + digits_of(offset as nat) + "] "@ + description_of(
            f,
        ),
        _ => description_of(f),
    }
}

/// One decimal digit as text.
fn digit(d: u64) -> (r: &'static str)
    requires
        d < 10,
    ensures
        r@ == seq![digit_of(d as nat)],
{
    proof {
        reveal_strlit("0");
        reveal_strlit("1");
        reveal_strlit("2");
        reveal_strlit("3");
        reveal_strlit("4");
        reveal_strlit("5");
        reveal_strlit("6");
        reveal_strlit("7");
        reveal_strlit("8");
        reveal_strlit("9");
    }
    let r = if d == 0 {
        "0"
    } else if d == 1 {
        "1"
    } else if d == 2 {
        "2"
    } else if d == 3 {
        "3"
    } else if d == 4 {
        "4"
    } else if d == 5 {
        "5"
    } else if d == 6 {
        "6"
    } else if d == 7 {
        "7"
    } else if d == 8 {
        "8"
    } else {
        "9"
    };
    assert(r@ =~= seq![digit_of(d as nat)]);
    r
}

/// The decimal form of `n`.
pub fn decimal(n: u64) -> (r: String)
    ensures
        r@ == digits_of(n as nat),
    decreases n,
{
    if n < 10 {
        String::from_str(digit(n))
    } else {
        let r = decimal(n / 10).concat(digit(n % 10));
        assert(r@ =~= digits_of(n as nat));
        r
    }
}

impl ZeroFormatterError {
    /// What kind of failure this is, in a few words.
    pub fn description(&self) -> (r: &'static str)
        ensures
            r@ == description_of(self@),
    {
        match self {
            ZeroFormatterError::IoError(IoErrorKind::UnexpectedEof) => "unexpected end of file",
            ZeroFormatterError::IoError(IoErrorKind::InvalidInput) => "invalid input parameter",
            ZeroFormatterError::IoError(IoErrorKind::StorageFull) => "no storage space",
            ZeroFormatterError::FromUtf8Error(_) => "invalid utf-8",
            ZeroFormatterError::InvalidBinary(_) => "Binary does not valid.",
        }
    }

    /// The failure as a line of text.
    pub fn message(&self) -> (r: String)
        ensures
            r@ == message_of(self@),
    {
        match self {
            ZeroFormatterError::InvalidBinary(offset) => {
                let r = String::from_str("[offset ").concat(decimal(*offset).as_str()).concat(
                    "] ",
                ).concat(self.description());
                assert(r@ =~= message_of(self@));
                r
            },
            _ => String::from_str(self.description()),
        }
    }

    /// The error for a malformed field found at `offset`, as the failing result of any decoder.
    pub fn invalid_binary<T>(offset: u64) -> (r: ZeroFormatterResult<T>)
        ensures
            r == Err::<T, ZeroFormatterError>(ZeroFormatterError::InvalidBinary(offset)),
    {
        Err(ZeroFormatterError::InvalidBinary(offset))
    }
}

} // verus!
