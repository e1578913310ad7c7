use vstd::prelude::*;

verus! {

/// Errors from I/O performed by a caller around this library.
#[verifier::external_type_specification]
#[verifier::external_body]
pub struct ExIoError(std::io::Error);

/// The kinds of I/O error that std tells apart.
#[verifier::external_type_specification]
pub struct ExIoErrorKind(std::io::ErrorKind);

/// The kind of an I/O error, as `std::io::Error::kind` gives it.
pub uninterp spec fn io_error_kind(e: std::io::Error) -> std::io::ErrorKind;

/// `std::io::Error::kind` gives the kind that the error was made with; the
/// contract says only that it is the value named by `io_error_kind`.
pub assume_specification[ std::io::Error::kind ](e: &std::io::Error) -> (k: std::io::ErrorKind)
    ensures
        k == io_error_kind(*e),
;

/// Everything that can go wrong while encoding or decoding BER.
#[derive(Debug)]
pub enum BerError {
    IoError(std::io::Error),
    InvalidTag,
    InvalidLength,
    UnexpectedEof,
    InvalidValue(String),
    InvalidTagNumber,
    InvalidLengthEncoding,
    TagMismatch { expected: u8, found: u8 },
}

/// The decimal digit `d` as a character.
pub open spec fn digit_char(d: nat) -> char {
    if d == 0 {
        '0'
    } else if d == 1 {
        '1'
    } else if d == 2 {
        '2'
    } else if d == 3 {
        '3'
    } else if d == 4 {
        '4'
    } else if d == 5 {
        '5'
    } else if d == 6 {
        '6'
    } else if d == 7 {
        '7'
    } else if d == 8 {
        '8'
    } else {
        '9'
    }
}

/// The shortest decimal rendering of `n`.
pub open spec fn decimal(n: nat) -> Seq<char>
    decreases n,
{
    if n < 10 {
        seq![digit_char(n)]
    } else {
        decimal(n / 10) + seq![digit_char(n % 10)]
    }
}

impl BerError {
    /// The human-readable message of every error but `IoError`, whose message
    /// ends in the text of the I/O error it holds.
    pub open spec fn message(&self) -> Seq<char> {
        match self {
            BerError::IoError(_) => "IO error: "@,
            BerError::InvalidTag => "Invalid BER tag encoding"@,
            BerError::InvalidLength => "Invalid BER length encoding"@,
            BerError::UnexpectedEof => "Unexpected end of input"@,
            BerError::InvalidValue(msg) => "Invalid value: "@ + msg@,
            BerError::InvalidTagNumber => "Invalid tag number"@,
            BerError::InvalidLengthEncoding => "Invalid length encoding"@,
            BerError::TagMismatch { expected, found } => "Tag mismatch: expected "@ + decimal(
                *expected as nat,
            ) + ", found "@ + decimal(*found as nat),
        }
    }

    /// Renders the error as text.
    pub fn to_string(&self) -> (s: String)
        ensures
            !(self is IoError) ==> s@ == self.message(),
            self matches BerError::IoError(e) ==> exists|t: String|
                #[trigger] vstd::string::to_string_from_display_ensures::<std::io::Error>(e, t)
                    && s@ == self.message() + t@,
    {
        match self {
            BerError::IoError(e) => {
                let mut s = String::from_str("IO error: ");
                let t = e.to_string();
                s.append(t.as_str());
                s
            },
            BerError::InvalidTag => String::from_str("Invalid BER tag encoding"),
            BerError::InvalidLength => String::from_str("Invalid BER length encoding"),
            BerError::UnexpectedEof => String::from_str("Unexpected end of input"),
            BerError::InvalidValue(msg) => {
                let mut s = String::from_str("Invalid value: ");
                s.append(msg.as_str());
                s
            },
            BerError::InvalidTagNumber => String::from_str("Invalid tag number"),
            BerError::InvalidLengthEncoding => String::from_str("Invalid length encoding"),
            BerError::TagMismatch { expected, found } => {
                let mut s = String::from_str("Tag mismatch: expected ");
                push_decimal(&mut s, *expected);
                s.append(", found ");
                push_decimal(&mut s, *found);
                s
            },
        }
    }

    /// The underlying I/O error, if this error wraps one.
    pub fn source(&self) -> (r: Option<&std::io::Error>)
        ensures
            match self {
                BerError::IoError(e) => r == Some(e),
                _ => r is None,
            },
    {
        match self {
            BerError::IoError(e) => Some(e),
            _ => None,
        }
    }
}

impl From<std::io::Error> for BerError {
    fn from(error: std::io::Error) -> (r: Self) {
        BerError::IoError(error)
    }
}

impl vstd::std_specs::convert::FromSpecImpl<std::io::Error> for BerError {
    open spec fn obeys_from_spec() -> bool {
        true
    }

    open spec fn from_spec(error: std::io::Error) -> Self {
        BerError::IoError(error)
    }
}

/// The one-character text of the decimal digit `d`.
fn digit_text(d: u8) -> (t: &'static str)
    requires
        d < 10,
    ensures
        t@ == seq![digit_char(d as nat)],
{
    match d {
        0 => {
            proof {
                reveal_strlit("0");
            }
            "0"
        },
        1 => {
            proof {
                reveal_strlit("1");
            }
            "1"
        },
        2 => {
            proof {
                reveal_strlit("2");
            }
            "2"
        },
        3 => {
            proof {
                reveal_strlit("3");
            }
            "3"
        },
        4 => {
            proof {
                reveal_strlit("4");
            }
            "4"
        },
        5 => {
            proof {
                reveal_strlit("5");
            }
            "5"
        },
        6 => {
            proof {
                reveal_strlit("6");
            }
            "6"
        },
        7 => {
            proof {
                reveal_strlit("7");
            }
            "7"
        },
        8 => {
            proof {
                reveal_strlit("8");
            }
            "8"
        },
        _ => {
            proof {
                reveal_strlit("9");
            }
            "9"
        },
    }
}

/// Appends the decimal rendering of `n` to `s`.
fn push_decimal(s: &mut String, n: u8)
    ensures
        final(s)@ == old(s)@ + decimal(n as nat),
{
    proof {
        reveal_with_fuel(decimal, 3);
    }
    if n >= 100 {
        s.append(digit_text(n / 100));
    }
    if n >= 10 {
        s.append(digit_text((n / 10) % 10));
    }
    s.append(digit_text(n % 10));
    assert(n >= 10 ==> decimal(n as nat) == decimal((n / 10) as nat) + seq![digit_char((n % 10) as nat)]);
}

} // verus!
