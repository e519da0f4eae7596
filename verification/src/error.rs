//! The error type shared by sources, sinks and conversions.
use vstd::prelude::*;

verus! {

/// What is wrong with a malformed source.
#[derive(Clone, Copy, Debug, PartialEq, Eq, Structural)]
pub enum DecodeFault {
    /// The input ends before the value that starts at the offset is complete.
    Truncated,
    /// The blob does not start with the two magic bytes.
    BadMagic,
    /// The blob header names a version other than the first.
    UnsupportedVersion,
    /// The blob header flags name an unknown envelope layout or an extended type.
    BadFlags,
    /// A byte-order mark is neither big-endian nor little-endian.
    BadByteOrder,
    /// A geometry type code names no known kind and dimensionality.
    UnknownGeometryType,
    /// A member's dimensionality differs from the one declared at the root.
    MixedDimensions,
    /// A member of a homogeneous multi-geometry is of the wrong kind.
    UnexpectedMember,
}

/// The first failure of a walk or conversion.
#[derive(Debug)]
pub enum GeozeroError {
    /// The source is malformed; `offset` is the byte position of the offending value
    /// (zero for sources that are not byte sequences).
    Decode { fault: DecodeFault, offset: usize },
    /// A sink rejected a call.
    Sink { message: String },
    /// Produced bytes are not valid text although text output was required.
    Encoding { message: String },
    /// Any failure, as surfaced through a database value adapter.
    ColumnDecode { message: String },
}

/// The mathematical content of a [`GeozeroError`].
pub enum ErrorModel {
    Decode { fault: DecodeFault, offset: usize },
    Sink { message: Seq<char> },
    Encoding { message: Seq<char> },
    ColumnDecode { message: Seq<char> },
}

impl View for GeozeroError {
    type V = ErrorModel;

    open spec fn view(&self) -> ErrorModel {
        match self {
            GeozeroError::Decode { fault, offset } => ErrorModel::Decode {
                fault: *fault,
                offset: *offset,
            },
            GeozeroError::Sink { message } => ErrorModel::Sink { message: message@ },
            GeozeroError::Encoding { message } => ErrorModel::Encoding { message: message@ },
            GeozeroError::ColumnDecode { message } => ErrorModel::ColumnDecode {
                message: message@,
            },
        }
    }
}

/// The words for what is wrong with a malformed source.
pub open spec fn fault_text(fault: DecodeFault) -> Seq<char> {
    match fault {
        DecodeFault::Truncated => "unexpected end of input"@,
        DecodeFault::BadMagic => "not a GeoPackage geometry"@,
        DecodeFault::UnsupportedVersion => "unsupported GeoPackage geometry version"@,
        DecodeFault::BadFlags => "unsupported GeoPackage geometry flags"@,
        DecodeFault::BadByteOrder => "invalid byte order"@,
        DecodeFault::UnknownGeometryType => "unknown geometry type"@,
        DecodeFault::MixedDimensions => "mixed dimensionalities"@,
        DecodeFault::UnexpectedMember => "unexpected kind of member"@,
    }
}

/// The character of a decimal digit.
pub open spec fn digit_char(d: nat) -> char {
    if d == 0 {
        '0'
    } else if d == 1 {
        '1'
    } else if d == 2 {
        '2'
    } else if d == 3 {
        '3'
    } else if d == 4 {
        '4'
    } else if d == 5 {
        '5'
    } else if d == 6 {
        '6'
    } else if d == 7 {
        '7'
    } else if d == 8 {
        '8'
    } else {
        '9'
    }
}

/// A natural number in decimal notation.
pub open spec fn decimal_text(n: nat) -> Seq<char>
    decreases n,
{
    if n < 10 {
        seq![digit_char(n)]
    } else {
        decimal_text(n / 10).push(digit_char(n % 10))
    }
}

/// The human-readable message of an error: for a malformed source what is
/// wrong and at which byte, and otherwise the message that the error carries.
pub open spec fn description_text(e: ErrorModel) -> Seq<char> {
    match e {
        ErrorModel::Decode { fault, offset } => fault_text(fault) + " at byte "@ + decimal_text(
            offset as nat,
        ),
        ErrorModel::Sink { message } => message,
        ErrorModel::Encoding { message } => message,
        ErrorModel::ColumnDecode { message } => message,
    }
}

fn fault_words(fault: DecodeFault) -> (words: &'static str)
    ensures
        words@ == fault_text(fault),
{
    match fault {
        DecodeFault::Truncated => "unexpected end of input",
        DecodeFault::BadMagic => "not a GeoPackage geometry",
        DecodeFault::UnsupportedVersion => "unsupported GeoPackage geometry version",
        DecodeFault::BadFlags => "unsupported GeoPackage geometry flags",
        DecodeFault::BadByteOrder => "invalid byte order",
        DecodeFault::UnknownGeometryType => "unknown geometry type",
        DecodeFault::MixedDimensions => "mixed dimensionalities",
        DecodeFault::UnexpectedMember => "unexpected kind of member",
    }
}

fn digit_word(d: usize) -> (word: &'static str)
    requires
        d < 10,
    ensures
        word@ == seq![digit_char(d as nat)],
{
    proof {
        reveal_strlit("0");
        reveal_strlit("1");
        reveal_strlit("2");
        reveal_strlit("3");
        reveal_strlit("4");
        reveal_strlit("5");
        reveal_strlit("6");
        reveal_strlit("7");
        reveal_strlit("8");
        reveal_strlit("9");
    }
    let word = if d == 0 {
        "0"
    } else if d == 1 {
        "1"
    } else if d == 2 {
        "2"
    } else if d == 3 {
        "3"
    } else if d == 4 {
        "4"
    } else if d == 5 {
        "5"
    } else if d == 6 {
        "6"
    } else if d == 7 {
        "7"
    } else if d == 8 {
        "8"
    } else {
        "9"
    };
    assert(word@ =~= seq![digit_char(d as nat)]);
    word
}

fn append_decimal(text: &mut String, n: usize)
    ensures
        final(text)@ == old(text)@ + decimal_text(n as nat),
    decreases n,
{
    if n >= 10 {
        append_decimal(text, n / 10);
    }
    text.append(digit_word(n % 10));
    assert(text@ =~= old(text)@ + decimal_text(n as nat));
}

impl GeozeroError {
    /// The human-readable message of this error.
    pub fn description(&self) -> (text: String)
        ensures
            text@ == description_text(self@),
    {
        match self {
            GeozeroError::Decode { fault, offset } => {
                let mut text = String::from_str(fault_words(*fault));
                text.append(" at byte ");
                append_decimal(&mut text, *offset);
                assert(text@ =~= description_text(self@));
                text
            },
            GeozeroError::Sink { message } => message.clone(),
            GeozeroError::Encoding { message } => message.clone(),
            GeozeroError::ColumnDecode { message } => message.clone(),
        }
    }
}

} // verus!
