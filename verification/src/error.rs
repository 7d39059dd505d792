//! The errors of the library.
use vstd::arithmetic::power::{lemma_pow0, lemma_pow1, lemma_pow_adds, lemma_pow_positive, pow};
use vstd::prelude::*;
use vstd::string::StringExecFns;

verus! {

/// What a stream can complain of.
#[derive(Debug, Clone, Copy, PartialEq, Eq, Structural)]
pub enum IoErrorKind {
    /// The stream ended before what was asked for.
    UnexpectedEof,
    /// A value or a bit count that cannot be written or read.
    InvalidInput,
    /// Anything else.
    Other,
}

/// The errors of encoding and decoding.
#[derive(Debug)]
pub enum Error {
    /// A sample does not fit the type it is converted to.
    BlockConversion,
    /// The stream failed.
    Io(IoErrorKind),
    /// A slice has another length than the array made of it.
    SliceConversion,
    /// The data is not what it should be.
    InvalidData,
    /// The stream ended inside the named part.
    FailedToDecode(String),
    /// The stream ended.
    UnexpectedEndOfStream,
    /// The data is larger than the limit.
    BufferOverflow,
    /// There is not enough room for the named part.
    InsufficientCapacity(String),
    /// An image without pixels.
    InvalidDimensions { width: usize, height: usize },
    /// A number of channels that no image has.
    InvalidDepth(u8),
    /// A line that holds nothing.
    InvalidStride(usize),
    /// A type that the entropy coder does not take.
    UnsupportedAnsDataType(usize),
}

pub type Result<T> = std::result::Result<T, Error>;

/// The character of a decimal digit.
pub open spec fn digit_char(digit: nat) -> char {
    if digit == 0 {
        '0'
    } else if digit == 1 {
        '1'
    } else if digit == 2 {
        '2'
    } else if digit == 3 {
        '3'
    } else if digit == 4 {
        '4'
    } else if digit == 5 {
        '5'
    } else if digit == 6 {
        '6'
    } else if digit == 7 {
        '7'
    } else if digit == 8 {
        '8'
    } else {
        '9'
    }
}

/// A number in decimal, without leading zeros.
pub open spec fn decimal_chars(value: nat) -> Seq<char>
    decreases value,
{
    if value < 10 {
        seq![digit_char(value)]
    } else {
        decimal_chars(value / 10).push(digit_char(value % 10))
    }
}

fn digit_str(digit: usize) -> (text: &'static str)
    requires
        digit < 10,
    ensures
        text@ == seq![digit_char(digit as nat)],
{
    proof {
        reveal_strlit("0");
        reveal_strlit("1");
        reveal_strlit("2");
        reveal_strlit("3");
        reveal_strlit("4");
        reveal_strlit("5");
        reveal_strlit("6");
        reveal_strlit("7");
        reveal_strlit("8");
        reveal_strlit("9");
    }
    match digit {
        0 => "0",
        1 => "1",
        2 => "2",
        3 => "3",
        4 => "4",
        5 => "5",
        6 => "6",
        7 => "7",
        8 => "8",
        _ => "9",
    }
}

/// Writes a number in decimal.
pub(crate) fn decimal(value: usize) -> (text: String)
    ensures
        text@ == decimal_chars(value as nat),
    decreases value,
{
    if value < 10 {
        let text = digit_str(value).to_owned();
        text
    } else {
        let mut text = decimal(value / 10);
        text.append(digit_str(value % 10));
        assert(text@ == decimal_chars(value as nat));
        text
    }
}

impl Error {
    /// The text of the error.
    pub open spec fn text(&self) -> Seq<char> {
        match self {
            Error::BlockConversion => "failed to convert block to a different type"@,
            Error::Io(IoErrorKind::UnexpectedEof) => "io error: unexpected end of file"@,
            Error::Io(IoErrorKind::InvalidInput) => "io error: invalid input parameter"@,
            Error::Io(IoErrorKind::Other) => "io error: other error"@,
            Error::SliceConversion => "slice conversion error: could not convert slice to array"@,
            Error::InvalidData => "invalid data"@,
            Error::FailedToDecode(what) => "not enough bytes for "@ + what@,
            Error::UnexpectedEndOfStream => "unexpected end of stream"@,
            Error::BufferOverflow => "buffer overflow - data size exceeds limit"@,
            Error::InsufficientCapacity(what) => "insufficient capacity: "@ + what@,
            Error::InvalidDimensions { width, height } => "invalid image dimensions: width="@
                + decimal_chars(*width as nat) + ", height="@ + decimal_chars(*height as nat),
            Error::InvalidDepth(depth) => "invalid color depth: "@ + decimal_chars(*depth as nat),
            Error::InvalidStride(stride) => "invalid stride: "@ + decimal_chars(*stride as nat),
            Error::UnsupportedAnsDataType(bits) => "unsupported ANS data type: "@ + decimal_chars(
                *bits as nat,
            ) + "-bit types not supported (only 8-bit and 16-bit)"@,
        }
    }

    /// What the error says.
    pub fn message(&self) -> (text: String)
        ensures
            text@ == self.text(),
    {
        match self {
            Error::BlockConversion => "failed to convert block to a different type".to_owned(),
            Error::Io(kind) => match kind {
                IoErrorKind::UnexpectedEof => "io error: unexpected end of file".to_owned(),
                IoErrorKind::InvalidInput => "io error: invalid input parameter".to_owned(),
                IoErrorKind::Other => "io error: other error".to_owned(),
            },
            Error::SliceConversion =>
                "slice conversion error: could not convert slice to array".to_owned(),
            Error::InvalidData => "invalid data".to_owned(),
            Error::FailedToDecode(what) => {
                let mut text = "not enough bytes for ".to_owned();
                text.append(what.as_str());
                text
            },
            Error::UnexpectedEndOfStream => "unexpected end of stream".to_owned(),
            Error::BufferOverflow => "buffer overflow - data size exceeds limit".to_owned(),
            Error::InsufficientCapacity(what) => {
                let mut text = "insufficient capacity: ".to_owned();
                text.append(what.as_str());
                text
            },
            Error::InvalidDimensions { width, height } => {
                let mut text = "invalid image dimensions: width=".to_owned();
                text.append(decimal(*width).as_str());
                text.append(", height=");
                text.append(decimal(*height).as_str());
                text
            },
            Error::InvalidDepth(depth) => {
                let mut text = "invalid color depth: ".to_owned();
                text.append(decimal(*depth as usize).as_str());
                text
            },
            Error::InvalidStride(stride) => {
                let mut text = "invalid stride: ".to_owned();
                text.append(decimal(*stride).as_str());
                text
            },
            Error::UnsupportedAnsDataType(bits) => {
                let mut text = "unsupported ANS data type: ".to_owned();
                text.append(decimal(*bits).as_str());
                text.append("-bit types not supported (only 8-bit and 16-bit)");
                text
            },
        }
    }
}

/// The error of a stream that ended inside the part called `what`.
pub open spec fn is_failed_to_decode<T>(r: Result<T>, what: Seq<char>) -> bool {
    r matches Err(Error::FailedToDecode(text)) && text@ == what
}

/// The error of a stream that ended.
pub open spec fn is_eof<T>(r: Result<T>) -> bool {
    r matches Err(Error::Io(IoErrorKind::UnexpectedEof))
}

/// The digits of a number: the one that is `i` places before the last counts `10^i`, and there
/// is no zero in front.
pub proof fn law_decimal_digits_count(value: nat, i: nat)
    requires
        i < decimal_chars(value).len(),
    ensures
        ({
            let digits = decimal_chars(value);
            &&& 0 < digits.len()
            &&& digits[digits.len() - 1 - i] as u32 == 48 + (value as int / pow(10, i)) % 10
            &&& digits.len() > 1 ==> digits[0] != '0'
            &&& value < pow(10, digits.len())
        }),
    decreases value,
{
    lemma_decimal_size(value);
    lemma_pow0(10);
    if i == 0 {
        assert(value as int / 1 == value);
    } else {
        law_decimal_digits_count(value / 10, (i - 1) as nat);
        lemma_pow_adds(10, 1, (i - 1) as nat);
        lemma_pow1(10);
        lemma_pow_positive(10, (i - 1) as nat);
        vstd::arithmetic::div_mod::lemma_div_denominator(
            value as int,
            10,
            pow(10, (i - 1) as nat),
        );
    }
}

proof fn lemma_decimal_size(value: nat)
    ensures
        ({
            let digits = decimal_chars(value);
            &&& 0 < digits.len()
            &&& value > 0 ==> digits[0] != '0'
            &&& digits.len() > 1 ==> value >= 10
            &&& value < pow(10, digits.len())
        }),
    decreases value,
{
    lemma_pow1(10);
    if value >= 10 {
        lemma_decimal_size(value / 10);
        let len = decimal_chars(value / 10).len();
        lemma_pow_adds(10, 1, len);
    }
}

} // verus!
