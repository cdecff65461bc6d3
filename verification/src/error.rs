//! Error type shared by every entry point.
//!
//! Diagnostics carry page ordinals and byte offsets; they never carry key or value bytes,
//! so an error can be logged without leaking record contents.

use vstd::prelude::*;
use vstd::string::*;

use crate::format::PageOrdinal;
use crate::text;

verus! {

/// Categories of failure returned by this crate.
///
/// A missing key is not an error: lookups return `Option`.
#[derive(Debug, Clone, Copy, PartialEq, Eq, Hash, Structural)]
#[non_exhaustive]
pub enum ErrorKind {
    /// Underlying file or directory I/O failed.
    Io,
    /// The file is not a DryDB 1.4 container (bad magic, unsupported version).
    UnsupportedFormat,
    /// An index descriptor names a key encoding that is not registered.
    UnknownEncoding,
    /// The header names a page filter that is not registered.
    UnknownFilter,
    /// Structurally invalid on-disk data: out-of-range offsets, inconsistent lengths,
    /// unknown node flags, cyclic or over-deep trees.
    CorruptData,
    /// The managed memory budget cannot satisfy a reservation.
    BudgetExceeded,
    /// A value is larger than the configured or format-imposed limit.
    ValueTooLarge,
    /// A typed codec was asked for a schema that the stored value does not carry.
    SchemaMismatch,
    /// A typed archive failed structural validation.
    ArchiveValidation,
    /// The caller passed arguments that cannot describe a query (reversed bounds,
    /// unknown table or index name, wrong key width for the encoding).
    InvalidArgument,
    /// A valid request that this build cannot serve (streaming a filtered blob, a layout
    /// combination the writer does not emit).
    Unsupported,
}

impl ErrorKind {
    /// The words an error of this kind starts with.
    pub open spec fn words(self) -> Seq<char> {
        match self {
            ErrorKind::Io => "io"@,
            ErrorKind::UnsupportedFormat => "unsupported format"@,
            ErrorKind::UnknownEncoding => "unknown key encoding"@,
            ErrorKind::UnknownFilter => "unknown page filter"@,
            ErrorKind::CorruptData => "corrupt data"@,
            ErrorKind::BudgetExceeded => "memory budget exceeded"@,
            ErrorKind::ValueTooLarge => "value too large"@,
            ErrorKind::SchemaMismatch => "schema mismatch"@,
            ErrorKind::ArchiveValidation => "archive validation failed"@,
            ErrorKind::InvalidArgument => "invalid argument"@,
            ErrorKind::Unsupported => "unsupported"@,
        }
    }

    fn as_str(self) -> (r: &'static str)
        ensures
            r@ == self.words(),
    {
        match self {
            ErrorKind::Io => "io",
            ErrorKind::UnsupportedFormat => "unsupported format",
            ErrorKind::UnknownEncoding => "unknown key encoding",
            ErrorKind::UnknownFilter => "unknown page filter",
            ErrorKind::CorruptData => "corrupt data",
            ErrorKind::BudgetExceeded => "memory budget exceeded",
            ErrorKind::ValueTooLarge => "value too large",
            ErrorKind::SchemaMismatch => "schema mismatch",
            ErrorKind::ArchiveValidation => "archive validation failed",
            ErrorKind::InvalidArgument => "invalid argument",
            ErrorKind::Unsupported => "unsupported",
        }
    }
}

/// Decimal digits of a number, without leading zeros.
pub open spec fn decimal(n: nat) -> Seq<char>
    decreases n,
{
    if n < 10 {
        seq![digit_char(n)]
    } else {
        decimal(n / 10).push(digit_char(n % 10))
    }
}

/// The character of a single decimal digit.
pub open spec fn digit_char(d: nat) -> char {
    if d == 0 {
        '0'
    } else if d == 1 {
        '1'
    } else if d == 2 {
        '2'
    } else if d == 3 {
        '3'
    } else if d == 4 {
        '4'
    } else if d == 5 {
        '5'
    } else if d == 6 {
        '6'
    } else if d == 7 {
        '7'
    } else if d == 8 {
        '8'
    } else {
        '9'
    }
}

fn digit_str(d: u64) -> (r: &'static str)
    requires
        d < 10,
    ensures
        r@ == seq![digit_char(d as nat)],
{
    proof {
        reveal_strlit("0");
        reveal_strlit("1");
        reveal_strlit("2");
        reveal_strlit("3");
        reveal_strlit("4");
        reveal_strlit("5");
        reveal_strlit("6");
        reveal_strlit("7");
        reveal_strlit("8");
        reveal_strlit("9");
    }
    match d {
        0 => "0",
        1 => "1",
        2 => "2",
        3 => "3",
        4 => "4",
        5 => "5",
        6 => "6",
        7 => "7",
        8 => "8",
        _ => "9",
    }
}

/// Appends the decimal form of `n`.
pub(crate) fn push_decimal(out: &mut String, n: u64)
    ensures
        final(out)@ == old(out)@ + decimal(n as nat),
    decreases n,
{
    if n >= 10 {
        push_decimal(out, n / 10);
        out.append(digit_str(n % 10));
        proof {
            assert(decimal(n as nat) =~= decimal((n / 10) as nat).push(digit_char((n % 10) as nat)));
        }
    } else {
        out.append(digit_str(n));
    }
}

/// A message with one number in it.
pub(crate) fn message_with(before: &str, n: u64, after: &str) -> (r: String)
    ensures
        r@ == before@ + decimal(n as nat) + after@,
{
    let mut out = before.to_owned();
    push_decimal(&mut out, n);
    out.append(after);
    out
}

/// The sign and the decimal form of a number.
pub open spec fn signed(n: int) -> Seq<char> {
    if n < 0 {
        "-"@ + decimal((-n) as nat)
    } else {
        decimal(n as nat)
    }
}

/// The last `places` hexadecimal digits of a number.
pub open spec fn hex_digits(n: nat, places: nat) -> Seq<char>
    decreases places,
{
    if places == 0 {
        Seq::empty()
    } else {
        hex_digits(n / 16, (places - 1) as nat) + seq![text::hex_char((n % 16) as int)]
    }
}

/// Appends the last `places` hexadecimal digits of `n`.
fn push_hex(out: &mut String, n: u64, places: usize)
    ensures
        final(out)@ == old(out)@ + hex_digits(n as nat, places as nat),
    decreases places,
{
    if places > 0 {
        push_hex(out, n / 16, places - 1);
        out.push(text::hex_of((n % 16) as u8));
        proof {
            assert(out@ =~= old(out)@ + hex_digits(n as nat, places as nat));
        }
    } else {
        proof {
            assert(out@ =~= old(out)@ + hex_digits(n as nat, 0));
        }
    }
}

/// A message being put together.
pub(crate) struct Words {
    text: String,
}

impl Words {
    /// What it says so far.
    pub closed spec fn said(&self) -> Seq<char> {
        self.text@
    }

    /// A message that starts like this.
    pub(crate) fn new(text: &str) -> (r: Words)
        ensures
            r.said() == text@,
    {
        Words { text: text.to_owned() }
    }

    /// Adds a text.
    pub(crate) fn say(self, text: &str) -> (r: Words)
        ensures
            r.said() == self.said() + text@,
    {
        let mut out = self.text;
        out.append(text);
        Words { text: out }
    }

    /// Adds a number.
    pub(crate) fn number(self, n: u64) -> (r: Words)
        ensures
            r.said() == self.said() + decimal(n as nat),
    {
        let mut out = self.text;
        push_decimal(&mut out, n);
        Words { text: out }
    }

    /// Adds a number that may be negative.
    pub(crate) fn signed(self, n: i64) -> (r: Words)
        ensures
            r.said() == self.said() + signed(n as int),
    {
        if n < 0 {
            let sized: u64 = if n == i64::MIN {
                0x8000_0000_0000_0000
            } else {
                (-n) as u64
            };
            let r = self.say("-").number(sized);
            proof {
                assert(r.said() =~= self.said() + signed(n as int));
            }
            r
        } else {
            self.number(n as u64)
        }
    }

    /// Adds sixteen hexadecimal digits.
    pub(crate) fn digest(self, n: u64) -> (r: Words)
        ensures
            r.said() == self.said() + "0x"@ + hex_digits(n as nat, 16),
    {
        let mut out = self.text;
        out.append("0x");
        push_hex(&mut out, n, 16);
        Words { text: out }
    }

    /// Adds a page, or that there is none.
    pub(crate) fn page(self, page: Option<PageOrdinal>) -> (r: Words)
        ensures
            r.said() == self.said() + match page {
                Some(o) => "Some(PageOrdinal("@ + decimal(o.get() as nat) + "))"@,
                None => "None"@,
            },
    {
        match page {
            Some(o) => {
                let r = self.say("Some(PageOrdinal(").number(o.get()).say("))");
                proof {
                    assert(r.said() =~= self.said() + ("Some(PageOrdinal("@ + decimal(
                        o.get() as nat,
                    ) + "))"@));
                }
                r
            },
            None => self.say("None"),
        }
    }

    /// Adds the two hexadecimal digits of a byte.
    pub(crate) fn byte(self, b: u8) -> (r: Words)
        ensures
            r.said() == self.said().push(text::hex_char((b / 16) as int)).push(
                text::hex_char((b % 16) as int),
            ),
    {
        let mut out = self.text;
        text::push_hex_byte(&mut out, b);
        Words { text: out }
    }

    /// The whole message.
    pub(crate) fn end(self) -> (r: String)
        ensures
            r@ == self.said(),
    {
        self.text
    }
}

/// Where a corrupt-data or I/O failure was observed.
#[derive(Debug, Clone, Copy, PartialEq, Eq, Structural)]
pub struct Location {
    /// Page ordinal, when the failure happened inside a page.
    pub page: Option<u64>,
    /// Byte offset. Relative to the page when `page` is set, otherwise absolute.
    pub offset: Option<u64>,
}

impl Default for Location {
    fn default() -> (r: Self)
        ensures
            r == (Location { page: None, offset: None }),
    {
        Location { page: None, offset: None }
    }
}

impl Location {
    /// The text a location adds to an error, empty when nothing is known.
    pub open spec fn text(self) -> Seq<char> {
        match (self.page, self.offset) {
            (Some(p), Some(o)) => " (page "@ + decimal(p as nat) + ", offset "@ + decimal(o as nat)
                + ")"@,
            (Some(p), None) => " (page "@ + decimal(p as nat) + ")"@,
            (None, Some(o)) => " (offset "@ + decimal(o as nat) + ")"@,
            (None, None) => Seq::empty(),
        }
    }

    /// The location as the text an error ends with.
    pub fn to_text(&self) -> (r: String)
        ensures
            r@ == self.text(),
    {
        let mut out = String::new();
        match (self.page, self.offset) {
            (Some(p), Some(o)) => {
                out.append(" (page ");
                push_decimal(&mut out, p);
                out.append(", offset ");
                push_decimal(&mut out, o);
                out.append(")");
            },
            (Some(p), None) => {
                out.append(" (page ");
                push_decimal(&mut out, p);
                out.append(")");
            },
            (None, Some(o)) => {
                out.append(" (offset ");
                push_decimal(&mut out, o);
                out.append(")");
            },
            (None, None) => {},
        }
        proof {
            assert(out@ =~= self.text());
        }
        out
    }
}

/// Details attached to [`ErrorKind::BudgetExceeded`].
#[derive(Debug, Clone, Copy, PartialEq, Eq, Structural)]
pub struct BudgetInfo {
    /// Bytes the failed reservation asked for.
    pub requested: u64,
    /// Bytes charged to the budget at the time of the failure.
    pub in_use: u64,
    /// Configured budget.
    pub limit: u64,
    /// `true` when releasing live guards could let the same request succeed later;
    /// `false` when the request can never fit in the configured budget.
    pub retryable: bool,
}

/// The error type of this crate.
#[derive(Debug)]
pub struct Error {
    kind: ErrorKind,
    message: String,
    location: Location,
    budget: Option<BudgetInfo>,
}

impl Clone for Error {
    fn clone(&self) -> (r: Self)
        ensures
            r == *self,
    {
        Error {
            kind: self.kind,
            message: self.message.clone(),
            location: self.location,
            budget: self.budget,
        }
    }
}

impl Error {
    /// The failure category.
    pub closed spec fn spec_kind(&self) -> ErrorKind {
        self.kind
    }

    /// Where the failure was observed.
    pub closed spec fn spec_location(&self) -> Location {
        self.location
    }

    /// Budget accounting.
    pub closed spec fn spec_budget_info(&self) -> Option<BudgetInfo> {
        self.budget
    }

    /// The words that explain the failure.
    pub closed spec fn spec_message(&self) -> Seq<char> {
        self.message@
    }

    /// Structurally invalid on-disk data.
    pub open spec fn is_corrupt(&self) -> bool {
        self.kind() == ErrorKind::CorruptData
    }

    /// A failure of the resources a request needs, not of the request or of the data.
    pub open spec fn is_resource(&self) -> bool {
        self.kind() == ErrorKind::BudgetExceeded || self.kind() == ErrorKind::Io
    }

    /// Whether the error says that a budget refused a request, and how much was asked for,
    /// how much was in use, and what the limit is.
    pub open spec fn is_refusal(&self) -> bool {
        self.kind() == ErrorKind::BudgetExceeded && self.budget_info() is Some
    }

    /// Builds an error of `kind`.
    ///
    /// Adapter crates that extend this one, such as a value codec, report their
    /// failures through the same type rather than introducing another.
    pub fn new(kind: ErrorKind, message: &str) -> (r: Self)
        ensures
            r.kind() == kind,
            r.spec_message() == message@,
            r.location() == (Location { page: None, offset: None }),
            r.budget_info() is None,
    {
        Error::from_text(kind, message.to_owned())
    }

    pub(crate) fn from_text(kind: ErrorKind, message: String) -> (r: Self)
        ensures
            r.kind() == kind,
            r.spec_message() == message@,
            r.location() == (Location { page: None, offset: None }),
            r.budget_info() is None,
    {
        Error { kind, message, location: Location { page: None, offset: None }, budget: None }
    }

    pub(crate) fn corrupt(message: &str) -> (r: Self)
        ensures
            r.kind() == ErrorKind::CorruptData,
            r.spec_message() == message@,
            r.location() == (Location { page: None, offset: None }),
            r.budget_info() is None,
    {
        Error::new(ErrorKind::CorruptData, message)
    }

    /// Corruption explained by a number.
    pub(crate) fn corrupt_number(before: &str, n: u64, after: &str) -> (r: Self)
        ensures
            r.kind() == ErrorKind::CorruptData,
            r.spec_message() == before@ + decimal(n as nat) + after@,
            r.location() == (Location { page: None, offset: None }),
            r.budget_info() is None,
    {
        Error::from_text(ErrorKind::CorruptData, message_with(before, n, after))
    }

    /// An error about what the file holds.
    pub(crate) fn corrupt_words(words: Words) -> (r: Self)
        ensures
            r.kind() == ErrorKind::CorruptData,
            r.spec_message() == words.said(),
            r.location() == (Location { page: None, offset: None }),
            r.budget_info() is None,
    {
        Error::from_text(ErrorKind::CorruptData, words.end())
    }

    /// An error about what the caller asked for.
    pub(crate) fn invalid_words(words: Words) -> (r: Self)
        ensures
            r.kind() == ErrorKind::InvalidArgument,
            r.spec_message() == words.said(),
            r.location() == (Location { page: None, offset: None }),
            r.budget_info() is None,
    {
        Error::from_text(ErrorKind::InvalidArgument, words.end())
    }

    pub(crate) fn invalid(message: &str) -> (r: Self)
        ensures
            r.kind() == ErrorKind::InvalidArgument,
            r.spec_message() == message@,
            r.location() == (Location { page: None, offset: None }),
            r.budget_info() is None,
    {
        Error::new(ErrorKind::InvalidArgument, message)
    }

    /// An I/O failure.
    pub fn io(message: &str) -> (r: Self)
        ensures
            r.kind() == ErrorKind::Io,
            r.spec_message() == message@,
            r.location() == (Location { page: None, offset: None }),
            r.budget_info() is None,
    {
        Error::new(ErrorKind::Io, message)
    }

    pub(crate) fn budget(info: BudgetInfo) -> (r: Self)
        ensures
            r.kind() == ErrorKind::BudgetExceeded,
            r.spec_message() == "requested "@ + decimal(info.requested as nat) + " bytes, "@
                + decimal(info.in_use as nat) + " of "@ + decimal(info.limit as nat) + " in use"@,
            r.location() == (Location { page: None, offset: None }),
            r.budget_info() == Some(info),
    {
        let mut message = "requested ".to_owned();
        push_decimal(&mut message, info.requested);
        message.append(" bytes, ");
        push_decimal(&mut message, info.in_use);
        message.append(" of ");
        push_decimal(&mut message, info.limit);
        message.append(" in use");
        Error {
            kind: ErrorKind::BudgetExceeded,
            message,
            location: Location { page: None, offset: None },
            budget: Some(info),
        }
    }

    /// Attaches the page ordinal the failure was observed in.
    pub(crate) fn at_page(self, page: u64) -> (r: Self)
        ensures
            r.kind() == self.kind(),
            r.spec_message() == self.spec_message(),
            r.location() == (Location { page: Some(page), offset: self.location().offset }),
            r.budget_info() == self.budget_info(),
    {
        Error {
            kind: self.kind,
            message: self.message,
            location: Location { page: Some(page), offset: self.location.offset },
            budget: self.budget,
        }
    }

    /// Attaches a byte offset (relative to the page when one is set).
    pub(crate) fn at_offset(self, offset: u64) -> (r: Self)
        ensures
            r.kind() == self.kind(),
            r.spec_message() == self.spec_message(),
            r.location() == (Location { page: self.location().page, offset: Some(offset) }),
            r.budget_info() == self.budget_info(),
    {
        Error {
            kind: self.kind,
            message: self.message,
            location: Location { page: self.location.page, offset: Some(offset) },
            budget: self.budget,
        }
    }

    /// The failure category.
    #[verifier::when_used_as_spec(spec_kind)]
    pub fn kind(&self) -> (r: ErrorKind)
        ensures
            r == self.spec_kind(),
    {
        self.kind
    }

    /// Where the failure was observed, when known.
    #[verifier::when_used_as_spec(spec_location)]
    pub fn location(&self) -> (r: Location)
        ensures
            r == self.spec_location(),
    {
        self.location
    }

    /// Budget accounting, for [`ErrorKind::BudgetExceeded`].
    #[verifier::when_used_as_spec(spec_budget_info)]
    pub fn budget_info(&self) -> (r: Option<BudgetInfo>)
        ensures
            r == self.spec_budget_info(),
    {
        self.budget
    }

    /// `true` when retrying after releasing live guards may succeed.
    pub fn is_retryable(&self) -> (r: bool)
        ensures
            r == (self.budget_info() matches Some(b) && b.retryable),
    {
        match self.budget {
            Some(b) => b.retryable,
            None => false,
        }
    }

    /// The words that explain the failure.
    pub fn message(&self) -> (r: &str)
        ensures
            r@ == self.spec_message(),
    {
        self.message.as_str()
    }

    /// The whole error as one line: its kind, its message, and where it was observed.
    pub open spec fn text(&self) -> Seq<char> {
        self.kind().words() + ": "@ + self.spec_message() + self.location().text()
    }

    /// The whole error as one line: its kind, its message, and where it was observed.
    pub fn to_text(&self) -> (r: String)
        ensures
            r@ == self.text(),
    {
        let mut out = self.kind.as_str().to_owned();
        out.append(": ");
        out.append(self.message.as_str());
        let place = self.location.to_text();
        out.append(place.as_str());
        out
    }
}

/// An error reads as what kind it is of, what happened, and where.
pub proof fn lemma_error_text(e: &Error)
    ensures
        e.text() == e.kind().words() + ": "@ + e.spec_message() + e.location().text(),
        e.kind() == ErrorKind::CorruptData ==> e.kind().words() == "corrupt data"@,
        e.kind() == ErrorKind::InvalidArgument ==> e.kind().words() == "invalid argument"@,
        e.kind() == ErrorKind::BudgetExceeded ==> e.kind().words() == "memory budget exceeded"@,
        e.kind() == ErrorKind::Io ==> e.kind().words() == "io"@,
        e.kind() == ErrorKind::UnsupportedFormat ==> e.kind().words() == "unsupported format"@,
        e.kind() == ErrorKind::UnknownEncoding ==> e.kind().words() == "unknown key encoding"@,
        e.kind() == ErrorKind::UnknownFilter ==> e.kind().words() == "unknown page filter"@,
        e.kind() == ErrorKind::ValueTooLarge ==> e.kind().words() == "value too large"@,
        e.kind() == ErrorKind::SchemaMismatch ==> e.kind().words() == "schema mismatch"@,
        e.kind() == ErrorKind::ArchiveValidation ==> e.kind().words()
            == "archive validation failed"@,
        e.kind() == ErrorKind::Unsupported ==> e.kind().words() == "unsupported"@,
        e.is_resource() <==> e.kind() == ErrorKind::Io || e.kind() == ErrorKind::BudgetExceeded,
        e.is_corrupt() <==> e.kind() == ErrorKind::CorruptData,
{
}

/// Where an error was observed reads as the page, the offset, both or nothing.
pub proof fn lemma_location_text(p: u64, o: u64)
    ensures
        (Location { page: None, offset: None }).text() == Seq::<char>::empty(),
        (Location { page: Some(p), offset: None }).text() == " (page "@ + decimal(p as nat) + ")"@,
        (Location { page: None, offset: Some(o) }).text() == " (offset "@ + decimal(o as nat)
            + ")"@,
        (Location { page: Some(p), offset: Some(o) }).text() == " (page "@ + decimal(p as nat)
            + ", offset "@ + decimal(o as nat) + ")"@,
{
}

/// The decimal form of a number has no leading zero, and its last digit is the number's last.
pub proof fn lemma_decimal(n: nat)
    ensures
        decimal(n).len() >= 1,
        n < 10 ==> decimal(n).len() == 1 && decimal(n)[0] as u32 == '0' as u32 + n,
        n >= 10 ==> decimal(n).drop_last() == decimal(n / 10) && decimal(n).last() as u32
            == '0' as u32 + n % 10,
        n > 0 ==> decimal(n)[0] != '0',
    decreases n,
{
    if n >= 10 {
        lemma_decimal(n / 10);
        assert(decimal(n).drop_last() =~= decimal(n / 10));
    }
}

} // verus!
