//! The failures the engine reports.
use vstd::prelude::*;
use vstd::string::StringExecFns;

verus! {

/// A failed operation of a byte store.
///
/// `code` is the error number the platform reported, or `0` where there is
/// none to report.
#[derive(Debug, Clone, Copy, PartialEq, Eq, Structural)]
pub struct Fault {
    pub code: u32,
}

/// Everything an operation of the engine can fail with.
#[derive(Debug, Clone, Copy, PartialEq, Eq)]
pub enum Error {
    /// The index (first field) is not below the length (second field).
    OutOfRange(u64, u64),
    /// The byte offset of the requested slot does not fit in 64 bits.
    IndexExceedsMaxU64,
    /// A pop was asked of an empty collection.
    PopOnEmpty,
    /// The collection holds as many elements as its stores can address.
    PushOnFull,
    /// The length does not fit the index type of an in-memory vector.
    LenExceedsUsize(u64),
    /// A buffer of the first size was offered for a decode that needs the
    /// second.
    InequalSizeForDe(usize, usize),
    /// A fresh store returned the second probe where the first was written.
    RWTestFailedNotEqual([u8; 4], [u8; 4]),
    /// No store is left that holds a trustworthy copy of the data.
    IrrecoverableState,
    /// A store faulted and no shadow was configured to take over.
    Storage(Fault),
}

/// The character that stands for the digit `d`.
pub open spec fn digit(d: nat) -> char {
    ((48 + d) as u8) as char
}

/// The decimal numeral of `n`, without leading zeros.
pub open spec fn decimal(n: nat) -> Seq<char>
    decreases n,
{
    if n < 10 {
        seq![digit(n)]
    } else {
        decimal(n / 10).push(digit(n % 10))
    }
}

/// `u64::to_string`: the decimal numeral of the number.
#[verifier::external_body]
fn numeral(n: u64) -> (text: String)
    ensures
        text@ == decimal(n as nat),
{
    n.to_string()
}

/// How four bytes are shown: their numerals, separated by a comma and a
/// space, in square brackets.
pub open spec fn shown(bytes: Seq<u8>) -> Seq<char> {
    "["@ + decimal(bytes[0] as nat) + ", "@ + decimal(bytes[1] as nat) + ", "@ + decimal(
        bytes[2] as nat,
    ) + ", "@ + decimal(bytes[3] as nat) + "]"@
}

/// Appends to `text` how `bytes` are shown.
fn append_shown(text: &mut String, bytes: &[u8; 4])
    ensures
        final(text)@ == old(text)@ + shown(bytes@),
{
    text.append("[");
    text.append(numeral(bytes[0] as u64).as_str());
    text.append(", ");
    text.append(numeral(bytes[1] as u64).as_str());
    text.append(", ");
    text.append(numeral(bytes[2] as u64).as_str());
    text.append(", ");
    text.append(numeral(bytes[3] as u64).as_str());
    text.append("]");
    assert(text@ =~= old(text)@ + shown(bytes@));
}

impl Error {
    /// What `message` says of the error.
    pub open spec fn text(self) -> Seq<char> {
        match self {
            Error::OutOfRange(index, len) => "Index out of range: Index: "@ + decimal(
                index as nat,
            ) + "; Length: "@ + decimal(len as nat),
            Error::IndexExceedsMaxU64 => "Index out of range of possible u64 values"@,
            Error::PopOnEmpty => "Collection is empty, no elements to pop"@,
            Error::PushOnFull => "Collection is full, no elements can be pushed"@,
            Error::LenExceedsUsize(len) => "Cannot convert to Vec, len: "@ + decimal(len as nat)
                + " > std::usize::MAX"@,
            Error::InequalSizeForDe(size_given, size_required) =>
                "Deserialize failure, size's must be equal. Given: "@ + decimal(
                    size_given as nat,
                ) + "; Required: "@ + decimal(size_required as nat),
            Error::RWTestFailedNotEqual(buf_in, buf_out) =>
                "Read/Write test failed on file, output != input: "@ + shown(buf_in@) + " != "@
                    + shown(buf_out@),
            Error::IrrecoverableState =>
                "No available shadows for replacement and the main file is in an irrecoverable state"@,
            Error::Storage(fault) => "Storage fault, code: "@ + decimal(fault.code as nat),
        }
    }

    /// The error in words.
    pub fn message(&self) -> (text: String)
        ensures
            text@ == self.text(),
    {
        let mut text: String = String::new();
        assert(text@ =~= Seq::<char>::empty());
        match self {
            Error::OutOfRange(index, len) => {
                text.append("Index out of range: Index: ");
                text.append(numeral(*index).as_str());
                text.append("; Length: ");
                text.append(numeral(*len).as_str());
            },
            Error::IndexExceedsMaxU64 => {
                text.append("Index out of range of possible u64 values");
            },
            Error::PopOnEmpty => {
                text.append("Collection is empty, no elements to pop");
            },
            Error::PushOnFull => {
                text.append("Collection is full, no elements can be pushed");
            },
            Error::LenExceedsUsize(len) => {
                text.append("Cannot convert to Vec, len: ");
                text.append(numeral(*len).as_str());
                text.append(" > std::usize::MAX");
            },
            Error::InequalSizeForDe(size_given, size_required) => {
                text.append("Deserialize failure, size's must be equal. Given: ");
                text.append(numeral(*size_given as u64).as_str());
                text.append("; Required: ");
                text.append(numeral(*size_required as u64).as_str());
            },
            Error::RWTestFailedNotEqual(buf_in, buf_out) => {
                text.append("Read/Write test failed on file, output != input: ");
                append_shown(&mut text, buf_in);
                text.append(" != ");
                append_shown(&mut text, buf_out);
            },
            Error::IrrecoverableState => {
                text.append(
                    "No available shadows for replacement and the main file is in an irrecoverable state",
                );
            },
            Error::Storage(fault) => {
                text.append("Storage fault, code: ");
                text.append(numeral(fault.code as u64).as_str());
            },
        }
        assert(text@ =~= self.text());
        text
    }
}

} // verus!
