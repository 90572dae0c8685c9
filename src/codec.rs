//! The serialization bridge: a flags value goes out as its text in
//! human-readable formats and as its raw bits in compact ones, and comes back
//! from either form with every bit kept, named or not.

use vstd::prelude::*;

use crate::error::DecodeError;
use crate::flags::{FlagTable, Flags};
use crate::hex::hex_text;
use crate::text::{from_text, hex_prefix, parse_text, render_text, split_bars, to_text, token_value, trimmed, all_ws};
use crate::text_laws::{lemma_bad_flag_rejected, lemma_empty_text, lemma_hex_flag_kept, lemma_text_round_trip};

verus! {

/// A flags value as a format carries it.
#[derive(Clone, Debug, PartialEq, Eq)]
pub enum Encoded {
    /// Human-readable formats: the names of the set flags, as `"A | B"`.
    Text(String),
    /// Compact formats: the raw bit pattern.
    Number(u64),
}

/// The content of an [`Encoded`] value.
pub enum Form {
    Text(Seq<char>),
    Number(u64),
}

impl View for Encoded {
    type V = Form;

    open spec fn view(&self) -> Form {
        match self {
            Encoded::Text(s) => Form::Text(s@),
            Encoded::Number(n) => Form::Number(*n),
        }
    }
}

/// The form that a value of the type `table` takes in a human-readable or a
/// compact format.
pub open spec fn encode(table: FlagTable, v: Flags, human_readable: bool) -> Form {
    if human_readable {
        Form::Text(render_text(table, v.bits))
    } else {
        Form::Number(v.bits)
    }
}

/// The value of the type `table` that a form decodes to: the text's flags, or
/// the number itself where it fits the width. Bits that no flag names stay.
pub open spec fn decode(table: FlagTable, f: Form) -> Result<Flags, DecodeError> {
    match f {
        Form::Text(s) => match parse_text(table, s) {
            Ok(b) => Ok(Flags { bits: b }),
            Err(e) => Err(e),
        },
        Form::Number(n) => if n <= table.width.max_spec() {
            Ok(Flags { bits: n })
        } else {
            Err(DecodeError::OutOfRange)
        },
    }
}

/// Serializes a value of the flag-set type `table`: its text where the format
/// prefers human-readable output, else its raw bits.
pub fn serialize(table: &FlagTable, flags: &Flags, human_readable: bool) -> (r: Encoded)
    ensures
        r@ == encode(*table, *flags, human_readable),
{
    if human_readable {
        Encoded::Text(to_text(table, flags.bits()))
    } else {
        Encoded::Number(flags.bits())
    }
}

/// Deserializes a value of the flag-set type `table`, retaining bits that no
/// declared flag names.
pub fn deserialize(table: &FlagTable, form: &Encoded) -> (r: Result<Flags, DecodeError>)
    ensures
        r == decode(*table, form@),
{
    match form {
        Encoded::Text(s) => match from_text(table, s.as_str()) {
            Ok(b) => Ok(Flags::from_bits_retain(b)),
            Err(e) => Err(e),
        },
        Encoded::Number(n) => {
            if *n <= table.width.max() {
                Ok(Flags::from_bits_retain(*n))
            } else {
                Err(DecodeError::OutOfRange)
            }
        },
    }
}

/// Decoding what a value of a well-formed type encodes to gives that value
/// back, in human-readable and in compact formats, unknown bits included.
pub proof fn lemma_round_trip(table: FlagTable, v: Flags, human_readable: bool)
    requires
        table.wf(),
        table.holds(v),
    ensures
        decode(table, encode(table, v, human_readable)) == Ok::<Flags, DecodeError>(v),
{
    if human_readable {
        lemma_text_round_trip(table, v.bits);
    }
}

/// The empty value is the empty text in human-readable formats and zero in
/// compact ones.
pub proof fn lemma_empty_encoding(table: FlagTable)
    ensures
        encode(table, Flags { bits: 0 }, true) == Form::Text(Seq::empty()),
        encode(table, Flags { bits: 0 }, false) == Form::Number(0),
{
    lemma_empty_text(table);
}

/// Bits that no declared flag names survive decoding: a number that fits the
/// width, or a `0x` flag of text, decodes to exactly its bits.
pub proof fn lemma_unknown_bits_kept(table: FlagTable, n: u64)
    requires
        n <= table.width.max_spec(),
    ensures
        decode(table, Form::Number(n)) == Ok::<Flags, DecodeError>(Flags { bits: n }),
        decode(table, Form::Text(hex_prefix() + hex_text(n as nat))) == Ok::<Flags, DecodeError>(
            Flags { bits: n },
        ),
{
    lemma_hex_flag_kept(table, n);
}

/// A number too large for the width is an error, never a default value.
pub proof fn lemma_out_of_range_rejected(table: FlagTable, n: u64)
    requires
        n > table.width.max_spec(),
    ensures
        decode(table, Form::Number(n)) == Err::<Flags, DecodeError>(DecodeError::OutOfRange),
{
}

/// A text with a flag that is empty, names no declared flag, or holds
/// malformed or too large hexadecimal is an error, never a default value.
pub proof fn lemma_bad_text_rejected(table: FlagTable, s: Seq<char>, i: int)
    requires
        !all_ws(s),
        0 <= i < trimmed(split_bars(s)).len(),
        token_value(table, trimmed(split_bars(s))[i]) is Err,
    ensures
        decode(table, Form::Text(s)) is Err,
{
    lemma_bad_flag_rejected(table, s, i);
}

} // verus!
