//! The template filters of the explorer's pages: `format_hash`,
//! `format_time` and `format_number`, on the plain values they read.
use vstd::prelude::*;
use vstd::string::{StringExecFns, StringSliceAdditionalSpecFns};
use vstd::utf8::{decode_utf8, encode_scalar, encode_utf8, is_char_boundary, valid_utf8};
use crate::decimal::int_text;
use crate::grouping::{format_int, group_thousands};
use crate::clock::{calendar_time_of, date_time_text, has_calendar_time, is_time_of, timestamp_text};

verus! {

broadcast use {vstd::utf8::encode_utf8_decode_utf8, vstd::utf8::encode_utf8_valid_utf8};

/// Why a filter refuses its value.
#[derive(Clone, Copy, Debug, PartialEq, Eq, Structural)]
pub enum FilterError {
    /// `format_hash` was given something other than a string.
    ValueNotString,
    /// `format_time` was given something other than an integer.
    ValueNotInteger,
    /// The hash has fewer than 16 bytes.
    HashTooShort,
    /// No date exists for the timestamp.
    TimestampOutOfRange,
    /// A number that is neither an `i64` nor a float.
    UnsupportedNumberType,
    /// `format_number` was given something other than a number.
    ValueNotNumber,
}

/// The message the template engine shows for each refusal.
pub open spec fn error_text(e: FilterError) -> Seq<char> {
    match e {
        FilterError::ValueNotString => "failed to parse value as string"@,
        FilterError::ValueNotInteger => "failed to parse value as string"@,
        FilterError::HashTooShort => "hash is too short to format"@,
        FilterError::TimestampOutOfRange => "failed to create datetime from timestamp"@,
        FilterError::UnsupportedNumberType => "unsupported number type"@,
        FilterError::ValueNotNumber => "failed to parse value as number"@,
    }
}

impl FilterError {
    /// The message of this refusal.
    pub fn message(&self) -> (text: String)
        ensures
            text@ == error_text(*self),
    {
        match self {
            FilterError::ValueNotString => String::from_str("failed to parse value as string"),
            FilterError::ValueNotInteger => String::from_str("failed to parse value as string"),
            FilterError::HashTooShort => String::from_str("hash is too short to format"),
            FilterError::TimestampOutOfRange => String::from_str(
                "failed to create datetime from timestamp",
            ),
            FilterError::UnsupportedNumberType => String::from_str("unsupported number type"),
            FilterError::ValueNotNumber => String::from_str("failed to parse value as number"),
        }
    }
}

/// The filter `format_hash`: a long hash shortened to its first and last
/// eight bytes.
pub struct FormatHashFilter;

/// The text of the hash with UTF-8 encoding `bytes` (at least 16 bytes long):
/// its first eight bytes, `...`, its last eight bytes.
pub open spec fn abbreviated_hash(bytes: Seq<u8>) -> Seq<char> {
    decode_utf8(bytes.subrange(0, 8)) + seq!['.', '.', '.'] + decode_utf8(
        bytes.subrange(bytes.len() - 8, bytes.len() as int),
    )
}

/// Whether shortening `hash` cuts it between characters: the byte offsets 8
/// and `len - 8` start characters (slicing a `str` elsewhere panics). Its
/// byte length fits in `usize`, as that of every string in memory does.
pub open spec fn cuts_at_char_boundaries(hash: &str) -> bool {
    &&& hash.spec_bytes().len() <= usize::MAX
    &&& hash.spec_bytes().len() >= 16 ==> {
        &&& is_char_boundary(hash.spec_bytes(), 8)
        &&& is_char_boundary(hash.spec_bytes(), hash.spec_bytes().len() - 8)
    }
}

impl FormatHashFilter {
    /// Shortens a hash for display: `None` (a value that is no string) is
    /// refused, so is a string shorter than 16 bytes; any other string gives
    /// its first eight bytes, `...`, and its last eight bytes.
    pub fn filter(&self, value: Option<&str>) -> (result: Result<String, FilterError>)
        requires
            value matches Some(hash) ==> cuts_at_char_boundaries(hash),
        ensures
            match value {
                None => result == Err::<String, FilterError>(FilterError::ValueNotString),
                Some(hash) => if hash.spec_bytes().len() < 16 {
                    result == Err::<String, FilterError>(FilterError::HashTooShort)
                } else {
                    result matches Ok(text) && text@ == abbreviated_hash(hash.spec_bytes())
                },
            },
    {
        let hash = match value {
            None => return Err(FilterError::ValueNotString),
            Some(hash) => hash,
        };
        let len = hash.len();
        if len < 16 {
            return Err(FilterError::HashTooShort);
        }
        let (start, _) = hash.split_at(8);
        let (_, end) = hash.split_at(len - 8);
        let mut text = String::from_str(start);
        text.append("...");
        text.append(end);
        proof {
            reveal_strlit("...");
            assert(start@ == decode_utf8(start.spec_bytes()));
            assert(end@ == decode_utf8(end.spec_bytes()));
        }
        Ok(text)
    }
}

/// The filter `format_time`: a UNIX timestamp as a UTC date and time.
pub struct FormatTimeFilter;

impl FormatTimeFilter {
    /// Writes a UNIX timestamp as `YYYY-MM-DD hh:mm:ss` in UTC. `None` (a
    /// value that is no integer) is refused, so is a timestamp for which
    /// `chrono` has no date.
    pub fn filter(&self, value: Option<i64>) -> (result: Result<String, FilterError>)
        ensures
            match value {
                None => result == Err::<String, FilterError>(FilterError::ValueNotInteger),
                Some(secs) => if has_calendar_time(secs as int) {
                    &&& result matches Ok(text) && text@ == date_time_text(
                        calendar_time_of(secs as int),
                    )
                    &&& is_time_of(calendar_time_of(secs as int), secs as int)
                } else {
                    result == Err::<String, FilterError>(FilterError::TimestampOutOfRange)
                },
            },
            value matches Some(secs) && -8_000_000_000_000 <= secs <= 8_000_000_000_000
                ==> result is Ok,
    {
        let secs = match value {
            None => return Err(FilterError::ValueNotInteger),
            Some(secs) => secs,
        };
        match timestamp_text(secs) {
            None => Err(FilterError::TimestampOutOfRange),
            Some(text) => Ok(text),
        }
    }
}

/// The filter `format_number`: numbers with thousands separators.
pub struct FormatNumberFilter;

/// What `format_number` reads of its template value.
#[derive(Clone, Copy, Debug, PartialEq, Eq, Structural)]
pub enum TemplateNumber {
    /// A number that fits an `i64`.
    Integer(i64),
    /// A number held as a float.
    Float,
    /// Any other number: an integer above `i64::MAX`.
    OtherNumber,
    /// A value that is no number.
    NotANumber,
}

/// What `format_number` gives for a number it accepts.
#[derive(Debug, PartialEq, Eq)]
pub enum NumberText {
    /// The text of an integer, with thousands separators.
    Grouped(String),
    /// A float, to be written with the `rounded` places asked for.
    WriteFloat,
}

impl FormatNumberFilter {
    /// Chooses what `format_number` does with its value: an integer is written
    /// with `format_int`; a float goes to the float branch; any other number
    /// is refused as unsupported, and a value that is no number as such.
    pub fn filter(&self, value: TemplateNumber) -> (result: Result<NumberText, FilterError>)
        ensures
            match value {
                TemplateNumber::Integer(v) => result matches Ok(NumberText::Grouped(text)) && text@
                    == group_thousands(int_text(v as int)),
                TemplateNumber::Float => result matches Ok(NumberText::WriteFloat),
                TemplateNumber::OtherNumber => result matches Err(
                    FilterError::UnsupportedNumberType,
                ),
                TemplateNumber::NotANumber => result matches Err(FilterError::ValueNotNumber),
            },
    {
        match value {
            TemplateNumber::Integer(v) => Ok(NumberText::Grouped(format_int(v))),
            TemplateNumber::Float => Ok(NumberText::WriteFloat),
            TemplateNumber::OtherNumber => Err(FilterError::UnsupportedNumberType),
            TemplateNumber::NotANumber => Err(FilterError::ValueNotNumber),
        }
    }

    /// The number of decimal places the filter's `rounded` argument asks for:
    /// none without the argument (`None`) or when it is no integer
    /// (`Some(None)`); an integer is taken `as usize`, so a negative one wraps.
    pub fn rounded_places(argument: Option<Option<i64>>) -> (places: usize)
        ensures
            places == match argument {
                Some(Some(v)) => v as usize,
                _ => 0usize,
            },
    {
        match argument {
            Some(Some(v)) => v as usize,
            _ => 0,
        }
    }
}

proof fn lemma_encode_utf8_append(a: Seq<char>, b: Seq<char>)
    ensures
        encode_utf8(a + b) == encode_utf8(a) + encode_utf8(b),
    decreases a.len(),
{
    if a.len() == 0 {
        assert(a + b =~= b);
        assert(encode_utf8(a) + encode_utf8(b) =~= encode_utf8(b));
    } else {
        assert((a + b).drop_first() =~= a.drop_first() + b);
        lemma_encode_utf8_append(a.drop_first(), b);
        assert((a + b)[0] == a[0]);
        assert(encode_utf8(a + b) =~= encode_utf8(a) + encode_utf8(b));
    }
}

/// Law: the shortened hash, written in UTF-8, is the first eight bytes of the
/// hash, three dots, and the last eight bytes of the hash; 19 bytes in all.
pub proof fn lemma_abbreviated_hash_bytes(hash: &str)
    requires
        hash.spec_bytes().len() >= 16,
        cuts_at_char_boundaries(hash),
    ensures
        encode_utf8(abbreviated_hash(hash.spec_bytes())) == hash.spec_bytes().subrange(0, 8)
            + seq![46u8, 46u8, 46u8] + hash.spec_bytes().subrange(
            hash.spec_bytes().len() - 8,
            hash.spec_bytes().len() as int,
        ),
        encode_utf8(abbreviated_hash(hash.spec_bytes())).len() == 19,
{
    broadcast use {vstd::utf8::valid_utf8_split, vstd::utf8::decode_utf8_encode_utf8};

    let bytes = hash.spec_bytes();
    let head = bytes.subrange(0, 8);
    let tail = bytes.subrange(bytes.len() - 8, bytes.len() as int);
    assert(valid_utf8(bytes));
    assert(valid_utf8(head));
    assert(valid_utf8(tail));
    let dots = seq!['.', '.', '.'];
    assert(encode_utf8(dots) =~= seq![46u8, 46u8, 46u8]) by {
        reveal_with_fuel(encode_utf8, 4);
        assert(('.' as u32) == 46u32);
        assert((46u32 & 0x7Fu32) as u8 == 46u8) by (bit_vector);
        assert(encode_scalar('.' as u32) =~= seq![46u8]);
        assert(dots.drop_first().drop_first().drop_first() =~= Seq::<char>::empty());
    }
    lemma_encode_utf8_append(decode_utf8(head) + dots, decode_utf8(tail));
    lemma_encode_utf8_append(decode_utf8(head), dots);
}

} // verus!
