//! The bencoding decoder: a hand-written recursive-descent parser over raw
//! bytes, with no backtracking.
//!
//! Bencoding supports four kinds of values: integers (`i42e`), byte strings
//! (`4:spam`), lists (`l...e`) and dictionaries (`d...e`). The decoder is
//! specified against a spec-level parser over byte sequences ([`spec_parse`])
//! and the executable entry point [`Bencoding::parse`] is proved to return
//! exactly what the spec-level parser describes, both on success and on
//! failure.

use vstd::arithmetic::div_mod::{
    lemma_add_mod_noop, lemma_fundamental_div_mod, lemma_fundamental_div_mod_converse_mod,
    lemma_mod_bound, lemma_mod_sub_multiples_vanish, lemma_mod_twice, lemma_mul_mod_noop_left,
};
use vstd::prelude::*;
use vstd::slice::{slice_subrange, slice_to_vec};
use vstd::wrapping::i64_specs;

verus! {

/// Represents an error that occurs while parsing bencoded data.
///
/// Every byte-level expectation failure of the decoder is reported as one of
/// these typed values; malformed input never causes a panic.
#[derive(Clone, Copy, Debug, PartialEq, Eq, Structural)]
pub enum BencodingError {
    /// The input ended where more bytes were needed.
    UnexpectedEnd,
    /// A digit was required (for an integer or a byte-string length) but the
    /// next byte is not an ASCII digit.
    InvalidDigit,
    /// A specific delimiter byte was required but another byte was found.
    Mismatch { expected: u8, found: u8 },
    /// A byte-string declared more bytes than the input still holds.
    ///
    /// `requested` reports the declared count, saturated to `usize::MAX`
    /// when the declared count does not fit in a `usize`.
    InsufficientBytes { requested: usize },
    /// The lead byte of a value is none of `i`, `l`, `d` or an ASCII digit.
    UnknownByte(u8),
}

/// Represents a general data structure expressable with "bencoding".
///
/// Bencoding has similar features to JSON, notably strings, integers,
/// lists/arrays, and key/value maps. This enum represents the raw data
/// structure of a bencoded file. We usually want to then inspect this general
/// structure in order to extract a more specific structure, such as
/// information about a torrent.
#[derive(Debug, PartialEq, Eq)]
pub enum Bencoding {
    /// Represents an integer.
    ///
    /// Bencoding allows for negative integers, and we need to be able to
    /// represent the sizes of large files: this means using `i64`.
    Int(i64),
    /// Represents a sequence of bytes.
    ///
    /// Bencoding does not impose any character encoding on strings; torrent
    /// files routinely hold byte strings that are not valid UTF-8, such as
    /// SHA-1 hashes.
    ByteString(Vec<u8>),
    /// Represents an ordered sequence of bencoded elements.
    List(Vec<Bencoding>),
    /// Represents a mapping from byte sequences to bencoded elements.
    ///
    /// The entries are kept in insertion order and the parser keeps the keys
    /// unique: when the same key appears twice in the input, the last value
    /// wins, in place.
    Dict(Vec<(Vec<u8>, Bencoding)>),
}

/// The mathematical model of a [`Bencoding`] tree: the same shape over
/// `Seq` instead of `Vec`.
#[verifier::ext_equal]
pub enum BencodingSpec {
    Int(i64),
    ByteString(Seq<u8>),
    List(Seq<BencodingSpec>),
    Dict(Seq<(Seq<u8>, BencodingSpec)>),
}

/// The model of one tree, structurally recursive.
pub open spec fn model_of(b: Bencoding) -> BencodingSpec
    decreases b,
    via model_of_decreases
{
    match b {
        Bencoding::Int(i) => BencodingSpec::Int(i),
        Bencoding::ByteString(bytes) => BencodingSpec::ByteString(bytes@),
        Bencoding::List(items) => BencodingSpec::List(models_of(items@)),
        Bencoding::Dict(entries) => BencodingSpec::Dict(entry_models_of(entries@)),
    }
}

/// The model of a sequence of trees, elementwise.
pub open spec fn models_of(items: Seq<Bencoding>) -> Seq<BencodingSpec>
    decreases items,
{
    if items.len() == 0 {
        Seq::empty()
    } else {
        models_of(items.subrange(0, items.len() - 1)).push(model_of(items[items.len() - 1]))
    }
}

/// The model of a sequence of dictionary entries, elementwise.
pub open spec fn entry_models_of(entries: Seq<(Vec<u8>, Bencoding)>) -> Seq<
    (Seq<u8>, BencodingSpec),
>
    decreases entries,
{
    if entries.len() == 0 {
        Seq::empty()
    } else {
        entry_models_of(entries.subrange(0, entries.len() - 1)).push(
            (entries[entries.len() - 1].0@, model_of(entries[entries.len() - 1].1)),
        )
    }
}

#[via_fn]
proof fn model_of_decreases(b: Bencoding) {
    match b {
        Bencoding::List(items) => {
            assert(decreases_to!(b => items));
            assert(decreases_to!(items => items@));
        },
        Bencoding::Dict(entries) => {
            assert(decreases_to!(b => entries));
            assert(decreases_to!(entries => entries@));
        },
        _ => {},
    }
}

impl View for Bencoding {
    type V = BencodingSpec;

    open spec fn view(&self) -> BencodingSpec {
        model_of(*self)
    }
}

/// The elementwise reading of [`models_of`] and [`entry_models_of`].
pub proof fn lemma_models_of(items: Seq<Bencoding>)
    ensures
        models_of(items).len() == items.len(),
        forall|i: int| 0 <= i < items.len() ==> #[trigger] models_of(items)[i] == items[i]@,
    decreases items.len(),
{
    if items.len() > 0 {
        let prefix = items.subrange(0, items.len() - 1);
        lemma_models_of(prefix);
        assert forall|i: int| 0 <= i < items.len() implies #[trigger] models_of(items)[i]
            == items[i]@ by {
            if i < items.len() - 1 {
                assert(prefix[i] == items[i]);
                assert(models_of(items)[i] == models_of(prefix)[i]);
            }
        }
    }
}

/// The elementwise reading of [`entry_models_of`].
pub proof fn lemma_entry_models_of(entries: Seq<(Vec<u8>, Bencoding)>)
    ensures
        entry_models_of(entries).len() == entries.len(),
        forall|i: int| 0 <= i < entries.len() ==> #[trigger] entry_models_of(entries)[i] == (
        entries[i].0@,
        entries[i].1@,
        ),
    decreases entries.len(),
{
    if entries.len() > 0 {
        let prefix = entries.subrange(0, entries.len() - 1);
        lemma_entry_models_of(prefix);
        assert forall|i: int| 0 <= i < entries.len() implies #[trigger] entry_models_of(
            entries,
        )[i] == (entries[i].0@, entries[i].1@) by {
            if i < entries.len() - 1 {
                assert(prefix[i] == entries[i]);
                assert(entry_models_of(entries)[i] == entry_models_of(prefix)[i]);
            }
        }
    }
}

/// A type synonym for the result of parsing bencoded data.
pub type BencodingResult = Result<Bencoding, BencodingError>;

/// ASCII `'0'`, the least digit.
pub const DIGIT_LO: u8 = 48;

/// ASCII `'9'`, the greatest digit.
pub const DIGIT_HI: u8 = 57;

/// ASCII `'-'`, the sign of a negative integer.
pub const MINUS: u8 = 45;

/// ASCII `':'`, the delimiter between a byte-string length and its bytes.
pub const COLON: u8 = 58;

/// ASCII `'e'`, the terminator of integers, lists and dictionaries.
pub const END: u8 = 101;

/// ASCII `'i'`, the lead byte of an integer.
pub const INT_LEAD: u8 = 105;

/// ASCII `'l'`, the lead byte of a list.
pub const LIST_LEAD: u8 = 108;

/// ASCII `'d'`, the lead byte of a dictionary.
pub const DICT_LEAD: u8 = 100;

/// True of the ASCII digits `'0'` through `'9'`.
pub open spec fn is_ascii_digit(byte: u8) -> bool {
    DIGIT_LO <= byte <= DIGIT_HI
}

/// Check that an ASCII character is between '0' and '9', and give its value.
pub fn as_digit(chr: u8) -> (r: Option<i64>)
    ensures
        r matches Some(d) ==> is_ascii_digit(chr) && d == chr - 48,
        r is Some <==> is_ascii_digit(chr),
{
    if DIGIT_LO <= chr && chr <= DIGIT_HI {
        Some(chr as i64 - 48)
    } else {
        None
    }
}

/// The first position at or after `pos` that does not hold an ASCII digit
/// (or the end of the input).
pub open spec fn digits_end(s: Seq<u8>, pos: int) -> int
    decreases s.len() - pos,
{
    if pos < s.len() && is_ascii_digit(s[pos]) {
        digits_end(s, pos + 1)
    } else {
        pos
    }
}

/// The decimal value of a run of ASCII digits.
pub open spec fn dec_value(digits: Seq<u8>) -> int
    decreases digits.len(),
{
    if digits.len() <= 0 {
        0
    } else {
        dec_value(digits.drop_last()) * 10 + (digits.last() - 48)
    }
}

proof fn lemma_digits_end_bounds(s: Seq<u8>, pos: int)
    requires
        0 <= pos <= s.len(),
    ensures
        pos <= digits_end(s, pos) <= s.len(),
        forall|j: int| pos <= j < digits_end(s, pos) ==> is_ascii_digit(s[j]),
        digits_end(s, pos) < s.len() ==> !is_ascii_digit(s[digits_end(s, pos)]),
    decreases s.len() - pos,
{
    if pos < s.len() && is_ascii_digit(s[pos]) {
        lemma_digits_end_bounds(s, pos + 1);
    }
}

/// A mathematical count clamped to the range of `usize`, for error reports.
pub open spec fn saturate_usize(n: int) -> usize {
    if n > usize::MAX {
        usize::MAX
    } else if n < 0 {
        0
    } else {
        n as usize
    }
}

/// The spec-level reading of a digit run: the position of its end and its
/// value folded into an `i64` with wraparound, exactly as the executable
/// decoder accumulates it.
pub open spec fn spec_digits(s: Seq<u8>, pos: int) -> Result<(i64, int), BencodingError> {
    if pos >= s.len() {
        Err(BencodingError::UnexpectedEnd)
    } else if !is_ascii_digit(s[pos]) {
        Err(BencodingError::InvalidDigit)
    } else {
        let end = digits_end(s, pos);
        Ok((i64_specs::signed_crop(dec_value(s.subrange(pos, end))), end))
    }
}

/// The integer production: an optional `-`, a digit run, then `e`.
///
/// `pos` is the position just after the lead byte `i`. Digit runs too long
/// for an `i64` fold with wraparound; leading zeros are accepted.
pub open spec fn spec_int(s: Seq<u8>, pos: int) -> Result<(i64, int), BencodingError> {
    let negate = pos < s.len() && s[pos] == MINUS;
    let dpos = if negate {
        pos + 1
    } else {
        pos
    };
    match spec_digits(s, dpos) {
        Err(e) => Err(e),
        Ok((m, end)) => {
            let value = if negate {
                i64_specs::signed_crop(-(m as int))
            } else {
                m
            };
            if end >= s.len() {
                Err(BencodingError::UnexpectedEnd)
            } else if s[end] != END {
                Err(BencodingError::Mismatch { expected: END, found: s[end] })
            } else {
                Ok((value, end + 1))
            }
        },
    }
}

/// The byte-string production: a digit run giving the exact byte count, a
/// `:`, then that many bytes taken verbatim.
///
/// `pos` is the position of the first digit. When fewer bytes remain than
/// the run requests, the production fails with [`BencodingError::InsufficientBytes`].
pub open spec fn spec_bytestring(s: Seq<u8>, pos: int) -> Result<(Seq<u8>, int), BencodingError> {
    match spec_digits(s, pos) {
        Err(e) => Err(e),
        Ok((_, dend)) => {
            let count = dec_value(s.subrange(pos, dend));
            if dend >= s.len() {
                Err(BencodingError::UnexpectedEnd)
            } else if s[dend] != COLON {
                Err(BencodingError::Mismatch { expected: COLON, found: s[dend] })
            } else if dend + 1 + count > s.len() {
                Err(BencodingError::InsufficientBytes { requested: saturate_usize(count) })
            } else {
                Ok((s.subrange(dend + 1, dend + 1 + count), dend + 1 + count))
            }
        },
    }
}

/// The position of the first entry holding `key`, or the number of entries
/// when no entry holds it.
pub open spec fn key_index(entries: Seq<(Seq<u8>, BencodingSpec)>, key: Seq<u8>) -> int
    decreases entries.len(),
{
    if entries.len() == 0 {
        0
    } else if entries[0].0 == key {
        0
    } else {
        1 + key_index(entries.subrange(1, entries.len() as int), key)
    }
}

/// Map-style insertion into a dictionary: a repeated key overwrites the
/// value in place, a new key is appended.
pub open spec fn dict_insert(
    entries: Seq<(Seq<u8>, BencodingSpec)>,
    key: Seq<u8>,
    value: BencodingSpec,
) -> Seq<(Seq<u8>, BencodingSpec)> {
    let i = key_index(entries, key);
    if i < entries.len() {
        entries.update(i, (key, value))
    } else {
        entries.push((key, value))
    }
}

/// The body of a list after its lead byte: values until the terminator `e`.
///
/// Before each element the next byte is peeked; only a byte other than `e`
/// starts an element, and a failure inside that element is fatal. `acc`
/// holds the elements already parsed. The inner bounds test is always true
/// (a value production advances, see [`lemma_spec_parse_advances`]); it
/// satisfies the termination checker.
pub open spec fn spec_list_items(s: Seq<u8>, pos: int, acc: Seq<BencodingSpec>) -> Result<
    (Seq<BencodingSpec>, int),
    BencodingError,
>
    decreases s.len() - pos, 1int,
{
    if pos >= s.len() {
        Err(BencodingError::UnexpectedEnd)
    } else if s[pos] == END {
        Ok((acc, pos + 1))
    } else {
        match spec_parse(s, pos) {
            Err(e) => Err(e),
            Ok((v, end)) => {
                if pos < end <= s.len() {
                    spec_list_items(s, end, acc.push(v))
                } else {
                    Err(BencodingError::UnexpectedEnd)
                }
            },
        }
    }
}

/// The body of a dictionary after its lead byte: byte-string keys each
/// followed by a value, until the terminator `e`.
///
/// The same peek-first discipline as for lists; the last value written under
/// a repeated key wins. The inner bounds tests are always true (productions
/// advance); they satisfy the termination checker.
pub open spec fn spec_dict_items(
    s: Seq<u8>,
    pos: int,
    acc: Seq<(Seq<u8>, BencodingSpec)>,
) -> Result<(Seq<(Seq<u8>, BencodingSpec)>, int), BencodingError>
    decreases s.len() - pos, 1int,
{
    if pos >= s.len() {
        Err(BencodingError::UnexpectedEnd)
    } else if s[pos] == END {
        Ok((acc, pos + 1))
    } else {
        match spec_bytestring(s, pos) {
            Err(e) => Err(e),
            Ok((key, kend)) => {
                if pos < kend <= s.len() {
                    match spec_parse(s, kend) {
                        Err(e) => Err(e),
                        Ok((v, vend)) => {
                            if kend < vend <= s.len() {
                                spec_dict_items(s, vend, dict_insert(acc, key, v))
                            } else {
                                Err(BencodingError::UnexpectedEnd)
                            }
                        },
                    }
                } else {
                    Err(BencodingError::UnexpectedEnd)
                }
            },
        }
    }
}

/// The spec-level parser: one bencoded value read at `pos`, with the
/// position just after it.
///
/// Dispatch is on the lead byte: `i` starts an integer, `l` a list, `d` a
/// dictionary, a digit a byte-string; any other byte (or the end of the
/// input) is an error. Bytes after the returned position are not inspected.
pub open spec fn spec_parse(s: Seq<u8>, pos: int) -> Result<(BencodingSpec, int), BencodingError>
    decreases s.len() - pos, 0int,
{
    if pos >= s.len() {
        Err(BencodingError::UnexpectedEnd)
    } else if s[pos] == INT_LEAD {
        match spec_int(s, pos + 1) {
            Err(e) => Err(e),
            Ok((v, end)) => Ok((BencodingSpec::Int(v), end)),
        }
    } else if s[pos] == LIST_LEAD {
        match spec_list_items(s, pos + 1, Seq::empty()) {
            Err(e) => Err(e),
            Ok((items, end)) => Ok((BencodingSpec::List(items), end)),
        }
    } else if s[pos] == DICT_LEAD {
        match spec_dict_items(s, pos + 1, Seq::empty()) {
            Err(e) => Err(e),
            Ok((entries, end)) => Ok((BencodingSpec::Dict(entries), end)),
        }
    } else if is_ascii_digit(s[pos]) {
        match spec_bytestring(s, pos) {
            Err(e) => Err(e),
            Ok((bytes, end)) => Ok((BencodingSpec::ByteString(bytes), end)),
        }
    } else {
        Err(BencodingError::UnknownByte(s[pos]))
    }
}

proof fn lemma_dec_value_nonneg(digits: Seq<u8>)
    requires
        forall|j: int| 0 <= j < digits.len() ==> is_ascii_digit(#[trigger] digits[j]),
    ensures
        dec_value(digits) >= 0,
    decreases digits.len(),
{
    if digits.len() > 0 {
        lemma_dec_value_nonneg(digits.drop_last());
    }
}

/// What a successful digit run guarantees: it starts at `pos`, ends at the
/// first non-digit, and its value is the wrapped decimal value of the run.
proof fn lemma_spec_digits(s: Seq<u8>, pos: int)
    requires
        0 <= pos,
    ensures
        spec_digits(s, pos) matches Ok((m, end)) ==> {
            &&& pos < end <= s.len()
            &&& end == digits_end(s, pos)
            &&& forall|j: int| pos <= j < end ==> is_ascii_digit(s[j])
            &&& (end < s.len() ==> !is_ascii_digit(s[end]))
            &&& dec_value(s.subrange(pos, end)) >= 0
        },
{
    if pos < s.len() && is_ascii_digit(s[pos]) {
        lemma_digits_end_bounds(s, pos);
        let end = digits_end(s, pos);
        assert(digits_end(s, pos) == digits_end(s, pos + 1));
        lemma_digits_end_bounds(s, pos + 1);
        let digits = s.subrange(pos, end);
        assert forall|j: int| 0 <= j < digits.len() implies is_ascii_digit(
            #[trigger] digits[j],
        ) by {
            assert(digits[j] == s[pos + j]);
        }
        lemma_dec_value_nonneg(digits);
    }
}

/// A successful value production consumes at least one byte and never runs
/// past the end of the input.
pub proof fn lemma_spec_parse_advances(s: Seq<u8>, pos: int)
    requires
        0 <= pos,
    ensures
        spec_parse(s, pos) matches Ok((v, end)) ==> pos < end <= s.len(),
    decreases s.len() - pos, 0int,
{
    if pos >= s.len() {
    } else if s[pos] == INT_LEAD {
        let negate = pos + 1 < s.len() && s[pos + 1] == MINUS;
        let dpos = if negate {
            pos + 2
        } else {
            pos + 1
        };
        lemma_spec_digits(s, dpos);
        match spec_int(s, pos + 1) {
            Ok((v, iend)) => {
                assert(pos < iend <= s.len());
            },
            _ => (),
        }
    } else if s[pos] == LIST_LEAD {
        lemma_spec_list_items_advances(s, pos + 1);
        match spec_list_items(s, pos + 1, Seq::empty()) {
            Ok((items, end)) => {
                assert(pos < end <= s.len());
            },
            _ => (),
        }
    } else if s[pos] == DICT_LEAD {
        lemma_spec_dict_items_advances(s, pos + 1);
        match spec_dict_items(s, pos + 1, Seq::empty()) {
            Ok((entries, end)) => {
                assert(pos < end <= s.len());
            },
            _ => (),
        }
    } else if is_ascii_digit(s[pos]) {
        lemma_spec_digits(s, pos);
    }
}

/// As [`lemma_spec_parse_advances`], for the body of a list.
pub proof fn lemma_spec_list_items_advances(s: Seq<u8>, pos: int)
    requires
        0 <= pos,
    ensures
        forall|acc: Seq<BencodingSpec>|
            #[trigger] spec_list_items(s, pos, acc) matches Ok((items, end)) ==> pos < end
                <= s.len(),
    decreases s.len() - pos, 1int,
{
    if pos < s.len() && s[pos] != END {
        lemma_spec_parse_advances(s, pos);
        match spec_parse(s, pos) {
            Ok((v, end)) => {
                lemma_spec_list_items_advances(s, end);
                assert(pos < end <= s.len());
                assert forall|acc: Seq<BencodingSpec>|
                    (#[trigger] spec_list_items(s, pos, acc) matches Ok((items, end2)) ==> pos
                    < end2 <= s.len()) by {
                    assert(spec_list_items(s, pos, acc) == spec_list_items(s, end, acc.push(v)));
                }
            },
            _ => (),
        }
    }
}

/// As [`lemma_spec_parse_advances`], for the body of a dictionary.
pub proof fn lemma_spec_dict_items_advances(s: Seq<u8>, pos: int)
    requires
        0 <= pos,
    ensures
        forall|acc: Seq<(Seq<u8>, BencodingSpec)>|
            #[trigger] spec_dict_items(s, pos, acc) matches Ok((entries, end)) ==> pos < end
                <= s.len(),
    decreases s.len() - pos, 1int,
{
    if pos < s.len() && s[pos] != END {
        lemma_spec_digits(s, pos);
        match spec_bytestring(s, pos) {
            Ok((key, kend)) => {
                if pos < kend <= s.len() {
                    lemma_spec_parse_advances(s, kend);
                    match spec_parse(s, kend) {
                        Ok((v, vend)) => {
                            if kend < vend <= s.len() {
                                lemma_spec_dict_items_advances(s, vend);
                                assert forall|acc: Seq<(Seq<u8>, BencodingSpec)>|
                                    (#[trigger] spec_dict_items(s, pos, acc) matches Ok(
                                        (entries, end2),
                                    ) ==> pos < end2 <= s.len()) by {
                                    assert(spec_dict_items(s, pos, acc) == spec_dict_items(
                                        s,
                                        vend,
                                        dict_insert(acc, key, v),
                                    ));
                                }
                            }
                        },
                        _ => (),
                    }
                }
            },
            _ => (),
        }
    }
}

/// The modulus of 64-bit wraparound.
pub open spec fn two_to_64() -> int {
    0x1_0000_0000_0000_0000
}

proof fn lemma_mod_small_range(x: int)
    requires
        -two_to_64() <= x < two_to_64(),
    ensures
        x % two_to_64() == if x >= 0 {
            x
        } else {
            x + two_to_64()
        },
{
    let r = two_to_64();
    if x >= 0 {
        lemma_fundamental_div_mod_converse_mod(x, r, 0, x);
    } else {
        lemma_fundamental_div_mod_converse_mod(x, r, -1, x + r);
    }
}

proof fn lemma_signed_crop_mod(x: int)
    ensures
        (i64_specs::signed_crop(x) as int) % two_to_64() == x % two_to_64(),
{
    let r = two_to_64();
    lemma_mod_bound(x, r);
    if x % r > i64::MAX as int {
        lemma_mod_sub_multiples_vanish(x % r, r);
        lemma_mod_twice(x, r);
    } else {
        lemma_mod_twice(x, r);
    }
}

proof fn lemma_wrapping_add_is_crop(x: i64, y: i64)
    ensures
        i64_specs::wrapping_add(x, y) == i64_specs::signed_crop(x as int + y as int),
{
    let r = two_to_64();
    let s = x as int + y as int;
    lemma_mod_small_range(s);
    if s > i64::MAX as int {
        lemma_mod_small_range(s - r);
    } else if s < i64::MIN as int {
        lemma_mod_small_range(s + r);
    }
}

proof fn lemma_wrapping_sub_zero(y: i64)
    ensures
        i64_specs::wrapping_sub(0i64, y) == i64_specs::signed_crop(-(y as int)),
{
    let s = -(y as int);
    lemma_mod_small_range(s);
}

/// One digit folded into a wrapped accumulator keeps the accumulator equal
/// to the wrapped value of the whole run.
proof fn lemma_fold_step(acc: i64, v: int, d: i64)
    requires
        acc == i64_specs::signed_crop(v),
        0 <= d <= 9,
    ensures
        i64_specs::wrapping_add(i64_specs::wrapping_mul(acc, 10), d) == i64_specs::signed_crop(
            v * 10 + d,
        ),
{
    let r = two_to_64();
    lemma_signed_crop_mod(v);
    lemma_mul_mod_noop_left(acc as int, 10, r);
    lemma_mul_mod_noop_left(v, 10, r);
    assert((acc as int * 10) % r == (v * 10) % r);
    let m = i64_specs::signed_crop(acc as int * 10);
    lemma_signed_crop_mod(acc as int * 10);
    lemma_wrapping_add_is_crop(m, d);
    lemma_add_mod_noop(m as int, d as int, r);
    lemma_add_mod_noop(v * 10, d as int, r);
    assert((m as int + d) % r == (v * 10 + d) % r);
}

/// A cursor over the input bytes: the not-yet-consumed part of the input
/// starts at `pos`.
struct Lexer<'a> {
    input: &'a [u8],
    pos: usize,
}

impl<'a> Lexer<'a> {
    /// The cursor never runs past the end of the input.
    spec fn wf(&self) -> bool {
        self.pos <= self.input@.len()
    }

    #[inline]
    fn new(input: &'a [u8]) -> (r: Self)
        ensures
            r.input@ == input@,
            r.pos == 0,
            r.wf(),
    {
        Lexer { input, pos: 0 }
    }

    #[inline]
    fn peek(&self) -> (r: Option<u8>)
        requires
            self.wf(),
        ensures
            r == if self.pos < self.input@.len() {
                Some(self.input@[self.pos as int])
            } else {
                None::<u8>
            },
    {
        if self.pos < self.input.len() {
            Some(self.input[self.pos])
        } else {
            None
        }
    }

    #[inline]
    fn next(&mut self) -> (r: Option<u8>)
        requires
            old(self).wf(),
        ensures
            final(self).wf(),
            final(self).input@ == old(self).input@,
            old(self).pos < old(self).input@.len() ==> {
                &&& final(self).pos == old(self).pos + 1
                &&& r == Some(old(self).input@[old(self).pos as int])
            },
            old(self).pos >= old(self).input@.len() ==> final(self).pos == old(self).pos
                && r is None,
    {
        if self.pos < self.input.len() {
            let b = self.input[self.pos];
            self.pos = self.pos + 1;
            Some(b)
        } else {
            None
        }
    }

    #[inline]
    fn take(&mut self, count: usize) -> (r: Option<&'a [u8]>)
        requires
            old(self).wf(),
        ensures
            final(self).wf(),
            final(self).input@ == old(self).input@,
            match r {
                Some(slice) => {
                    &&& old(self).pos + count <= old(self).input@.len()
                    &&& final(self).pos == old(self).pos + count
                    &&& slice@ == old(self).input@.subrange(
                        old(self).pos as int,
                        old(self).pos + count,
                    )
                },
                None => {
                    &&& old(self).pos + count > old(self).input@.len()
                    &&& final(self).pos == old(self).pos
                },
            },
    {
        if count > self.input.len() - self.pos {
            None
        } else {
            let slice = slice_subrange(self.input, self.pos, self.pos + count);
            self.pos = self.pos + count;
            Some(slice)
        }
    }

    #[inline]
    fn expect(&mut self, target: u8) -> (r: Result<(), BencodingError>)
        requires
            old(self).wf(),
        ensures
            final(self).wf(),
            final(self).input@ == old(self).input@,
            match r {
                Ok(()) => {
                    &&& old(self).pos < old(self).input@.len()
                    &&& old(self).input@[old(self).pos as int] == target
                    &&& final(self).pos == old(self).pos + 1
                },
                Err(e) => {
                    &&& final(self).pos == old(self).pos
                    &&& e == if old(self).pos < old(self).input@.len() {
                        BencodingError::Mismatch {
                            expected: target,
                            found: old(self).input@[old(self).pos as int],
                        }
                    } else {
                        BencodingError::UnexpectedEnd
                    }
                    &&& old(self).pos < old(self).input@.len() ==> old(self).input@[old(
                        self,
                    ).pos as int] != target
                },
            },
    {
        match self.peek() {
            Some(good) => {
                if good == target {
                    self.next();
                    Ok(())
                } else {
                    Err(BencodingError::Mismatch { expected: target, found: good })
                }
            },
            None => Err(BencodingError::UnexpectedEnd),
        }
    }
}

/// A digit run folded into an `i64` with wraparound, for the integer
/// production.
fn int_digits(lexer: &mut Lexer<'_>) -> (r: Result<i64, BencodingError>)
    requires
        old(lexer).wf(),
    ensures
        final(lexer).wf(),
        final(lexer).input@ == old(lexer).input@,
        match r {
            Ok(acc) => {
                &&& spec_digits(old(lexer).input@, old(lexer).pos as int) == Ok::<
                    _,
                    BencodingError,
                >((acc, final(lexer).pos as int))
                &&& old(lexer).pos < final(lexer).pos <= old(lexer).input@.len()
            },
            Err(e) => {
                &&& spec_digits(old(lexer).input@, old(lexer).pos as int) == Err::<(i64, int), _>(
                    e,
                )
                &&& final(lexer).pos == old(lexer).pos
            },
        },
{
    let ghost s = lexer.input@;
    let ghost start = lexer.pos as int;
    let head = match lexer.peek() {
        None => {
            return Err(BencodingError::UnexpectedEnd);
        },
        Some(b) => b,
    };
    let mut acc: i64 = match as_digit(head) {
        None => {
            return Err(BencodingError::InvalidDigit);
        },
        Some(d) => d,
    };
    lexer.next();
    proof {
        lemma_mod_small_range(acc as int);
        assert(s.subrange(start, start + 1).drop_last() =~= Seq::<u8>::empty());
        assert(s.subrange(start, start + 1).last() == s[start]);
        assert(dec_value(Seq::<u8>::empty()) == 0);
        assert(dec_value(s.subrange(start, start + 1)) == acc as int);
        lemma_digits_end_bounds(s, start + 1);
    }
    loop
        invariant_except_break
            lexer.wf(),
            lexer.input@ == s,
            0 <= start,
            start < lexer.pos <= s.len(),
            is_ascii_digit(s[start]),
            digits_end(s, start) == digits_end(s, lexer.pos as int),
            forall|j: int| start <= j < lexer.pos ==> is_ascii_digit(s[j]),
            acc == i64_specs::signed_crop(dec_value(s.subrange(start, lexer.pos as int))),
        ensures
            lexer.wf(),
            lexer.input@ == s,
            0 <= start,
            start < lexer.pos <= s.len(),
            lexer.pos as int == digits_end(s, start),
            acc == i64_specs::signed_crop(dec_value(s.subrange(start, lexer.pos as int))),
        decreases s.len() - lexer.pos,
    {
        let chr = match lexer.peek() {
            None => {
                break ;
            },
            Some(c) => c,
        };
        let d = match as_digit(chr) {
            None => {
                break ;
            },
            Some(d) => d,
        };
        let ghost pos = lexer.pos as int;
        proof {
            lemma_fold_step(acc, dec_value(s.subrange(start, pos)), d);
            assert(s.subrange(start, pos + 1).drop_last() =~= s.subrange(start, pos));
            assert(s.subrange(start, pos + 1).last() == s[pos]);
            lemma_digits_end_bounds(s, pos + 1);
        }
        acc = acc.wrapping_mul(10).wrapping_add(d);
        lexer.next();
    }
    proof {
        lemma_digits_end_bounds(s, start);
    }
    Ok(acc)
}

/// A digit run read as a byte count, saturating at `usize::MAX`, for the
/// byte-string production.
fn length_digits(lexer: &mut Lexer<'_>) -> (r: Result<usize, BencodingError>)
    requires
        old(lexer).wf(),
    ensures
        final(lexer).wf(),
        final(lexer).input@ == old(lexer).input@,
        match r {
            Ok(count) => {
                &&& old(lexer).pos < old(lexer).input@.len()
                &&& is_ascii_digit(old(lexer).input@[old(lexer).pos as int])
                &&& final(lexer).pos as int == digits_end(old(lexer).input@, old(lexer).pos as int)
                &&& count == saturate_usize(
                    dec_value(
                        old(lexer).input@.subrange(
                            old(lexer).pos as int,
                            digits_end(old(lexer).input@, old(lexer).pos as int),
                        ),
                    ),
                )
                &&& 0 <= dec_value(
                    old(lexer).input@.subrange(
                        old(lexer).pos as int,
                        digits_end(old(lexer).input@, old(lexer).pos as int),
                    ),
                )
                &&& old(lexer).pos < final(lexer).pos
            },
            Err(e) => {
                &&& spec_digits(old(lexer).input@, old(lexer).pos as int) == Err::<(i64, int), _>(
                    e,
                )
                &&& final(lexer).pos == old(lexer).pos
            },
        },
{
    let ghost s = lexer.input@;
    let ghost start = lexer.pos as int;
    let head = match lexer.peek() {
        None => {
            return Err(BencodingError::UnexpectedEnd);
        },
        Some(b) => b,
    };
    if head < DIGIT_LO || DIGIT_HI < head {
        return Err(BencodingError::InvalidDigit);
    }
    let mut acc: usize = (head - DIGIT_LO) as usize;
    let mut sat: bool = false;
    lexer.next();
    proof {
        assert(s.subrange(start, start + 1).drop_last() =~= Seq::<u8>::empty());
        assert(s.subrange(start, start + 1).last() == s[start]);
        assert(dec_value(Seq::<u8>::empty()) == 0);
        assert(dec_value(s.subrange(start, start + 1)) == acc as int);
        lemma_digits_end_bounds(s, start + 1);
    }
    loop
        invariant_except_break
            lexer.wf(),
            lexer.input@ == s,
            0 <= start,
            start < lexer.pos <= s.len(),
            is_ascii_digit(s[start]),
            digits_end(s, start) == digits_end(s, lexer.pos as int),
            forall|j: int| start <= j < lexer.pos ==> is_ascii_digit(s[j]),
            !sat ==> acc as int == dec_value(s.subrange(start, lexer.pos as int)),
            sat ==> acc == usize::MAX && dec_value(s.subrange(start, lexer.pos as int))
                > usize::MAX,
        ensures
            lexer.wf(),
            lexer.input@ == s,
            0 <= start,
            start < lexer.pos <= s.len(),
            lexer.pos as int == digits_end(s, start),
            acc as int == saturate_usize(dec_value(s.subrange(start, lexer.pos as int))) as int,
            0 <= dec_value(s.subrange(start, lexer.pos as int)),
        decreases s.len() - lexer.pos,
    {
        let chr = match lexer.peek() {
            None => {
                break ;
            },
            Some(c) => c,
        };
        if chr < DIGIT_LO || DIGIT_HI < chr {
            break ;
        }
        let d = (chr - DIGIT_LO) as usize;
        let ghost pos = lexer.pos as int;
        let ghost v = dec_value(s.subrange(start, pos));
        proof {
            assert(s.subrange(start, pos + 1).drop_last() =~= s.subrange(start, pos));
            assert(s.subrange(start, pos + 1).last() == s[pos]);
            assert(dec_value(s.subrange(start, pos + 1)) == v * 10 + d);
            lemma_digits_end_bounds(s, pos + 1);
        }
        if sat {
        } else if acc > (usize::MAX - d) / 10 {
            proof {
                lemma_fundamental_div_mod(usize::MAX - d, 10);
            }
            sat = true;
            acc = usize::MAX;
        } else {
            proof {
                lemma_fundamental_div_mod(usize::MAX - d, 10);
            }
            acc = acc * 10 + d;
        }
        lexer.next();
    }
    proof {
        lemma_digits_end_bounds(s, start);
    }
    Ok(acc)
}

/// The executable byte-string production, proved to match
/// [`spec_bytestring`].
fn bytestring(lexer: &mut Lexer<'_>) -> (r: Result<Vec<u8>, BencodingError>)
    requires
        old(lexer).wf(),
    ensures
        final(lexer).wf(),
        final(lexer).input@ == old(lexer).input@,
        match r {
            Ok(bytes) => {
                &&& spec_bytestring(old(lexer).input@, old(lexer).pos as int) == Ok::<
                    _,
                    BencodingError,
                >((bytes@, final(lexer).pos as int))
                &&& old(lexer).pos < final(lexer).pos <= old(lexer).input@.len()
            },
            Err(e) => spec_bytestring(old(lexer).input@, old(lexer).pos as int) == Err::<
                (Seq<u8>, int),
                _,
            >(e),
        },
{
    let ghost s = lexer.input@;
    let ghost start = lexer.pos as int;
    let count = match length_digits(lexer) {
        Ok(c) => c,
        Err(e) => {
            return Err(e);
        },
    };
    let ghost dend = digits_end(s, start);
    let ghost v = dec_value(s.subrange(start, dend));
    match lexer.expect(COLON) {
        Ok(()) => (),
        Err(e) => {
            return Err(e);
        },
    }
    let n = lexer.input.len();
    proof {
        assert(s.len() == n as int);
        if v > usize::MAX {
            assert(dend + 1 + count > s.len());
            assert(dend + 1 + v > s.len());
        }
    }
    match lexer.take(count) {
        Some(slice) => {
            proof {
                assert(v == count as int);
            }
            Ok(slice_to_vec(slice))
        },
        None => Err(BencodingError::InsufficientBytes { requested: count }),
    }
}

/// The executable integer production, proved to match [`spec_int`].
fn integer(lexer: &mut Lexer<'_>) -> (r: Result<i64, BencodingError>)
    requires
        old(lexer).wf(),
    ensures
        final(lexer).wf(),
        final(lexer).input@ == old(lexer).input@,
        match r {
            Ok(value) => {
                &&& spec_int(old(lexer).input@, old(lexer).pos as int) == Ok::<_, BencodingError>(
                    (value, final(lexer).pos as int),
                )
                &&& old(lexer).pos < final(lexer).pos <= old(lexer).input@.len()
            },
            Err(e) => spec_int(old(lexer).input@, old(lexer).pos as int) == Err::<(i64, int), _>(
                e,
            ),
        },
{
    let negate = match lexer.peek() {
        Some(c) => c == MINUS,
        None => false,
    };
    if negate {
        lexer.next();
    }
    let m = match int_digits(lexer) {
        Ok(v) => v,
        Err(e) => {
            return Err(e);
        },
    };
    match lexer.expect(END) {
        Ok(()) => (),
        Err(e) => {
            return Err(e);
        },
    }
    if negate {
        proof {
            lemma_wrapping_sub_zero(m);
        }
        Ok((0i64).wrapping_sub(m))
    } else {
        Ok(m)
    }
}

/// What [`key_index`] finds: the first matching entry, or the length when
/// no entry matches.
pub(crate) proof fn lemma_key_index(entries: Seq<(Seq<u8>, BencodingSpec)>, key: Seq<u8>)
    ensures
        0 <= key_index(entries, key) <= entries.len(),
        key_index(entries, key) < entries.len() ==> entries[key_index(entries, key)].0 == key,
        forall|j: int| 0 <= j < key_index(entries, key) ==> entries[j].0 != key,
        key_index(entries, key) == entries.len() ==> forall|j: int|
            0 <= j < entries.len() ==> entries[j].0 != key,
    decreases entries.len(),
{
    if entries.len() > 0 && entries[0].0 != key {
        let tail = entries.subrange(1, entries.len() as int);
        lemma_key_index(tail, key);
        let ki = key_index(entries, key);
        assert forall|j: int| 0 <= j < ki implies entries[j].0 != key by {
            if j > 0 {
                assert(entries[j] == tail[j - 1]);
            }
        }
        if ki == entries.len() {
            assert forall|j: int| 0 <= j < entries.len() implies entries[j].0 != key by {
                if j > 0 {
                    assert(entries[j] == tail[j - 1]);
                }
            }
        }
    }
}

/// Appending a tree appends its model.
proof fn lemma_models_push(items: Seq<Bencoding>, b: Bencoding)
    ensures
        models_of(items.push(b)) == models_of(items).push(b@),
{
    assert(items.push(b).subrange(0, items.len() as int) =~= items);
    assert(items.push(b).last() == b);
}

/// Appending an entry appends its model.
proof fn lemma_entry_models_push(entries: Seq<(Vec<u8>, Bencoding)>, pair: (Vec<u8>, Bencoding))
    ensures
        entry_models_of(entries.push(pair)) == entry_models_of(entries).push(
            (pair.0@, pair.1@),
        ),
{
    assert(entries.push(pair).subrange(0, entries.len() as int) =~= entries);
    assert(entries.push(pair).last() == pair);
}

/// Replacing an entry replaces its model.
proof fn lemma_entry_models_update(
    entries: Seq<(Vec<u8>, Bencoding)>,
    i: int,
    pair: (Vec<u8>, Bencoding),
)
    requires
        0 <= i < entries.len(),
    ensures
        entry_models_of(entries.update(i, pair)) == entry_models_of(entries).update(
            i,
            (pair.0@, pair.1@),
        ),
{
    lemma_entry_models_of(entries);
    lemma_entry_models_of(entries.update(i, pair));
    assert(entry_models_of(entries.update(i, pair)) =~= entry_models_of(entries).update(
        i,
        (pair.0@, pair.1@),
    ));
}

/// Byte-exact equality of two byte vectors.
pub(crate) fn bytes_eq(a: &Vec<u8>, b: &Vec<u8>) -> (r: bool)
    ensures
        r <==> a@ == b@,
{
    if a.len() != b.len() {
        return false;
    }
    let mut i: usize = 0;
    while i < a.len()
        invariant
            a@.len() == b@.len(),
            0 <= i <= a@.len(),
            forall|j: int| 0 <= j < i ==> a@[j] == b@[j],
        decreases a@.len() - i,
    {
        if a[i] != b[i] {
            return false;
        }
        i = i + 1;
    }
    proof {
        assert(a@ =~= b@);
    }
    true
}

/// Insert a key/value pair with map semantics: the first entry holding the
/// key is overwritten in place, a fresh key is appended.
fn insert_entry(entries: &mut Vec<(Vec<u8>, Bencoding)>, key: Vec<u8>, value: Bencoding)
    ensures
        entry_models_of(final(entries)@) == dict_insert(
            entry_models_of(old(entries)@),
            key@,
            value@,
        ),
{
    let mut i: usize = 0;
    while i < entries.len()
        invariant
            entries@ == old(entries)@,
            0 <= i <= entries@.len(),
            forall|j: int| 0 <= j < i ==> #[trigger] entries@[j].0@ != key@,
        decreases entries@.len() - i,
    {
        let entry_ref = &entries[i];
        let hit = bytes_eq(&entry_ref.0, &key);
        if hit {
            proof {
                let models = entry_models_of(entries@);
                lemma_entry_models_of(entries@);
                lemma_key_index(models, key@);
                assert(models[i as int].0 == key@);
                assert forall|j: int| 0 <= j < i implies models[j].0 != key@ by {
                    assert(models[j] == (entries@[j].0@, entries@[j].1@));
                }
                assert(key_index(models, key@) == i as int);
                lemma_entry_models_update(entries@, i as int, (key, value));
            }
            entries[i] = (key, value);
            return ;
        }
        i = i + 1;
    }
    proof {
        let models = entry_models_of(entries@);
        lemma_entry_models_of(entries@);
        lemma_key_index(models, key@);
        assert forall|j: int| 0 <= j < entries@.len() implies models[j].0 != key@ by {
            assert(models[j] == (entries@[j].0@, entries@[j].1@));
        }
        assert(key_index(models, key@) == entries@.len());
        lemma_entry_models_push(entries@, (key, value));
    }
    entries.push((key, value));
}

/// The executable value production, proved to match [`spec_parse`].
fn parse_value(lexer: &mut Lexer<'_>) -> (r: Result<Bencoding, BencodingError>)
    requires
        old(lexer).wf(),
    ensures
        final(lexer).wf(),
        final(lexer).input@ == old(lexer).input@,
        match r {
            Ok(value) => {
                &&& spec_parse(old(lexer).input@, old(lexer).pos as int) == Ok::<
                    _,
                    BencodingError,
                >((value@, final(lexer).pos as int))
                &&& old(lexer).pos < final(lexer).pos <= old(lexer).input@.len()
            },
            Err(e) => spec_parse(old(lexer).input@, old(lexer).pos as int) == Err::<
                (BencodingSpec, int),
                _,
            >(e),
        },
    decreases old(lexer).input@.len() - old(lexer).pos, 0int,
{
    let ghost s = lexer.input@;
    let ghost start = lexer.pos as int;
    let c = match lexer.peek() {
        None => {
            return Err(BencodingError::UnexpectedEnd);
        },
        Some(c) => c,
    };
    if c == INT_LEAD {
        lexer.next();
        match integer(lexer) {
            Ok(v) => Ok(Bencoding::Int(v)),
            Err(e) => Err(e),
        }
    } else if c == LIST_LEAD {
        lexer.next();
        let mut items: Vec<Bencoding> = Vec::new();
        let r = parse_list_items(lexer, &mut items);
        proof {
            assert(models_of(Seq::<Bencoding>::empty()) =~= Seq::<BencodingSpec>::empty());
        }
        match r {
            Ok(()) => Ok(Bencoding::List(items)),
            Err(e) => Err(e),
        }
    } else if c == DICT_LEAD {
        lexer.next();
        let mut entries: Vec<(Vec<u8>, Bencoding)> = Vec::new();
        let r = parse_dict_items(lexer, &mut entries);
        proof {
            assert(entry_models_of(Seq::<(Vec<u8>, Bencoding)>::empty()) =~= Seq::<
                (Seq<u8>, BencodingSpec),
            >::empty());
        }
        match r {
            Ok(()) => Ok(Bencoding::Dict(entries)),
            Err(e) => Err(e),
        }
    } else if DIGIT_LO <= c && c <= DIGIT_HI {
        match bytestring(lexer) {
            Ok(bytes) => Ok(Bencoding::ByteString(bytes)),
            Err(e) => Err(e),
        }
    } else {
        Err(BencodingError::UnknownByte(c))
    }
}

/// The executable list body, proved to match [`spec_list_items`]: elements
/// already parsed stand in `items`.
fn parse_list_items(lexer: &mut Lexer<'_>, items: &mut Vec<Bencoding>) -> (r: Result<
    (),
    BencodingError,
>)
    requires
        old(lexer).wf(),
    ensures
        final(lexer).wf(),
        final(lexer).input@ == old(lexer).input@,
        match r {
            Ok(()) => {
                &&& spec_list_items(
                    old(lexer).input@,
                    old(lexer).pos as int,
                    models_of(old(items)@),
                ) == Ok::<_, BencodingError>(
                    (models_of(final(items)@), final(lexer).pos as int),
                )
                &&& old(lexer).pos < final(lexer).pos <= old(lexer).input@.len()
            },
            Err(e) => spec_list_items(
                old(lexer).input@,
                old(lexer).pos as int,
                models_of(old(items)@),
            ) == Err::<(Seq<BencodingSpec>, int), _>(e),
        },
    decreases old(lexer).input@.len() - old(lexer).pos, 1int,
{
    let ghost s = lexer.input@;
    let ghost start = lexer.pos as int;
    let c = match lexer.peek() {
        None => {
            return Err(BencodingError::UnexpectedEnd);
        },
        Some(c) => c,
    };
    if c == END {
        lexer.next();
        return Ok(());
    }
    let v = match parse_value(lexer) {
        Ok(v) => v,
        Err(e) => {
            return Err(e);
        },
    };
    let ghost vm = v@;
    let ghost mid = lexer.pos as int;
    proof {
        lemma_models_push(items@, v);
    }
    items.push(v);
    parse_list_items(lexer, items)
}

/// The executable dictionary body, proved to match [`spec_dict_items`]:
/// entries already parsed stand in `entries`, keys kept unique.
fn parse_dict_items(lexer: &mut Lexer<'_>, entries: &mut Vec<(Vec<u8>, Bencoding)>) -> (r: Result<
    (),
    BencodingError,
>)
    requires
        old(lexer).wf(),
    ensures
        final(lexer).wf(),
        final(lexer).input@ == old(lexer).input@,
        match r {
            Ok(()) => {
                &&& spec_dict_items(
                    old(lexer).input@,
                    old(lexer).pos as int,
                    entry_models_of(old(entries)@),
                ) == Ok::<_, BencodingError>(
                    (entry_models_of(final(entries)@), final(lexer).pos as int),
                )
                &&& old(lexer).pos < final(lexer).pos <= old(lexer).input@.len()
            },
            Err(e) => spec_dict_items(
                old(lexer).input@,
                old(lexer).pos as int,
                entry_models_of(old(entries)@),
            ) == Err::<(Seq<(Seq<u8>, BencodingSpec)>, int), _>(e),
        },
    decreases old(lexer).input@.len() - old(lexer).pos, 1int,
{
    let ghost s = lexer.input@;
    let ghost start = lexer.pos as int;
    let c = match lexer.peek() {
        None => {
            return Err(BencodingError::UnexpectedEnd);
        },
        Some(c) => c,
    };
    if c == END {
        lexer.next();
        return Ok(());
    }
    let key = match bytestring(lexer) {
        Ok(k) => k,
        Err(e) => {
            return Err(e);
        },
    };
    let ghost keym = key@;
    let ghost kend = lexer.pos as int;
    let v = match parse_value(lexer) {
        Ok(v) => v,
        Err(e) => {
            return Err(e);
        },
    };
    let ghost vm = v@;
    let ghost vend = lexer.pos as int;
    insert_entry(entries, key, v);
    parse_dict_items(lexer, entries)
}

/// The result of decoding one value from the front of the input.
pub open spec fn spec_decode(s: Seq<u8>) -> Result<BencodingSpec, BencodingError> {
    match spec_parse(s, 0) {
        Ok((v, end)) => Ok(v),
        Err(e) => Err(e),
    }
}

impl Bencoding {
    /// Decode exactly one bencoded value from the front of `input`.
    ///
    /// The decoder consumes exactly the bytes of one value; trailing bytes
    /// are not inspected. Success and failure, the tree returned and the
    /// error returned, are all pinned down by [`spec_decode`]; malformed
    /// input never panics.
    pub fn parse(input: &[u8]) -> (r: BencodingResult)
        ensures
            match r {
                Ok(value) => spec_decode(input@) == Ok::<_, BencodingError>(value@),
                Err(e) => spec_decode(input@) == Err::<BencodingSpec, _>(e),
            },
    {
        let mut lexer = Lexer::new(input);
        match parse_value(&mut lexer) {
            Ok(v) => Ok(v),
            Err(e) => Err(e),
        }
    }
}

/// The canonical decimal digits of a non-negative number.
pub open spec fn dec_digits(n: int) -> Seq<u8>
    recommends
        n >= 0,
    decreases n,
{
    if n < 10 {
        seq![(DIGIT_LO + n) as u8]
    } else {
        dec_digits(n / 10).push((DIGIT_LO + n % 10) as u8)
    }
}

proof fn lemma_dec_digits(n: int)
    requires
        n >= 0,
    ensures
        dec_digits(n).len() >= 1,
        forall|j: int| 0 <= j < dec_digits(n).len() ==> is_ascii_digit(#[trigger] dec_digits(n)[j]),
        dec_value(dec_digits(n)) == n,
    decreases n,
{
    if n < 10 {
        assert(dec_digits(n) =~= seq![(DIGIT_LO + n) as u8]);
        assert(dec_digits(n).drop_last() =~= Seq::<u8>::empty());
        assert(dec_value(Seq::<u8>::empty()) == 0);
    } else {
        lemma_mod_bound(n, 10);
        lemma_fundamental_div_mod(n, 10);
        lemma_dec_digits(n / 10);
        assert(dec_digits(n).drop_last() =~= dec_digits(n / 10));
        assert(dec_digits(n).last() == (DIGIT_LO + n % 10) as u8);
    }
}

proof fn lemma_digits_end_run(s: Seq<u8>, a: int, b: int)
    requires
        0 <= a <= b <= s.len(),
        forall|j: int| a <= j < b ==> is_ascii_digit(s[j]),
        b == s.len() || !is_ascii_digit(s[b]),
    ensures
        digits_end(s, a) == b,
    decreases b - a,
{
    if a < b {
        lemma_digits_end_run(s, a + 1, b);
    }
}

/// Every non-negative integer decodes from its canonical rendering
/// `i{n}e` to exactly itself.
pub proof fn lemma_decode_int(n: i64)
    requires
        n >= 0,
    ensures
        spec_decode(seq![INT_LEAD] + dec_digits(n as int) + seq![END]) == Ok::<
            BencodingSpec,
            BencodingError,
        >(BencodingSpec::Int(n)),
{
    let digits = dec_digits(n as int);
    let s = seq![INT_LEAD] + digits + seq![END];
    lemma_dec_digits(n as int);
    assert(s.len() == digits.len() + 2);
    assert(s[0] == INT_LEAD);
    assert forall|j: int| 1 <= j < 1 + digits.len() implies is_ascii_digit(s[j]) by {
        assert(s[j] == digits[j - 1]);
    }
    assert(s[digits.len() as int + 1] == END);
    lemma_digits_end_run(s, 1, 1 + digits.len() as int);
    assert(s.subrange(1, 1 + digits.len() as int) =~= digits);
    lemma_mod_small_range(n as int);
    assert(i64_specs::signed_crop(n as int) == n);
    assert(!is_ascii_digit(INT_LEAD));
    assert(s[1] != MINUS);
    assert(spec_int(s, 1) == Ok::<(i64, int), BencodingError>((n, digits.len() as int + 2)));
}

/// Every positive integer decodes from the canonical rendering `i-{n}e` to
/// its negation.
pub proof fn lemma_decode_negative_int(n: i64)
    requires
        n > 0,
    ensures
        spec_decode(seq![INT_LEAD, MINUS] + dec_digits(n as int) + seq![END]) == Ok::<
            BencodingSpec,
            BencodingError,
        >(BencodingSpec::Int((-(n as int)) as i64)),
{
    let digits = dec_digits(n as int);
    let s = seq![INT_LEAD, MINUS] + digits + seq![END];
    lemma_dec_digits(n as int);
    assert(s.len() == digits.len() + 3);
    assert(s[0] == INT_LEAD);
    assert(s[1] == MINUS);
    assert forall|j: int| 2 <= j < 2 + digits.len() implies is_ascii_digit(s[j]) by {
        assert(s[j] == digits[j - 2]);
    }
    assert(s[digits.len() as int + 2] == END);
    lemma_digits_end_run(s, 2, 2 + digits.len() as int);
    assert(s.subrange(2, 2 + digits.len() as int) =~= digits);
    lemma_mod_small_range(n as int);
    assert(i64_specs::signed_crop(n as int) == n);
    lemma_mod_small_range(-(n as int));
    assert(i64_specs::signed_crop(-(n as int)) == (-(n as int)) as i64);
    assert(spec_int(s, 1) == Ok::<(i64, int), BencodingError>(
        ((-(n as int)) as i64, digits.len() as int + 3),
    ));
}

} // verus!
