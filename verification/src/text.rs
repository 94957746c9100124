//! The mathematical model of scanning: matching literals against byte
//! sequences, stepping between UTF-8 character boundaries, and counting
//! lines and columns.
use vstd::prelude::*;
use vstd::utf8::is_char_boundary;
use vstd::utf8::is_continuation_byte;
use vstd::utf8::length_of_first_scalar;
use vstd::utf8::pop_first_scalar;
use vstd::utf8::valid_first_scalar;
use vstd::utf8::valid_utf8;
use vstd::utf8::valid_utf8_concat;
use vstd::utf8::valid_utf8_split;
use vstd::utf8::is_char_boundary_iff_not_is_continuation_byte;
use vstd::utf8::is_char_boundary_start_end_of_seq;
use vstd::string::StringSliceAdditionalSpecFns;

verus! {

/// True when `lit` occurs in `bytes` starting at byte position `i`.
pub open spec fn matches_at(bytes: Seq<u8>, i: int, lit: Seq<u8>) -> bool {
    &&& 0 <= i
    &&& i + lit.len() <= bytes.len()
    &&& bytes.subrange(i, i + lit.len() as int) == lit
}

/// The byte sequences of a list of literals, in order.
pub open spec fn lit_bytes(lits: Seq<&str>) -> Seq<Seq<u8>> {
    Seq::new(lits.len(), |k: int| lits[k].spec_bytes())
}

/// True when every literal in the list is non-empty.
pub open spec fn nonempty_lits(lits: Seq<Seq<u8>>) -> bool {
    forall|k: int| 0 <= k < lits.len() ==> (#[trigger] lits[k]).len() > 0
}

/// The position of the first literal in `lits` that matches at `i`, if any.
pub open spec fn first_match(bytes: Seq<u8>, i: int, lits: Seq<Seq<u8>>) -> Option<int>
    decreases lits.len(),
{
    if lits.len() == 0 {
        None
    } else if matches_at(bytes, i, lits[0]) {
        Some(0int)
    } else {
        match first_match(bytes, i, lits.drop_first()) {
            Some(k) => Some(k + 1),
            None => None,
        }
    }
}

/// What `first_match` returns: the first matching literal, or none.
pub proof fn lemma_first_match(bytes: Seq<u8>, i: int, lits: Seq<Seq<u8>>)
    ensures
        match first_match(bytes, i, lits) {
            Some(k) => 0 <= k < lits.len() && matches_at(bytes, i, lits[k]) && forall|j: int|
                0 <= j < k ==> !matches_at(bytes, i, #[trigger] lits[j]),
            None => forall|j: int| 0 <= j < lits.len() ==> !matches_at(bytes, i, #[trigger] lits[j]),
        },
    decreases lits.len(),
{
    if lits.len() > 0 && !matches_at(bytes, i, lits[0]) {
        lemma_first_match(bytes, i, lits.drop_first());
        assert(forall|j: int|
            1 <= j < lits.len() ==> #[trigger] lits[j] == lits.drop_first()[j - 1]);
    }
}

/// The byte length of the first literal in `lits` that matches at `i`, or
/// zero when none matches.
pub open spec fn match_len(bytes: Seq<u8>, i: int, lits: Seq<Seq<u8>>) -> int {
    match first_match(bytes, i, lits) {
        Some(k) => lits[k].len() as int,
        None => 0,
    }
}

/// A character boundary below another one is still a character boundary of
/// the prefix cut at the higher one.
pub proof fn lemma_boundary_in_prefix(bytes: Seq<u8>, i: int, j: int)
    requires
        valid_utf8(bytes),
        0 <= j <= i <= bytes.len(),
        is_char_boundary(bytes, i),
        is_char_boundary(bytes, j),
    ensures
        is_char_boundary(bytes.subrange(0, i), j),
{
    broadcast use valid_utf8_split;

    let p = bytes.subrange(0, i);
    assert(valid_utf8(p));
    if j == i {
        is_char_boundary_start_end_of_seq(p);
    } else {
        is_char_boundary_iff_not_is_continuation_byte(bytes, j);
        assert(p[j] == bytes[j]);
        is_char_boundary_iff_not_is_continuation_byte(p, j);
    }
}

/// The next position after `i` that starts a character (or the end of the
/// sequence): the first position after `i` that is not a continuation byte.
pub open spec fn next_boundary(bytes: Seq<u8>, i: int) -> int
    decreases bytes.len() - i,
    when 0 <= i < bytes.len()
{
    if i + 1 == bytes.len() || !is_continuation_byte(bytes[i + 1]) {
        i + 1
    } else {
        next_boundary(bytes, i + 1)
    }
}

/// `next_boundary` moves strictly forward and stays within the sequence,
/// and every position it skips is a continuation byte.
pub proof fn lemma_next_boundary_bounds(bytes: Seq<u8>, i: int)
    requires
        0 <= i < bytes.len(),
    ensures
        i < next_boundary(bytes, i) <= bytes.len(),
        forall|j: int|
            i < j < next_boundary(bytes, i) ==> is_continuation_byte(#[trigger] bytes[j]),
    decreases bytes.len() - i,
{
    if !(i + 1 == bytes.len() || !is_continuation_byte(bytes[i + 1])) {
        lemma_next_boundary_bounds(bytes, i + 1);
    }
}

/// For valid UTF-8, `next_boundary` lands on a character boundary and skips
/// no boundary on the way.
pub proof fn lemma_next_boundary_is_boundary(bytes: Seq<u8>, i: int)
    requires
        valid_utf8(bytes),
        0 <= i < bytes.len(),
    ensures
        is_char_boundary(bytes, next_boundary(bytes, i)),
        forall|j: int| i < j < next_boundary(bytes, i) ==> !is_char_boundary(bytes, j),
{
    lemma_next_boundary_bounds(bytes, i);
    let nb = next_boundary(bytes, i);
    if nb < bytes.len() {
        lemma_next_boundary_last_step(bytes, i);
        is_char_boundary_iff_not_is_continuation_byte(bytes, nb);
    } else {
        is_char_boundary_start_end_of_seq(bytes);
    }
    assert forall|j: int| i < j < nb implies !is_char_boundary(bytes, j) by {
        assert(is_continuation_byte(bytes[j]));
        is_char_boundary_iff_not_is_continuation_byte(bytes, j);
    }
}

proof fn lemma_next_boundary_last_step(bytes: Seq<u8>, i: int)
    requires
        0 <= i < bytes.len(),
        next_boundary(bytes, i) < bytes.len(),
    ensures
        !is_continuation_byte(bytes[next_boundary(bytes, i)]),
    decreases bytes.len() - i,
{
    if !(i + 1 == bytes.len() || !is_continuation_byte(bytes[i + 1])) {
        lemma_next_boundary_last_step(bytes, i + 1);
    }
}

/// In valid UTF-8, a position whose byte prefix is itself valid UTF-8 is a
/// character boundary.
pub proof fn lemma_valid_prefix_is_boundary(bytes: Seq<u8>, j: int)
    requires
        valid_utf8(bytes),
        0 <= j <= bytes.len(),
        valid_utf8(bytes.subrange(0, j)),
    ensures
        is_char_boundary(bytes, j),
    decreases bytes.len(),
{
    if j != 0 {
        let p = bytes.subrange(0, j);
        assert(valid_first_scalar(p));
        assert(valid_first_scalar(bytes));
        assert(p[0] == bytes[0]);
        let k = length_of_first_scalar(bytes);
        assert(length_of_first_scalar(p) == k);
        assert(1 <= k <= j);
        let tail = pop_first_scalar(bytes);
        assert(valid_utf8(tail));
        assert(pop_first_scalar(p) =~= tail.subrange(0, j - k));
        assert(valid_utf8(tail.subrange(0, j - k)));
        lemma_valid_prefix_is_boundary(tail, j - k);
    }
}

/// Consuming a matched literal that is itself valid UTF-8 moves the offset
/// from one character boundary to another.
pub proof fn lemma_literal_step(bytes: Seq<u8>, i: int, lit: Seq<u8>)
    requires
        valid_utf8(bytes),
        valid_utf8(lit),
        is_char_boundary(bytes, i),
        matches_at(bytes, i, lit),
    ensures
        is_char_boundary(bytes, i + lit.len()),
{
    broadcast use valid_utf8_split;

    assert(valid_utf8(bytes.subrange(0, i)));
    assert(bytes.subrange(0, i + lit.len() as int) =~= bytes.subrange(0, i) + lit);
    valid_utf8_concat(bytes.subrange(0, i), lit);
    lemma_valid_prefix_is_boundary(bytes, i + lit.len());
}

/// The byte encoding of a string is valid UTF-8, and its ends are character
/// boundaries.
pub proof fn lemma_source_valid(s: &str)
    ensures
        valid_utf8(s.spec_bytes()),
        is_char_boundary(s.spec_bytes(), 0),
        is_char_boundary(s.spec_bytes(), s.spec_bytes().len() as int),
{
    broadcast use vstd::utf8::encode_utf8_valid_utf8;

    assert(s.spec_bytes() == vstd::utf8::encode_utf8(s@));
    is_char_boundary_start_end_of_seq(s.spec_bytes());
}

/// Where a scan that stops at the first occurrence of one of `endings` ends,
/// starting from byte position `i`: the first tested position at which an
/// ending matches, or the end of the input. Positions are tested one
/// character at a time.
pub open spec fn scan_until_at(bytes: Seq<u8>, i: int, endings: Seq<Seq<u8>>) -> int
    decreases bytes.len() - i,
    when 0 <= i <= bytes.len()
    via scan_until_at_decreases
{
    if i >= bytes.len() {
        i
    } else if first_match(bytes, i, endings) is Some {
        i
    } else {
        scan_until_at(bytes, next_boundary(bytes, i), endings)
    }
}

#[via_fn]
proof fn scan_until_at_decreases(bytes: Seq<u8>, i: int, endings: Seq<Seq<u8>>) {
    if i < bytes.len() {
        lemma_next_boundary_bounds(bytes, i);
    }
}

/// Where a scan that repeatedly consumes any of `options` ends, starting
/// from byte position `i`. At each step the first matching option is
/// consumed; the scan stops when none matches or the input ends.
pub open spec fn scan_while_at(bytes: Seq<u8>, i: int, options: Seq<Seq<u8>>) -> int
    decreases bytes.len() - i,
    when 0 <= i <= bytes.len() && nonempty_lits(options)
    via scan_while_at_decreases
{
    if i >= bytes.len() {
        i
    } else {
        match first_match(bytes, i, options) {
            None => i,
            Some(k) => scan_while_at(bytes, i + options[k].len(), options),
        }
    }
}

#[via_fn]
proof fn scan_while_at_decreases(bytes: Seq<u8>, i: int, options: Seq<Seq<u8>>) {
    if i < bytes.len() {
        lemma_first_match(bytes, i, options);
    }
}

/// Consuming, in order, each of `exceptions` that matches, starting at `i`.
/// Returns the position reached and whether the end of input was reached
/// while exceptions were still pending (which stops the surrounding scan).
pub open spec fn eat_exceptions(bytes: Seq<u8>, i: int, exceptions: Seq<Seq<u8>>) -> (int, bool)
    decreases exceptions.len(),
{
    if exceptions.len() == 0 {
        (i, false)
    } else if i >= bytes.len() {
        (i, true)
    } else if matches_at(bytes, i, exceptions[0]) {
        eat_exceptions(bytes, i + exceptions[0].len(), exceptions.drop_first())
    } else {
        eat_exceptions(bytes, i, exceptions.drop_first())
    }
}

/// `eat_exceptions` moves forward and stays within the sequence.
pub proof fn lemma_eat_exceptions_bounds(bytes: Seq<u8>, i: int, exceptions: Seq<Seq<u8>>)
    requires
        0 <= i <= bytes.len(),
    ensures
        i <= eat_exceptions(bytes, i, exceptions).0 <= bytes.len(),
    decreases exceptions.len(),
{
    if exceptions.len() > 0 && i < bytes.len() {
        if matches_at(bytes, i, exceptions[0]) {
            lemma_eat_exceptions_bounds(bytes, i + exceptions[0].len(), exceptions.drop_first());
        } else {
            lemma_eat_exceptions_bounds(bytes, i, exceptions.drop_first());
        }
    }
}

/// Where an escape-aware scan ends, starting from byte position `i`. Each
/// step first consumes every matching exception in order; if the input ends
/// while doing so the scan stops there. Then, if an ending matches or the
/// input is exhausted, the scan stops; otherwise it advances one character.
pub open spec fn scan_until_incl_at(
    bytes: Seq<u8>,
    i: int,
    endings: Seq<Seq<u8>>,
    exceptions: Seq<Seq<u8>>,
) -> int
    decreases bytes.len() - i,
    when 0 <= i <= bytes.len()
    via scan_until_incl_at_decreases
{
    let step = eat_exceptions(bytes, i, exceptions);
    if step.1 {
        step.0
    } else if step.0 >= bytes.len() {
        step.0
    } else if first_match(bytes, step.0, endings) is Some {
        step.0
    } else {
        scan_until_incl_at(bytes, next_boundary(bytes, step.0), endings, exceptions)
    }
}

#[via_fn]
proof fn scan_until_incl_at_decreases(
    bytes: Seq<u8>,
    i: int,
    endings: Seq<Seq<u8>>,
    exceptions: Seq<Seq<u8>>,
) {
    lemma_eat_exceptions_bounds(bytes, i, exceptions);
    let step = eat_exceptions(bytes, i, exceptions);
    if !step.1 && step.0 < bytes.len() {
        lemma_next_boundary_bounds(bytes, step.0);
    }
}

/// Where a delimited-list scan ends. `index` is the current position,
/// `marker` the position right after the last committed item, and `count`
/// how many delimiters have been honoured so far. Each round consumes one
/// item (the first matching of `items`); if `max` delimiters were already
/// honoured the scan stops there; if no item matched it falls back to
/// `marker`; otherwise the item is committed and one delimiter is consumed,
/// and the scan stops after the item if none matches.
pub open spec fn scan_delimited_at(
    bytes: Seq<u8>,
    index: int,
    marker: int,
    count: nat,
    items: Seq<Seq<u8>>,
    delimiters: Seq<Seq<u8>>,
    max: nat,
) -> int
    decreases bytes.len() - index,
    when 0 <= index <= bytes.len() && nonempty_lits(items) && nonempty_lits(delimiters)
    via scan_delimited_at_decreases
{
    let after_item = match first_match(bytes, index, items) {
        Some(k) => index + items[k].len(),
        None => index,
    };
    if count >= max {
        after_item
    } else if after_item == index {
        marker
    } else {
        match first_match(bytes, after_item, delimiters) {
            None => after_item,
            Some(k) => scan_delimited_at(
                bytes,
                after_item + delimiters[k].len(),
                after_item,
                count + 1,
                items,
                delimiters,
                max,
            ),
        }
    }
}

#[via_fn]
proof fn scan_delimited_at_decreases(
    bytes: Seq<u8>,
    index: int,
    marker: int,
    count: nat,
    items: Seq<Seq<u8>>,
    delimiters: Seq<Seq<u8>>,
    max: nat,
) {
    lemma_first_match(bytes, index, items);
    match first_match(bytes, index, items) {
        Some(k) => {
            lemma_first_match(bytes, index + items[k].len(), delimiters);
        },
        None => {},
    }
}

/// Where the position lands after stepping forward `n` characters from `i`,
/// boundary to boundary, or nothing if the input ends first.
pub open spec fn advance_chars(bytes: Seq<u8>, i: int, n: nat) -> Option<int>
    decreases n,
    when 0 <= i <= bytes.len()
    via advance_chars_decreases
{
    if n == 0 {
        Some(i)
    } else if i >= bytes.len() {
        None
    } else {
        advance_chars(bytes, next_boundary(bytes, i), (n - 1) as nat)
    }
}

#[via_fn]
proof fn advance_chars_decreases(bytes: Seq<u8>, i: int, n: nat) {
    if n > 0 && i < bytes.len() {
        lemma_next_boundary_bounds(bytes, i);
    }
}

/// How many line breaks the byte sequence holds.
pub open spec fn count_newlines(bytes: Seq<u8>) -> nat
    decreases bytes.len(),
{
    if bytes.len() == 0 {
        0
    } else {
        count_newlines(bytes.drop_last()) + (if bytes.last() == 10u8 {
            1nat
        } else {
            0nat
        })
    }
}

/// How many characters follow the last line break of the byte sequence
/// (each character contributes exactly one byte that is not a continuation
/// byte).
pub open spec fn chars_after_last_newline(bytes: Seq<u8>) -> nat
    decreases bytes.len(),
{
    if bytes.len() == 0 {
        0
    } else if bytes.last() == 10u8 {
        0
    } else {
        chars_after_last_newline(bytes.drop_last()) + (if is_continuation_byte(bytes.last()) {
            0nat
        } else {
            1nat
        })
    }
}

/// The 1-based line number of byte position `i`: one more than the number
/// of line breaks before it.
pub open spec fn line_of(bytes: Seq<u8>, i: int) -> nat {
    1 + count_newlines(bytes.subrange(0, i))
}

/// The 0-based column of byte position `i`: the number of characters of the
/// line it lies on that precede it.
pub open spec fn column_of(bytes: Seq<u8>, i: int) -> nat {
    chars_after_last_newline(bytes.subrange(0, i))
}

/// `line_of`, clamped to what a machine word can hold.
pub open spec fn sat_line_of(bytes: Seq<u8>, i: int) -> usize {
    if line_of(bytes, i) <= usize::MAX {
        line_of(bytes, i) as usize
    } else {
        usize::MAX
    }
}

/// `count_newlines` and `chars_after_last_newline` never exceed the length
/// counted over.
pub proof fn lemma_counts_bounded(bytes: Seq<u8>)
    ensures
        count_newlines(bytes) <= bytes.len(),
        chars_after_last_newline(bytes) <= bytes.len(),
    decreases bytes.len(),
{
    if bytes.len() > 0 {
        lemma_counts_bounded(bytes.drop_last());
    }
}

} // verus!
