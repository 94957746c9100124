//! A foundation for hand-written recursive-descent parsers over UTF-8 text:
//! a backtracking cursor with transactional checkpoints, and a structured
//! diagnostic tree with a source-anchored renderer.
use vstd::prelude::*;
use vstd::utf8::is_char_boundary;
use vstd::string::StringSliceAdditionalSpecFns;

pub mod error;
pub mod render;
pub mod text;

pub use error::EOFError;
pub use error::EOFErrorKind;
pub use error::Error;

use crate::text::advance_chars;
use crate::text::column_of;
use crate::text::count_newlines;
use crate::text::chars_after_last_newline;
use crate::text::eat_exceptions;
use crate::text::first_match;
use crate::text::lemma_boundary_in_prefix;
use crate::text::lemma_counts_bounded;
use crate::text::lemma_first_match;
use crate::text::lemma_literal_step;
use crate::text::lemma_next_boundary_bounds;
use crate::text::lemma_next_boundary_is_boundary;
use crate::text::lemma_source_valid;
use crate::text::lit_bytes;
use crate::text::match_len;
use crate::text::matches_at;
use crate::text::next_boundary;
use crate::text::nonempty_lits;
use crate::text::sat_line_of;
use crate::text::scan_delimited_at;
use crate::text::scan_until_at;
use crate::text::scan_until_incl_at;
use crate::text::scan_while_at;

verus! {

/// A positional, backtrackable scanner over immutable UTF-8 text.
///
/// The byte offset is kept on a character boundary of the source at all
/// times; a stack of saved offsets supports nested transactional sub-scans.
pub struct GenericParser<'source, Kind> {
    source: &'source str,
    stack: Vec<usize>,
    index: usize,
    filename: &'source str,
    _phantom: core::marker::PhantomData<Kind>,
}

impl<'source, Kind> GenericParser<'source, Kind> {
    /// The source text as a byte sequence; the offset and the saved offsets
    /// index into this sequence.
    pub closed spec fn src(&self) -> Seq<u8> {
        self.source.spec_bytes()
    }

    /// The current byte offset.
    pub closed spec fn at(&self) -> nat {
        self.index as nat
    }

    /// The stack of saved offsets, oldest first.
    pub closed spec fn saves(&self) -> Seq<usize> {
        self.stack@
    }

    /// The display label the cursor was created with.
    pub closed spec fn label(&self) -> &'source str {
        self.filename
    }

    /// The whole source text the cursor was created with.
    pub closed spec fn full_source(&self) -> &'source str {
        self.source
    }

    /// Every saved offset lies on a character boundary of the source.
    pub open spec fn stack_wf(&self) -> bool {
        forall|i: int|
            0 <= i < self.saves().len() ==> (#[trigger] self.saves()[i] as nat)
                <= self.src().len() && is_char_boundary(self.src(), self.saves()[i] as int)
    }

    /// Well-formedness: the offset and every saved offset lie on a character
    /// boundary of the source.
    pub open spec fn wf(&self) -> bool {
        &&& self.at() <= self.src().len()
        &&& is_char_boundary(self.src(), self.at() as int)
        &&& self.stack_wf()
    }

    /// True when `other` scans the same text under the same label: no cursor
    /// operation ever changes either.
    pub open spec fn keeps_text(&self, other: &Self) -> bool {
        &&& self.full_source() == other.full_source()
        &&& self.label() == other.label()
        &&& self.src() == other.src()
    }

    /// Creates a cursor at the start of `source`; `filename` is an opaque
    /// label used only for diagnostic display.
    pub fn new(source: &'source str, filename: &'source str) -> (r: Self)
        ensures
            r.wf(),
            r.src() == source.spec_bytes(),
            r.full_source() == source,
            r.at() == 0,
            r.saves() == Seq::<usize>::empty(),
            r.label() == filename,
    {
        proof {
            lemma_source_valid(source);
        }
        Self {
            source,
            stack: Vec::new(),
            index: 0,
            filename,
            _phantom: core::marker::PhantomData,
        }
    }

    /// True iff no bytes remain.
    pub fn is_eof(&self) -> (r: bool)
        requires
            self.wf(),
        ensures
            r == (self.at() == self.src().len()),
    {
        self.source.as_bytes().len() - self.index == 0
    }

    /// The display label.
    pub fn filename(&self) -> (r: &'source str)
        ensures
            r == self.label(),
    {
        self.filename
    }

    /// The nesting depth of open sub-scans.
    pub fn level(&self) -> (r: usize)
        ensures
            r == self.saves().len(),
    {
        self.stack.len()
    }

    /// The whole source text.
    pub fn get_source(&self) -> (r: &str)
        ensures
            r == self.full_source(),
    {
        self.source
    }

    /// The text from the current offset to the end, without consuming it.
    pub fn source_left(&self) -> (r: &str)
        requires
            self.wf(),
        ensures
            r.spec_bytes() == self.src().subrange(self.at() as int, self.src().len() as int),
    {
        let (_head, rest) = self.source.split_at(self.index);
        proof {
            assert(rest.spec_bytes() =~= self.src().subrange(
                self.at() as int,
                self.src().len() as int,
            ));
        }
        rest
    }

    /// The length of the source in bytes.
    fn src_len(&self) -> (n: usize)
        ensures
            n == self.src().len(),
    {
        self.source.as_bytes().len()
    }

    /// The text between the character boundary `start` and the current
    /// offset: what a scan that began at `start` has consumed.
    fn slice_between(&self, start: usize) -> (r: &'source str)
        requires
            self.wf(),
            start as nat <= self.at(),
            is_char_boundary(self.src(), start as int),
        ensures
            r.spec_bytes() == self.src().subrange(start as int, self.at() as int),
    {
        proof {
            lemma_source_valid(self.source);
            lemma_boundary_in_prefix(self.src(), self.at() as int, start as int);
        }
        let (pre, _rest) = self.source.split_at(self.index);
        let (_head, r) = pre.split_at(start);
        proof {
            assert(r.spec_bytes() =~= self.src().subrange(start as int, self.at() as int));
        }
        r
    }

    /// Whether the source starts with `s` at the current offset.
    fn starts_with_at(&self, s: &str) -> (r: bool)
        requires
            self.wf(),
        ensures
            r == matches_at(self.src(), self.at() as int, s.spec_bytes()),
    {
        let b = self.source.as_bytes();
        let sb = s.as_bytes();
        let blen = b.len();
        if blen - self.index < sb.len() {
            return false;
        }
        let mut k: usize = 0;
        while k < sb.len()
            invariant
                self.wf(),
                b@ == self.src(),
                sb@ == s.spec_bytes(),
                blen == self.src().len(),
                k <= sb@.len(),
                self.at() + sb@.len() <= self.src().len(),
                forall|j: int| 0 <= j < k ==> b@[self.at() + j] == sb@[j],
            decreases sb@.len() - k,
        {
            if b[self.index + k] != sb[k] {
                proof {
                    assert(!matches_at(self.src(), self.at() as int, s.spec_bytes())) by {
                        if matches_at(self.src(), self.at() as int, s.spec_bytes()) {
                            assert(self.src().subrange(
                                self.at() as int,
                                self.at() + sb@.len() as int,
                            )[k as int] == sb@[k as int]);
                        }
                    }
                }
                return false;
            }
            k += 1;
        }
        proof {
            assert(self.src().subrange(self.at() as int, self.at() + sb@.len() as int)
                =~= s.spec_bytes());
        }
        true
    }

    /// Advances the offset to the next character boundary: the one primitive
    /// that steps into text without a literal match.
    fn set_next_char_boundary(&mut self)
        requires
            old(self).wf(),
            old(self).at() < old(self).src().len(),
        ensures
            final(self).wf(),
            final(self).keeps_text(old(self)),
            final(self).saves() == old(self).saves(),
            final(self).at() == next_boundary(old(self).src(), old(self).at() as int),
    {
        proof {
            lemma_source_valid(self.source);
            lemma_next_boundary_bounds(self.src(), self.at() as int);
            lemma_next_boundary_is_boundary(self.src(), self.at() as int);
        }
        let ghost nb = next_boundary(self.src(), self.at() as int);
        let n = self.src_len();
        self.index = self.index + 1;
        while !self.source.is_char_boundary(self.index)
            invariant
                old(self).at() < self.at() <= nb,
                n == self.src().len(),
                nb <= self.src().len(),
                is_char_boundary(self.src(), nb as int),
                forall|j: int| old(self).at() < j < nb ==> !is_char_boundary(self.src(), j),
                self.full_source() == old(self).full_source(),
                self.label() == old(self).label(),
                self.saves() == old(self).saves(),
                self.stack_wf(),
                nb == next_boundary(old(self).src(), old(self).at() as int),
            decreases nb - self.at(),
        {
            self.index = self.index + 1;
        }
        proof {
            assert(self.at() == nb);
        }
    }
}

impl<'source, Kind: EOFErrorKind> GenericParser<'source, Kind> {
    /// What a diagnostic built at the current position looks like: anchored
    /// to the current line and column under the cursor's label.
    pub open spec fn is_error_at(
        &self,
        e: Error<'source, Kind>,
        kind: Kind,
        important: bool,
    ) -> bool {
        &&& e.line_start == sat_line_of(self.src(), self.at() as int)
        &&& e.line_end == e.line_start
        &&& e.column_start == column_of(self.src(), self.at() as int)
        &&& e.column_end == e.column_start
        &&& e.kind == kind
        &&& e.filename == self.label()
        &&& e.important == important
    }

    /// What the end-of-input diagnostic at the current position looks like.
    pub open spec fn is_eof_error(&self, e: Error<'source, Kind>) -> bool {
        &&& self.is_error_at(e, Kind::eof_spec(), true)
        &&& e.suberrors@.len() == 0
    }

    /// The 1-based line number of the current offset: one more than the
    /// number of line breaks before it (clamped only at the top of `usize`).
    pub fn get_line(&self) -> (r: usize)
        requires
            self.wf(),
        ensures
            r == sat_line_of(self.src(), self.at() as int),
            r >= 1,
    {
        let b = self.source.as_bytes();
        let mut count: usize = 0;
        let mut k: usize = 0;
        while k < self.index
            invariant
                self.wf(),
                b@ == self.src(),
                k <= self.index,
                count == count_newlines(self.src().subrange(0, k as int)),
                count <= k,
            decreases self.index - k,
        {
            proof {
                assert(self.src().subrange(0, k + 1).drop_last() =~= self.src().subrange(
                    0,
                    k as int,
                ));
                assert(self.src().subrange(0, k + 1).last() == self.src()[k as int]);
            }
            if b[k] == 10 {
                count = count + 1;
            }
            k = k + 1;
        }
        if count == usize::MAX {
            count
        } else {
            count + 1
        }
    }

    /// The 0-based column of the current offset: how many characters of its
    /// line precede it.
    pub fn get_column(&self) -> (r: usize)
        requires
            self.wf(),
        ensures
            r == column_of(self.src(), self.at() as int),
    {
        let b = self.source.as_bytes();
        let mut col: usize = 0;
        let mut k: usize = 0;
        while k < self.index
            invariant
                self.wf(),
                b@ == self.src(),
                k <= self.index,
                col == chars_after_last_newline(self.src().subrange(0, k as int)),
                col <= k,
            decreases self.index - k,
        {
            proof {
                assert(self.src().subrange(0, k + 1).drop_last() =~= self.src().subrange(
                    0,
                    k as int,
                ));
                assert(self.src().subrange(0, k + 1).last() == self.src()[k as int]);
                lemma_counts_bounded(self.src().subrange(0, k + 1));
            }
            let byte = b[k];
            if byte == 10 {
                col = 0;
            } else if !(byte >= 0x80 && byte <= 0xbf) {
                col = col + 1;
            }
            k = k + 1;
        }
        col
    }

    /// The line range a diagnostic built here would carry.
    pub fn get_line_range(&self) -> (r: (usize, usize))
        requires
            self.wf(),
        ensures
            r.0 == sat_line_of(self.src(), self.at() as int),
            r.1 == r.0,
    {
        let l = self.get_line();
        (l, l)
    }

    /// The column range a diagnostic built here would carry.
    pub fn get_column_range(&self) -> (r: (usize, usize))
        requires
            self.wf(),
        ensures
            r.0 == column_of(self.src(), self.at() as int),
            r.1 == r.0,
    {
        let c = self.get_column();
        (c, c)
    }

    /// Builds a diagnostic anchored at the current position, with nested
    /// alternatives.
    pub fn create_error_with_suberrors(
        &self,
        kind: Kind,
        important: bool,
        suberrors: Vec<Error<'source, Kind>>,
    ) -> (e: Error<'source, Kind>)
        requires
            self.wf(),
        ensures
            self.is_error_at(e, kind, important),
            e.suberrors == suberrors,
            (forall|i: int|
                0 <= i < suberrors@.len() ==> (#[trigger] suberrors@[i]).wf()) ==> e.wf(),
    {
        let l = self.get_line();
        let c = self.get_column();
        Error {
            line_start: l,
            line_end: l,
            column_start: c,
            column_end: c,
            kind,
            filename: self.filename,
            suberrors,
            important,
        }
    }

    /// Builds a diagnostic anchored at the current position.
    pub fn create_error(&self, kind: Kind, important: bool) -> (e: Error<'source, Kind>)
        requires
            self.wf(),
        ensures
            self.is_error_at(e, kind, important),
            e.suberrors@.len() == 0,
            e.wf(),
    {
        self.create_error_with_suberrors(kind, important, Vec::new())
    }

    /// Builds the "unexpected end of input" diagnostic at the current
    /// position.
    pub fn eof_error(&self) -> (e: Error<'source, Kind>)
        requires
            self.wf(),
        ensures
            self.is_eof_error(e),
            e.wf(),
    {
        self.create_error(Kind::create_eof(), true)
    }

    /// Whether the text at the current offset starts with `s`, without
    /// consuming anything; asking past the end of input is an error.
    pub fn test(&self, s: &str) -> (r: Result<bool, Error<'source, Kind>>)
        requires
            self.wf(),
        ensures
            match r {
                Ok(b) => self.at() < self.src().len() && b == matches_at(
                    self.src(),
                    self.at() as int,
                    s.spec_bytes(),
                ),
                Err(e) => self.at() == self.src().len() && self.is_eof_error(e),
            },
    {
        if self.is_eof() {
            return Err(self.eof_error());
        }
        Ok(self.starts_with_at(s))
    }

    /// Whether any of `options` matches at the current offset, in order,
    /// without consuming anything; asking past the end of input is an error.
    pub fn test_any(&self, options: &[&str]) -> (r: Result<bool, Error<'source, Kind>>)
        requires
            self.wf(),
        ensures
            match r {
                Ok(b) => b == (first_match(
                    self.src(),
                    self.at() as int,
                    lit_bytes(options@),
                ) is Some) && (options@.len() > 0 ==> self.at() < self.src().len()),
                Err(e) => options@.len() > 0 && self.at() == self.src().len()
                    && self.is_eof_error(e),
            },
    {
        let ghost lits = lit_bytes(options@);
        let mut k: usize = 0;
        while k < options.len()
            invariant
                self.wf(),
                k <= options@.len(),
                lits == lit_bytes(options@),
                k > 0 ==> self.at() < self.src().len(),
                forall|j: int| 0 <= j < k ==> !matches_at(self.src(), self.at() as int, #[trigger] lits[j]),
            decreases options@.len() - k,
        {
            match self.test(options[k]) {
                Err(e) => {
                    return Err(e);
                },
                Ok(true) => {
                    proof {
                        assert(lits[k as int] == options@[k as int].spec_bytes());
                        assert(matches_at(self.src(), self.at() as int, lits[k as int]));
                        lemma_first_match(self.src(), self.at() as int, lits);
                    }
                    return Ok(true);
                },
                Ok(false) => {},
            }
            k = k + 1;
        }
        proof {
            lemma_first_match(self.src(), self.at() as int, lits);
        }
        Ok(false)
    }

    /// Consumes `s` if the text starts with it here: on a match the offset
    /// advances past `s`; asking past the end of input is an error.
    pub fn consume_if(&mut self, s: &str) -> (r: Result<bool, Error<'source, Kind>>)
        requires
            old(self).wf(),
        ensures
            final(self).wf(),
            final(self).keeps_text(old(self)),
            final(self).saves() == old(self).saves(),
            match r {
                Ok(true) => old(self).at() < old(self).src().len() && matches_at(
                    old(self).src(),
                    old(self).at() as int,
                    s.spec_bytes(),
                ) && final(self).at() == old(self).at() + s.spec_bytes().len(),
                Ok(false) => old(self).at() < old(self).src().len() && !matches_at(
                    old(self).src(),
                    old(self).at() as int,
                    s.spec_bytes(),
                ) && final(self).at() == old(self).at(),
                Err(e) => old(self).at() == old(self).src().len()
                    && final(self).at() == old(self).at() && old(self).is_eof_error(e),
            },
    {
        match self.test(s) {
            Err(e) => Err(e),
            Ok(false) => Ok(false),
            Ok(true) => {
                let n = s.as_bytes().len();
                let _bound = self.src_len();
                proof {
                    assert(n == s.spec_bytes().len());
                    lemma_source_valid(self.source);
                    lemma_source_valid(s);
                    lemma_literal_step(self.src(), self.at() as int, s.spec_bytes());
                    assert(is_char_boundary(self.src(), self.at() + n));
                }
                self.index = self.index + n;
                proof {
                    lemma_stack_wf_same(*old(self), *self);
                }
                Ok(true)
            },
        }
    }

    /// Consumes the first of `options` that matches here, if any; asking
    /// past the end of input is an error.
    pub fn then_any(&mut self, options: &[&str]) -> (r: Result<bool, Error<'source, Kind>>)
        requires
            old(self).wf(),
        ensures
            final(self).wf(),
            final(self).keeps_text(old(self)),
            final(self).saves() == old(self).saves(),
            match r {
                Ok(true) => old(self).at() < old(self).src().len() && first_match(
                    old(self).src(),
                    old(self).at() as int,
                    lit_bytes(options@),
                ) is Some && final(self).at() == old(self).at() + match_len(
                    old(self).src(),
                    old(self).at() as int,
                    lit_bytes(options@),
                ),
                Ok(false) => first_match(
                    old(self).src(),
                    old(self).at() as int,
                    lit_bytes(options@),
                ) is None && final(self).at() == old(self).at() && (options@.len() > 0
                    ==> old(self).at() < old(self).src().len()),
                Err(e) => options@.len() > 0 && old(self).at() == old(self).src().len()
                    && final(self).at() == old(self).at() && old(self).is_eof_error(e),
            },
    {
        let ghost lits = lit_bytes(options@);
        let mut k: usize = 0;
        while k < options.len()
            invariant
                self.wf(),
                self.at() == old(self).at(),
                self.keeps_text(old(self)),
                self.saves() == old(self).saves(),
                k <= options@.len(),
                lits == lit_bytes(options@),
                k > 0 ==> self.at() < self.src().len(),
                forall|j: int| 0 <= j < k ==> !matches_at(self.src(), self.at() as int, #[trigger] lits[j]),
            decreases options@.len() - k,
        {
            match self.consume_if(options[k]) {
                Err(e) => {
                    return Err(e);
                },
                Ok(true) => {
                    proof {
                        assert(lits[k as int] == options@[k as int].spec_bytes());
                        assert(matches_at(old(self).src(), old(self).at() as int, lits[k as int]));
                        lemma_first_match(old(self).src(), old(self).at() as int, lits);
                    }
                    return Ok(true);
                },
                Ok(false) => {},
            }
            k = k + 1;
        }
        proof {
            lemma_first_match(self.src(), self.at() as int, lits);
        }
        Ok(false)
    }

    /// Repeatedly consumes any of `options` until none matches or the input
    /// ends; used to discard whitespace or comments. The literals must be
    /// non-empty: an empty one would match without consuming and the scan
    /// could make no progress.
    pub fn skip(&mut self, options: &[&str])
        requires
            old(self).wf(),
            nonempty_lits(lit_bytes(options@)),
        ensures
            final(self).wf(),
            final(self).keeps_text(old(self)),
            final(self).saves() == old(self).saves(),
            final(self).at() == scan_while_at(
                old(self).src(),
                old(self).at() as int,
                lit_bytes(options@),
            ),
    {
        self.while_any(options);
    }

    /// Consumes exactly `count` characters, stepping boundary to boundary,
    /// and returns them; if the input ends first, the offset stays where it
    /// stopped and the end-of-input diagnostic is returned.
    pub fn eat(&mut self, count: usize) -> (r: Result<&'source str, Error<'source, Kind>>)
        requires
            old(self).wf(),
        ensures
            final(self).wf(),
            final(self).keeps_text(old(self)),
            final(self).saves() == old(self).saves(),
            match r {
                Ok(s) => advance_chars(old(self).src(), old(self).at() as int, count as nat)
                    == Some(final(self).at() as int) && s.spec_bytes() == old(self).src().subrange(
                    old(self).at() as int,
                    final(self).at() as int,
                ),
                Err(e) => advance_chars(old(self).src(), old(self).at() as int, count as nat)
                    is None && final(self).at() == final(self).src().len()
                    && final(self).is_eof_error(e),
            },
    {
        let start: usize = self.index;
        let mut k: usize = 0;
        while k < count
            invariant
                self.wf(),
                self.keeps_text(old(self)),
                self.saves() == old(self).saves(),
                k <= count,
                start == old(self).index,
                start as nat <= self.at(),
                is_char_boundary(self.src(), start as int),
                advance_chars(old(self).src(), old(self).at() as int, count as nat)
                    == advance_chars(self.src(), self.at() as int, (count - k) as nat),
            decreases count - k,
        {
            if self.is_eof() {
                return Err(self.eof_error());
            }
            proof {
                lemma_source_valid(self.source);
                lemma_next_boundary_bounds(self.src(), self.at() as int);
            }
            self.set_next_char_boundary();
            k = k + 1;
        }
        Ok(self.slice_between(start))
    }

    /// Advances one character at a time until the text starts with `ending`
    /// or the input ends; returns the consumed text, leaving `ending` itself
    /// unconsumed. Running out of input stops the scan, it is not an error.
    pub fn until(&mut self, ending: &str) -> (r: &'source str)
        requires
            old(self).wf(),
        ensures
            final(self).wf(),
            final(self).keeps_text(old(self)),
            final(self).saves() == old(self).saves(),
            final(self).at() == scan_until_at(
                old(self).src(),
                old(self).at() as int,
                seq![ending.spec_bytes()],
            ),
            r.spec_bytes() == old(self).src().subrange(
                old(self).at() as int,
                final(self).at() as int,
            ),
    {
        let ghost lits: Seq<Seq<u8>> = seq![ending.spec_bytes()];
        let start: usize = self.index;
        loop
            invariant
                self.wf(),
                self.keeps_text(old(self)),
                self.saves() == old(self).saves(),
                start == old(self).index,
                start as nat <= self.at(),
                is_char_boundary(self.src(), start as int),
                lits == seq![ending.spec_bytes()],
                scan_until_at(self.src(), self.at() as int, lits) == scan_until_at(
                    old(self).src(),
                    old(self).at() as int,
                    lits,
                ),
            ensures
                self.at() == scan_until_at(old(self).src(), old(self).at() as int, lits),
                self.wf(),
                self.keeps_text(old(self)),
                self.saves() == old(self).saves(),
                start as nat <= self.at(),
                is_char_boundary(self.src(), start as int),
                start == old(self).index,
            decreases self.src().len() - self.at(),
        {
            match self.test(ending) {
                Err(_) => {
                    proof {
                        assert(scan_until_at(self.src(), self.at() as int, lits)
                            == self.at() as int);
                    }
                    break ;
                },
                Ok(true) => {
                    proof {
                        assert(lits[0] == ending.spec_bytes());
                        lemma_first_match(self.src(), self.at() as int, lits);
                        assert(first_match(self.src(), self.at() as int, lits) is Some);
                        assert(scan_until_at(self.src(), self.at() as int, lits)
                            == self.at() as int);
                    }
                    break ;
                },
                Ok(false) => {
                    proof {
                        assert(lits[0] == ending.spec_bytes());
                        lemma_first_match(self.src(), self.at() as int, lits);
                        assert(first_match(self.src(), self.at() as int, lits) is None);
                        lemma_source_valid(self.source);
                        lemma_next_boundary_bounds(self.src(), self.at() as int);
                        assert(scan_until_at(self.src(), self.at() as int, lits)
                            == scan_until_at(
                            self.src(),
                            next_boundary(self.src(), self.at() as int),
                            lits,
                        ));
                    }
                    self.set_next_char_boundary();
                },
            }
        }
        self.slice_between(start)
    }

    /// Like `until`, stopping at the first of several candidate endings.
    pub fn until_any(&mut self, endings: &[&str]) -> (r: &'source str)
        requires
            old(self).wf(),
        ensures
            final(self).wf(),
            final(self).keeps_text(old(self)),
            final(self).saves() == old(self).saves(),
            final(self).at() == scan_until_at(
                old(self).src(),
                old(self).at() as int,
                lit_bytes(endings@),
            ),
            r.spec_bytes() == old(self).src().subrange(
                old(self).at() as int,
                final(self).at() as int,
            ),
    {
        let ghost lits = lit_bytes(endings@);
        let start: usize = self.index;
        loop
            invariant
                self.wf(),
                self.keeps_text(old(self)),
                self.saves() == old(self).saves(),
                start == old(self).index,
                start as nat <= self.at(),
                is_char_boundary(self.src(), start as int),
                lits == lit_bytes(endings@),
                scan_until_at(self.src(), self.at() as int, lits) == scan_until_at(
                    old(self).src(),
                    old(self).at() as int,
                    lits,
                ),
            ensures
                self.at() == scan_until_at(old(self).src(), old(self).at() as int, lits),
                self.wf(),
                self.keeps_text(old(self)),
                self.saves() == old(self).saves(),
                start as nat <= self.at(),
                is_char_boundary(self.src(), start as int),
                start == old(self).index,
            decreases self.src().len() - self.at(),
        {
            if self.is_eof() {
                proof {
                    assert(scan_until_at(self.src(), self.at() as int, lits)
                        == self.at() as int);
                }
                break ;
            }
            match self.test_any(endings) {
                Err(_) => {
                    proof {
                        assert(scan_until_at(self.src(), self.at() as int, lits)
                            == self.at() as int);
                    }
                    break ;
                },
                Ok(true) => {
                    proof {
                        assert(scan_until_at(self.src(), self.at() as int, lits)
                            == self.at() as int);
                    }
                    break ;
                },
                Ok(false) => {
                    proof {
                        lemma_source_valid(self.source);
                        lemma_next_boundary_bounds(self.src(), self.at() as int);
                        assert(scan_until_at(self.src(), self.at() as int, lits)
                            == scan_until_at(
                            self.src(),
                            next_boundary(self.src(), self.at() as int),
                            lits,
                        ));
                    }
                    self.set_next_char_boundary();
                },
            }
        }
        self.slice_between(start)
    }

    /// Like `until_any`, but at each step first consumes every literal in
    /// `exceptions` (escape sequences) in order before testing for an
    /// ending, so an escaped occurrence of a delimiter never ends the scan.
    /// If the input ends while consuming exceptions the scan stops there.
    pub fn until_including(&mut self, endings: &[&str], exceptions: &[&str]) -> (r: &'source str)
        requires
            old(self).wf(),
        ensures
            final(self).wf(),
            final(self).keeps_text(old(self)),
            final(self).saves() == old(self).saves(),
            final(self).at() == scan_until_incl_at(
                old(self).src(),
                old(self).at() as int,
                lit_bytes(endings@),
                lit_bytes(exceptions@),
            ),
            r.spec_bytes() == old(self).src().subrange(
                old(self).at() as int,
                final(self).at() as int,
            ),
    {
        let ghost ends = lit_bytes(endings@);
        let ghost excs = lit_bytes(exceptions@);
        let start: usize = self.index;
        loop
            invariant_except_break
                scan_until_incl_at(self.src(), self.at() as int, ends, excs)
                    == scan_until_incl_at(old(self).src(), old(self).at() as int, ends, excs),
            invariant
                self.wf(),
                self.keeps_text(old(self)),
                self.saves() == old(self).saves(),
                start == old(self).index,
                start as nat <= self.at(),
                is_char_boundary(self.src(), start as int),
                ends == lit_bytes(endings@),
                excs == lit_bytes(exceptions@),
            ensures
                self.at() == scan_until_incl_at(
                    old(self).src(),
                    old(self).at() as int,
                    ends,
                    excs,
                ),
                self.wf(),
                self.keeps_text(old(self)),
                self.saves() == old(self).saves(),
                start as nat <= self.at(),
                is_char_boundary(self.src(), start as int),
                start == old(self).index,
            decreases self.src().len() - self.at(),
        {
            let ghost round = *self;
            let mut k: usize = 0;
            let mut ended = false;
            proof {
                assert(excs.skip(0) =~= excs);
            }
            while k < exceptions.len() && !ended
                invariant
                    self.wf(),
                    self.keeps_text(old(self)),
                    self.saves() == old(self).saves(),
                    round.at() <= self.at(),
                    round.keeps_text(old(self)),
                    k <= exceptions@.len(),
                    excs == lit_bytes(exceptions@),
                    !ended ==> eat_exceptions(self.src(), round.at() as int, excs)
                        == eat_exceptions(self.src(), self.at() as int, excs.skip(k as int)),
                    ended ==> eat_exceptions(self.src(), round.at() as int, excs)
                        == (self.at() as int, true) && self.at() == self.src().len(),
                decreases exceptions@.len() - k, (if ended { 0int } else { 1int }),
            {
                proof {
                    assert(excs.skip(k as int).len() > 0);
                    assert(excs.skip(k as int)[0] == excs[k as int]);
                    assert(excs[k as int] == exceptions@[k as int].spec_bytes());
                    assert(excs.skip(k as int).drop_first() =~= excs.skip(k + 1));
                }
                let ghost before = *self;
                match self.consume_if(exceptions[k]) {
                    Err(_) => {
                        proof {
                            assert(eat_exceptions(self.src(), self.at() as int, excs.skip(k as int))
                                == (self.at() as int, true));
                        }
                        ended = true;
                    },
                    Ok(true) => {
                        proof {
                            assert(eat_exceptions(self.src(), before.at() as int, excs.skip(k as int))
                                == eat_exceptions(self.src(), self.at() as int, excs.skip(k + 1)));
                        }
                        k = k + 1;
                    },
                    Ok(false) => {
                        proof {
                            assert(eat_exceptions(self.src(), before.at() as int, excs.skip(k as int))
                                == eat_exceptions(self.src(), self.at() as int, excs.skip(k + 1)));
                        }
                        k = k + 1;
                    },
                }
            }
            if ended {
                proof {
                    assert(scan_until_incl_at(self.src(), round.at() as int, ends, excs)
                        == self.at() as int);
                }
                break ;
            }
            proof {
                assert(excs.skip(exceptions@.len() as int) =~= Seq::<Seq<u8>>::empty());
                assert(eat_exceptions(self.src(), round.at() as int, excs) == (
                self.at() as int,
                false,
                ));
            }
            if self.is_eof() {
                proof {
                    assert(scan_until_incl_at(self.src(), round.at() as int, ends, excs)
                        == self.at() as int);
                }
                break ;
            }
            match self.test_any(endings) {
                Err(_) => {
                    break ;
                },
                Ok(true) => {
                    proof {
                        assert(scan_until_incl_at(self.src(), round.at() as int, ends, excs)
                            == self.at() as int);
                    }
                    break ;
                },
                Ok(false) => {
                    proof {
                        lemma_source_valid(self.source);
                        lemma_next_boundary_bounds(self.src(), self.at() as int);
                        assert(scan_until_incl_at(self.src(), round.at() as int, ends, excs)
                            == scan_until_incl_at(
                            self.src(),
                            next_boundary(self.src(), self.at() as int),
                            ends,
                            excs,
                        ));
                    }
                    self.set_next_char_boundary();
                },
            }
        }
        self.slice_between(start)
    }

    /// Repeatedly consumes any of `options` (first match wins each round)
    /// until none matches or the input ends; returns the consumed text. The
    /// literals must be non-empty.
    pub fn while_any(&mut self, options: &[&str]) -> (r: &'source str)
        requires
            old(self).wf(),
            nonempty_lits(lit_bytes(options@)),
        ensures
            final(self).wf(),
            final(self).keeps_text(old(self)),
            final(self).saves() == old(self).saves(),
            final(self).at() == scan_while_at(
                old(self).src(),
                old(self).at() as int,
                lit_bytes(options@),
            ),
            r.spec_bytes() == old(self).src().subrange(
                old(self).at() as int,
                final(self).at() as int,
            ),
    {
        let ghost lits = lit_bytes(options@);
        let start: usize = self.index;
        loop
            invariant
                self.wf(),
                self.keeps_text(old(self)),
                self.saves() == old(self).saves(),
                start == old(self).index,
                start as nat <= self.at(),
                is_char_boundary(self.src(), start as int),
                nonempty_lits(lits),
                lits == lit_bytes(options@),
                scan_while_at(self.src(), self.at() as int, lits) == scan_while_at(
                    old(self).src(),
                    old(self).at() as int,
                    lits,
                ),
            ensures
                self.at() == scan_while_at(old(self).src(), old(self).at() as int, lits),
                self.wf(),
                self.keeps_text(old(self)),
                self.saves() == old(self).saves(),
                start as nat <= self.at(),
                is_char_boundary(self.src(), start as int),
                start == old(self).index,
            decreases self.src().len() - self.at(),
        {
            let ghost pre = *self;
            match self.then_any(options) {
                Ok(true) => {
                    proof {
                        lemma_first_match(pre.src(), pre.at() as int, lits);
                        assert(scan_while_at(pre.src(), pre.at() as int, lits) == scan_while_at(
                            self.src(),
                            self.at() as int,
                            lits,
                        ));
                    }
                },
                Ok(false) => {
                    proof {
                        assert(scan_while_at(pre.src(), pre.at() as int, lits)
                            == pre.at() as int);
                    }
                    break ;
                },
                Err(_) => {
                    proof {
                        assert(scan_while_at(pre.src(), pre.at() as int, lits)
                            == pre.at() as int);
                    }
                    break ;
                },
            }
        }
        self.slice_between(start)
    }

    /// Scans the pattern `item (delimiter item)*`: each round consumes one
    /// item (the first matching of `options`), then one delimiter; the scan
    /// stops after an item with no delimiter, and falls back to the position
    /// right after the last committed item when no item matches. Returns the
    /// consumed text. The literals must be non-empty.
    pub fn while_any_delimited(&mut self, options: &[&str], delimiters: &[&str]) -> (r:
        &'source str)
        requires
            old(self).wf(),
            nonempty_lits(lit_bytes(options@)),
            nonempty_lits(lit_bytes(delimiters@)),
        ensures
            final(self).wf(),
            final(self).keeps_text(old(self)),
            final(self).saves() == old(self).saves(),
            final(self).at() == scan_delimited_at(
                old(self).src(),
                old(self).at() as int,
                old(self).at() as int,
                0,
                lit_bytes(options@),
                lit_bytes(delimiters@),
                usize::MAX as nat,
            ),
            r.spec_bytes() == old(self).src().subrange(
                old(self).at() as int,
                final(self).at() as int,
            ),
    {
        self.while_any_delimited_counted(options, delimiters, usize::MAX)
    }

    /// Like `while_any_delimited`, honouring at most `max_delimiters`
    /// delimiters: once that many have been consumed, the scan stops right
    /// after the item that follows the last one.
    pub fn while_any_delimited_counted(
        &mut self,
        options: &[&str],
        delimiters: &[&str],
        max_delimiters: usize,
    ) -> (r: &'source str)
        requires
            old(self).wf(),
            nonempty_lits(lit_bytes(options@)),
            nonempty_lits(lit_bytes(delimiters@)),
        ensures
            final(self).wf(),
            final(self).keeps_text(old(self)),
            final(self).saves() == old(self).saves(),
            final(self).at() == scan_delimited_at(
                old(self).src(),
                old(self).at() as int,
                old(self).at() as int,
                0,
                lit_bytes(options@),
                lit_bytes(delimiters@),
                max_delimiters as nat,
            ),
            r.spec_bytes() == old(self).src().subrange(
                old(self).at() as int,
                final(self).at() as int,
            ),
    {
        let ghost items = lit_bytes(options@);
        let ghost delims = lit_bytes(delimiters@);
        let start: usize = self.index;
        let mut marker: usize = self.index;
        let mut count: usize = 0;
        loop
            invariant_except_break
                scan_delimited_at(
                    self.src(),
                    self.at() as int,
                    marker as int,
                    count as nat,
                    items,
                    delims,
                    max_delimiters as nat,
                ) == scan_delimited_at(
                    old(self).src(),
                    old(self).at() as int,
                    old(self).at() as int,
                    0,
                    items,
                    delims,
                    max_delimiters as nat,
                ),
            invariant
                self.wf(),
                self.keeps_text(old(self)),
                self.saves() == old(self).saves(),
                start == old(self).index,
                start as nat <= marker as nat <= self.at(),
                is_char_boundary(self.src(), start as int),
                is_char_boundary(self.src(), marker as int),
                count <= max_delimiters,
                nonempty_lits(items),
                nonempty_lits(delims),
                items == lit_bytes(options@),
                delims == lit_bytes(delimiters@),
            ensures
                self.at() == scan_delimited_at(
                    old(self).src(),
                    old(self).at() as int,
                    old(self).at() as int,
                    0,
                    items,
                    delims,
                    max_delimiters as nat,
                ),
                self.wf(),
                self.keeps_text(old(self)),
                self.saves() == old(self).saves(),
                start as nat <= self.at(),
                is_char_boundary(self.src(), start as int),
                start == old(self).index,
            decreases self.src().len() - self.at(),
        {
            let ghost pre = *self;
            let ghost m0 = marker;
            let ghost c0 = count;
            let matched_item = match self.then_any(options) {
                Ok(true) => true,
                _ => false,
            };
            proof {
                lemma_first_match(pre.src(), pre.at() as int, items);
                if !matched_item {
                    assert(first_match(pre.src(), pre.at() as int, items) is None);
                    assert(self.at() == pre.at());
                }
            }
            if count >= max_delimiters {
                proof {
                    assert(scan_delimited_at(
                        pre.src(),
                        pre.at() as int,
                        m0 as int,
                        c0 as nat,
                        items,
                        delims,
                        max_delimiters as nat,
                    ) == self.at() as int);
                }
                break ;
            }
            if !matched_item {
                proof {
                    assert(scan_delimited_at(
                        pre.src(),
                        pre.at() as int,
                        m0 as int,
                        c0 as nat,
                        items,
                        delims,
                        max_delimiters as nat,
                    ) == m0 as int);
                }
                self.index = marker;
                proof {
                    lemma_stack_wf_same(*old(self), *self);
                }
                break ;
            }
            marker = self.index;
            let ghost pre2 = *self;
            match self.then_any(delimiters) {
                Ok(true) => {
                    proof {
                        lemma_first_match(pre2.src(), pre2.at() as int, delims);
                        assert(scan_delimited_at(
                            pre.src(),
                            pre.at() as int,
                            m0 as int,
                            c0 as nat,
                            items,
                            delims,
                            max_delimiters as nat,
                        ) == scan_delimited_at(
                            self.src(),
                            self.at() as int,
                            pre2.at() as int,
                            (c0 + 1) as nat,
                            items,
                            delims,
                            max_delimiters as nat,
                        ));
                    }
                    count = count + 1;
                },
                Ok(false) => {
                    proof {
                        assert(scan_delimited_at(
                            pre.src(),
                            pre.at() as int,
                            m0 as int,
                            c0 as nat,
                            items,
                            delims,
                            max_delimiters as nat,
                        ) == self.at() as int);
                    }
                    break ;
                },
                Err(_) => {
                    proof {
                        lemma_first_match(pre2.src(), pre2.at() as int, delims);
                        assert(scan_delimited_at(
                            pre.src(),
                            pre.at() as int,
                            m0 as int,
                            c0 as nat,
                            items,
                            delims,
                            max_delimiters as nat,
                        ) == self.at() as int);
                    }
                    break ;
                },
            }
        }
        self.slice_between(start)
    }

    /// Begins a transactional sub-scan: the current offset is saved and will
    /// be restored unless the returned checkpoint is resolved with `finish`.
    pub fn subparser(&mut self) -> (g: GenericSubParser)
        requires
            old(self).wf(),
        ensures
            final(self).wf(),
            final(self).keeps_text(old(self)),
            final(self).at() == old(self).at(),
            final(self).saves() == old(self).saves().push(g.saved_offset()),
            g.saved_offset() as nat == old(self).at(),
            g.stack_below() == old(self).saves(),
    {
        GenericSubParser::new(self)
    }
}

/// A transactional sub-scan over a cursor: created by saving the cursor's
/// offset on its checkpoint stack, and resolved exactly once, either by
/// `finish` (keep the progress) or by `finish_error` (roll the offset back
/// to the saved value). Checkpoints must be resolved innermost first.
pub struct GenericSubParser {
    saved: Ghost<usize>,
    below: Ghost<Seq<usize>>,
}

impl GenericSubParser {
    /// The offset saved when this checkpoint was created.
    pub closed spec fn saved_offset(&self) -> usize {
        self.saved@
    }

    /// The checkpoint stack as it stood below this checkpoint's entry.
    pub closed spec fn stack_below(&self) -> Seq<usize> {
        self.below@
    }

    /// True while this checkpoint's entry is the innermost unresolved one of
    /// `parent`: the only state it may be resolved in.
    pub open spec fn open_on<'source, Kind>(&self, parent: &GenericParser<'source, Kind>) -> bool {
        parent.saves() == self.stack_below().push(self.saved_offset())
    }

    /// Creates a checkpoint on `parent`, saving its current offset.
    pub fn new<'source, Kind>(parent: &mut GenericParser<'source, Kind>) -> (g: Self)
        requires
            old(parent).wf(),
        ensures
            final(parent).wf(),
            final(parent).keeps_text(old(parent)),
            final(parent).at() == old(parent).at(),
            final(parent).saves() == old(parent).saves().push(g.saved_offset()),
            g.saved_offset() as nat == old(parent).at(),
            g.stack_below() == old(parent).saves(),
            g.open_on(final(parent)),
    {
        let ghost below = parent.stack@;
        let saved = parent.index;
        parent.stack.push(saved);
        proof {
            assert forall|i: int| 0 <= i < parent.saves().len() implies (
            #[trigger] parent.saves()[i] as nat) <= parent.src().len() && is_char_boundary(
                parent.src(),
                parent.saves()[i] as int,
            ) by {
                if i < parent.saves().len() - 1 {
                    assert(parent.saves()[i] == old(parent).saves()[i]);
                } else {
                    assert(parent.saves()[i] == saved);
                }
            }
        }
        GenericSubParser { saved: Ghost(saved), below: Ghost(below) }
    }

    /// Commits the sub-scan: the saved entry is discarded and the offset
    /// stays exactly where it was at the call.
    pub fn finish<'source, Kind>(self, parent: &mut GenericParser<'source, Kind>)
        requires
            old(parent).wf(),
            self.open_on(old(parent)),
        ensures
            final(parent).wf(),
            final(parent).keeps_text(old(parent)),
            final(parent).at() == old(parent).at(),
            final(parent).saves() == self.stack_below(),
    {
        let _ = parent.stack.pop();
        proof {
            assert(parent.saves() =~= self.stack_below());
            assert forall|i: int| 0 <= i < parent.saves().len() implies ((
            #[trigger] parent.saves()[i] as nat) <= parent.src().len() && is_char_boundary(
                parent.src(),
                parent.saves()[i] as int,
            )) by {
                assert(parent.saves()[i] == old(parent).saves()[i]);
            }
        }
    }

    /// Abandons the sub-scan: the saved entry is popped and the cursor's
    /// offset rolls back to it, undoing everything consumed since `new`.
    pub fn finish_error<'source, Kind>(self, parent: &mut GenericParser<'source, Kind>)
        requires
            old(parent).wf(),
            self.open_on(old(parent)),
        ensures
            final(parent).wf(),
            final(parent).keeps_text(old(parent)),
            final(parent).at() == self.saved_offset() as nat,
            final(parent).saves() == self.stack_below(),
    {
        match parent.stack.pop() {
            Some(i) => {
                parent.index = i;
            },
            None => {},
        }
        proof {
            assert(parent.saves() =~= self.stack_below());
            assert(old(parent).saves()[old(parent).saves().len() - 1] == self.saved_offset());
            assert forall|i: int| 0 <= i < parent.saves().len() implies ((
            #[trigger] parent.saves()[i] as nat) <= parent.src().len() && is_char_boundary(
                parent.src(),
                parent.saves()[i] as int,
            )) by {
                assert(parent.saves()[i] == old(parent).saves()[i]);
            }
        }
    }
}

/// A cursor whose saved offsets and source bytes match a well-formed one has
/// a well-formed stack too.
pub proof fn lemma_stack_wf_same<'source, Kind>(
    a: GenericParser<'source, Kind>,
    b: GenericParser<'source, Kind>,
)
    requires
        a.stack_wf(),
        b.saves() == a.saves(),
        b.src() == a.src(),
    ensures
        b.stack_wf(),
{
    assert forall|i: int| 0 <= i < b.saves().len() implies ((#[trigger] b.saves()[i] as nat)
        <= b.src().len() && is_char_boundary(b.src(), b.saves()[i] as int)) by {
        assert(b.saves()[i] == a.saves()[i]);
        assert(a.saves()[i] as nat <= a.src().len());
        assert(is_char_boundary(a.src(), a.saves()[i] as int));
    }
}

/// Checkpoint rollback: however many operations ran between creating a
/// checkpoint on a cursor and abandoning it, as long as they kept the
/// checkpoint stack as the cursor's primitives do, abandoning it restores
/// the offset the cursor had when the checkpoint was created, and the stack
/// below it.
pub proof fn lemma_checkpoint_rollback<'source, Kind>(
    g: GenericSubParser,
    before: GenericParser<'source, Kind>,
    during: GenericParser<'source, Kind>,
    after: GenericParser<'source, Kind>,
)
    requires
        // the checkpoint was created on `before`:
        g.saved_offset() as nat == before.at(),
        g.stack_below() == before.saves(),
        // the operations run in between kept the checkpoint stack:
        during.saves() == before.saves().push(g.saved_offset()),
        // `after` is what `finish_error` ensures of `during`:
        after.at() == g.saved_offset() as nat,
        after.saves() == g.stack_below(),
    ensures
        after.at() == before.at(),
        after.saves() == before.saves(),
{
}

/// Checkpoint commit: committing never moves the offset, and pops exactly
/// the entry the checkpoint pushed, leaving the stack below untouched.
pub proof fn lemma_checkpoint_commit<'source, Kind>(
    g: GenericSubParser,
    before: GenericParser<'source, Kind>,
    during: GenericParser<'source, Kind>,
    after: GenericParser<'source, Kind>,
)
    requires
        g.stack_below() == before.saves(),
        during.saves() == before.saves().push(g.saved_offset()),
        // `after` is what `finish` ensures of `during`:
        after.at() == during.at(),
        after.saves() == g.stack_below(),
    ensures
        after.at() == during.at(),
        after.saves() == before.saves(),
{
}

/// Non-consuming tests are idempotent: `test` takes the cursor immutably, so
/// the offset cannot change, and its contract pins the outcome as a function
/// of the cursor state and the literal alone: any two calls on the same
/// state return the same answer, or identical end-of-input diagnostics.
pub proof fn lemma_test_idempotent<'source, Kind: EOFErrorKind>(
    p: GenericParser<'source, Kind>,
    s: &str,
    r1: Result<bool, Error<'source, Kind>>,
    r2: Result<bool, Error<'source, Kind>>,
)
    requires
        match r1 {
            Ok(b) => p.at() < p.src().len() && b == matches_at(
                p.src(),
                p.at() as int,
                s.spec_bytes(),
            ),
            Err(e) => p.at() == p.src().len() && p.is_eof_error(e),
        },
        match r2 {
            Ok(b) => p.at() < p.src().len() && b == matches_at(
                p.src(),
                p.at() as int,
                s.spec_bytes(),
            ),
            Err(e) => p.at() == p.src().len() && p.is_eof_error(e),
        },
    ensures
        match (r1, r2) {
            (Ok(b1), Ok(b2)) => b1 == b2,
            (Err(e1), Err(e2)) => e1.line_start == e2.line_start && e1.line_end == e2.line_end
                && e1.column_start == e2.column_start && e1.column_end == e2.column_end && e1.kind
                == e2.kind && e1.filename == e2.filename && e1.important == e2.important
                && e1.suberrors@ =~= e2.suberrors@,
            _ => false,
        },
{
}

/// The offset never leaves a character boundary: every operation preserves
/// well-formedness, and a well-formed cursor's offset is a boundary of its
/// source, whatever mix of one- to four-byte characters the text holds.
pub proof fn lemma_offset_on_boundary<'source, Kind>(p: GenericParser<'source, Kind>)
    requires
        p.wf(),
    ensures
        is_char_boundary(p.src(), p.at() as int),
        p.at() <= p.src().len(),
{
}

} // verus!

