//! Decoder for the semicolon-delimited `class`/array configuration text
//! format used by simulation engine tooling: `Key = Value;` statements,
//! `Key[] = { v1, v2, ... };` array fields and nested
//! `class Name { ... };` blocks.
//!
//! The decoder is a single left-to-right pass over the input. A
//! [`Deserializer`] owns the cursor; the scalar lexeme readers
//! (`parse_bool`, `parse_unsigned`, `parse_string`, ...) consume one token
//! each; [`CommaSeparated`](array::CommaSeparated) walks an array body
//! element by element and [`ArmaClass`](class::ArmaClass) walks a class
//! body statement by statement. `parse_value` dispatches on one character
//! of lookahead when no expected shape is declared, and [`from_str`]
//! decodes a whole document into a [`Value`](value::Value) tree.
//!
//! Every grammar rule is stated as a spec function over `Seq<char>` in
//! [`grammar`], and each executable function's contract ties it to the
//! corresponding spec function, error kinds included.

pub mod array;
pub mod class;
pub mod error;
pub mod grammar;
pub mod value;

use vstd::prelude::*;
use vstd::string::StrSliceExecFns;

use crate::array::CommaSeparated;
use crate::class::ArmaClass;
use crate::error::DecodeError;
use crate::value::{fields_model, lemma_fields_model_push, lemma_vals_model_push, vals_model,
    Value, ValueModel};
use crate::grammar::{
    begins_with, dec_val, digit_val, false_chars, find_stop, is_digit, is_token_end, is_ws,
    join_chars, lemma_dec_val_prefix, lemma_dec_val_step, lemma_end_ws_count, lemma_find_stop,
    lemma_prepend_elements_assoc, lemma_prepend_elements_empty, lemma_prepend_fields_assoc,
    lemma_prepend_fields_empty, lemma_prepend_scan_assoc, lemma_prepend_scan_empty,
    lemma_scan_quoted_rest, lemma_ws_count, null_chars, parse_array_tail_s, parse_bool_s,
    parse_class_items_s, parse_document_s, parse_elements_s, parse_float_s, parse_key_s,
    parse_null_s, parse_signed_s, parse_string_s, parse_unsigned_s, parse_value_s, prepend_elements,
    prepend_fields, prepend_scan, scan_quoted, sign_stripped, skip_ws, token_len, tok_stop,
    eq_stop, name_stop, bracket_stop, trim, true_chars, ws_count, end_ws_count,
    all_digits,
};

verus! {

/// Relies on `String::push`: it appends exactly the given character to
/// the string.
pub assume_specification[ String::push ](s: &mut String, c: char)
    ensures
        final(s)@ == old(s)@.push(c),
;

/// Is `c` insignificant whitespace?
pub(crate) fn is_ws_char(c: char) -> (b: bool)
    ensures
        b == is_ws(c),
{
    c == ' ' || c == '\r' || c == '\n' || c == '\t'
}

/// Does `c` end a numeric token?
pub(crate) fn is_token_end_char(c: char) -> (b: bool)
    ensures
        b == is_token_end(c),
{
    c == ';' || c == ',' || c == '}' || is_ws_char(c)
}

/// Is `c` a decimal digit?
pub(crate) fn is_digit_char(c: char) -> (b: bool)
    ensures
        b == is_digit(c),
{
    '0' <= c && c <= '9'
}

/// Cursor over the decoded input: the Unicode scalar values of the text
/// and the position of the next character not yet consumed. The buffer
/// never changes and the position never moves backwards.
pub struct Deserializer {
    chars: Vec<char>,
    pos: usize,
}

impl Deserializer {
    /// The whole input, as it was handed to `from_str`.
    pub closed spec fn buf(self) -> Seq<char> {
        self.chars@
    }

    /// How many characters have been consumed so far.
    pub closed spec fn cursor(self) -> nat {
        self.pos as nat
    }

    /// The cursor never points past the end of the buffer.
    pub open spec fn wf(self) -> bool {
        self.cursor() <= self.buf().len()
    }

    /// The remaining, not yet consumed input.
    pub open spec fn rem(self) -> Seq<char> {
        self.buf().skip(self.cursor() as int)
    }

    /// Builds a cursor over the full text.
    pub fn from_str(input: &str) -> (d: Deserializer)
        ensures
            d.wf(),
            d.buf() == input@,
            d.cursor() == 0,
    {
        let n = input.unicode_len();
        let mut chars: Vec<char> = Vec::new();
        let mut i: usize = 0;
        while i < n
            invariant
                i <= n,
                n == input@.len(),
                chars@ =~= input@.take(i as int),
            decreases n - i,
        {
            chars.push(input.get_char(i));
            i += 1;
        }
        proof {
            assert(chars@ =~= input@);
        }
        Deserializer { chars, pos: 0 }
    }

    /// Looks at the next character without consuming it; `UnexpectedEof`
    /// when the input is exhausted.
    pub fn peek_char(&self) -> (r: Result<char, DecodeError>)
        requires
            self.wf(),
        ensures
            match r {
                Ok(c) => self.rem().len() > 0 && c == self.rem()[0],
                Err(e) => self.rem().len() == 0 && e == DecodeError::UnexpectedEof,
            },
    {
        if self.pos < self.chars.len() {
            Ok(self.chars[self.pos])
        } else {
            Err(DecodeError::UnexpectedEof)
        }
    }

    /// Consumes and returns the next character; `UnexpectedEof` when the
    /// input is exhausted.
    pub fn next_char(&mut self) -> (r: Result<char, DecodeError>)
        requires
            old(self).wf(),
        ensures
            final(self).wf(),
            final(self).buf() == old(self).buf(),
            match r {
                Ok(c) => {
                    &&& old(self).rem().len() > 0
                    &&& c == old(self).rem()[0]
                    &&& final(self).cursor() == old(self).cursor() + 1
                },
                Err(e) => {
                    &&& old(self).rem().len() == 0
                    &&& e == DecodeError::UnexpectedEof
                    &&& final(self).cursor() == old(self).cursor()
                },
            },
    {
        if self.pos < self.chars.len() {
            let c = self.chars[self.pos];
            self.pos = self.pos + 1;
            Ok(c)
        } else {
            Err(DecodeError::UnexpectedEof)
        }
    }

    /// Are at least `k` characters left?
    pub(crate) fn has(&self, k: usize) -> (b: bool)
        requires
            self.wf(),
        ensures
            b == (k <= self.rem().len()),
    {
        k <= self.chars.len() - self.pos
    }

    /// The character `i` places ahead of the cursor.
    pub(crate) fn char_at(&self, i: usize) -> (c: char)
        requires
            self.wf(),
            i < self.rem().len(),
        ensures
            c == self.rem()[i as int],
    {
        let n = self.chars.len();
        proof {
            assert(self.rem().len() == n - self.pos);
        }
        self.chars[self.pos + i]
    }

    /// Consumes `k` characters.
    pub(crate) fn advance(&mut self, k: usize)
        requires
            old(self).wf(),
            k <= old(self).rem().len(),
        ensures
            final(self).wf(),
            final(self).buf() == old(self).buf(),
            final(self).cursor() == old(self).cursor() + k,
            final(self).rem() == old(self).rem().skip(k as int),
    {
        let n = self.chars.len();
        proof {
            assert(old(self).rem().len() == n - self.pos);
        }
        self.pos = self.pos + k;
        proof {
            assert(self.rem() =~= old(self).rem().skip(k as int));
        }
    }

    /// Consumes the insignificant whitespace before the next token.
    pub fn skip_whitespace(&mut self)
        requires
            old(self).wf(),
        ensures
            final(self).wf(),
            final(self).buf() == old(self).buf(),
            old(self).cursor() <= final(self).cursor(),
            final(self).rem() == skip_ws(old(self).rem()),
    {
        let ghost s = self.rem();
        let ghost pos0 = self.cursor();
        while self.pos < self.chars.len() && (self.chars[self.pos] == ' ' || self.chars[self.pos]
            == '\r' || self.chars[self.pos] == '\n' || self.chars[self.pos] == '\t')
            invariant
                self.wf(),
                self.buf() == old(self).buf(),
                pos0 <= self.cursor() <= self.buf().len(),
                s == self.buf().skip(pos0 as int),
                forall|i: int| 0 <= i < self.cursor() - pos0 ==> is_ws(s[i]),
            decreases self.buf().len() - self.cursor(),
        {
            proof {
                assert(self.buf()[self.pos as int] == s[self.cursor() - pos0]);
            }
            self.pos = self.pos + 1;
        }
        proof {
            let k = self.cursor() - pos0;
            if k < s.len() {
                assert(s[k] == self.buf()[self.pos as int]);
            }
            lemma_ws_count(s);
            assert(ws_count(s) == k);
            assert(self.rem() =~= skip_ws(s));
        }
    }

    /// Reads a boolean literal: `true` or `false`.
    pub fn parse_bool(&mut self) -> (r: Result<bool, DecodeError>)
        requires
            old(self).wf(),
        ensures
            final(self).wf(),
            final(self).buf() == old(self).buf(),
            old(self).cursor() <= final(self).cursor(),
            match r {
                Ok(b) => parse_bool_s(old(self).rem()) == Ok::<(bool, Seq<char>), DecodeError>(
                    (b, final(self).rem()),
                ),
                Err(e) => parse_bool_s(old(self).rem()) == Err::<(bool, Seq<char>), DecodeError>(e)
                    && *final(self) == *old(self),
            },
    {
        if self.has(4) && self.char_at(0) == 't' && self.char_at(1) == 'r' && self.char_at(2)
            == 'u' && self.char_at(3) == 'e' {
            proof {
                assert(self.rem().take(4) =~= true_chars());
            }
            self.advance(4);
            Ok(true)
        } else if self.has(5) && self.char_at(0) == 'f' && self.char_at(1) == 'a' && self.char_at(2)
            == 'l' && self.char_at(3) == 's' && self.char_at(4) == 'e' {
            proof {
                assert(self.rem().take(5) =~= false_chars());
            }
            self.advance(5);
            Ok(false)
        } else {
            proof {
                let s = self.rem();
                assert(!begins_with(s, true_chars())) by {
                    if begins_with(s, true_chars()) {
                        assert(s.take(4)[0] == 't' && s.take(4)[1] == 'r' && s.take(4)[2] == 'u'
                            && s.take(4)[3] == 'e');
                    }
                }
                assert(!begins_with(s, false_chars())) by {
                    if begins_with(s, false_chars()) {
                        assert(s.take(5)[0] == 'f' && s.take(5)[1] == 'a' && s.take(5)[2] == 'l'
                            && s.take(5)[3] == 's' && s.take(5)[4] == 'e');
                    }
                }
            }
            Err(DecodeError::ExpectedBoolean)
        }
    }

    /// Reads the literal `null`.
    pub fn parse_null(&mut self) -> (r: Result<(), DecodeError>)
        requires
            old(self).wf(),
        ensures
            final(self).wf(),
            final(self).buf() == old(self).buf(),
            old(self).cursor() <= final(self).cursor(),
            match r {
                Ok(()) => parse_null_s(old(self).rem()) == Ok::<Seq<char>, DecodeError>(
                    final(self).rem(),
                ),
                Err(e) => parse_null_s(old(self).rem()) == Err::<Seq<char>, DecodeError>(e)
                    && *final(self) == *old(self),
            },
    {
        if self.has(4) && self.char_at(0) == 'n' && self.char_at(1) == 'u' && self.char_at(2)
            == 'l' && self.char_at(3) == 'l' {
            proof {
                assert(self.rem().take(4) =~= null_chars());
            }
            self.advance(4);
            Ok(())
        } else {
            proof {
                let s = self.rem();
                assert(!begins_with(s, null_chars())) by {
                    if begins_with(s, null_chars()) {
                        assert(s.take(4)[0] == 'n' && s.take(4)[1] == 'u' && s.take(4)[2] == 'l'
                            && s.take(4)[3] == 'l');
                    }
                }
            }
            Err(DecodeError::ExpectedNull)
        }
    }

    /// Where the numeric token under the cursor ends: the offset of the
    /// first delimiter, or `None` when the input ends first.
    fn scan_token_end(&self) -> (r: Option<usize>)
        requires
            self.wf(),
        ensures
            match r {
                Some(n) => token_len(self.rem()) == Some(n as int) && n < self.rem().len(),
                None => token_len(self.rem()) is None,
            },
    {
        let ghost s = self.rem();
        let cap = self.chars.len();
        proof {
            assert(s.len() <= cap);
        }
        let mut i: usize = 0;
        loop
            invariant
                self.wf(),
                s == self.rem(),
                i <= s.len() <= cap,
                forall|j: int| 0 <= j < i ==> !is_token_end(s[j]),
            decreases s.len() - i,
        {
            if i >= self.chars.len() - self.pos {
                proof {
                    lemma_find_stop(s, tok_stop());
                }
                return None;
            }
            let c = self.char_at(i);
            if is_token_end_char(c) {
                proof {
                    lemma_find_stop(s, tok_stop());
                }
                return Some(i);
            }
            i = i + 1;
        }
    }

    /// Copies the characters `a..b` ahead of the cursor into a fresh
    /// string, consuming nothing.
    fn copy_range_string(&self, a: usize, b: usize) -> (r: String)
        requires
            self.wf(),
            a <= b,
            b <= self.rem().len(),
        ensures
            r@ == self.rem().subrange(a as int, b as int),
    {
        let ghost s = self.rem();
        let mut out = String::new();
        let mut i: usize = a;
        while i < b
            invariant
                self.wf(),
                s == self.rem(),
                a <= i <= b <= s.len(),
                out@ =~= s.subrange(a as int, i as int),
            decreases b - i,
        {
            out.push(self.char_at(i));
            i = i + 1;
            proof {
                assert(out@ =~= s.subrange(a as int, i as int));
            }
        }
        out
    }

    /// Converts the digits `start..n` ahead of the cursor, consuming
    /// nothing; fails when there are none, when one is not a digit, or
    /// when the value exceeds `limit`.
    fn accumulate_digits(&self, start: usize, n: usize, limit: u64) -> (r: Result<
        u64,
        DecodeError,
    >)
        requires
            self.wf(),
            start <= n <= self.rem().len(),
            10 <= limit,
        ensures
            ({
                let d = self.rem().subrange(start as int, n as int);
                match r {
                    Ok(v) => all_digits(d) && d.len() > 0 && dec_val(d) == v && v <= limit,
                    Err(e) => e == DecodeError::ExpectedInteger && !(d.len() > 0 && all_digits(d)
                        && dec_val(d) <= limit),
                }
            }),
    {
        let ghost d = self.rem().subrange(start as int, n as int);
        if start == n {
            return Err(DecodeError::ExpectedInteger);
        }
        let mut val: u64 = 0;
        let mut i: usize = start;
        while i < n
            invariant
                self.wf(),
                10 <= limit,
                start <= i <= n <= self.rem().len(),
                d == self.rem().subrange(start as int, n as int),
                val == dec_val(d.take(i - start)),
                val <= limit,
                forall|j: int| 0 <= j < i - start ==> is_digit(d[j]),
            decreases n - i,
        {
            let c = self.char_at(i);
            proof {
                assert(c == d[i - start]);
            }
            if !is_digit_char(c) {
                return Err(DecodeError::ExpectedInteger);
            }
            let digit: u64 = (c as u32 - '0' as u32) as u64;
            proof {
                assert('0' as u32 <= c as u32 <= '9' as u32);
                assert(digit <= 9);
                assert(digit == digit_val(d[i - start]));
                lemma_dec_val_step(d, i - start);
            }
            if val > (limit - digit) / 10 {
                proof {
                    lemma_dec_val_prefix(d, i - start + 1);
                }
                return Err(DecodeError::ExpectedInteger);
            }
            val = val * 10 + digit;
            i = i + 1;
        }
        proof {
            assert(d.take(n - start) =~= d);
        }
        Ok(val)
    }

    /// Reads an unsigned integer: the token up to the next delimiter,
    /// converted; `ExpectedInteger` when the token is not a decimal
    /// number or does not fit.
    pub fn parse_unsigned(&mut self) -> (r: Result<u64, DecodeError>)
        requires
            old(self).wf(),
        ensures
            final(self).wf(),
            final(self).buf() == old(self).buf(),
            old(self).cursor() <= final(self).cursor(),
            match r {
                Ok(v) => parse_unsigned_s(old(self).rem()) == Ok::<(u64, Seq<char>), DecodeError>(
                    (v, final(self).rem()),
                ),
                Err(e) => parse_unsigned_s(old(self).rem()) == Err::<(u64, Seq<char>), DecodeError>(
                    e,
                ) && *final(self) == *old(self),
            },
    {
        let ghost s = self.rem();
        let n = match self.scan_token_end() {
            None => {
                return Err(DecodeError::UnexpectedEof);
            },
            Some(n) => n,
        };
        let ghost tok = s.take(n as int);
        if n > 0 && self.char_at(0) == '-' {
            return Err(DecodeError::ExpectedInteger);
        }
        let start: usize = if n > 0 && self.char_at(0) == '+' {
            1
        } else {
            0
        };
        proof {
            if n > 0 && tok[0] == '+' {
                assert(tok.drop_first() =~= s.subrange(start as int, n as int));
            } else {
                assert(tok =~= s.subrange(start as int, n as int));
            }
        }
        match self.accumulate_digits(start, n, u64::MAX) {
            Ok(v) => {
                self.advance(n);
                Ok(v)
            },
            Err(e) => Err(e),
        }
    }

    /// Reads a signed integer, as `parse_unsigned`; a leading `-`
    /// negates, and the value must fit a 64-bit signed integer.
    pub fn parse_signed(&mut self) -> (r: Result<i64, DecodeError>)
        requires
            old(self).wf(),
        ensures
            final(self).wf(),
            final(self).buf() == old(self).buf(),
            old(self).cursor() <= final(self).cursor(),
            match r {
                Ok(v) => parse_signed_s(old(self).rem()) == Ok::<(i64, Seq<char>), DecodeError>(
                    (v, final(self).rem()),
                ),
                Err(e) => parse_signed_s(old(self).rem()) == Err::<(i64, Seq<char>), DecodeError>(
                    e,
                ) && *final(self) == *old(self),
            },
    {
        let ghost s = self.rem();
        let n = match self.scan_token_end() {
            None => {
                return Err(DecodeError::UnexpectedEof);
            },
            Some(n) => n,
        };
        let ghost tok = s.take(n as int);
        let negative = n > 0 && self.char_at(0) == '-';
        let start: usize = if n > 0 && (self.char_at(0) == '+' || self.char_at(0) == '-') {
            1
        } else {
            0
        };
        proof {
            if start == 1 {
                assert(tok.drop_first() =~= s.subrange(start as int, n as int));
            } else {
                assert(tok =~= s.subrange(start as int, n as int));
            }
            assert(sign_stripped(tok) == s.subrange(start as int, n as int));
        }
        let limit: u64 = if negative {
            0x8000_0000_0000_0000
        } else {
            0x7fff_ffff_ffff_ffff
        };
        match self.accumulate_digits(start, n, limit) {
            Ok(v) => {
                self.advance(n);
                if negative {
                    if v == 0x8000_0000_0000_0000 {
                        Ok(i64::MIN)
                    } else {
                        Ok(-(v as i64))
                    }
                } else {
                    Ok(v as i64)
                }
            },
            Err(e) => Err(e),
        }
    }

    /// Reads a float lexeme: the raw token up to the next delimiter.
    /// Conversion is delegated to the host's float parser, outside this
    /// crate.
    pub fn parse_float(&mut self) -> (r: Result<String, DecodeError>)
        requires
            old(self).wf(),
        ensures
            final(self).wf(),
            final(self).buf() == old(self).buf(),
            old(self).cursor() <= final(self).cursor(),
            match r {
                Ok(t) => parse_float_s(old(self).rem()) == Ok::<
                    (Seq<char>, Seq<char>),
                    DecodeError,
                >((t@, final(self).rem())),
                Err(e) => parse_float_s(old(self).rem()) == Err::<
                    (Seq<char>, Seq<char>),
                    DecodeError,
                >(e) && *final(self) == *old(self),
            },
    {
        let n = match self.scan_token_end() {
            None => {
                return Err(DecodeError::UnexpectedEof);
            },
            Some(n) => n,
        };
        let t = self.copy_range_string(0, n);
        proof {
            assert(t@ =~= self.rem().take(n as int));
        }
        self.advance(n);
        Ok(t)
    }

    /// The offset of the first `=` ahead of the cursor, if any.
    fn scan_eq(&self) -> (r: Option<usize>)
        requires
            self.wf(),
        ensures
            match r {
                Some(n) => find_stop(self.rem(), eq_stop()) == Some(n as int) && n
                    < self.rem().len() && self.rem()[n as int] == '=',
                None => find_stop(self.rem(), eq_stop()) is None,
            },
    {
        let ghost s = self.rem();
        let mut i: usize = 0;
        loop
            invariant
                self.wf(),
                s == self.rem(),
                i <= s.len(),
                forall|j: int| 0 <= j < i ==> s[j] != '=',
            decreases s.len() - i,
        {
            if i >= self.chars.len() - self.pos {
                proof {
                    lemma_find_stop(s, eq_stop());
                }
                return None;
            }
            let c = self.char_at(i);
            if c == '=' {
                proof {
                    lemma_find_stop(s, eq_stop());
                }
                return Some(i);
            }
            i = i + 1;
        }
    }

    /// The offset of the first space, newline or `{` ahead of the cursor,
    /// if any: the end of a class name.
    fn scan_name_stop(&self) -> (r: Option<usize>)
        requires
            self.wf(),
        ensures
            match r {
                Some(n) => find_stop(self.rem(), name_stop()) == Some(n as int) && n
                    < self.rem().len(),
                None => find_stop(self.rem(), name_stop()) is None,
            },
    {
        let ghost s = self.rem();
        let mut i: usize = 0;
        loop
            invariant
                self.wf(),
                s == self.rem(),
                i <= s.len(),
                forall|j: int| 0 <= j < i ==> !(s[j] == ' ' || s[j] == '\n' || s[j] == '{'),
            decreases s.len() - i,
        {
            if i >= self.chars.len() - self.pos {
                proof {
                    lemma_find_stop(s, name_stop());
                }
                return None;
            }
            let c = self.char_at(i);
            if c == ' ' || c == '\n' || c == '{' {
                proof {
                    lemma_find_stop(s, name_stop());
                }
                return Some(i);
            }
            i = i + 1;
        }
    }

    /// The bounds of `rem().take(n)` without its surrounding whitespace.
    fn trim_range(&self, n: usize) -> (r: (usize, usize))
        requires
            self.wf(),
            n <= self.rem().len(),
        ensures
            r.0 <= r.1 <= n,
            self.rem().subrange(r.0 as int, r.1 as int) == trim(self.rem().take(n as int)),
    {
        let ghost s = self.rem();
        let ghost t = s.take(n as int);
        let mut a: usize = 0;
        while a < n && is_ws_char(self.char_at(a))
            invariant
                self.wf(),
                s == self.rem(),
                a <= n <= s.len(),
                t == s.take(n as int),
                forall|j: int| 0 <= j < a ==> is_ws(t[j]),
            decreases n - a,
        {
            proof {
                assert(is_ws(t[a as int]));
            }
            a = a + 1;
        }
        let mut b: usize = n;
        while b > a && is_ws_char(self.char_at(b - 1))
            invariant
                self.wf(),
                s == self.rem(),
                a <= b <= n <= s.len(),
                t == s.take(n as int),
                forall|j: int| b <= j < n ==> is_ws(t[j]),
            decreases b,
        {
            proof {
                assert(is_ws(t[b - 1]));
            }
            b = b - 1;
        }
        proof {
            lemma_ws_count(t);
            if a < n {
                assert(t[a as int] == s[a as int]);
            }
            assert(ws_count(t) == a);
            let u = skip_ws(t);
            lemma_end_ws_count(u);
            assert(forall|j: int| 0 <= j < u.len() ==> u[j] == t[a + j]);
            assert forall|j: int| b - a <= j < u.len() implies is_ws(u[j]) by {
                assert(u[j] == t[a + j]);
                assert(is_ws(t[a + j]));
            }
            if b > a {
                assert(u[b - a - 1] == t[b - 1]);
                assert(t[b - 1] == s[b - 1]);
            }
            assert(end_ws_count(u) == n - b);
            assert(self.rem().subrange(a as int, b as int) =~= trim(t));
        }
        (a, b)
    }

    /// Reads the body of a quoted string, the opening quote already
    /// consumed, unescaping `""` and the newline-join marker.
    fn scan_quoted_string(&mut self) -> (r: Result<String, DecodeError>)
        requires
            old(self).wf(),
        ensures
            final(self).wf(),
            final(self).buf() == old(self).buf(),
            old(self).cursor() <= final(self).cursor(),
            match r {
                Ok(t) => scan_quoted(old(self).rem()) == Ok::<(Seq<char>, Seq<char>), DecodeError>(
                    (t@, final(self).rem()),
                ),
                Err(e) => scan_quoted(old(self).rem()) == Err::<(Seq<char>, Seq<char>), DecodeError>(
                    e,
                ),
            },
    {
        let ghost s0 = self.rem();
        let mut out = String::new();
        proof {
            lemma_prepend_scan_empty(scan_quoted(s0));
        }
        loop
            invariant
                self.wf(),
                self.buf() == old(self).buf(),
                old(self).cursor() <= self.cursor(),
                s0 == old(self).rem(),
                scan_quoted(s0) == prepend_scan(out@, scan_quoted(self.rem())),
            decreases self.rem().len(),
        {
            let ghost prev = self.rem();
            let ghost acc = out@;
            let c = match self.next_char() {
                Ok(c) => c,
                Err(e) => {
                    // the string is still open at the end of the input
                    return Err(e);
                },
            };
            if c != '"' {
                out.push(c);
                proof {
                    assert(self.rem() == prev.drop_first());
                    assert(scan_quoted(prev) == prepend_scan(
                        seq![prev[0]],
                        scan_quoted(prev.drop_first()),
                    ));
                    lemma_prepend_scan_assoc(acc, seq![prev[0]], scan_quoted(prev.drop_first()));
                    assert(acc + seq![prev[0]] =~= acc.push(c));
                }
            } else {
                let ghost t = prev.drop_first();
                proof {
                    assert(self.rem() == t);
                }
                if self.has(1) && self.char_at(0) == '"' {
                    self.advance(1);
                    out.push('"');
                    proof {
                        assert(self.rem() == t.drop_first());
                        assert(scan_quoted(prev) == prepend_scan(
                            seq!['"'],
                            scan_quoted(t.drop_first()),
                        ));
                        lemma_prepend_scan_assoc(acc, seq!['"'], scan_quoted(t.drop_first()));
                        assert(acc + seq!['"'] =~= acc.push('"'));
                    }
                } else if self.has(5) && self.char_at(0) == ' ' && self.char_at(1) == '\\'
                    && self.char_at(2) == 'n' && self.char_at(3) == ' ' && self.char_at(4) == '"' {
                    proof {
                        assert(t.take(5) =~= join_chars());
                    }
                    self.advance(5);
                    out.push('\n');
                    proof {
                        assert(self.rem() == t.skip(5));
                        assert(scan_quoted(prev) == prepend_scan(
                            seq!['\n'],
                            scan_quoted(t.skip(5)),
                        ));
                        lemma_prepend_scan_assoc(acc, seq!['\n'], scan_quoted(t.skip(5)));
                        assert(acc + seq!['\n'] =~= acc.push('\n'));
                    }
                } else {
                    // the quote closes the string: it is not doubled and
                    // no join marker follows
                    proof {
                        assert(!(t.len() > 0 && t[0] == '"'));
                        assert(!begins_with(t, join_chars())) by {
                            if begins_with(t, join_chars()) {
                                assert(t.take(5)[0] == ' ' && t.take(5)[1] == '\\' && t.take(5)[2]
                                    == 'n' && t.take(5)[3] == ' ' && t.take(5)[4] == '"');
                            }
                        }
                        assert(scan_quoted(prev) == Ok::<(Seq<char>, Seq<char>), DecodeError>(
                            (Seq::empty(), t),
                        ));
                        assert(acc + Seq::<char>::empty() =~= acc);
                    }
                    return Ok(out);
                }
            }
        }
    }

    /// Reads a string in one of the three modes of the grammar: the name
    /// of a nested class when `class_name` is set, a quoted string when
    /// the input begins with `"`, and a bare key (trimmed, its `[...]`
    /// array marker stripped, the `=` left unconsumed) otherwise.
    pub fn parse_string(&mut self, class_name: bool) -> (r: Result<String, DecodeError>)
        requires
            old(self).wf(),
        ensures
            final(self).wf(),
            final(self).buf() == old(self).buf(),
            old(self).cursor() <= final(self).cursor(),
            match r {
                Ok(t) => parse_string_s(old(self).rem(), class_name) == Ok::<
                    (Seq<char>, Seq<char>),
                    DecodeError,
                >((t@, final(self).rem())),
                Err(e) => parse_string_s(old(self).rem(), class_name) == Err::<
                    (Seq<char>, Seq<char>),
                    DecodeError,
                >(e),
            },
    {
        let ghost s = self.rem();
        if class_name {
            let n = match self.scan_name_stop() {
                None => {
                    return Err(DecodeError::UnexpectedEof);
                },
                Some(n) => n,
            };
            let (a, b) = self.trim_range(n);
            let name = self.copy_range_string(a, b);
            self.advance(n);
            Ok(name)
        } else if !self.has(1) {
            Err(DecodeError::UnexpectedEof)
        } else if self.char_at(0) == '"' {
            self.advance(1);
            proof {
                assert(self.rem() == s.drop_first());
            }
            self.scan_quoted_string()
        } else {
            self.read_bare_key()
        }
    }

    /// Reads a bare key: the text up to the terminating `=`, trimmed,
    /// with a trailing `[...]` array marker stripped. The `=` itself is
    /// left unconsumed.
    pub(crate) fn read_bare_key(&mut self) -> (r: Result<String, DecodeError>)
        requires
            old(self).wf(),
        ensures
            final(self).wf(),
            final(self).buf() == old(self).buf(),
            old(self).cursor() <= final(self).cursor(),
            match r {
                Ok(k) => parse_key_s(old(self).rem()) == Ok::<(Seq<char>, Seq<char>), DecodeError>(
                    (k@, final(self).rem()),
                ),
                Err(e) => parse_key_s(old(self).rem()) == Err::<(Seq<char>, Seq<char>), DecodeError>(
                    e,
                ),
            },
    {
        let ghost s = self.rem();
        let n = match self.scan_eq() {
            None => {
                return Err(DecodeError::UnexpectedEof);
            },
            Some(n) => n,
        };
        let (a, b) = self.trim_range(n);
        let ghost t = trim(s.take(n as int));
        let mut e: usize = a;
        while e < b && self.char_at(e) != '['
            invariant
                self.wf(),
                s == self.rem(),
                a <= e <= b <= n <= s.len(),
                t == s.subrange(a as int, b as int),
                forall|j: int| 0 <= j < e - a ==> t[j] != '[',
            decreases b - e,
        {
            proof {
                assert(t[e - a] == s[e as int]);
            }
            e = e + 1;
        }
        let key = self.copy_range_string(a, e);
        proof {
            lemma_find_stop(t, bracket_stop());
            assert(key@ =~= t.take(e - a));
            if e < b {
                assert(t[e - a] == s[e as int]);
                assert(find_stop(t, bracket_stop()) == Some(e - a));
            } else {
                assert(find_stop(t, bracket_stop()) is None);
                assert(t.take(e - a) =~= t);
            }
        }
        self.advance(n);
        Ok(key)
    }

    /// Consumes the optional `{` that may wrap a whole document's body,
    /// as the top-level decode does before walking the body's statements.
    pub fn begin_struct(&mut self)
        requires
            old(self).wf(),
        ensures
            final(self).wf(),
            final(self).buf() == old(self).buf(),
            old(self).cursor() <= final(self).cursor(),
            final(self).rem() == (if old(self).rem().len() > 0 && old(self).rem()[0] == '{' {
                old(self).rem().drop_first()
            } else {
                old(self).rem()
            }),
    {
        if self.has(1) && self.char_at(0) == '{' {
            let ghost s = self.rem();
            self.advance(1);
            proof {
                assert(self.rem() =~= s.drop_first());
            }
        }
    }

    /// Consumes the opening `{` of an array body; `ExpectedArray` when
    /// the next character is something else.
    pub fn begin_array(&mut self) -> (r: Result<(), DecodeError>)
        requires
            old(self).wf(),
        ensures
            final(self).wf(),
            final(self).buf() == old(self).buf(),
            old(self).cursor() <= final(self).cursor(),
            match r {
                Ok(()) => old(self).rem().len() > 0 && old(self).rem()[0] == '{' && final(self).rem() == old(self).rem().drop_first(),
                Err(e) => if old(self).rem().len() == 0 {
                    e == DecodeError::UnexpectedEof && final(self).cursor() == old(self).cursor()
                } else {
                    old(self).rem()[0] != '{' && e == DecodeError::ExpectedArray
                },
            },
    {
        match self.next_char() {
            Err(e) => Err(e),
            Ok(c) => {
                proof {
                    assert(self.rem() =~= old(self).rem().drop_first());
                }
                if c == '{' {
                    Ok(())
                } else {
                    Err(DecodeError::ExpectedArray)
                }
            },
        }
    }

    /// Consumes the closing `}` of an array body; `ExpectedArrayEnd`
    /// when the next character is something else.
    pub fn end_array(&mut self) -> (r: Result<(), DecodeError>)
        requires
            old(self).wf(),
        ensures
            final(self).wf(),
            final(self).buf() == old(self).buf(),
            old(self).cursor() <= final(self).cursor(),
            match r {
                Ok(()) => old(self).rem().len() > 0 && old(self).rem()[0] == '}' && final(self).rem() == old(self).rem().drop_first(),
                Err(e) => if old(self).rem().len() == 0 {
                    e == DecodeError::UnexpectedEof && final(self).cursor() == old(self).cursor()
                } else {
                    old(self).rem()[0] != '}' && e == DecodeError::ExpectedArrayEnd
                },
            },
    {
        match self.next_char() {
            Err(e) => Err(e),
            Ok(c) => {
                proof {
                    assert(self.rem() =~= old(self).rem().drop_first());
                }
                if c == '}' {
                    Ok(())
                } else {
                    Err(DecodeError::ExpectedArrayEnd)
                }
            },
        }
    }

    /// Consumes the opening `{` of a class body; `ExpectedMap` when the
    /// next character is something else.
    pub fn begin_class(&mut self) -> (r: Result<(), DecodeError>)
        requires
            old(self).wf(),
        ensures
            final(self).wf(),
            final(self).buf() == old(self).buf(),
            old(self).cursor() <= final(self).cursor(),
            match r {
                Ok(()) => old(self).rem().len() > 0 && old(self).rem()[0] == '{' && final(self).rem() == old(self).rem().drop_first(),
                Err(e) => if old(self).rem().len() == 0 {
                    e == DecodeError::UnexpectedEof && final(self).cursor() == old(self).cursor()
                } else {
                    old(self).rem()[0] != '{' && e == DecodeError::ExpectedMap
                },
            },
    {
        match self.next_char() {
            Err(e) => Err(e),
            Ok(c) => {
                proof {
                    assert(self.rem() =~= old(self).rem().drop_first());
                }
                if c == '{' {
                    Ok(())
                } else {
                    Err(DecodeError::ExpectedMap)
                }
            },
        }
    }

    /// Decodes one value by one character of lookahead: `n` is `null`,
    /// `t`/`f` a boolean, `"` a string, a digit or `-` a number (a float
    /// lexeme when the token holds `.`, signed when it holds `-`), and
    /// `{` an array body — or a class body when `expect_class` is set,
    /// as it is after a `class Name` key.
    #[verifier::rlimit(60)]
    pub fn parse_value(&mut self, expect_class: bool) -> (r: Result<Value, DecodeError>)
        requires
            old(self).wf(),
        ensures
            final(self).wf(),
            final(self).buf() == old(self).buf(),
            old(self).cursor() <= final(self).cursor(),
            match r {
                Ok(v) => parse_value_s(old(self).rem(), expect_class) == Ok::<
                    (ValueModel, Seq<char>),
                    DecodeError,
                >((v.model(), final(self).rem())) && final(self).rem().len() < old(
                    self,
                ).rem().len(),
                Err(e) => parse_value_s(old(self).rem(), expect_class) == Err::<
                    (ValueModel, Seq<char>),
                    DecodeError,
                >(e),
            },
        decreases old(self).rem().len(), 0nat,
    {
        let ghost s = self.rem();
        self.skip_whitespace();
        let ghost t = self.rem();
        proof {
            lemma_ws_count(s);
        }
        let c = match self.peek_char() {
            Err(e) => {
                return Err(e);
            },
            Ok(c) => c,
        };
        if c == 'n' {
            match self.parse_null() {
                Ok(()) => Ok(Value::Null),
                Err(e) => Err(e),
            }
        } else if c == 't' || c == 'f' {
            match self.parse_bool() {
                Ok(b) => Ok(Value::Bool(b)),
                Err(e) => Err(e),
            }
        } else if c == '"' {
            self.advance(1);
            proof {
                assert(self.rem() == t.drop_first());
                lemma_scan_quoted_rest(t.drop_first());
            }
            match self.scan_quoted_string() {
                Ok(str) => Ok(Value::Str(str)),
                Err(e) => Err(e),
            }
        } else if is_digit_char(c) || c == '-' {
            let n = match self.scan_token_end() {
                None => {
                    return Err(DecodeError::UnexpectedEof);
                },
                Some(n) => n,
            };
            proof {
                lemma_find_stop(t, tok_stop());
                assert(!is_token_end(t[0]));
                assert(n > 0);
            }
            let ghost tok = t.take(n as int);
            let mut has_dot = false;
            let mut has_minus = false;
            let mut i: usize = 0;
            while i < n
                invariant
                    self.wf(),
                    t == self.rem(),
                    i <= n < t.len(),
                    has_dot == exists|j: int| 0 <= j < i && t[j] == '.',
                    has_minus == exists|j: int| 0 <= j < i && t[j] == '-',
                decreases n - i,
            {
                let c2 = self.char_at(i);
                if c2 == '.' {
                    has_dot = true;
                }
                if c2 == '-' {
                    has_minus = true;
                }
                proof {
                    if c2 != '.' && has_dot {
                        let j = choose|j: int| 0 <= j < i && t[j] == '.';
                        assert(0 <= j < i + 1 && t[j] == '.');
                    }
                    if c2 != '-' && has_minus {
                        let j = choose|j: int| 0 <= j < i && t[j] == '-';
                        assert(0 <= j < i + 1 && t[j] == '-');
                    }
                }
                i = i + 1;
            }
            proof {
                assert(forall|j: int| 0 <= j < n ==> tok[j] == t[j]);
                assert(has_dot == tok.contains('.')) by {
                    if has_dot {
                        let j = choose|j: int| 0 <= j < n && t[j] == '.';
                        assert(tok[j] == '.');
                    }
                    if tok.contains('.') {
                        let j = choose|j: int| 0 <= j < tok.len() && tok[j] == '.';
                        assert(t[j] == '.');
                    }
                }
                assert(has_minus == tok.contains('-')) by {
                    if has_minus {
                        let j = choose|j: int| 0 <= j < n && t[j] == '-';
                        assert(tok[j] == '-');
                    }
                    if tok.contains('-') {
                        let j = choose|j: int| 0 <= j < tok.len() && tok[j] == '-';
                        assert(t[j] == '-');
                    }
                }
            }
            if has_dot {
                match self.parse_float() {
                    Ok(f) => Ok(Value::Float(f)),
                    Err(e) => Err(e),
                }
            } else if has_minus {
                match self.parse_signed() {
                    Ok(v) => Ok(Value::Int(v)),
                    Err(e) => Err(e),
                }
            } else {
                match self.parse_unsigned() {
                    Ok(v) => Ok(Value::UInt(v)),
                    Err(e) => Err(e),
                }
            }
        } else if c == '{' {
            self.advance(1);
            proof {
                assert(self.rem() == t.drop_first());
            }
            if expect_class {
                match self.parse_class_body() {
                    Ok(fs) => Ok(Value::Cls(fs)),
                    Err(e) => Err(e),
                }
            } else {
                match self.parse_array_body() {
                    Ok(items) => Ok(Value::Arr(items)),
                    Err(e) => Err(e),
                }
            }
        } else {
            Err(DecodeError::SyntaxError)
        }
    }

    /// Decodes a whole array body, its opening `{` already consumed:
    /// the elements, then the closing `}`.
    fn parse_array_body(&mut self) -> (r: Result<Vec<Value>, DecodeError>)
        requires
            old(self).wf(),
        ensures
            final(self).wf(),
            final(self).buf() == old(self).buf(),
            old(self).cursor() <= final(self).cursor(),
            match r {
                Ok(vs) => parse_array_tail_s(old(self).rem()) == Ok::<
                    (Seq<ValueModel>, Seq<char>),
                    DecodeError,
                >((vals_model(vs@), final(self).rem())) && final(self).cursor() > old(
                    self,
                ).cursor(),
                Err(e) => parse_array_tail_s(old(self).rem()) == Err::<
                    (Seq<ValueModel>, Seq<char>),
                    DecodeError,
                >(e),
            },
        decreases old(self).rem().len(), 2nat,
    {
        let ghost body = self.rem();
        let mut items: Vec<Value> = Vec::new();
        let mut cs = CommaSeparated::new();
        proof {
            lemma_prepend_elements_empty(parse_elements_s(body, true));
        }
        loop
            invariant
                self.wf(),
                self.buf() == old(self).buf(),
                old(self).cursor() <= self.cursor(),
                body == old(self).rem(),
                parse_elements_s(body, true) == prepend_elements(
                    vals_model(items@),
                    parse_elements_s(self.rem(), cs.at_first()),
                ),
            decreases self.rem().len(),
        {
            let ghost cur = self.rem();
            let ghost items0 = items@;
            let ghost first0 = cs.at_first();
            match cs.next_element(self) {
                Err(e) => {
                    return Err(e);
                },
                Ok(None) => {
                    proof {
                        assert(skip_ws(cur).len() > 0 && skip_ws(cur)[0] == '}');
                    }
                    // the elements end at the closing brace
                    match self.next_char() {
                        Ok(_) => (),
                        Err(e) => {
                            return Err(e);
                        },
                    };
                    proof {
                        assert(parse_elements_s(cur, first0) == Ok::<
                            (Seq<ValueModel>, Seq<char>),
                            DecodeError,
                        >((Seq::empty(), skip_ws(cur))));
                        assert(self.rem() =~= skip_ws(cur).drop_first());
                        assert(vals_model(items@) + Seq::<ValueModel>::empty() =~= vals_model(
                            items@,
                        ));
                    }
                    return Ok(items);
                },
                Ok(Some(v)) => {
                    proof {
                        assert(parse_elements_s(cur, first0) == prepend_elements(
                            seq![v.model()],
                            parse_elements_s(self.rem(), false),
                        ));
                        lemma_prepend_elements_assoc(
                            vals_model(items0),
                            seq![v.model()],
                            parse_elements_s(self.rem(), false),
                        );
                        lemma_vals_model_push(items0, v);
                    }
                    items.push(v);
                },
            }
        }
    }

    /// Decodes a whole class body: statements until the closing `}`
    /// (consumed) or the end of the input.
    pub(crate) fn parse_class_body(&mut self) -> (r: Result<Vec<(String, Value)>, DecodeError>)
        requires
            old(self).wf(),
        ensures
            final(self).wf(),
            final(self).buf() == old(self).buf(),
            old(self).cursor() <= final(self).cursor(),
            match r {
                Ok(fs) => parse_class_items_s(old(self).rem()) == Ok::<
                    (Seq<(Seq<char>, ValueModel)>, Seq<char>),
                    DecodeError,
                >((fields_model(fs@), final(self).rem())),
                Err(e) => parse_class_items_s(old(self).rem()) == Err::<
                    (Seq<(Seq<char>, ValueModel)>, Seq<char>),
                    DecodeError,
                >(e),
            },
        decreases old(self).rem().len(), 2nat,
    {
        let ghost s0 = self.rem();
        let mut fields: Vec<(String, Value)> = Vec::new();
        let mut ac = ArmaClass::new();
        proof {
            lemma_prepend_fields_empty(parse_class_items_s(s0));
        }
        loop
            invariant
                self.wf(),
                self.buf() == old(self).buf(),
                old(self).cursor() <= self.cursor(),
                s0 == old(self).rem(),
                self.rem().len() <= s0.len(),
                parse_class_items_s(s0) == prepend_fields(
                    fields_model(fields@),
                    parse_class_items_s(self.rem()),
                ),
            decreases self.rem().len(),
        {
            let ghost cur = self.rem();
            let ghost fields0 = fields@;
            let k = match ac.next_key(self) {
                Err(e) => {
                    return Err(e);
                },
                Ok(None) => {
                    proof {
                        assert(parse_class_items_s(cur) == Ok::<
                            (Seq<(Seq<char>, ValueModel)>, Seq<char>),
                            DecodeError,
                        >((Seq::empty(), self.rem())));
                        assert(fields_model(fields@) + Seq::<(Seq<char>, ValueModel)>::empty()
                            =~= fields_model(fields@));
                    }
                    return Ok(fields);
                },
                Ok(Some(k)) => k,
            };
            let v = match ac.next_value(self) {
                Err(e) => {
                    return Err(e);
                },
                Ok(v) => v,
            };
            proof {
                assert(parse_class_items_s(cur) == prepend_fields(
                    seq![(k@, v.model())],
                    parse_class_items_s(self.rem()),
                ));
                lemma_prepend_fields_assoc(
                    fields_model(fields0),
                    seq![(k@, v.model())],
                    parse_class_items_s(self.rem()),
                );
                lemma_fields_model_push(fields0, (k, v));
            }
            fields.push((k, v));
        }
    }
}

/// Decodes a whole document into a value tree, in the lookahead-directed
/// mode: an optional opening `{`, then the top-level class body. Fails
/// with `TrailingCharacters` if non-whitespace input remains after the
/// body.
pub fn from_str(input: &str) -> (r: Result<Value, DecodeError>)
    ensures
        match r {
            Ok(v) => parse_document_s(input@) == Ok::<ValueModel, DecodeError>(v.model()),
            Err(e) => parse_document_s(input@) == Err::<ValueModel, DecodeError>(e),
        },
{
    let mut de = Deserializer::from_str(input);
    proof {
        assert(de.rem() =~= input@);
    }
    de.begin_struct();
    match de.parse_class_body() {
        Err(e) => Err(e),
        Ok(fs) => {
            de.skip_whitespace();
            if de.has(1) {
                Err(DecodeError::TrailingCharacters)
            } else {
                Ok(Value::Cls(fs))
            }
        },
    }
}

/// Decoding is a pure function of the input text: the grammar assigns a
/// single outcome to every input, so decoding the same text twice (two
/// fresh calls) yields equal results. Together with the cursor contract
/// (`buf` never changes and `cursor` never moves backwards, stated in the
/// `ensures` of every reader), this is the decoder's no-mutation law.
pub proof fn lemma_decode_deterministic(
    s1: Seq<char>,
    s2: Seq<char>,
    r1: Result<ValueModel, DecodeError>,
    r2: Result<ValueModel, DecodeError>,
)
    requires
        s1 == s2,
        r1 == parse_document_s(s1),
        r2 == parse_document_s(s2),
    ensures
        r1 == r2,
{
}

/// A document decodes successfully exactly when the top-level body
/// parses and leaves nothing but insignificant whitespace behind:
/// success never skips over trailing text, and trailing non-whitespace
/// never decodes silently.
pub proof fn lemma_ok_consumes_all(s: Seq<char>)
    ensures
        parse_document_s(s) is Ok <==> ({
            let t = if s.len() > 0 && s[0] == '{' {
                s.drop_first()
            } else {
                s
            };
            &&& parse_class_items_s(t) is Ok
            &&& parse_class_items_s(t) matches Ok(p) ==> skip_ws(p.1).len() == 0
        }),
{
}

} // verus!

