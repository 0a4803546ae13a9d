//! The class/map decoder: drives one class body, handing out one
//! `key = value;` statement at a time, and recognising nested
//! `class Name { ... };` blocks.

use vstd::prelude::*;

use crate::error::DecodeError;
use crate::grammar::{class_chars, finish_statement_s, is_class_kw, next_key_s, next_value_s};
use crate::value::{Value, ValueModel};
use crate::Deserializer;

verus! {

/// Walks the statements of one class body: the top-level document body,
/// or a nested one whose opening `{` has been consumed. The body ends at
/// its closing `}` (consumed) or at the end of the input.
pub struct ArmaClass {
    expect_class: bool,
}

impl ArmaClass {
    /// Was the key just read introduced by the `class` keyword, so that
    /// the upcoming value is a class body rather than a scalar or array?
    pub closed spec fn expecting_class(self) -> bool {
        self.expect_class
    }

    /// A fresh walk, positioned before a key.
    pub fn new() -> (s: Self)
        ensures
            !s.expecting_class(),
    {
        ArmaClass { expect_class: false }
    }

    /// Whether the value owed after the last key is a nested class body.
    pub fn next_value_is_class(&self) -> (b: bool)
        ensures
            b == self.expecting_class(),
    {
        self.expect_class
    }

    /// The next key of the body, or `None` when the body ends (at the
    /// closing `}`, consumed, or at the end of the input). For a
    /// `class Name` statement the key is the class's name and the walker
    /// then expects a class-shaped value; for a bare key its trailing
    /// `=` is consumed, so the cursor stands before the value either way.
    pub fn next_key(&mut self, de: &mut Deserializer) -> (r: Result<Option<String>, DecodeError>)
        requires
            old(de).wf(),
        ensures
            final(de).wf(),
            final(de).buf() == old(de).buf(),
            old(de).cursor() <= final(de).cursor(),
            match r {
                Ok(Some(k)) => next_key_s(old(de).rem()) == Ok::<
                    (Option<(Seq<char>, bool)>, Seq<char>),
                    DecodeError,
                >((Some((k@, final(self).expecting_class())), final(de).rem())) && final(de).rem().len() < old(de).rem().len(),
                Ok(None) => next_key_s(old(de).rem()) == Ok::<
                    (Option<(Seq<char>, bool)>, Seq<char>),
                    DecodeError,
                >((None, final(de).rem())) && !final(self).expecting_class(),
                Err(e) => next_key_s(old(de).rem()) == Err::<
                    (Option<(Seq<char>, bool)>, Seq<char>),
                    DecodeError,
                >(e),
            },
    {
        de.skip_whitespace();
        let ghost t = de.rem();
        let c = match de.peek_char() {
            Err(_) => {
                self.expect_class = false;
                return Ok(None);
            },
            Ok(c) => c,
        };
        if c == '}' {
            let _ = de.next_char();
            self.expect_class = false;
            proof {
                assert(de.rem() == t.drop_first());
            }
            return Ok(None);
        }
        if de.has(6) && de.char_at(0) == 'c' && de.char_at(1) == 'l' && de.char_at(2) == 'a'
            && de.char_at(3) == 's' && de.char_at(4) == 's' && crate::is_ws_char(de.char_at(5)) {
            proof {
                assert(t.take(5) =~= class_chars());
                assert(is_class_kw(t));
            }
            de.advance(5);
            de.skip_whitespace();
            match de.parse_string(true) {
                Ok(name) => {
                    self.expect_class = true;
                    Ok(Some(name))
                },
                Err(e) => Err(e),
            }
        } else {
            proof {
                assert(!is_class_kw(t)) by {
                    if is_class_kw(t) {
                        assert(t.take(5)[0] == 'c' && t.take(5)[1] == 'l' && t.take(5)[2] == 'a'
                            && t.take(5)[3] == 's' && t.take(5)[4] == 's');
                    }
                }
            }
            match de.read_bare_key() {
                Ok(key) => {
                    proof {
                        crate::grammar::lemma_parse_key_rest(t);
                    }
                    let ghost rr = de.rem();
                    let _ = de.next_char();
                    self.expect_class = false;
                    proof {
                        assert(de.rem() =~= rr.drop_first());
                    }
                    Ok(Some(key))
                },
                Err(e) => Err(e),
            }
        }
    }

    /// The `;` that ends the statement whose value was just read.
    pub fn end_value(&mut self, de: &mut Deserializer) -> (r: Result<(), DecodeError>)
        requires
            old(de).wf(),
        ensures
            final(de).wf(),
            final(de).buf() == old(de).buf(),
            old(de).cursor() <= final(de).cursor(),
            !final(self).expecting_class(),
            match r {
                Ok(()) => finish_statement_s(old(de).rem()) == Ok::<Seq<char>, DecodeError>(
                    final(de).rem(),
                ) && final(de).rem().len() < old(de).rem().len(),
                Err(e) => finish_statement_s(old(de).rem()) == Err::<Seq<char>, DecodeError>(e),
            },
    {
        self.expect_class = false;
        de.skip_whitespace();
        let ghost t = de.rem();
        let c = match de.peek_char() {
            Err(e) => {
                return Err(e);
            },
            Ok(c) => c,
        };
        if c == ';' {
            let _ = de.next_char();
            proof {
                assert(de.rem() == t.drop_first());
            }
            Ok(())
        } else {
            Err(DecodeError::SyntaxError)
        }
    }

    /// The value owed after the last key, with the `;` that ends its
    /// statement.
    pub fn next_value(&mut self, de: &mut Deserializer) -> (r: Result<Value, DecodeError>)
        requires
            old(de).wf(),
        ensures
            final(de).wf(),
            final(de).buf() == old(de).buf(),
            old(de).cursor() <= final(de).cursor(),
            !final(self).expecting_class(),
            match r {
                Ok(v) => next_value_s(old(de).rem(), old(self).expecting_class()) == Ok::<
                    (ValueModel, Seq<char>),
                    DecodeError,
                >((v.model(), final(de).rem())) && final(de).rem().len() < old(de).rem().len(),
                Err(e) => next_value_s(old(de).rem(), old(self).expecting_class()) == Err::<
                    (ValueModel, Seq<char>),
                    DecodeError,
                >(e),
            },
        decreases old(de).rem().len(), 1nat,
    {
        let expect_class = self.expect_class;
        self.expect_class = false;
        let v = match de.parse_value(expect_class) {
            Ok(v) => v,
            Err(e) => {
                return Err(e);
            },
        };
        match self.end_value(de) {
            Ok(()) => Ok(v),
            Err(e) => Err(e),
        }
    }
}

} // verus!
