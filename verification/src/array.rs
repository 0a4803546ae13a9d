//! The sequence decoder: drives one `{ v1, v2, ... }` array body,
//! handing out one element at a time.

use vstd::prelude::*;

use crate::error::DecodeError;
use crate::grammar::{next_element_s, parse_value_s, skip_ws};
use crate::value::{Value, ValueModel};
use crate::Deserializer;

verus! {

/// Walks the comma-separated elements of one array body. Construct it
/// after the opening `{` has been consumed; it stops at the closing `}`
/// and leaves that for the enclosing decoder.
pub struct CommaSeparated {
    first: bool,
}

impl CommaSeparated {
    /// Is the next element the first one, with no `,` owed before it?
    pub closed spec fn at_first(self) -> bool {
        self.first
    }

    /// A fresh walk: no element read yet.
    pub fn new() -> (s: Self)
        ensures
            s.at_first(),
    {
        CommaSeparated { first: true }
    }

    /// Steps to the next element of the array body without reading it:
    /// `Ok(false)` at the closing `}` (left unconsumed, the list is
    /// over); `Ok(true)` with the cursor standing on the element's text,
    /// the `,` owed before every element but the first consumed.
    pub fn begin_element(&mut self, de: &mut Deserializer) -> (r: Result<bool, DecodeError>)
        requires
            old(de).wf(),
        ensures
            final(de).wf(),
            final(de).buf() == old(de).buf(),
            old(de).cursor() <= final(de).cursor(),
            match r {
                Ok(more) => if more {
                    &&& !final(self).at_first()
                    &&& match parse_value_s(final(de).rem(), false) {
                        Ok(p) => next_element_s(old(de).rem(), old(self).at_first()) == Ok::<
                            Option<(ValueModel, Seq<char>)>,
                            DecodeError,
                        >(Some((p.0, p.1))),
                        Err(e) => next_element_s(old(de).rem(), old(self).at_first()) == Err::<
                            Option<(ValueModel, Seq<char>)>,
                            DecodeError,
                        >(e),
                    }
                } else {
                    &&& next_element_s(old(de).rem(), old(self).at_first()) == Ok::<
                        Option<(ValueModel, Seq<char>)>,
                        DecodeError,
                    >(None)
                    &&& final(de).rem() == skip_ws(old(de).rem())
                    &&& final(self).at_first() == old(self).at_first()
                },
                Err(e) => next_element_s(old(de).rem(), old(self).at_first()) == Err::<
                    Option<(ValueModel, Seq<char>)>,
                    DecodeError,
                >(e),
            },
    {
        de.skip_whitespace();
        let c = match de.peek_char() {
            Err(e) => {
                return Err(e);
            },
            Ok(c) => c,
        };
        if c == '}' {
            return Ok(false);
        }
        if !self.first {
            if c != ',' {
                return Err(DecodeError::ExpectedArrayComma);
            }
            let ghost t = de.rem();
            let _ = de.next_char();
            proof {
                assert(de.rem() =~= t.drop_first());
            }
        }
        self.first = false;
        Ok(true)
    }

    /// The next element of the array body, or `None` at the closing `}`
    /// (which is left unconsumed). A `,` is required before every element
    /// but the first.
    pub fn next_element(&mut self, de: &mut Deserializer) -> (r: Result<
        Option<Value>,
        DecodeError,
    >)
        requires
            old(de).wf(),
        ensures
            final(de).wf(),
            final(de).buf() == old(de).buf(),
            old(de).cursor() <= final(de).cursor(),
            match r {
                Ok(Some(v)) => next_element_s(old(de).rem(), old(self).at_first()) == Ok::<
                    Option<(ValueModel, Seq<char>)>,
                    DecodeError,
                >(Some((v.model(), final(de).rem()))) && !final(self).at_first() && final(de).rem().len() < old(de).rem().len(),
                Ok(None) => next_element_s(old(de).rem(), old(self).at_first()) == Ok::<
                    Option<(ValueModel, Seq<char>)>,
                    DecodeError,
                >(None) && final(de).rem() == skip_ws(old(de).rem()) && final(self).at_first()
                    == old(self).at_first(),
                Err(e) => next_element_s(old(de).rem(), old(self).at_first()) == Err::<
                    Option<(ValueModel, Seq<char>)>,
                    DecodeError,
                >(e),
            },
        decreases old(de).rem().len(), 1nat,
    {
        match self.begin_element(de) {
            Err(e) => Err(e),
            Ok(false) => Ok(None),
            Ok(true) => match de.parse_value(false) {
                Ok(v) => Ok(Some(v)),
                Err(e) => Err(e),
            },
        }
    }
}

} // verus!
