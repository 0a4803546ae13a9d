//! The grammar, as spec functions over `Seq<char>`.
//!
//! A document is a sequence of statements, each terminated by `;`:
//! `Key = Value;`, `Key[] = { v1, v2, ... };` or `class Name { ... };`.
//! Each spec function here takes the remaining input and returns either
//! the decoded piece together with the input left after it, or the error
//! kind the decoder reports. The executable functions' contracts equate
//! their behaviour with these functions, so this module is the single
//! statement of what the decoder does.

use vstd::prelude::*;

use crate::error::DecodeError;
use crate::value::ValueModel;

verus! {

// ---------------------------------------------------------------------
// Character classes and fixed literals
// ---------------------------------------------------------------------

/// Insignificant whitespace between tokens.
pub open spec fn is_ws(c: char) -> bool {
    c == ' ' || c == '\r' || c == '\n' || c == '\t'
}

/// The delimiters that end a numeric token.
pub open spec fn is_token_end(c: char) -> bool {
    c == ';' || c == ',' || c == '}' || is_ws(c)
}

/// A decimal digit.
pub open spec fn is_digit(c: char) -> bool {
    '0' <= c && c <= '9'
}

/// The numeric value of a decimal digit.
pub open spec fn digit_val(c: char) -> nat {
    (c as nat - '0' as nat) as nat
}

/// `true`, as characters.
pub open spec fn true_chars() -> Seq<char> {
    seq!['t', 'r', 'u', 'e']
}

/// `false`, as characters.
pub open spec fn false_chars() -> Seq<char> {
    seq!['f', 'a', 'l', 's', 'e']
}

/// `null`, as characters.
pub open spec fn null_chars() -> Seq<char> {
    seq!['n', 'u', 'l', 'l']
}

/// The newline-join marker that may follow a closing quote: a space, a
/// literal backslash, `n`, a space and the opening quote of the next
/// segment.
pub open spec fn join_chars() -> Seq<char> {
    seq![' ', '\\', 'n', ' ', '"']
}

/// The `class` keyword, as characters.
pub open spec fn class_chars() -> Seq<char> {
    seq!['c', 'l', 'a', 's', 's']
}

/// Does `s` begin with the characters of `p`?
pub open spec fn begins_with(s: Seq<char>, p: Seq<char>) -> bool {
    p.len() <= s.len() && s.take(p.len() as int) == p
}

/// Does `s` begin a `class Name ...` statement: the keyword followed by
/// whitespace?
pub open spec fn is_class_kw(s: Seq<char>) -> bool {
    begins_with(s, class_chars()) && s.len() > 5 && is_ws(s[5])
}

// ---------------------------------------------------------------------
// Scanning
// ---------------------------------------------------------------------

/// The characters that end a numeric token, as a predicate.
pub open spec fn tok_stop() -> spec_fn(char) -> bool {
    |c: char| is_token_end(c)
}

/// The `=` that ends a bare key, as a predicate.
pub open spec fn eq_stop() -> spec_fn(char) -> bool {
    |c: char| c == '='
}

/// The characters that end a class name, as a predicate.
pub open spec fn name_stop() -> spec_fn(char) -> bool {
    |c: char| c == ' ' || c == '\n' || c == '{'
}

/// The `[` that begins a key's array marker, as a predicate.
pub open spec fn bracket_stop() -> spec_fn(char) -> bool {
    |c: char| c == '['
}

/// The first character that is not whitespace, as a predicate.
pub open spec fn nonws_stop() -> spec_fn(char) -> bool {
    |c: char| !is_ws(c)
}

/// The first index of `s` whose character satisfies `p`, if any.
pub open spec fn find_stop(s: Seq<char>, p: spec_fn(char) -> bool) -> Option<int>
    decreases s.len(),
{
    if s.len() == 0 {
        None
    } else if p(s[0]) {
        Some(0)
    } else {
        match find_stop(s.drop_first(), p) {
            None => None,
            Some(n) => Some(n + 1),
        }
    }
}

/// `find_stop` finds the first index satisfying `p`, and nothing before it.
pub proof fn lemma_find_stop(s: Seq<char>, p: spec_fn(char) -> bool)
    ensures
        match find_stop(s, p) {
            None => forall|i: int| 0 <= i < s.len() ==> !p(s[i]),
            Some(n) => 0 <= n < s.len() && p(s[n]) && forall|i: int| 0 <= i < n ==> !p(s[i]),
        },
    decreases s.len(),
{
    if s.len() > 0 && !p(s[0]) {
        let t = s.drop_first();
        lemma_find_stop(t, p);
        assert(forall|i: int| 0 <= i < t.len() ==> t[i] == s[i + 1]);
        match find_stop(s, p) {
            None => {
                assert forall|i: int| 0 <= i < s.len() implies !p(s[i]) by {
                    if i >= 1 {
                        assert(!p(t[i - 1]));
                    }
                }
            },
            Some(n) => {
                assert(p(t[n - 1]));
                assert forall|i: int| 0 <= i < n implies !p(s[i]) by {
                    if i >= 1 {
                        assert(!p(t[i - 1]));
                    }
                }
            },
        }
    }
}

/// How many whitespace characters `s` begins with.
pub open spec fn ws_count(s: Seq<char>) -> int {
    match find_stop(s, nonws_stop()) {
        None => s.len() as int,
        Some(n) => n,
    }
}

/// `s` without its leading whitespace.
pub open spec fn skip_ws(s: Seq<char>) -> Seq<char> {
    s.skip(ws_count(s))
}

/// The bounds of `ws_count`, and what it counts.
pub proof fn lemma_ws_count(s: Seq<char>)
    ensures
        0 <= ws_count(s) <= s.len(),
        forall|i: int| 0 <= i < ws_count(s) ==> is_ws(s[i]),
        ws_count(s) < s.len() ==> !is_ws(s[ws_count(s)]),
        skip_ws(s).len() == s.len() - ws_count(s),
        skip_ws(s).len() > 0 ==> !is_ws(skip_ws(s)[0]),
        forall|i: int| 0 <= i < skip_ws(s).len() ==> skip_ws(s)[i] == s[ws_count(s) + i],
{
    lemma_find_stop(s, nonws_stop());
}

/// How many whitespace characters `s` ends with.
pub open spec fn end_ws_count(s: Seq<char>) -> int
    decreases s.len(),
{
    if s.len() > 0 && is_ws(s.last()) {
        1 + end_ws_count(s.drop_last())
    } else {
        0
    }
}

/// The bounds of `end_ws_count`, and what it counts.
pub proof fn lemma_end_ws_count(s: Seq<char>)
    ensures
        0 <= end_ws_count(s) <= s.len(),
        forall|i: int| s.len() - end_ws_count(s) <= i < s.len() ==> is_ws(s[i]),
        end_ws_count(s) < s.len() ==> !is_ws(s[s.len() - end_ws_count(s) - 1]),
    decreases s.len(),
{
    if s.len() > 0 && is_ws(s.last()) {
        let t = s.drop_last();
        lemma_end_ws_count(t);
        assert(forall|i: int| 0 <= i < t.len() ==> t[i] == s[i]);
        assert forall|i: int| s.len() - end_ws_count(s) <= i < s.len() implies is_ws(s[i]) by {
            if i < s.len() - 1 {
                assert(is_ws(t[i]));
            }
        }
    }
}

/// `s` without its leading and trailing whitespace.
pub open spec fn trim(s: Seq<char>) -> Seq<char> {
    let t = skip_ws(s);
    t.take(t.len() - end_ws_count(t))
}

// ---------------------------------------------------------------------
// Scalar lexemes
// ---------------------------------------------------------------------

/// Where the numeric token starting `s` ends: the first delimiter.
pub open spec fn token_len(s: Seq<char>) -> Option<int> {
    find_stop(s, tok_stop())
}

/// The value of a sequence of decimal digits, most significant first.
pub open spec fn dec_val(s: Seq<char>) -> nat
    decreases s.len(),
{
    if s.len() == 0 {
        0
    } else {
        dec_val(s.drop_last()) * 10 + digit_val(s.last())
    }
}

/// Reading one more digit multiplies the value so far by ten and adds it.
pub proof fn lemma_dec_val_step(t: Seq<char>, j: int)
    requires
        0 <= j < t.len(),
    ensures
        dec_val(t.take(j + 1)) == dec_val(t.take(j)) * 10 + digit_val(t[j]),
{
    assert(t.take(j + 1).drop_last() =~= t.take(j));
    assert(t.take(j + 1).last() == t[j]);
}

/// A prefix of a digit string never exceeds the whole string's value.
pub proof fn lemma_dec_val_prefix(t: Seq<char>, j: int)
    requires
        0 <= j <= t.len(),
    ensures
        dec_val(t.take(j)) <= dec_val(t),
    decreases t.len(),
{
    if j == t.len() {
        assert(t.take(j) =~= t);
    } else {
        let u = t.drop_last();
        assert(t.take(j) =~= u.take(j));
        lemma_dec_val_prefix(u, j);
    }
}

/// Is every character of `s` a decimal digit?
pub open spec fn all_digits(s: Seq<char>) -> bool {
    forall|i: int| 0 <= i < s.len() ==> is_digit(s[i])
}

/// A numeric token with an optional leading sign stripped.
pub open spec fn sign_stripped(t: Seq<char>) -> Seq<char> {
    if t.len() > 0 && (t[0] == '+' || t[0] == '-') {
        t.drop_first()
    } else {
        t
    }
}

/// Does the host accept `t` as an unsigned 64-bit integer?
pub open spec fn ok_u64(t: Seq<char>) -> bool {
    let d = if t.len() > 0 && t[0] == '+' {
        t.drop_first()
    } else {
        t
    };
    t.len() > 0 && t[0] != '-' && d.len() > 0 && all_digits(d) && dec_val(d) <= u64::MAX
}

/// The value of an unsigned token accepted by `ok_u64`.
pub open spec fn val_u64(t: Seq<char>) -> nat {
    dec_val(sign_stripped(t))
}

/// Does the host accept `t` as a signed 64-bit integer?
pub open spec fn ok_i64(t: Seq<char>) -> bool {
    let d = sign_stripped(t);
    let m = dec_val(d);
    t.len() > 0 && d.len() > 0 && all_digits(d) && if t[0] == '-' {
        m <= 0x8000_0000_0000_0000
    } else {
        m <= i64::MAX
    }
}

/// The value of a signed token accepted by `ok_i64`.
pub open spec fn val_i64(t: Seq<char>) -> int {
    if t[0] == '-' {
        -(dec_val(sign_stripped(t)) as int)
    } else {
        dec_val(sign_stripped(t)) as int
    }
}

/// Reading an unsigned integer: the token up to the first delimiter,
/// converted, or `ExpectedInteger` when the conversion fails. An input
/// that ends before any delimiter is `UnexpectedEof`.
pub open spec fn parse_unsigned_s(s: Seq<char>) -> Result<(u64, Seq<char>), DecodeError> {
    match token_len(s) {
        None => Err(DecodeError::UnexpectedEof),
        Some(n) => {
            let t = s.take(n);
            if ok_u64(t) {
                Ok((val_u64(t) as u64, s.skip(n)))
            } else {
                Err(DecodeError::ExpectedInteger)
            }
        },
    }
}

/// Reading a signed integer, as `parse_unsigned_s`.
pub open spec fn parse_signed_s(s: Seq<char>) -> Result<(i64, Seq<char>), DecodeError> {
    match token_len(s) {
        None => Err(DecodeError::UnexpectedEof),
        Some(n) => {
            let t = s.take(n);
            if ok_i64(t) {
                Ok((val_i64(t) as i64, s.skip(n)))
            } else {
                Err(DecodeError::ExpectedInteger)
            }
        },
    }
}

/// Reading a float lexeme: the raw token up to the first delimiter.
/// Conversion is delegated to the host's float parser, outside this
/// crate, so the token is handed back verbatim.
pub open spec fn parse_float_s(s: Seq<char>) -> Result<(Seq<char>, Seq<char>), DecodeError> {
    match token_len(s) {
        None => Err(DecodeError::UnexpectedEof),
        Some(n) => Ok((s.take(n), s.skip(n))),
    }
}

/// Reading a boolean literal: `true` or `false`, else `ExpectedBoolean`.
pub open spec fn parse_bool_s(s: Seq<char>) -> Result<(bool, Seq<char>), DecodeError> {
    if begins_with(s, true_chars()) {
        Ok((true, s.skip(4)))
    } else if begins_with(s, false_chars()) {
        Ok((false, s.skip(5)))
    } else {
        Err(DecodeError::ExpectedBoolean)
    }
}

/// Reading the literal `null`, else `ExpectedNull`.
pub open spec fn parse_null_s(s: Seq<char>) -> Result<Seq<char>, DecodeError> {
    if begins_with(s, null_chars()) {
        Ok(s.skip(4))
    } else {
        Err(DecodeError::ExpectedNull)
    }
}

/// The body of a quoted string, `s` being the input just after the
/// opening quote. A doubled `""` stands for one `"`; a closing quote
/// followed by the newline-join marker appends a newline and continues
/// with the next segment; any other closing quote ends the string. A
/// string still open at end of input is `UnexpectedEof`.
pub open spec fn scan_quoted(s: Seq<char>) -> Result<(Seq<char>, Seq<char>), DecodeError>
    decreases s.len(),
{
    if s.len() == 0 {
        Err(DecodeError::UnexpectedEof)
    } else if s[0] == '"' {
        let t = s.drop_first();
        if t.len() > 0 && t[0] == '"' {
            match scan_quoted(t.drop_first()) {
                Ok((c, r)) => Ok((seq!['"'] + c, r)),
                Err(e) => Err(e),
            }
        } else if begins_with(t, join_chars()) {
            match scan_quoted(t.skip(5)) {
                Ok((c, r)) => Ok((seq!['\n'] + c, r)),
                Err(e) => Err(e),
            }
        } else {
            Ok((Seq::empty(), t))
        }
    } else {
        match scan_quoted(s.drop_first()) {
            Ok((c, r)) => Ok((seq![s[0]] + c, r)),
            Err(e) => Err(e),
        }
    }
}

/// Prefixes `acc` to the content of a successful string scan.
pub open spec fn prepend_scan(acc: Seq<char>, r: Result<(Seq<char>, Seq<char>), DecodeError>) -> Result<
    (Seq<char>, Seq<char>),
    DecodeError,
> {
    match r {
        Ok(p) => Ok((acc + p.0, p.1)),
        Err(e) => Err(e),
    }
}

/// Prefixing twice is prefixing the concatenation.
pub proof fn lemma_prepend_scan_assoc(
    a: Seq<char>,
    b: Seq<char>,
    r: Result<(Seq<char>, Seq<char>), DecodeError>,
)
    ensures
        prepend_scan(a, prepend_scan(b, r)) == prepend_scan(a + b, r),
{
    match r {
        Ok(p) => {
            assert(a + (b + p.0) =~= (a + b) + p.0);
        },
        Err(_) => {},
    }
}

/// Prefixing the empty sequence changes nothing.
pub proof fn lemma_prepend_scan_empty(r: Result<(Seq<char>, Seq<char>), DecodeError>)
    ensures
        prepend_scan(Seq::empty(), r) == r,
{
    match r {
        Ok(p) => {
            assert(Seq::empty() + p.0 =~= p.0);
        },
        Err(_) => {},
    }
}

/// The body of the quoted encoding of `c`: every `"` doubled, and every
/// newline written as the close-quote/marker/reopen-quote sequence.
pub open spec fn quote_body(c: Seq<char>) -> Seq<char>
    decreases c.len(),
{
    if c.len() == 0 {
        Seq::empty()
    } else if c[0] == '"' {
        seq!['"', '"'] + quote_body(c.drop_first())
    } else if c[0] == '\n' {
        seq!['"', ' ', '\\', 'n', ' ', '"'] + quote_body(c.drop_first())
    } else {
        seq![c[0]] + quote_body(c.drop_first())
    }
}

/// Quoted-string round trip: scanning the quoted encoding of any content,
/// closed by a quote, yields exactly that content and leaves the text
/// after the closing quote untouched — as long as that text does not
/// itself begin like an escape (a doubled quote or a newline-join
/// marker), which would extend the string.
pub proof fn lemma_quote_roundtrip(c: Seq<char>, rest: Seq<char>)
    requires
        rest.len() == 0 || (rest[0] != '"' && !begins_with(rest, join_chars())),
    ensures
        scan_quoted(quote_body(c) + seq!['"'] + rest) == Ok::<(Seq<char>, Seq<char>), DecodeError>(
            (c, rest),
        ),
    decreases c.len(),
{
    let s = quote_body(c) + seq!['"'] + rest;
    if c.len() == 0 {
        assert(c =~= Seq::<char>::empty());
        assert(s =~= seq!['"'] + rest);
        assert(s[0] == '"');
        assert(s.drop_first() =~= rest);
        if rest.len() > 0 {
            assert(!(rest[0] == '"'));
        }
        assert(scan_quoted(s) == Ok::<(Seq<char>, Seq<char>), DecodeError>((Seq::empty(), rest)));
    } else {
        let c2 = c.drop_first();
        lemma_quote_roundtrip(c2, rest);
        let s2 = quote_body(c2) + seq!['"'] + rest;
        if c[0] == '"' {
            assert(s =~= seq!['"', '"'] + s2);
            assert(s[0] == '"' && s.drop_first()[0] == '"');
            assert(s.drop_first().drop_first() =~= s2);
            assert(seq!['"'] + c2 =~= c);
        } else if c[0] == '\n' {
            assert(s =~= seq!['"', ' ', '\\', 'n', ' ', '"'] + s2);
            let t = s.drop_first();
            assert(t =~= seq![' ', '\\', 'n', ' ', '"'] + s2);
            assert(t.take(5) =~= join_chars());
            assert(t.len() > 0 && t[0] == ' ');
            assert(t.skip(5) =~= s2);
            assert(seq!['\n'] + c2 =~= c);
        } else {
            assert(s =~= seq![c[0]] + s2);
            assert(s[0] == c[0] && c[0] != '"');
            assert(s.drop_first() =~= s2);
            assert(seq![s[0]] + c2 =~= c);
        }
    }
}

/// A segment with no quote and no newline encodes as itself.
pub proof fn lemma_quote_body_plain(c: Seq<char>)
    requires
        forall|i: int| 0 <= i < c.len() ==> c[i] != '"' && c[i] != '\n',
    ensures
        quote_body(c) == c,
    decreases c.len(),
{
    if c.len() > 0 {
        lemma_quote_body_plain(c.drop_first());
        assert(seq![c[0]] + c.drop_first() =~= c);
    }
}

/// Encoding distributes over concatenation of contents.
pub proof fn lemma_quote_body_concat(a: Seq<char>, b: Seq<char>)
    ensures
        quote_body(a + b) == quote_body(a) + quote_body(b),
    decreases a.len(),
{
    if a.len() == 0 {
        assert(a + b =~= b);
        assert(quote_body(a) + quote_body(b) =~= quote_body(b));
    } else {
        let u = a + b;
        assert(u[0] == a[0]);
        assert(u.drop_first() =~= a.drop_first() + b);
        lemma_quote_body_concat(a.drop_first(), b);
        if a[0] == '"' {
            assert(seq!['"', '"'] + (quote_body(a.drop_first()) + quote_body(b)) =~= (seq![
                '"',
                '"',
            ] + quote_body(a.drop_first())) + quote_body(b));
        } else if a[0] == '\n' {
            assert(seq!['"', ' ', '\\', 'n', ' ', '"'] + (quote_body(a.drop_first()) + quote_body(
                b,
            )) =~= (seq!['"', ' ', '\\', 'n', ' ', '"'] + quote_body(a.drop_first())) + quote_body(
                b,
            ));
        } else {
            assert(seq![a[0]] + (quote_body(a.drop_first()) + quote_body(b)) =~= (seq![a[0]]
                + quote_body(a.drop_first())) + quote_body(b));
        }
    }
}

/// Newline-join: a closing quote immediately followed by the five-character
/// marker does not end the string; the two segments around it decode to
/// one string with an embedded newline, for every pair of plain segments.
pub proof fn lemma_newline_join(seg1: Seq<char>, seg2: Seq<char>, rest: Seq<char>)
    requires
        forall|i: int| 0 <= i < seg1.len() ==> seg1[i] != '"' && seg1[i] != '\n',
        forall|i: int| 0 <= i < seg2.len() ==> seg2[i] != '"' && seg2[i] != '\n',
        rest.len() == 0 || (rest[0] != '"' && !begins_with(rest, join_chars())),
    ensures
        scan_quoted(seg1 + seq!['"', ' ', '\\', 'n', ' ', '"'] + seg2 + seq!['"'] + rest) == Ok::<
            (Seq<char>, Seq<char>),
            DecodeError,
        >((seg1 + seq!['\n'] + seg2, rest)),
{
    let c = seg1 + seq!['\n'] + seg2;
    lemma_quote_body_concat(seg1 + seq!['\n'], seg2);
    lemma_quote_body_concat(seg1, seq!['\n']);
    lemma_quote_body_plain(seg1);
    lemma_quote_body_plain(seg2);
    reveal_with_fuel(quote_body, 2);
    assert(seq!['\n'].drop_first() =~= Seq::<char>::empty());
    assert(quote_body(seq!['\n']) =~= seq!['"', ' ', '\\', 'n', ' ', '"']);
    assert((seg1 + seq!['\n']) + seg2 =~= c);
    assert(quote_body(c) =~= seg1 + seq!['"', ' ', '\\', 'n', ' ', '"'] + seg2);
    lemma_quote_roundtrip(c, rest);
    assert(quote_body(c) + seq!['"'] + rest =~= seg1 + seq!['"', ' ', '\\', 'n', ' ', '"'] + seg2
        + seq!['"'] + rest);
}

/// A successful quoted-string scan consumes at least its closing quote.
pub proof fn lemma_scan_quoted_rest(s: Seq<char>)
    ensures
        scan_quoted(s) matches Ok(p) ==> p.1.len() < s.len(),
    decreases s.len(),
{
    if s.len() > 0 {
        if s[0] == '"' {
            let t = s.drop_first();
            if t.len() > 0 && t[0] == '"' {
                lemma_scan_quoted_rest(t.drop_first());
            } else if begins_with(t, join_chars()) {
                lemma_scan_quoted_rest(t.skip(5));
            }
        } else {
            lemma_scan_quoted_rest(s.drop_first());
        }
    }
}

/// After a successful key read the input still begins with the `=`.
pub proof fn lemma_parse_key_rest(s: Seq<char>)
    ensures
        parse_key_s(s) matches Ok(p) ==> 0 < p.1.len() <= s.len() && p.1[0] == '=',
{
    lemma_find_stop(s, eq_stop());
}

/// Prefixes `acc` to the elements of a successful array-body parse.
pub open spec fn prepend_elements(
    acc: Seq<ValueModel>,
    r: Result<(Seq<ValueModel>, Seq<char>), DecodeError>,
) -> Result<(Seq<ValueModel>, Seq<char>), DecodeError> {
    match r {
        Ok(p) => Ok((acc + p.0, p.1)),
        Err(e) => Err(e),
    }
}

/// Prefixing elements twice is prefixing the concatenation.
pub proof fn lemma_prepend_elements_assoc(
    a: Seq<ValueModel>,
    b: Seq<ValueModel>,
    r: Result<(Seq<ValueModel>, Seq<char>), DecodeError>,
)
    ensures
        prepend_elements(a, prepend_elements(b, r)) == prepend_elements(a + b, r),
{
    match r {
        Ok(p) => {
            assert(a + (b + p.0) =~= (a + b) + p.0);
        },
        Err(_) => {},
    }
}

/// Prefixing no elements changes nothing.
pub proof fn lemma_prepend_elements_empty(r: Result<(Seq<ValueModel>, Seq<char>), DecodeError>)
    ensures
        prepend_elements(Seq::empty(), r) == r,
{
    match r {
        Ok(p) => {
            assert(Seq::empty() + p.0 =~= p.0);
        },
        Err(_) => {},
    }
}

/// Prefixes `acc` to the statements of a successful class-body parse.
pub open spec fn prepend_fields(
    acc: Seq<(Seq<char>, ValueModel)>,
    r: Result<(Seq<(Seq<char>, ValueModel)>, Seq<char>), DecodeError>,
) -> Result<(Seq<(Seq<char>, ValueModel)>, Seq<char>), DecodeError> {
    match r {
        Ok(p) => Ok((acc + p.0, p.1)),
        Err(e) => Err(e),
    }
}

/// Prefixing statements twice is prefixing the concatenation.
pub proof fn lemma_prepend_fields_assoc(
    a: Seq<(Seq<char>, ValueModel)>,
    b: Seq<(Seq<char>, ValueModel)>,
    r: Result<(Seq<(Seq<char>, ValueModel)>, Seq<char>), DecodeError>,
)
    ensures
        prepend_fields(a, prepend_fields(b, r)) == prepend_fields(a + b, r),
{
    match r {
        Ok(p) => {
            assert(a + (b + p.0) =~= (a + b) + p.0);
        },
        Err(_) => {},
    }
}

/// Prefixing no statements changes nothing.
pub proof fn lemma_prepend_fields_empty(
    r: Result<(Seq<(Seq<char>, ValueModel)>, Seq<char>), DecodeError>,
)
    ensures
        prepend_fields(Seq::empty(), r) == r,
{
    match r {
        Ok(p) => {
            assert(Seq::empty() + p.0 =~= p.0);
        },
        Err(_) => {},
    }
}

/// Reading a bare key: the text up to the terminating `=`, trimmed, with
/// a trailing `[...]` array marker stripped. The input left behind still
/// begins with the `=`. A key with no `=` before end of input is
/// `UnexpectedEof`.
pub open spec fn parse_key_s(s: Seq<char>) -> Result<(Seq<char>, Seq<char>), DecodeError> {
    match find_stop(s, eq_stop()) {
        None => Err(DecodeError::UnexpectedEof),
        Some(n) => {
            let t = trim(s.take(n));
            let key = match find_stop(t, bracket_stop()) {
                None => t,
                Some(b) => t.take(b),
            };
            Ok((key, s.skip(n)))
        },
    }
}

/// Reading a nested class's name: the text up to the first space,
/// newline or `{`, trimmed. A name with no such stop before end of
/// input is `UnexpectedEof`.
pub open spec fn parse_class_name_s(s: Seq<char>) -> Result<(Seq<char>, Seq<char>), DecodeError> {
    match find_stop(s, name_stop()) {
        None => Err(DecodeError::UnexpectedEof),
        Some(n) => Ok((trim(s.take(n)), s.skip(n))),
    }
}

/// Reading a string in one of the three modes: a class name when the
/// caller expects one, a quoted string when the input begins with `"`,
/// and a bare key otherwise.
pub open spec fn parse_string_s(s: Seq<char>, class_name: bool) -> Result<
    (Seq<char>, Seq<char>),
    DecodeError,
> {
    if class_name {
        parse_class_name_s(s)
    } else if s.len() == 0 {
        Err(DecodeError::UnexpectedEof)
    } else if s[0] == '"' {
        scan_quoted(s.drop_first())
    } else {
        parse_key_s(s)
    }
}

// ---------------------------------------------------------------------
// Composite productions
// ---------------------------------------------------------------------

// ---------------------------------------------------------------------
// Locality: a parse within the input is undisturbed by what follows it
// ---------------------------------------------------------------------

/// Taking a prefix that lies within `s` ignores an appended suffix.
pub proof fn lemma_take_concat(s: Seq<char>, u: Seq<char>, k: int)
    requires
        0 <= k <= s.len(),
    ensures
        (s + u).take(k) == s.take(k),
{
    assert((s + u).take(k) =~= s.take(k));
}

/// Skipping within `s` carries an appended suffix along.
pub proof fn lemma_skip_concat(s: Seq<char>, u: Seq<char>, k: int)
    requires
        0 <= k <= s.len(),
    ensures
        (s + u).skip(k) == s.skip(k) + u,
{
    assert((s + u).skip(k) =~= s.skip(k) + u);
}

/// A stop found within `s` is still the first stop after appending `u`.
pub proof fn lemma_find_stop_frame(s: Seq<char>, u: Seq<char>, p: spec_fn(char) -> bool)
    requires
        find_stop(s, p) is Some,
    ensures
        find_stop(s + u, p) == find_stop(s, p),
    decreases s.len(),
{
    if s.len() > 0 {
        if p(s[0]) {
            assert((s + u)[0] == s[0]);
        } else {
            lemma_find_stop_frame(s.drop_first(), u, p);
            assert((s + u)[0] == s[0]);
            assert((s + u).drop_first() =~= s.drop_first() + u);
        }
    }
}

/// Appending text that does not begin with whitespace leaves the leading
/// whitespace of `s` as it is: the skip either stops where it stopped
/// before, or — when `s` is all whitespace — exactly at the suffix.
pub proof fn lemma_skip_ws_frame(s: Seq<char>, u: Seq<char>)
    requires
        u.len() > 0,
        !is_ws(u[0]),
    ensures
        ws_count(s) < s.len() ==> skip_ws(s + u) == skip_ws(s) + u,
        ws_count(s) == s.len() ==> skip_ws(s + u) == u,
{
    lemma_ws_count(s);
    lemma_ws_count(s + u);
    assert(forall|i: int| 0 <= i < ws_count(s) ==> is_ws((s + u)[i]));
    if ws_count(s) < s.len() {
        assert((s + u)[ws_count(s)] == s[ws_count(s)]);
        assert(ws_count(s + u) == ws_count(s));
        assert(skip_ws(s + u) =~= skip_ws(s) + u);
    } else {
        assert((s + u)[s.len() as int] == u[0]);
        assert(ws_count(s + u) == s.len());
        assert(skip_ws(s + u) =~= u);
    }
}

/// A string that closed within `s` still closes there after appending
/// text that begins with `}`: the brace can neither double a quote nor
/// start a newline-join marker.
pub proof fn lemma_scan_quoted_frame(s: Seq<char>, u: Seq<char>)
    requires
        scan_quoted(s) is Ok,
        u.len() > 0,
        u[0] == '}',
    ensures
        match scan_quoted(s) {
            Ok(p) => scan_quoted(s + u) == Ok::<(Seq<char>, Seq<char>), DecodeError>(
                (p.0, p.1 + u),
            ),
            Err(_) => true,
        },
    decreases s.len(),
{
    let w = s + u;
    assert(w[0] == s[0]);
    if s[0] == '"' {
        let t = s.drop_first();
        assert(w.drop_first() =~= t + u);
        if t.len() > 0 && t[0] == '"' {
            assert((t + u)[0] == t[0]);
            lemma_scan_quoted_frame(t.drop_first(), u);
            assert((t + u).drop_first() =~= t.drop_first() + u);
        } else if begins_with(t, join_chars()) {
            assert((t + u)[0] == t[0]);
            lemma_take_concat(t, u, 5);
            lemma_scan_quoted_frame(t.skip(5), u);
            assert((t + u).skip(5) =~= t.skip(5) + u);
        } else {
            // the string closes here, and still does so with `u` behind:
            // `}` is not a quote and no character of the join marker
            if t.len() > 0 {
                assert((t + u)[0] == t[0]);
            } else {
                assert((t + u)[0] == u[0]);
            }
            assert(!begins_with(t + u, join_chars())) by {
                if begins_with(t + u, join_chars()) {
                    if t.len() >= 5 {
                        lemma_take_concat(t, u, 5);
                        assert(begins_with(t, join_chars()));
                    } else {
                        assert((t + u).take(5)[t.len() as int] == u[0]);
                        assert(join_chars()[t.len() as int] != '}');
                    }
                }
            }
        }
    } else {
        lemma_scan_quoted_frame(s.drop_first(), u);
        assert(w.drop_first() =~= s.drop_first() + u);
    }
}

/// A literal match is undisturbed by appending text whose first
/// character occurs nowhere in the literal.
pub proof fn lemma_begins_with_frame(s: Seq<char>, u: Seq<char>, p: Seq<char>)
    requires
        u.len() > 0,
        forall|i: int| 0 <= i < p.len() ==> p[i] != u[0],
    ensures
        begins_with(s + u, p) == begins_with(s, p),
{
    if begins_with(s, p) {
        lemma_take_concat(s, u, p.len() as int);
    } else if s.len() >= p.len() {
        lemma_take_concat(s, u, p.len() as int);
    } else if begins_with(s + u, p) {
        assert((s + u).take(p.len() as int)[s.len() as int] == u[0]);
    }
}

/// A key that found its `=` within `s` reads the same after appending.
pub proof fn lemma_parse_key_frame(s: Seq<char>, u: Seq<char>)
    requires
        parse_key_s(s) is Ok,
    ensures
        match parse_key_s(s) {
            Ok(p) => parse_key_s(s + u) == Ok::<(Seq<char>, Seq<char>), DecodeError>(
                (p.0, p.1 + u),
            ),
            Err(_) => true,
        },
{
    let n = find_stop(s, eq_stop())->Some_0;
    lemma_find_stop(s, eq_stop());
    lemma_find_stop_frame(s, u, eq_stop());
    lemma_take_concat(s, u, n);
    lemma_skip_concat(s, u, n);
}

/// A class name that found its stop within `s` reads the same after
/// appending.
pub proof fn lemma_parse_class_name_frame(s: Seq<char>, u: Seq<char>)
    requires
        parse_class_name_s(s) is Ok,
    ensures
        match parse_class_name_s(s) {
            Ok(p) => parse_class_name_s(s + u) == Ok::<(Seq<char>, Seq<char>), DecodeError>(
                (p.0, p.1 + u),
            ),
            Err(_) => true,
        },
{
    let n = find_stop(s, name_stop())->Some_0;
    lemma_find_stop(s, name_stop());
    lemma_find_stop_frame(s, u, name_stop());
    lemma_take_concat(s, u, n);
    lemma_skip_concat(s, u, n);
}

/// A boolean literal reads the same after appending text beginning
/// with `}`.
pub proof fn lemma_parse_bool_frame(s: Seq<char>, u: Seq<char>)
    requires
        parse_bool_s(s) is Ok,
        u.len() > 0,
        u[0] == '}',
    ensures
        match parse_bool_s(s) {
            Ok(p) => parse_bool_s(s + u) == Ok::<(bool, Seq<char>), DecodeError>((p.0, p.1 + u)),
            Err(_) => true,
        },
{
    lemma_begins_with_frame(s, u, true_chars());
    lemma_begins_with_frame(s, u, false_chars());
    if begins_with(s, true_chars()) {
        lemma_skip_concat(s, u, 4);
    } else {
        lemma_skip_concat(s, u, 5);
    }
}

/// The `null` literal reads the same after appending text beginning
/// with `}`.
pub proof fn lemma_parse_null_frame(s: Seq<char>, u: Seq<char>)
    requires
        parse_null_s(s) is Ok,
        u.len() > 0,
        u[0] == '}',
    ensures
        match parse_null_s(s) {
            Ok(r) => parse_null_s(s + u) == Ok::<Seq<char>, DecodeError>(r + u),
            Err(_) => true,
        },
{
    lemma_begins_with_frame(s, u, null_chars());
    lemma_skip_concat(s, u, 4);
}

/// A numeric token that found its delimiter within `s` reads the same
/// after appending: the token, its acceptance and its value are fixed.
pub proof fn lemma_token_frame(s: Seq<char>, u: Seq<char>)
    requires
        token_len(s) is Some,
    ensures
        token_len(s + u) == token_len(s),
        parse_unsigned_s(s + u) == (match parse_unsigned_s(s) {
            Ok(p) => Ok::<(u64, Seq<char>), DecodeError>((p.0, p.1 + u)),
            Err(e) => Err(e),
        }),
        parse_signed_s(s + u) == (match parse_signed_s(s) {
            Ok(p) => Ok::<(i64, Seq<char>), DecodeError>((p.0, p.1 + u)),
            Err(e) => Err(e),
        }),
        parse_float_s(s + u) == (match parse_float_s(s) {
            Ok(p) => Ok::<(Seq<char>, Seq<char>), DecodeError>((p.0, p.1 + u)),
            Err(e) => Err(e),
        }),
{
    let n = token_len(s)->Some_0;
    lemma_find_stop(s, tok_stop());
    lemma_find_stop_frame(s, u, tok_stop());
    lemma_take_concat(s, u, n);
    lemma_skip_concat(s, u, n);
}

/// A statement terminator found within `s` reads the same after
/// appending text that does not begin with whitespace.
pub proof fn lemma_finish_frame(s: Seq<char>, u: Seq<char>)
    requires
        finish_statement_s(s) is Ok,
        u.len() > 0,
        !is_ws(u[0]),
    ensures
        match finish_statement_s(s) {
            Ok(r) => finish_statement_s(s + u) == Ok::<Seq<char>, DecodeError>(r + u),
            Err(_) => true,
        },
{
    lemma_ws_count(s);
    lemma_skip_ws_frame(s, u);
    let t = skip_ws(s);
    assert((t + u)[0] == t[0]);
    assert((t + u).drop_first() =~= t.drop_first() + u);
}

/// One step of an array body: at `}` the list is over (the `}` is left
/// for the enclosing value to consume); otherwise a `,` is required
/// before every element but the first, then one value is read.
pub open spec fn next_element_s(s: Seq<char>, first: bool) -> Result<
    Option<(ValueModel, Seq<char>)>,
    DecodeError,
>
    decreases s.len(), 1nat,
{
    let t = skip_ws(s);
    if t.len() == 0 {
        Err(DecodeError::UnexpectedEof)
    } else if t[0] == '}' {
        Ok(None)
    } else if !first && t[0] != ',' {
        Err(DecodeError::ExpectedArrayComma)
    } else {
        proof {
            lemma_ws_count(s);
        }
        let u = if first {
            t
        } else {
            t.drop_first()
        };
        match parse_value_s(u, false) {
            Ok((v, r)) => Ok(Some((v, r))),
            Err(e) => Err(e),
        }
    }
}

/// A whole array body: elements until the closing `}`, which is left
/// unconsumed.
pub open spec fn parse_elements_s(s: Seq<char>, first: bool) -> Result<
    (Seq<ValueModel>, Seq<char>),
    DecodeError,
>
    decreases s.len(), 2nat,
{
    match next_element_s(s, first) {
        Err(e) => Err(e),
        Ok(None) => Ok((Seq::empty(), skip_ws(s))),
        Ok(Some((v, r))) => if r.len() < s.len() {
            match parse_elements_s(r, false) {
                Ok((vs, rr)) => Ok((seq![v] + vs, rr)),
                Err(e) => Err(e),
            }
        } else {
            // a value consumes at least one character, so a parse never
            // reaches this branch
            Err(DecodeError::SyntaxError)
        },
    }
}

/// A whole array body after its opening `{`: the elements, then the
/// closing `}` (consumed); leaving the body before the `}` is
/// `ExpectedArrayEnd`.
pub open spec fn parse_array_tail_s(s: Seq<char>) -> Result<
    (Seq<ValueModel>, Seq<char>),
    DecodeError,
>
    decreases s.len(), 3nat,
{
    match parse_elements_s(s, true) {
        Err(e) => Err(e),
        Ok((vs, r)) => if r.len() > 0 && r[0] == '}' {
            Ok((vs, r.drop_first()))
        } else {
            Err(DecodeError::ExpectedArrayEnd)
        },
    }
}

/// One step of a class body: end of input and `}` (consumed) both end
/// the body; `class` introduces a nested class and yields its name and
/// the expectation of a class-shaped value; anything else is a bare key
/// whose `=` is consumed. Yields what is expected next and the input
/// positioned at the upcoming value.
pub open spec fn next_key_s(s: Seq<char>) -> Result<
    (Option<(Seq<char>, bool)>, Seq<char>),
    DecodeError,
> {
    let t = skip_ws(s);
    if t.len() == 0 {
        Ok((None, t))
    } else if t[0] == '}' {
        Ok((None, t.drop_first()))
    } else if is_class_kw(t) {
        match parse_class_name_s(skip_ws(t.skip(5))) {
            Ok((name, r)) => Ok((Some((name, true)), r)),
            Err(e) => Err(e),
        }
    } else {
        match parse_key_s(t) {
            Ok((key, r)) => Ok((Some((key, false)), r.drop_first())),
            Err(e) => Err(e),
        }
    }
}

/// The `;` that ends every statement, after insignificant whitespace.
pub open spec fn finish_statement_s(s: Seq<char>) -> Result<Seq<char>, DecodeError> {
    let t = skip_ws(s);
    if t.len() == 0 {
        Err(DecodeError::UnexpectedEof)
    } else if t[0] == ';' {
        Ok(t.drop_first())
    } else {
        Err(DecodeError::SyntaxError)
    }
}

/// A key read within `s` reads the same after appending text beginning
/// with `}`: the brace can neither turn the text into a `class` keyword
/// nor provide the `=` or the name stop, which were found within `s`.
pub proof fn lemma_next_key_some_frame(s: Seq<char>, u: Seq<char>)
    requires
        next_key_s(s) matches Ok(p) && p.0 is Some,
        u.len() > 0,
        u[0] == '}',
    ensures
        match next_key_s(s) {
            Ok(p) => next_key_s(s + u) == Ok::<(Option<(Seq<char>, bool)>, Seq<char>), DecodeError>(
                (p.0, p.1 + u),
            ),
            Err(_) => true,
        },
{
    lemma_ws_count(s);
    lemma_skip_ws_frame(s, u);
    let t = skip_ws(s);
    assert(t.len() > 0);
    assert((t + u)[0] == t[0]);
    if is_class_kw(t) {
        lemma_take_concat(t, u, 5);
        assert((t + u)[5] == t[5]);
        assert(is_class_kw(t + u));
        assert((t + u).skip(5) =~= t.skip(5) + u);
        lemma_ws_count(t.skip(5));
        lemma_skip_ws_frame(t.skip(5), u);
        let v = skip_ws(t.skip(5));
        if ws_count(t.skip(5)) == t.skip(5).len() {
            // the name scan found a stop, so something follows the keyword
            assert(v.len() == 0);
            lemma_find_stop(v, name_stop());
            assert(parse_class_name_s(v) is Err);
        }
        lemma_parse_class_name_frame(v, u);
    } else {
        assert(!is_class_kw(t + u)) by {
            if is_class_kw(t + u) {
                lemma_begins_with_frame(t, u, class_chars());
                assert(begins_with(t, class_chars()));
                if t.len() > 5 {
                    assert((t + u)[5] == t[5]);
                } else {
                    assert((t + u)[5] == u[0]);
                }
            }
        }
        lemma_parse_key_frame(t, u);
        let r = parse_key_s(t)->Ok_0.1;
        lemma_find_stop(t, eq_stop());
        assert(r.len() > 0);
        assert((r + u).drop_first() =~= r.drop_first() + u);
    }
}

/// A whole class body: statements until the body ends.
pub open spec fn parse_class_items_s(s: Seq<char>) -> Result<
    (Seq<(Seq<char>, ValueModel)>, Seq<char>),
    DecodeError,
>
    decreases s.len(), 2nat,
{
    match next_key_s(s) {
        Err(e) => Err(e),
        Ok((None, r)) => Ok((Seq::empty(), r)),
        Ok((Some((key, expect_class)), r)) => if r.len() <= s.len() {
            match parse_value_s(r, expect_class) {
                Err(e) => Err(e),
                Ok((v, r2)) => match finish_statement_s(r2) {
                    Err(e) => Err(e),
                    Ok(r3) => if r3.len() < s.len() {
                        match parse_class_items_s(r3) {
                            Ok((fs, rr)) => Ok((seq![(key, v)] + fs, rr)),
                            Err(e) => Err(e),
                        }
                    } else {
                        // a statement consumes at least its `;`, so a
                        // parse never reaches this branch
                        Err(DecodeError::SyntaxError)
                    },
                },
            }
        } else {
            // reading a key never lengthens the input, so a parse never
            // reaches this branch
            Err(DecodeError::SyntaxError)
        },
    }
}

/// One value, dispatched on a single character of lookahead: `n` is
/// `null`, `t`/`f` a boolean, `"` a string, a digit or `-` a number
/// (a float when its token holds `.`, signed when it holds `-`), and
/// `{` an array body — or a class body when the caller expects one.
/// Any other character is a `SyntaxError`.
pub open spec fn parse_value_s(s: Seq<char>, expect_class: bool) -> Result<
    (ValueModel, Seq<char>),
    DecodeError,
>
    decreases s.len(), 0nat,
{
    let t = skip_ws(s);
    if t.len() == 0 {
        Err(DecodeError::UnexpectedEof)
    } else if t[0] == 'n' {
        match parse_null_s(t) {
            Ok(r) => Ok((ValueModel::Null, r)),
            Err(e) => Err(e),
        }
    } else if t[0] == 't' || t[0] == 'f' {
        match parse_bool_s(t) {
            Ok((b, r)) => Ok((ValueModel::Bool(b), r)),
            Err(e) => Err(e),
        }
    } else if t[0] == '"' {
        match scan_quoted(t.drop_first()) {
            Ok((c, r)) => Ok((ValueModel::Str(c), r)),
            Err(e) => Err(e),
        }
    } else if is_digit(t[0]) || t[0] == '-' {
        match token_len(t) {
            None => Err(DecodeError::UnexpectedEof),
            Some(n) => {
                let tok = t.take(n);
                if tok.contains('.') {
                    match parse_float_s(t) {
                        Ok((f, r)) => Ok((ValueModel::Float(f), r)),
                        Err(e) => Err(e),
                    }
                } else if tok.contains('-') {
                    match parse_signed_s(t) {
                        Ok((v, r)) => Ok((ValueModel::Int(v), r)),
                        Err(e) => Err(e),
                    }
                } else {
                    match parse_unsigned_s(t) {
                        Ok((v, r)) => Ok((ValueModel::UInt(v), r)),
                        Err(e) => Err(e),
                    }
                }
            },
        }
    } else if t[0] == '{' {
        proof {
            lemma_ws_count(s);
        }
        if expect_class {
            match parse_class_items_s(t.drop_first()) {
                Ok((fs, r)) => Ok((ValueModel::Cls(fs), r)),
                Err(e) => Err(e),
            }
        } else {
            match parse_array_tail_s(t.drop_first()) {
                Ok((vs, r)) => Ok((ValueModel::Arr(vs), r)),
                Err(e) => Err(e),
            }
        }
    } else {
        Err(DecodeError::SyntaxError)
    }
}

/// A value parsed within `s` is undisturbed by appending text that
/// begins with `}` — except that a class-shaped value whose body ran to
/// the very end of the input now ends at the appended brace, consuming
/// it. The decoded value itself is the same either way.
pub proof fn lemma_value_frame(s: Seq<char>, expect_class: bool, u: Seq<char>)
    requires
        parse_value_s(s, expect_class) is Ok,
        u.len() > 0,
        u[0] == '}',
    ensures
        match parse_value_s(s, expect_class) {
            Ok(p) => parse_value_s(s + u, expect_class) == Ok::<(ValueModel, Seq<char>), DecodeError>(
                (p.0, p.1 + u),
            ) || (expect_class && p.1.len() == 0 && parse_value_s(s + u, expect_class) == Ok::<
                (ValueModel, Seq<char>),
                DecodeError,
            >((p.0, u.drop_first()))),
            Err(_) => true,
        },
    decreases s.len(), 0nat,
{
    lemma_ws_count(s);
    lemma_skip_ws_frame(s, u);
    let t = skip_ws(s);
    assert(t.len() > 0);
    let w = t + u;
    assert(w[0] == t[0]);
    if t[0] == 'n' {
        lemma_parse_null_frame(t, u);
    } else if t[0] == 't' || t[0] == 'f' {
        lemma_parse_bool_frame(t, u);
    } else if t[0] == '"' {
        lemma_scan_quoted_frame(t.drop_first(), u);
        assert(w.drop_first() =~= t.drop_first() + u);
    } else if is_digit(t[0]) || t[0] == '-' {
        lemma_token_frame(t, u);
        let n = token_len(t)->Some_0;
        lemma_find_stop(t, tok_stop());
        lemma_take_concat(t, u, n);
    } else if t[0] == '{' {
        assert(w.drop_first() =~= t.drop_first() + u);
        if expect_class {
            lemma_class_items_frame(t.drop_first(), u);
        } else {
            lemma_elements_frame(t.drop_first(), true, u);
            let r0 = parse_elements_s(t.drop_first(), true)->Ok_0.1;
            assert(r0.len() > 0 && r0[0] == '}');
            assert((r0 + u)[0] == r0[0]);
            assert((r0 + u).drop_first() =~= r0.drop_first() + u);
        }
    }
}

/// One array-body step within `s` is undisturbed by appending text that
/// begins with `}`.
pub proof fn lemma_next_element_frame(s: Seq<char>, first: bool, u: Seq<char>)
    requires
        next_element_s(s, first) is Ok,
        u.len() > 0,
        u[0] == '}',
    ensures
        match next_element_s(s, first) {
            Ok(None) => next_element_s(s + u, first) == Ok::<
                Option<(ValueModel, Seq<char>)>,
                DecodeError,
            >(None),
            Ok(Some(p)) => next_element_s(s + u, first) == Ok::<
                Option<(ValueModel, Seq<char>)>,
                DecodeError,
            >(Some((p.0, p.1 + u))),
            Err(_) => true,
        },
    decreases s.len(), 1nat,
{
    lemma_ws_count(s);
    lemma_skip_ws_frame(s, u);
    let t = skip_ws(s);
    assert(t.len() > 0);
    assert((t + u)[0] == t[0]);
    if t[0] != '}' {
        let v0 = if first {
            t
        } else {
            t.drop_first()
        };
        if !first {
            assert((t + u).drop_first() =~= t.drop_first() + u);
        }
        lemma_value_frame(v0, false, u);
    }
}

/// An array body parsed within `s` is undisturbed by appending text that
/// begins with `}`: its own closing brace was found within `s`.
pub proof fn lemma_elements_frame(s: Seq<char>, first: bool, u: Seq<char>)
    requires
        parse_elements_s(s, first) is Ok,
        u.len() > 0,
        u[0] == '}',
    ensures
        match parse_elements_s(s, first) {
            Ok(p) => parse_elements_s(s + u, first) == Ok::<
                (Seq<ValueModel>, Seq<char>),
                DecodeError,
            >((p.0, p.1 + u)),
            Err(_) => true,
        },
    decreases s.len(), 2nat,
{
    lemma_next_element_frame(s, first, u);
    match next_element_s(s, first) {
        Ok(None) => {
            lemma_ws_count(s);
            lemma_skip_ws_frame(s, u);
        },
        Ok(Some((v, r))) => {
            lemma_elements_frame(r, false, u);
        },
        Err(_) => {},
    }
}

/// A class body parsed within `s` is undisturbed by appending text that
/// begins with `}` — except that a body which ran to the very end of the
/// input now ends at the appended brace, consuming it. The decoded
/// statements are the same either way.
pub proof fn lemma_class_items_frame(s: Seq<char>, u: Seq<char>)
    requires
        parse_class_items_s(s) is Ok,
        u.len() > 0,
        u[0] == '}',
    ensures
        match parse_class_items_s(s) {
            Ok(p) => parse_class_items_s(s + u) == Ok::<
                (Seq<(Seq<char>, ValueModel)>, Seq<char>),
                DecodeError,
            >((p.0, p.1 + u)) || (p.1.len() == 0 && parse_class_items_s(s + u) == Ok::<
                (Seq<(Seq<char>, ValueModel)>, Seq<char>),
                DecodeError,
            >((p.0, u.drop_first()))),
            Err(_) => true,
        },
    decreases s.len(), 2nat,
{
    lemma_ws_count(s);
    lemma_skip_ws_frame(s, u);
    let t = skip_ws(s);
    if t.len() == 0 {
        // the body ended at the end of the input; with the suffix it ends
        // at the appended brace instead, consuming it
        assert(skip_ws(s + u) == u);
    } else if t[0] == '}' {
        assert((t + u)[0] == t[0]);
        assert((t + u).drop_first() =~= t.drop_first() + u);
    } else {
        lemma_next_key_some_frame(s, u);
        let kb = next_key_s(s)->Ok_0;
        let expect_class = kb.0->Some_0.1;
        let r1 = kb.1;
        lemma_value_frame(r1, expect_class, u);
        let p1 = parse_value_s(r1, expect_class)->Ok_0;
        let r2 = p1.1;
        // the statement's `;` lies within `s`, so the value's rest is
        // not empty and the value framed cleanly
        assert(r2.len() > 0);
        lemma_finish_frame(r2, u);
        let r3 = finish_statement_s(r2)->Ok_0;
        lemma_class_items_frame(r3, u);
    }
}

/// Nested class bodies mean the same as standalone documents: wrapping a
/// body that parses cleanly on its own in `{ ... }` and decoding it as a
/// class-shaped value yields exactly the standalone body's statements.
/// The wrapper's closing brace is normally consumed and the value's rest
/// is `tail` (the first case below); a body whose own statements end by
/// consuming an unmatched `}` of their own instead leaves the wrapper's
/// brace behind (the second case), and the enclosing statement then
/// fails to find its `;` — such a body, e.g. `a=1;}`, is the one shape
/// on which wrapping changes the outcome.
pub proof fn lemma_nested_class_is_standalone(b: Seq<char>, tail: Seq<char>)
    requires
        parse_class_items_s(b) matches Ok(p) && p.1.len() == 0,
    ensures
        ({
            let fs = parse_class_items_s(b)->Ok_0.0;
            let w = seq!['{'] + b + seq!['}'] + tail;
            parse_value_s(w, true) == Ok::<(ValueModel, Seq<char>), DecodeError>(
                (ValueModel::Cls(fs), tail),
            ) || parse_value_s(w, true) == Ok::<(ValueModel, Seq<char>), DecodeError>(
                (ValueModel::Cls(fs), seq!['}'] + tail),
            )
        }),
{
    let p = parse_class_items_s(b)->Ok_0;
    let u = seq!['}'] + tail;
    let w = seq!['{'] + b + seq!['}'] + tail;
    assert(u.len() > 0 && u[0] == '}');
    lemma_class_items_frame(b, u);
    assert(w[0] == '{');
    lemma_ws_count(w);
    assert(ws_count(w) == 0);
    assert(skip_ws(w) =~= w);
    assert(w.drop_first() =~= b + u);
    assert(p.1 + u =~= u);
    assert(u.drop_first() =~= tail);
}

/// Padding dropped by `skip_ws`: whitespace in front of a text
/// disappears with the text's own leading whitespace.
pub proof fn lemma_skip_ws_pad(pad: Seq<char>, s: Seq<char>)
    requires
        forall|i: int| 0 <= i < pad.len() ==> is_ws(pad[i]),
    ensures
        skip_ws(pad + s) == skip_ws(s),
{
    let u = pad + s;
    lemma_ws_count(s);
    lemma_ws_count(u);
    assert(forall|i: int| 0 <= i < pad.len() + ws_count(s) ==> is_ws(u[i]));
    if pad.len() + ws_count(s) < u.len() {
        assert(u[pad.len() + ws_count(s)] == s[ws_count(s)]);
    }
    assert(ws_count(u) == pad.len() + ws_count(s));
    assert(skip_ws(u) =~= skip_ws(s));
}

/// Whitespace in front of a value is insignificant: it changes neither
/// the decoded value, nor the error, nor the input left behind.
pub proof fn lemma_value_ws_insensitive(pad: Seq<char>, s: Seq<char>, expect_class: bool)
    requires
        forall|i: int| 0 <= i < pad.len() ==> is_ws(pad[i]),
    ensures
        parse_value_s(pad + s, expect_class) == parse_value_s(s, expect_class),
{
    lemma_skip_ws_pad(pad, s);
}

/// Whitespace in front of an array element is insignificant in the same
/// way, at the first element and between elements alike.
pub proof fn lemma_element_ws_insensitive(pad: Seq<char>, s: Seq<char>, first: bool)
    requires
        forall|i: int| 0 <= i < pad.len() ==> is_ws(pad[i]),
    ensures
        next_element_s(pad + s, first) == next_element_s(s, first),
{
    lemma_skip_ws_pad(pad, s);
}

/// A value followed by the `;` that ends its statement.
pub open spec fn next_value_s(s: Seq<char>, expect_class: bool) -> Result<
    (ValueModel, Seq<char>),
    DecodeError,
> {
    match parse_value_s(s, expect_class) {
        Err(e) => Err(e),
        Ok((v, r)) => match finish_statement_s(r) {
            Err(e) => Err(e),
            Ok(r2) => Ok((v, r2)),
        },
    }
}

/// A whole document: an optional opening `{`, then the top-level class
/// body; any non-whitespace input left after it is `TrailingCharacters`.
pub open spec fn parse_document_s(s: Seq<char>) -> Result<ValueModel, DecodeError> {
    let t = if s.len() > 0 && s[0] == '{' {
        s.drop_first()
    } else {
        s
    };
    match parse_class_items_s(t) {
        Err(e) => Err(e),
        Ok((fs, r)) => if skip_ws(r).len() == 0 {
            Ok(ValueModel::Cls(fs))
        } else {
            Err(DecodeError::TrailingCharacters)
        },
    }
}

} // verus!
