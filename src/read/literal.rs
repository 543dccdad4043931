//! Quoted literals, numbers and keyword checks.
use vstd::prelude::*;
use vstd::string::*;
use vstd::utf8::*;

use super::lex::{find_byte, into_text, is_suffix, text_of};
use super::{is_grammar_error, Parser};
use crate::xml::{Error, Result};

verus! {

/// Whether `b` is one of the two XML quote characters.
pub open spec fn is_quote(b: u8) -> bool {
    b == 0x27 || b == 0x22
}

/// A quoted literal at the start of `s`: its body, and how many bytes the
/// whole literal takes, quotes included.
pub open spec fn quoted(s: Seq<u8>) -> Option<(Seq<u8>, int)> {
    if s.len() > 0 && is_quote(s[0]) && find_byte(s.drop_first(), s[0]) < s.len() - 1 {
        let n = find_byte(s.drop_first(), s[0]) as int;
        Some((s.subrange(1, n + 1), n + 2))
    } else {
        None
    }
}

/// The body of the quoted literal at the start of `s`.
pub open spec fn quoted_body(s: Seq<u8>) -> Seq<u8> {
    match quoted(s) {
        Some(q) => q.0,
        None => Seq::empty(),
    }
}

/// How many bytes the quoted literal at the start of `s` takes.
pub open spec fn quoted_len(s: Seq<u8>) -> int {
    match quoted(s) {
        Some(q) => q.1,
        None => 0,
    }
}

/// The value of the digit `b` in base `radix`, if it is one.
pub open spec fn digit_value(b: u8, radix: u32) -> Option<nat> {
    let v: int = if 0x30 <= b <= 0x39 {
        b - 0x30
    } else if 0x61 <= b <= 0x7A {
        b - 0x61 + 10
    } else if 0x41 <= b <= 0x5A {
        b - 0x41 + 10
    } else {
        99
    };
    if v < radix {
        Some(v as nat)
    } else {
        None
    }
}

/// Whether every byte of `s` is a digit in base `radix`.
pub open spec fn all_digits(s: Seq<u8>, radix: u32) -> bool {
    forall|i: int| 0 <= i < s.len() ==> (#[trigger] digit_value(s[i], radix)) is Some
}

/// The value of the digits `s` in base `radix`, most significant first.
pub open spec fn digits_value(s: Seq<u8>, radix: u32) -> nat
    decreases s.len(),
{
    if s.len() == 0 {
        0
    } else {
        (digits_value(s.drop_last(), radix) * radix + digit_value(s.last(), radix).unwrap_or(0)) as nat
    }
}

/// `s` without a leading `+`.
pub open spec fn unsigned_part(s: Seq<u8>) -> Seq<u8> {
    if s.len() > 0 && s[0] == 0x2B {
        s.drop_first()
    } else {
        s
    }
}

/// The number that `s` spells in base `radix`, as `u32::from_str_radix`
/// reads it: an optional `+`, then at least one digit, with a value that
/// fits in 32 bits.
pub open spec fn number_of(s: Seq<u8>, radix: u32) -> Option<u32> {
    let d = unsigned_part(s);
    if d.len() > 0 && all_digits(d, radix) && digits_value(d, radix) <= u32::MAX {
        Some(digits_value(d, radix) as u32)
    } else {
        None
    }
}

proof fn lemma_digits_grow(s: Seq<u8>, n: int, radix: u32)
    requires
        0 <= n <= s.len(),
        radix >= 1,
    ensures
        digits_value(s.take(n), radix) <= digits_value(s, radix),
    decreases s.len() - n,
{
    if n < s.len() {
        lemma_digits_grow(s, n + 1, radix);
        assert(s.take(n + 1).drop_last() =~= s.take(n));
        let a = digits_value(s.take(n), radix);
        assert(a * radix >= a) by (nonlinear_arith)
            requires
                radix >= 1,
        ;
    } else {
        assert(s.take(n) =~= s);
    }
}

/// The value of the digit `b` in base `radix`.
fn digit(b: u8, radix: u32) -> (r: Option<u32>)
    requires
        radix <= 36,
    ensures
        r matches Some(v) ==> digit_value(b, radix) == Some(v as nat),
        r is None ==> digit_value(b, radix) is None,
{
    let v: u32 = if 0x30 <= b && b <= 0x39 {
        (b - 0x30) as u32
    } else if 0x61 <= b && b <= 0x7A {
        (b - 0x61 + 10) as u32
    } else if 0x41 <= b && b <= 0x5A {
        (b - 0x41 + 10) as u32
    } else {
        99
    };
    if v < radix {
        Some(v)
    } else {
        None
    }
}

proof fn lemma_digits_step(d: Seq<u8>, k: int, radix: u32)
    requires
        0 <= k < d.len(),
    ensures
        digits_value(d.take(k + 1), radix) == digits_value(d.take(k), radix) * radix
            + digit_value(d[k], radix).unwrap_or(0),
{
    assert(d.take(k + 1).drop_last() =~= d.take(k));
    assert(d.take(k + 1).last() == d[k]);
}

/// Reads the digits `s` as `u32::from_str_radix` does.
pub fn parse_number(s: &[u8], radix: u32) -> (r: Option<u32>)
    requires
        radix == 10 || radix == 16,
    ensures
        r == number_of(s@, radix),
{
    let mut i: usize = 0;
    if s.len() > 0 && s[0] == 0x2B {
        i = 1;
    }
    let ghost d = unsigned_part(s@);
    let start = i;
    if start == s.len() {
        return None;
    }
    let mut acc: u64 = 0;
    while i < s.len()
        invariant
            start <= i <= s@.len(),
            start == s@.len() - d.len(),
            d =~= s@.skip(start as int),
            d == unsigned_part(s@),
            radix == 10 || radix == 16,
            acc == digits_value(d.take(i - start), radix),
            acc <= u32::MAX,
            all_digits(d.take(i - start), radix),
        decreases s.len() - i,
    {
        let ghost k = i - start;
        assert(d[k] == s@[i as int]);
        let v = match digit(s[i], radix) {
            Some(v) => v,
            None => {
                assert(!all_digits(d, radix));
                return None;
            },
        };
        proof {
            lemma_digits_step(d, k, radix);
        }
        assert(acc * radix as u64 + v as u64 <= 0xffff_ffff * 16 + 16) by (nonlinear_arith)
            requires
                acc <= 0xffff_ffff,
                radix <= 16,
                v < 16,
        ;
        let next = acc * radix as u64 + v as u64;
        if next > 0xffff_ffff {
            proof {
                lemma_digits_grow(d, k + 1, radix);
            }
            return None;
        }
        acc = next;
        i = i + 1;
        assert(all_digits(d.take(i - start), radix)) by {
            assert forall|j: int| 0 <= j < i - start implies (#[trigger] digit_value(
                d.take(i - start)[j],
                radix,
            )) is Some by {
                if j < k {
                    assert(d.take(i - start)[j] == d.take(k)[j]);
                }
            }
        }
    }
    assert(d.take(i - start) =~= d);
    Some(acc as u32)
}

impl Parser {
    /// Reads a quoted literal and returns its body.
    ///
    /// `SystemLiteral ::= ('"' [^"]* '"') | ("'" [^']* "'")`
    pub(crate) fn system_literal(&mut self) -> (r: Result<String>)
        requires
            old(self).reader_ok(),
        ensures
            r is Ok ==> is_suffix(final(self).stream(), old(self).stream()),
            r matches Err(e) ==> is_grammar_error(e),
            final(self).same_frame(*old(self)),
            final(self).stream().len() <= old(self).stream().len(),
            ({
                let s = old(self).stream();
                &&& r is Ok <==> quoted(s) is Some && text_of(quoted_body(s)) is Some
                &&& r matches Ok(t) ==> text_of(quoted_body(s)) == Some(t@)
                    && final(self).stream() == s.skip(quoted_len(s))
                &&& r matches Err(e) ==> if s.len() > 0 && !is_quote(s[0]) {
                    e is MalformedSystemLiteral
                } else if quoted(s) is None {
                    e is UnexpectedEof
                } else {
                    e is Utf8Error
                }
            }),
    {
        let ghost s = self.stream();
        let quote = match self.next_byte() {
            Ok(b) => b,
            Err(e) => return Err(e),
        };
        if quote != 0x27 && quote != 0x22 {
            return Err(Error::MalformedSystemLiteral);
        }
        let ghost t = s.drop_first();
        proof {
            super::lex::lemma_find_byte(t, quote);
        }
        let ghost n = find_byte(t, quote);
        let mut buf: Vec<u8> = Vec::new();
        loop
            invariant
                self.same_frame(*old(self)),
                s == old(self).stream(),
                s.len() > 0,
                quote == s[0],
                is_quote(quote),
                t == s.drop_first(),
                n == find_byte(t, quote),
                n <= t.len(),
                forall|i: int| 0 <= i < n ==> #[trigger] t[i] != quote,
                n < t.len() ==> t[n as int] == quote,
                buf@.len() <= n,
                buf@ == t.take(buf@.len() as int),
                self.stream() == t.skip(buf@.len() as int),
            decreases t.len() - buf@.len(),
        {
            let b = match self.next_byte() {
                Ok(b) => b,
                Err(e) => {
                    assert(buf@.len() == t.len());
                    assert(quoted(s) is None);
                    return Err(e);
                },
            };
            assert(b == t[buf@.len() as int]);
            if b == quote {
                assert(buf@.len() == n);
                assert(quoted(s) is Some);
                assert(quoted_body(s) == s.subrange(1, n + 1 as int));
                assert(buf@ =~= s.subrange(1, n + 1 as int));
                assert(self.stream() =~= s.skip(n + 2 as int));
                return into_text(buf);
            }
            buf.push(b);
            assert(buf@ =~= t.take(buf@.len() as int));
            assert(self.stream() =~= t.skip(buf@.len() as int));
        }
    }

    /// Reads a version literal `'1.' [0-9]+` and returns the minor version.
    pub(crate) fn version_literal(&mut self) -> (r: Result<u32>)
        requires
            old(self).reader_ok(),
        ensures
            r is Ok ==> is_suffix(final(self).stream(), old(self).stream()),
            r matches Err(e) ==> is_grammar_error(e),
            final(self).same_frame(*old(self)),
            final(self).stream().len() <= old(self).stream().len(),
            ({
                let s = old(self).stream();
                let body = quoted_body(s);
                &&& r is Ok <==> quoted(s) is Some && text_of(body) is Some && body.len() >= 2
                    && body[0] == 0x31 && body[1] == 0x2E && number_of(body.skip(2), 10) is Some
                &&& r matches Ok(m) ==> Some(m) == number_of(body.skip(2), 10)
                    && final(self).stream() == s.skip(quoted_len(s))
            }),
            r matches Err(e) ==> e is MalformedVersionLiteral || e is MalformedSystemLiteral
                || e is UnexpectedEof || e is Utf8Error,
    {
        let ghost s = self.stream();
        let vers = match self.system_literal() {
            Ok(v) => v,
            Err(e) => return Err(e),
        };
        let ghost body = quoted_body(s);
        let b = vers.as_str().as_bytes();
        proof {
            decode_utf8_encode_utf8(body);
        }
        assert(b@ == body);
        if b.len() < 2 || b[0] != 0x31 || b[1] != 0x2E {
            return Err(Error::MalformedVersionLiteral);
        }
        let rest = slice_skip2(b);
        match parse_number(rest, 10) {
            Some(v) => Ok(v),
            None => Err(Error::MalformedVersionLiteral),
        }
    }

    /// Reads `'yes'` or `'no'`, quoted.
    pub(crate) fn yesno_literal(&mut self) -> (r: Result<bool>)
        requires
            old(self).reader_ok(),
        ensures
            r is Ok ==> is_suffix(final(self).stream(), old(self).stream()),
            r matches Err(e) ==> is_grammar_error(e),
            final(self).same_frame(*old(self)),
            final(self).stream().len() <= old(self).stream().len(),
            ({
                let s = old(self).stream();
                let body = quoted_body(s);
                &&& r is Ok <==> quoted(s) is Some && (body == "yes".spec_bytes() || body
                    == "no".spec_bytes())
                &&& r matches Ok(v) ==> v == (body == "yes".spec_bytes()) && final(self).stream()
                    == s.skip(quoted_len(s))
            }),
            r matches Err(e) ==> e is MalformedYesNoLiteral || e is MalformedSystemLiteral
                || e is UnexpectedEof || e is Utf8Error,
    {
        let ghost s = self.stream();
        proof {
            encode_utf8_valid_utf8("yes"@);
            encode_utf8_valid_utf8("no"@);
        }
        let text = match self.system_literal() {
            Ok(v) => v,
            Err(e) => return Err(e),
        };
        let ghost body = quoted_body(s);
        let b = text.as_str().as_bytes();
        proof {
            decode_utf8_encode_utf8(body);
        }
        if bytes_eq(b, "yes".as_bytes()) {
            Ok(true)
        } else if bytes_eq(b, "no".as_bytes()) {
            Ok(false)
        } else {
            Err(Error::MalformedYesNoLiteral)
        }
    }
}

/// The bytes of `b` after the first two.
fn slice_skip2(b: &[u8]) -> (r: &[u8])
    requires
        b@.len() >= 2,
    ensures
        r@ == b@.skip(2),
{
    vstd::slice::slice_subrange(b, 2, b.len())
}

/// Whether two byte strings are equal.
pub fn bytes_eq(a: &[u8], b: &[u8]) -> (r: bool)
    ensures
        r == (a@ == b@),
{
    if a.len() != b.len() {
        return false;
    }
    let mut i: usize = 0;
    while i < a.len()
        invariant
            a@.len() == b@.len(),
            i <= a@.len(),
            forall|j: int| 0 <= j < i ==> a@[j] == b@[j],
        decreases a.len() - i,
    {
        if a[i] != b[i] {
            return false;
        }
        i = i + 1;
    }
    assert(a@ =~= b@);
    true
}

} // verus!
