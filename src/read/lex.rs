//! Reading primitives of the parser: single bytes, whitespace, names,
//! keywords and quoted literals.
use vstd::prelude::*;
use vstd::string::*;
use vstd::utf8::*;

use super::{is_grammar_error, Parser};
use crate::xml::{Error, Result};

verus! {

/// `S ::= (#x20 | #x9 | #xD | #xA)+`
pub open spec fn is_space(b: u8) -> bool {
    b == 0x20 || b == 0x09 || b == 0x0D || b == 0x0A
}

/// The bytes accepted inside a name: ASCII letters and digits, `_`, `:`,
/// `.`, `-`, and every byte outside ASCII (name characters outside ASCII are
/// not checked against the full tables).
pub open spec fn is_name_byte(b: u8) -> bool {
    (0x41 <= b <= 0x5A) || (0x61 <= b <= 0x7A) || (0x30 <= b <= 0x39) || b == 0x5F || b == 0x3A
        || b == 0x2E || b == 0x2D || b >= 0x80
}

/// The length of the run of whitespace bytes at the start of `s`.
pub open spec fn space_run(s: Seq<u8>) -> nat
    decreases s.len(),
{
    if s.len() > 0 && is_space(s[0]) {
        1 + space_run(s.drop_first())
    } else {
        0
    }
}

/// The length of the run of name bytes at the start of `s`.
pub open spec fn name_run(s: Seq<u8>) -> nat
    decreases s.len(),
{
    if s.len() > 0 && is_name_byte(s[0]) {
        1 + name_run(s.drop_first())
    } else {
        0
    }
}

/// The length of the longest common prefix of `a` and `b`.
pub open spec fn common_len(a: Seq<u8>, b: Seq<u8>) -> nat
    decreases a.len(),
{
    if a.len() > 0 && b.len() > 0 && a[0] == b[0] {
        1 + common_len(a.drop_first(), b.drop_first())
    } else {
        0
    }
}

/// Whether `s` begins with the bytes `w`.
pub open spec fn starts_with(s: Seq<u8>, w: Seq<u8>) -> bool {
    s.len() >= w.len() && s.take(w.len() as int) == w
}

/// Whether `t` is what remains of `s` after some bytes were taken from its
/// front.
pub open spec fn is_suffix(t: Seq<u8>, s: Seq<u8>) -> bool {
    t.len() <= s.len() && t == s.skip(s.len() - t.len())
}

pub(crate) proof fn lemma_suffix_trans(a: Seq<u8>, b: Seq<u8>, c: Seq<u8>)
    requires
        is_suffix(a, b),
        is_suffix(b, c),
    ensures
        is_suffix(a, c),
{
    assert(a =~= c.skip(c.len() - a.len()));
}

/// The index of the first `d` in `s` (its length when there is none).
pub open spec fn find_byte(s: Seq<u8>, d: u8) -> nat
    decreases s.len(),
{
    if s.len() == 0 || s[0] == d {
        0
    } else {
        1 + find_byte(s.drop_first(), d)
    }
}

/// The characters that the bytes `b` encode, when they are valid UTF-8.
pub open spec fn text_of(b: Seq<u8>) -> Option<Seq<char>> {
    if valid_utf8(b) {
        Some(decode_utf8(b))
    } else {
        None
    }
}

pub(crate) proof fn lemma_space_run(s: Seq<u8>)
    ensures
        space_run(s) <= s.len(),
        forall|i: int| 0 <= i < space_run(s) ==> is_space(#[trigger] s[i]),
        space_run(s) < s.len() ==> !is_space(s[space_run(s) as int]),
    decreases s.len(),
{
    if s.len() > 0 && is_space(s[0]) {
        lemma_space_run(s.drop_first());
        assert forall|i: int| 0 <= i < space_run(s) implies is_space(#[trigger] s[i]) by {
            if i > 0 {
                assert(s[i] == s.drop_first()[i - 1]);
            }
        }
    }
}

pub(crate) proof fn lemma_name_run(s: Seq<u8>)
    ensures
        name_run(s) <= s.len(),
        forall|i: int| 0 <= i < name_run(s) ==> is_name_byte(#[trigger] s[i]),
        name_run(s) < s.len() ==> !is_name_byte(s[name_run(s) as int]),
    decreases s.len(),
{
    if s.len() > 0 && is_name_byte(s[0]) {
        lemma_name_run(s.drop_first());
        assert forall|i: int| 0 <= i < name_run(s) implies is_name_byte(#[trigger] s[i]) by {
            if i > 0 {
                assert(s[i] == s.drop_first()[i - 1]);
            }
        }
    }
}

pub(crate) proof fn lemma_find_byte(s: Seq<u8>, d: u8)
    ensures
        find_byte(s, d) <= s.len(),
        forall|i: int| 0 <= i < find_byte(s, d) ==> #[trigger] s[i] != d,
        find_byte(s, d) < s.len() ==> s[find_byte(s, d) as int] == d,
    decreases s.len(),
{
    if s.len() > 0 && s[0] != d {
        lemma_find_byte(s.drop_first(), d);
        assert forall|i: int| 0 <= i < find_byte(s, d) implies #[trigger] s[i] != d by {
            if i > 0 {
                assert(s[i] == s.drop_first()[i - 1]);
            }
        }
    }
}

/// Relies on `String::from_utf8`: it succeeds exactly on valid UTF-8, and the
/// string then holds the characters that the bytes encode.
#[verifier::external_body]
fn utf8_string(bytes: Vec<u8>) -> (r: std::result::Result<String, std::string::FromUtf8Error>)
    ensures
        r is Ok <==> valid_utf8(bytes@),
        r matches Ok(s) ==> s@ == decode_utf8(bytes@),
{
    String::from_utf8(bytes)
}

/// Turns collected bytes into text, failing with `Utf8Error` on invalid UTF-8.
pub fn into_text(bytes: Vec<u8>) -> (r: Result<String>)
    ensures
        r is Ok <==> text_of(bytes@) is Some,
        r matches Ok(s) ==> text_of(bytes@) == Some(s@),
        r matches Err(e) ==> e is Utf8Error,
{
    match utf8_string(bytes) {
        Ok(s) => Ok(s),
        Err(e) => Err(Error::Utf8Error(e)),
    }
}

impl Parser {
    /// Reads the next byte; running out of input is `UnexpectedEof`.
    pub(crate) fn next_byte(&mut self) -> (r: Result<u8>)
        requires
            old(self).reader_ok(),
        ensures
            r is Ok ==> is_suffix(final(self).stream(), old(self).stream()),
            r matches Err(e) ==> is_grammar_error(e),
            final(self).same_frame(*old(self)),
            old(self).stream().len() > 0 ==> r == Ok::<u8, Error>(old(self).stream()[0])
                && final(self).stream() == old(self).stream().drop_first(),
            old(self).stream().len() == 0 ==> (r matches Err(Error::UnexpectedEof))
                && final(self).stream() == old(self).stream(),
    {
        match self.bytes.next() {
            Some(b) => Ok(b),
            None => Err(Error::UnexpectedEof),
        }
    }

    /// Pushes back one byte.
    pub(crate) fn unget_byte(&mut self, b: u8)
        requires
            old(self).reader_ok(),
        ensures
            final(self).same_frame(*old(self)),
            final(self).stream() == seq![b] + old(self).stream(),
    {
        self.bytes.unget(b)
    }

    /// Pushes back a run of bytes, to be read again in order.
    pub(crate) fn bytes_unget(&mut self, b: &Vec<u8>)
        requires
            old(self).reader_ok(),
        ensures
            final(self).same_frame(*old(self)),
            final(self).stream() == b@ + old(self).stream(),
    {
        self.bytes.unget_buf(b.as_slice())
    }

    /// Reads the next byte and tells whether it is `b`.
    pub(crate) fn next_byte_is(&mut self, b: u8) -> (r: Result<bool>)
        requires
            old(self).reader_ok(),
        ensures
            r is Ok ==> is_suffix(final(self).stream(), old(self).stream()),
            r matches Err(e) ==> is_grammar_error(e),
            final(self).same_frame(*old(self)),
            old(self).stream().len() > 0 ==> r == Ok::<bool, Error>(old(self).stream()[0] == b)
                && final(self).stream() == old(self).stream().drop_first(),
            old(self).stream().len() == 0 ==> (r matches Err(Error::UnexpectedEof))
                && final(self).stream() == old(self).stream(),
    {
        Ok(self.next_byte()? == b)
    }

    /// Skips up to and including the next `delim`.
    pub(crate) fn read_until(&mut self, delim: u8) -> (r: Result<()>)
        requires
            old(self).reader_ok(),
        ensures
            r matches Err(e) ==> is_grammar_error(e),
            final(self).same_frame(*old(self)),
            ({
                let k = find_byte(old(self).stream(), delim);
                &&& k < old(self).stream().len() ==> r is Ok && final(self).stream()
                    == old(self).stream().skip(k + 1 as int)
                &&& k == old(self).stream().len() ==> (r matches Err(Error::UnexpectedEof))
                    && final(self).stream().len() == 0
            }),
            final(self).stream().len() <= old(self).stream().len(),
    {
        let ghost s0 = self.stream();
        proof {
            lemma_find_byte(s0, delim);
        }
        let ghost k = find_byte(s0, delim);
        let ghost mut n: int = 0;
        loop
            invariant
                self.same_frame(*old(self)),
                s0 == old(self).stream(),
                k == find_byte(s0, delim),
                k <= s0.len(),
                forall|i: int| 0 <= i < k ==> #[trigger] s0[i] != delim,
                k < s0.len() ==> s0[k as int] == delim,
                0 <= n <= k,
                self.stream() == s0.skip(n),
            decreases s0.len() - n,
        {
            match self.next_byte() {
                Ok(b) => {
                    assert(b == s0[n]);
                    assert(self.stream() =~= s0.skip(n + 1));
                    if b == delim {
                        return Ok(());
                    }
                    proof {
                        n = n + 1;
                    }
                },
                Err(e) => {
                    return Err(e);
                },
            }
        }
    }

    /// Skips whitespace, telling whether there was any. Distinguishes
    /// optional from mandatory whitespace.
    pub(crate) fn whitespace(&mut self) -> (r: Result<bool>)
        requires
            old(self).reader_ok(),
        ensures
            r is Ok ==> is_suffix(final(self).stream(), old(self).stream()),
            r matches Err(e) ==> is_grammar_error(e),
            final(self).same_frame(*old(self)),
            ({
                let k = space_run(old(self).stream());
                &&& k < old(self).stream().len() ==> r == Ok::<bool, Error>(k > 0)
                    && final(self).stream() == old(self).stream().skip(k as int)
                &&& k == old(self).stream().len() ==> (r matches Err(Error::UnexpectedEof))
                    && final(self).stream().len() == 0
            }),
            final(self).stream().len() <= old(self).stream().len(),
    {
        let ghost s0 = self.stream();
        proof {
            lemma_space_run(s0);
        }
        let ghost k = space_run(s0);
        let ghost mut n: int = 0;
        let mut skipped = false;
        loop
            invariant
                self.same_frame(*old(self)),
                s0 == old(self).stream(),
                k == space_run(s0),
                k <= s0.len(),
                forall|i: int| 0 <= i < k ==> is_space(#[trigger] s0[i]),
                k < s0.len() ==> !is_space(s0[k as int]),
                0 <= n <= k,
                skipped == (n > 0),
                self.stream() == s0.skip(n),
            decreases s0.len() - n,
        {
            match self.next_byte() {
                Ok(b) => {
                    assert(b == s0[n]);
                    if b == 0x20 || b == 0x09 || b == 0x0D || b == 0x0A {
                        proof {
                            n = n + 1;
                        }
                        skipped = true;
                        assert(self.stream() =~= s0.skip(n));
                    } else {
                        self.unget_byte(b);
                        assert(self.stream() =~= s0.skip(n));
                        return Ok(skipped);
                    }
                },
                Err(e) => {
                    return Err(e);
                },
            }
        }
    }

    /// Skips a mandatory `=` with optional whitespace around it.
    ///
    /// `Eq ::= S? '=' S?`
    pub(crate) fn equals(&mut self) -> (r: Result<()>)
        requires
            old(self).reader_ok(),
        ensures
            r is Ok ==> is_suffix(final(self).stream(), old(self).stream()),
            r matches Err(e) ==> is_grammar_error(e),
            final(self).same_frame(*old(self)),
            final(self).stream().len() <= old(self).stream().len(),
            r is Ok ==> final(self).stream().len() < old(self).stream().len(),
            ({
                let s = old(self).stream();
                let k = space_run(s);
                let t = s.skip(k + 1 as int);
                r is Ok <==> k < s.len() && s[k as int] == 0x3D && space_run(t) < t.len()
            }),
            r is Ok ==> final(self).stream() == ({
                let s = old(self).stream();
                let t = s.skip(space_run(s) + 1 as int);
                t.skip(space_run(t) as int)
            }),
            r matches Err(e) ==> e is UnexpectedEof || e is MalformedEq,
    {
        let ghost s = self.stream();
        proof {
            lemma_space_run(s);
        }
        if let Err(e) = self.whitespace() {
            return Err(e);
        }
        let ghost k = space_run(s);
        assert(self.stream().len() > 0 ==> self.stream()[0] == s[k as int]);
        match self.next_byte_is(0x3D) {
            Ok(true) => {},
            Ok(false) => return Err(Error::MalformedEq),
            Err(e) => return Err(e),
        }
        assert(self.stream() =~= s.skip(k + 1 as int));
        proof {
            lemma_space_run(s.skip(k + 1 as int));
        }
        match self.whitespace() {
            Ok(_) => {
                let ghost t = s.skip(k + 1 as int);
                assert(self.stream() =~= s.skip(k + 1 + space_run(t) as int));
                Ok(())
            },
            Err(e) => Err(e),
        }
    }

    /// Reads the bytes of `s` one by one, stopping at the first that differs;
    /// tells whether all of them matched.
    pub(crate) fn expect_str(&mut self, s: &str) -> (r: Result<bool>)
        requires
            old(self).reader_ok(),
        ensures
            r is Ok ==> is_suffix(final(self).stream(), old(self).stream()),
            r matches Err(e) ==> is_grammar_error(e),
            final(self).same_frame(*old(self)),
            ({
                let w = s.spec_bytes();
                let t = old(self).stream();
                let k = common_len(t, w);
                &&& k == w.len() ==> r == Ok::<bool, Error>(true) && final(self).stream() == t.skip(
                    k as int,
                )
                &&& k < w.len() && k < t.len() ==> r == Ok::<bool, Error>(false)
                    && final(self).stream() == t.skip(k + 1 as int)
                &&& k < w.len() && k == t.len() ==> (r matches Err(Error::UnexpectedEof))
                &&& r == Ok::<bool, Error>(true) <==> starts_with(t, w)
            }),
            final(self).stream().len() <= old(self).stream().len(),
    {
        let w = s.as_bytes();
        let ghost t = self.stream();
        proof {
            lemma_common_len(t, w@);
        }
        let ghost k = common_len(t, w@);
        proof {
            if starts_with(t, w@) && k < w@.len() {
                assert(t.take(w@.len() as int)[k as int] == t[k as int]);
            }
            if k == w@.len() {
                assert(t.take(w@.len() as int) =~= w@);
            }
        }
        let mut i: usize = 0;
        while i < w.len()
            invariant
                self.same_frame(*old(self)),
                t == old(self).stream(),
                w@ == s.spec_bytes(),
                k == common_len(t, w@),
                k <= t.len(),
                k <= w@.len(),
                forall|j: int| 0 <= j < k ==> #[trigger] t[j] == w@[j],
                k < t.len() && k < w@.len() ==> t[k as int] != w@[k as int],
                i <= k,
                self.stream() == t.skip(i as int),
            decreases w.len() - i,
        {
            match self.next_byte_is(w[i]) {
                Ok(true) => {},
                Ok(false) => {
                    assert(self.stream() =~= t.skip(i + 1));
                    return Ok(false);
                },
                Err(e) => return Err(e),
            }
            i = i + 1;
            assert(self.stream() =~= t.skip(i as int));
        }
        Ok(true)
    }

    /// Reads a name.
    ///
    /// Single bytes are checked against the ASCII name characters; bytes
    /// from 0x80 up are taken as they come, and only the UTF-8 validity of the
    /// whole name is checked.
    ///
    /// `Name ::= NameStartChar (NameChar)*`
    pub(crate) fn name(&mut self) -> (r: Result<String>)
        requires
            old(self).reader_ok(),
        ensures
            r matches Err(e) ==> is_grammar_error(e),
            final(self).same_frame(*old(self)),
            final(self).stream().len() <= old(self).stream().len(),
            ({
                let s = old(self).stream();
                let k = name_run(s);
                &&& r is Ok <==> 0 < k < s.len() && text_of(s.take(k as int)) is Some
                &&& r matches Ok(n) ==> text_of(s.take(k as int)) == Some(n@)
                    && final(self).stream() == s.skip(k as int)
                &&& r matches Err(e) ==> if k == s.len() {
                    e is UnexpectedEof
                } else if k == 0 {
                    e is MalformedName
                } else {
                    e is Utf8Error
                }
            }),
    {
        let ghost s = self.stream();
        proof {
            lemma_name_run(s);
        }
        let ghost k = name_run(s);
        let mut buf: Vec<u8> = Vec::new();
        loop
            invariant
                self.same_frame(*old(self)),
                s == old(self).stream(),
                k == name_run(s),
                k <= s.len(),
                forall|i: int| 0 <= i < k ==> is_name_byte(#[trigger] s[i]),
                k < s.len() ==> !is_name_byte(s[k as int]),
                buf@.len() <= k,
                buf@ == s.take(buf@.len() as int),
                self.stream() == s.skip(buf@.len() as int),
            ensures
                buf@.len() == k,
                buf@ == s.take(k as int),
                self.stream() == s.skip(k as int),
                k < s.len(),
            decreases s.len() - buf@.len(),
        {
            let b = match self.next_byte() {
                Ok(b) => b,
                Err(e) => return Err(e),
            };
            assert(b == s[buf@.len() as int]);
            let accept = (0x41 <= b && b <= 0x5A) || (0x61 <= b && b <= 0x7A) || (0x30 <= b && b
                <= 0x39) || b == 0x5F || b == 0x3A || b == 0x2E || b == 0x2D;
            if !accept && b < 0x80 {
                self.unget_byte(b);
                assert(self.stream() =~= s.skip(buf@.len() as int));
                break ;
            }
            buf.push(b);
            assert(buf@ =~= s.take(buf@.len() as int));
            assert(self.stream() =~= s.skip(buf@.len() as int));
        }
        if buf.len() == 0 {
            return Err(Error::MalformedName);
        }
        into_text(buf)
    }
}

pub(crate) proof fn lemma_common_len(a: Seq<u8>, b: Seq<u8>)
    ensures
        common_len(a, b) <= a.len(),
        common_len(a, b) <= b.len(),
        forall|j: int| 0 <= j < common_len(a, b) ==> #[trigger] a[j] == b[j],
        common_len(a, b) < a.len() && common_len(a, b) < b.len() ==> a[common_len(a, b) as int]
            != b[common_len(a, b) as int],
    decreases a.len(),
{
    if a.len() > 0 && b.len() > 0 && a[0] == b[0] {
        lemma_common_len(a.drop_first(), b.drop_first());
        assert forall|j: int| 0 <= j < common_len(a, b) implies #[trigger] a[j] == b[j] by {
            if j > 0 {
                assert(a[j] == a.drop_first()[j - 1]);
                assert(b[j] == b.drop_first()[j - 1]);
            }
        }
    }
}

} // verus!
