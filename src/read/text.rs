//! Grammar productions for text: character data, CDATA sections, and the
//! expansion of character and entity references.
use vstd::prelude::*;
use vstd::string::*;
use vstd::utf8::*;

use super::lex::{common_len, into_text, name_run, starts_with};
use super::literal::parse_number;
use super::markup::name_is;
use super::{is_grammar_error, Parser, RawToken};
use crate::xml::{Error, Feature, Result};

verus! {

/// How a run of text is delimited and which references it expands.
#[derive(PartialEq, Eq, Structural, Clone, Copy)]
pub enum TextMode {
    /// Content: ends before `<`; expands character and entity references.
    CharData,
    /// A quoted attribute value: expands character and entity references.
    AttValue,
    /// A quoted entity value: expands character references only, and
    /// rejects parameter-entity references.
    EntityValue,
}

/// The bytes that a predefined entity name stands for.
pub open spec fn predefined_entity(name: Seq<char>) -> Option<u8> {
    if name == "lt"@ {
        Some(0x3C)
    } else if name == "gt"@ {
        Some(0x3E)
    } else if name == "amp"@ {
        Some(0x26)
    } else if name == "apos"@ {
        Some(0x27)
    } else if name == "quot"@ {
        Some(0x22)
    } else {
        None
    }
}

/// Whether `v` is a Unicode scalar value, that is a `char`.
pub open spec fn scalar(v: u32) -> bool {
    v <= 0x10FFFF && !(0xD800 <= v <= 0xDFFF)
}

/// The UTF-8 encoding of the scalar value `v`.
pub(crate) fn encode_char(v: u32) -> (r: Vec<u8>)
    requires
        scalar(v),
    ensures
        r@ == encode_scalar(v),
{
    let mut out: Vec<u8> = Vec::new();
    if v <= 0x7F {
        out.push((v & 0x7F) as u8);
    } else if v <= 0x7FF {
        out.push(0xC0 | ((v >> 6) & 0x1F) as u8);
        out.push(0x80 | (v & 0x3F) as u8);
    } else if v <= 0xFFFF {
        out.push(0xE0 | ((v >> 12) & 0x0F) as u8);
        out.push(0x80 | ((v >> 6) & 0x3F) as u8);
        out.push(0x80 | (v & 0x3F) as u8);
    } else {
        out.push(0xF0 | ((v >> 18) & 0x7) as u8);
        out.push(0x80 | ((v >> 12) & 0x3F) as u8);
        out.push(0x80 | ((v >> 6) & 0x3F) as u8);
        out.push(0x80 | (v & 0x3F) as u8);
    }
    assert(out@ =~= encode_scalar(v));
    out
}

impl Parser {
    /// Reads character data up to the next `<`, with references expanded.
    ///
    /// `CharData ::= [^<&]* - ([^<&]* ']]>' [^<&]*)`
    pub(crate) fn char_data(&mut self) -> (r: Result<RawToken>)
        requires
            old(self).reader_ok(),
            old(self).stream().len() > 0,
            old(self).stream()[0] != 0x3C,
        ensures
            r matches Err(e) ==> is_grammar_error(e),
            final(self).same_frame(*old(self)),
            final(self).stream().len() <= old(self).stream().len(),
            r is Ok ==> final(self).stream().len() < old(self).stream().len(),
            r matches Ok(t) ==> t is CharData,
            ({
                let s = old(self).stream();
                let t = text_run(s, TextMode::CharData);
                &&& r is Ok <==> t is Some && super::lex::text_of(t.unwrap().0) is Some
                &&& r matches Ok(RawToken::CharData(v)) ==> Some(v@) == super::lex::text_of(
                    t.unwrap().0,
                ) && final(self).stream() == s.skip(t.unwrap().1)
            }),
    {
        Ok(RawToken::CharData(self.expanded_text(TextMode::CharData)?))
    }

    /// Reads a CDATA section, whose text is taken as it stands.
    ///
    /// Expects `<![` to have been read.
    ///
    /// `CDSect ::= '<![CDATA[' (Char* - (Char* ']]>' Char*)) ']]>'`
    pub(crate) fn cdata(&mut self) -> (r: Result<RawToken>)
        requires
            old(self).reader_ok(),
        ensures
            r matches Err(e) ==> is_grammar_error(e),
            final(self).same_frame(*old(self)),
            final(self).stream().len() <= old(self).stream().len(),
            r is Ok ==> final(self).stream().len() < old(self).stream().len(),
            r matches Ok(t) ==> t is CharData,
            ({
                let s = old(self).stream();
                let d = cdata_of(s);
                &&& r is Ok <==> d is Some && super::lex::text_of(d.unwrap().0) is Some
                &&& r matches Ok(RawToken::CharData(text)) ==> super::lex::text_of(d.unwrap().0)
                    == Some(text@) && final(self).stream() == s.skip(d.unwrap().1) && 0 <= d.unwrap().1
                    <= s.len()
                &&& ({
                    let w = "CDATA[".spec_bytes();
                    common_len(s, w) < w.len() && common_len(s, w) < s.len() ==> (r matches Err(
                        Error::MalformedCData,
                    ))
                })
            }),
    {
        let ghost s0 = self.stream();
        proof {
            reveal_strlit("CDATA[");
            assert("CDATA["@.len() == 6);
            vstd::utf8::is_ascii_chars_encode_utf8("CDATA["@);
            super::lex::lemma_common_len(s0, "CDATA[".spec_bytes());
        }
        if !self.expect_str("CDATA[")? {
            return Err(Error::MalformedCData);
        }
        let ghost s = self.stream();
        assert(s =~= s0.skip(6));
        let mut buf: Vec<u8> = Vec::new();
        while !(buf.len() >= 3 && buf[buf.len() - 3] == 0x5D && buf[buf.len() - 2] == 0x5D
            && buf[buf.len() - 1] == 0x3E)
            invariant
                self.same_frame(*old(self)),
                s == s0.skip(6),
                s0 == old(self).stream(),
                starts_with(s0, "CDATA[".spec_bytes()),
                common_len(s0, "CDATA[".spec_bytes()) == "CDATA[".spec_bytes().len(),
                "CDATA[".spec_bytes().len() == 6,
                buf@.len() <= s.len(),
                buf@ == s.take(buf@.len() as int),
                self.stream() == s.skip(buf@.len() as int),
                cdata_close(s, 0) == cdata_close(s, buf@.len() as int),
            decreases self.stream().len(),
        {
            let ghost i = buf@.len() as int;
            let b = match self.next_byte() {
                Ok(b) => b,
                Err(e) => {
                    assert(cdata_close(s, i + 1) is None);
                    return Err(e);
                },
            };
            assert(b == s[i]);
            buf.push(b);
            assert(buf@ =~= s.take(i + 1));
            assert(self.stream() =~= s.skip(i + 1));
        }
        let ghost j = buf@.len() as int;
        assert(cdata_close(s, j) == Some(j));
        let n = buf.len() - 3;
        buf.truncate(n);
        assert(buf@ =~= s.take(j - 3));
        assert(self.stream() =~= s0.skip(6 + j));
        let text = into_text(buf)?;
        Ok(RawToken::CharData(text))
    }
}

/// The first `j >= i` at which `u.take(j)` ends with `]]>`.
pub open spec fn cdata_close(u: Seq<u8>, i: int) -> Option<int>
    decreases u.len() + 1 - i,
{
    if i < 0 || i > u.len() {
        None
    } else if ends_cdata_close(u.take(i)) {
        Some(i)
    } else {
        cdata_close(u, i + 1)
    }
}

/// The CDATA section at the start of `s` (after `<![`): its bytes, taken as
/// they stand, and how many bytes the section takes with its `]]>`.
pub open spec fn cdata_of(s: Seq<u8>) -> Option<(Seq<u8>, int)> {
    let u = s.skip(6);
    if starts_with(s, "CDATA[".spec_bytes()) && cdata_close(u, 0) is Some {
        let j = cdata_close(u, 0).unwrap();
        Some((u.take(j - 3), 6 + j))
    } else {
        None
    }
}

/// The character reference at the start of `s` (after `&#` or `&#x`): the
/// UTF-8 encoding of its character, and how many bytes it takes with its
/// `;`.
pub open spec fn char_ref_of(s: Seq<u8>, radix: u32) -> Option<(Seq<u8>, int)> {
    let k = name_run(s);
    let v = super::literal::number_of(s.take(k as int), radix);
    if 0 < k < s.len() && super::lex::text_of(s.take(k as int)) is Some && s[k as int] == 0x3B
        && v is Some && scalar(v->0) {
        Some((encode_scalar(v->0), k + 1 as int))
    } else {
        None
    }
}

/// The entity reference at the start of `s` (after `&`): the byte of the
/// predefined entity it names, and how many bytes it takes with its `;`.
pub open spec fn entity_ref_of(s: Seq<u8>) -> Option<(u8, int)> {
    let k = name_run(s);
    let n = super::lex::text_of(s.take(k as int));
    if 0 < k < s.len() && n is Some && s[k as int] == 0x3B && predefined_entity(n->0) is Some {
        Some((predefined_entity(n->0)->0, k + 1 as int))
    } else {
        None
    }
}

/// A general entity reference at the start of `s` (after `&`) inside an
/// entity value, which is kept as written: how many bytes it takes with its
/// `;`.
pub open spec fn kept_ref_of(s: Seq<u8>) -> Option<int> {
    let k = name_run(s);
    if 0 < k < s.len() && super::lex::text_of(s.take(k as int)) is Some && s[k as int] == 0x3B {
        Some(k + 1 as int)
    } else {
        None
    }
}

/// Whether `s` starts with the literal sequence `]]>`.
pub open spec fn cdata_close_at(s: Seq<u8>) -> bool {
    s.len() >= 3 && s[0] == 0x5D && s[1] == 0x5D && s[2] == 0x3E
}

/// Whether `b` ends with `]]>`.
pub open spec fn ends_cdata_close(b: Seq<u8>) -> bool {
    b.len() >= 3 && b[b.len() - 3] == 0x5D && b[b.len() - 2] == 0x5D && b[b.len() - 1] == 0x3E
}

/// `o` with `d` more bytes taken.
pub open spec fn shifted(o: Option<(Seq<u8>, int)>, d: int) -> Option<(Seq<u8>, int)> {
    match o {
        Some((b, c)) => Some((b, c + d)),
        None => None,
    }
}

/// A run of text at the start of `s`, read as `mode` says up to `delim`
/// after `acc` was collected: everything collected with references expanded,
/// and how many bytes of `s` the run takes (the closing quote included, a
/// closing `<` not); `None` where the run is malformed or unfinished.
#[verifier::opaque]
pub open spec fn expand(acc: Seq<u8>, s: Seq<u8>, mode: TextMode, delim: u8) -> Option<(Seq<u8>, int)>
    decreases s.len(),
{
    if s.len() == 0 {
        None
    } else if s[0] == delim {
        Some((acc, if mode == TextMode::CharData { 0int } else { 1int }))
    } else if s[0] == 0x3C && mode == TextMode::AttValue {
        None
    } else if s[0] == 0x26 {
        if s.len() < 2 {
            None
        } else if s[1] == 0x23 {
            if s.len() < 3 {
                None
            } else {
                let skip: int = if s[2] == 0x78 { 3 } else { 2 };
                let radix: u32 = if s[2] == 0x78 { 16 } else { 10 };
                match char_ref_of(s.skip(skip), radix) {
                    Some((bytes, n)) => shifted(expand(acc + bytes, s.skip(skip + n), mode, delim), skip + n),
                    None => None,
                }
            }
        } else if mode != TextMode::EntityValue {
            match entity_ref_of(s.skip(1)) {
                Some((b, n)) => shifted(expand(acc.push(b), s.skip(1 + n), mode, delim), 1 + n),
                None => None,
            }
        } else {
            match kept_ref_of(s.skip(1)) {
                Some(n) => shifted(expand(acc + s.take(1 + n), s.skip(1 + n), mode, delim), 1 + n),
                None => None,
            }
        }
    } else if s[0] == 0x25 && mode == TextMode::EntityValue {
        None
    } else if mode == TextMode::CharData && cdata_close_at(s) {
        None
    } else {
        shifted(expand(acc.push(s[0]), s.skip(1), mode, delim), 1)
    }
}

/// Which error the run of text at the start of `s` runs into, as `expand`
/// reads it: 1 for `<` inside an attribute value, 2 for `]]>` in character
/// data, 3 for a reference to an entity that is not defined, 4 for a
/// parameter-entity reference in an entity value, 0 otherwise.
#[verifier::opaque]
pub open spec fn expand_fault(acc: Seq<u8>, s: Seq<u8>, mode: TextMode, delim: u8) -> int
    decreases s.len(),
{
    if s.len() == 0 || s[0] == delim {
        0
    } else if s[0] == 0x3C && mode == TextMode::AttValue {
        1
    } else if s[0] == 0x26 {
        if s.len() < 2 {
            0
        } else if s[1] == 0x23 {
            if s.len() < 3 {
                0
            } else {
                let skip: int = if s[2] == 0x78 { 3 } else { 2 };
                let radix: u32 = if s[2] == 0x78 { 16 } else { 10 };
                match char_ref_of(s.skip(skip), radix) {
                    Some((bytes, n)) => expand_fault(acc + bytes, s.skip(skip + n), mode, delim),
                    None => 0,
                }
            }
        } else if mode != TextMode::EntityValue {
            match entity_ref_of(s.skip(1)) {
                Some((b, n)) => expand_fault(acc.push(b), s.skip(1 + n), mode, delim),
                None => {
                    let u = s.skip(1);
                    let k = name_run(u);
                    let name = super::lex::text_of(u.take(k as int));
                    if 0 < k < u.len() && name is Some && u[k as int] == 0x3B {
                        3
                    } else {
                        0
                    }
                },
            }
        } else {
            match kept_ref_of(s.skip(1)) {
                Some(n) => expand_fault(acc + s.take(1 + n), s.skip(1 + n), mode, delim),
                None => 0,
            }
        }
    } else if s[0] == 0x25 && mode == TextMode::EntityValue {
        4
    } else if mode == TextMode::CharData && cdata_close_at(s) {
        2
    } else {
        expand_fault(acc.push(s[0]), s.skip(1), mode, delim)
    }
}

/// One step of `expand_fault`.
pub open spec fn expand_fault_step(acc: Seq<u8>, s: Seq<u8>, mode: TextMode, delim: u8) -> int
{
    if s.len() == 0 || s[0] == delim {
        0
    } else if s[0] == 0x3C && mode == TextMode::AttValue {
        1
    } else if s[0] == 0x26 {
        if s.len() < 2 {
            0
        } else if s[1] == 0x23 {
            if s.len() < 3 {
                0
            } else {
                let skip: int = if s[2] == 0x78 { 3 } else { 2 };
                let radix: u32 = if s[2] == 0x78 { 16 } else { 10 };
                match char_ref_of(s.skip(skip), radix) {
                    Some((bytes, n)) => expand_fault(acc + bytes, s.skip(skip + n), mode, delim),
                    None => 0,
                }
            }
        } else if mode != TextMode::EntityValue {
            match entity_ref_of(s.skip(1)) {
                Some((b, n)) => expand_fault(acc.push(b), s.skip(1 + n), mode, delim),
                None => {
                    let u = s.skip(1);
                    let k = name_run(u);
                    let name = super::lex::text_of(u.take(k as int));
                    if 0 < k < u.len() && name is Some && u[k as int] == 0x3B {
                        3
                    } else {
                        0
                    }
                },
            }
        } else {
            match kept_ref_of(s.skip(1)) {
                Some(n) => expand_fault(acc + s.take(1 + n), s.skip(1 + n), mode, delim),
                None => 0,
            }
        }
    } else if s[0] == 0x25 && mode == TextMode::EntityValue {
        4
    } else if mode == TextMode::CharData && cdata_close_at(s) {
        2
    } else {
        expand_fault(acc.push(s[0]), s.skip(1), mode, delim)
    }
}

pub(crate) proof fn lemma_expand_fault_unfold(acc: Seq<u8>, s: Seq<u8>, mode: TextMode, delim: u8)
    ensures
        expand_fault(acc, s, mode, delim) == expand_fault_step(acc, s, mode, delim),
{
    reveal(expand_fault);
}

/// The text that `mode` reads at the start of `s`, before UTF-8 decoding:
/// the collected bytes and how many bytes of `s` it takes.
pub open spec fn text_run(s: Seq<u8>, mode: TextMode) -> Option<(Seq<u8>, int)> {
    if mode == TextMode::CharData {
        expand(Seq::empty(), s, mode, 0x3C)
    } else if s.len() > 0 && (s[0] == 0x22 || s[0] == 0x27) {
        shifted(expand(Seq::empty(), s.skip(1), mode, s[0]), 1)
    } else {
        None
    }
}

pub(crate) proof fn lemma_expand_stop(acc: Seq<u8>, s: Seq<u8>, mode: TextMode, delim: u8)
    ensures
        s.len() == 0 ==> expand(acc, s, mode, delim) is None,
        s.len() > 0 && s[0] == delim ==> expand(acc, s, mode, delim) == Some(
            (acc, if mode == TextMode::CharData { 0int } else { 1int }),
        ),
        s.len() > 0 && s[0] != delim && s[0] == 0x3C && mode == TextMode::AttValue ==> expand(
            acc,
            s,
            mode,
            delim,
        ) is None,
        s.len() > 0 && s[0] != delim && s[0] == 0x25 && mode == TextMode::EntityValue ==> expand(
            acc,
            s,
            mode,
            delim,
        ) is None,
        s.len() > 0 && s[0] != delim && s[0] == 0x26 && s.len() < 2 ==> expand(acc, s, mode, delim) is None,
        s.len() == 2 && s[0] != delim && s[0] == 0x26 && s[1] == 0x23 ==> expand(acc, s, mode, delim) is None,
{
    reveal(expand);
}

pub(crate) proof fn lemma_expand_plain(acc: Seq<u8>, s: Seq<u8>, mode: TextMode, delim: u8)
    requires
        s.len() > 0,
        s[0] != delim,
        s[0] != 0x26,
        !(s[0] == 0x3C && mode == TextMode::AttValue),
        !(s[0] == 0x25 && mode == TextMode::EntityValue),
    ensures
        mode == TextMode::CharData && cdata_close_at(s) ==> expand(acc, s, mode, delim) is None,
        !(mode == TextMode::CharData && cdata_close_at(s)) ==> expand(acc, s, mode, delim)
            == shifted(expand(acc.push(s[0]), s.skip(1), mode, delim), 1),
{
    reveal(expand);
}

pub(crate) proof fn lemma_expand_char_ref(acc: Seq<u8>, s: Seq<u8>, mode: TextMode, delim: u8)
    requires
        s.len() >= 3,
        s[0] != delim,
        s[0] == 0x26,
        s[1] == 0x23,
    ensures
        ({
            let skip: int = if s[2] == 0x78 { 3 } else { 2 };
            let radix: u32 = if s[2] == 0x78 { 16 } else { 10 };
            match char_ref_of(s.skip(skip), radix) {
                Some((bytes, n)) => expand(acc, s, mode, delim) == shifted(
                    expand(acc + bytes, s.skip(skip + n), mode, delim),
                    skip + n,
                ),
                None => expand(acc, s, mode, delim) is None,
            }
        }),
{
    reveal(expand);
}

pub(crate) proof fn lemma_expand_entity(acc: Seq<u8>, s: Seq<u8>, mode: TextMode, delim: u8)
    requires
        s.len() >= 2,
        s[0] != delim,
        s[0] == 0x26,
        s[1] != 0x23,
    ensures
        mode != TextMode::EntityValue ==> match entity_ref_of(s.skip(1)) {
            Some((b, n)) => expand(acc, s, mode, delim) == shifted(
                expand(acc.push(b), s.skip(1 + n), mode, delim),
                1 + n,
            ),
            None => expand(acc, s, mode, delim) is None,
        },
        mode == TextMode::EntityValue ==> match kept_ref_of(s.skip(1)) {
            Some(n) => expand(acc, s, mode, delim) == shifted(
                expand(acc + s.take(1 + n), s.skip(1 + n), mode, delim),
                1 + n,
            ),
            None => expand(acc, s, mode, delim) is None,
        },
{
    reveal(expand);
}

pub(crate) proof fn lemma_expand_len(acc: Seq<u8>, s: Seq<u8>, mode: TextMode, delim: u8)
    ensures
        expand(acc, s, mode, delim) matches Some((b, c)) ==> 0 <= c <= s.len(),
    decreases s.len(),
{
    reveal(expand);
    if s.len() > 0 && s[0] != delim {
        if s[0] == 0x26 && s.len() >= 3 && s[1] == 0x23 {
            let skip: int = if s[2] == 0x78 { 3 } else { 2 };
            let radix: u32 = if s[2] == 0x78 { 16 } else { 10 };
            if let Some((bytes, n)) = char_ref_of(s.skip(skip), radix) {
                super::lex::lemma_name_run(s.skip(skip));
                lemma_expand_len(acc + bytes, s.skip(skip + n), mode, delim);
            }
        } else if s[0] == 0x26 && s.len() >= 2 && s[1] != 0x23 {
            if mode != TextMode::EntityValue {
                if let Some((b, n)) = entity_ref_of(s.skip(1)) {
                    super::lex::lemma_name_run(s.skip(1));
                    lemma_expand_len(acc.push(b), s.skip(1 + n), mode, delim);
                }
            } else {
                if let Some(n) = kept_ref_of(s.skip(1)) {
                    super::lex::lemma_name_run(s.skip(1));
                    lemma_expand_len(acc + s.take(1 + n), s.skip(1 + n), mode, delim);
                }
            }
        } else if s[0] != 0x26 {
            lemma_expand_len(acc.push(s[0]), s.skip(1), mode, delim);
        }
    }
}

pub(crate) proof fn lemma_text_run_len(s: Seq<u8>, mode: TextMode)
    ensures
        text_run(s, mode) matches Some((b, c)) ==> 0 <= c <= s.len(),
{
    if mode == TextMode::CharData {
        lemma_expand_len(Seq::empty(), s, mode, 0x3C);
    } else if s.len() > 0 {
        lemma_expand_len(Seq::empty(), s.skip(1), mode, s[0]);
    }
}

impl Parser {
    /// Reads a run of text and returns it with references expanded, as
    /// `mode` says. A quoted mode unwraps the quotes; character data stops
    /// before the `<` that ends it.
    ///
    /// ```text
    /// AttValue     ::=  '"' ([^<&"] | Reference)* '"'
    ///                |  "'" ([^<&'] | Reference)* "'"
    /// EntityValue  ::=  '"' ([^%&"] | PEReference | Reference)* '"'
    ///                 | "'" ([^%&'] | PEReference | Reference)* "'"
    /// Reference    ::=  EntityRef | CharRef
    /// ```
    #[verifier::rlimit(100)]
    #[verifier::spinoff_prover]
    pub(crate) fn expanded_text(&mut self, mode: TextMode) -> (r: Result<String>)
        requires
            old(self).reader_ok(),
        ensures
            r matches Err(e) ==> is_grammar_error(e),
            final(self).same_frame(*old(self)),
            final(self).stream().len() <= old(self).stream().len(),
            ({
                let s = old(self).stream();
                let t = text_run(s, mode);
                &&& r is Ok <==> t is Some && super::lex::text_of(t.unwrap().0) is Some
                &&& r matches Ok(v) ==> Some(v@) == super::lex::text_of(t.unwrap().0)
                    && final(self).stream() == s.skip(t.unwrap().1)
            }),
            r is Ok && mode != TextMode::CharData ==> final(self).stream().len() < old(self).stream().len(),
            r is Ok && mode == TextMode::CharData ==> final(self).stream().len() > 0
                && final(self).stream()[0] == 0x3C,
            r is Ok && mode == TextMode::CharData && old(self).stream().len() > 0 && old(self).stream()[0] != 0x3C
                ==> final(self).stream().len() < old(self).stream().len(),
            ({
                let s = old(self).stream();
                let f = if mode == TextMode::CharData {
                    expand_fault(Seq::empty(), s, mode, 0x3C)
                } else {
                    expand_fault(Seq::empty(), s.skip(1), mode, s[0])
                };
                (mode == TextMode::CharData || (s.len() > 0 && (s[0] == 0x22 || s[0] == 0x27))) ==> (f
                    == 1 ==> (r matches Err(Error::MalformedAttValue))) && (f == 2 ==> (r matches Err(
                    Error::MalformedCharData,
                ))) && (f == 3 ==> (r matches Err(Error::UnmappedEntityRef))) && (f == 4 ==> (r matches Err(
                    Error::UnsupportedFeature(Feature::ParameterEntities),
                )))
            }),
            ({
                let s = old(self).stream();
                mode != TextMode::CharData && s.len() > 0 && s[0] != 0x22 && s[0] != 0x27 ==> (
                if mode == TextMode::AttValue {
                    r matches Err(Error::MalformedAttValue)
                } else {
                    r matches Err(Error::MalformedEntityValue)
                })
            }),
    {
        let ghost s = self.stream();
        let delim: u8 = if mode == TextMode::CharData {
            0x3C
        } else {
            let q = self.next_byte()?;
            if q != 0x27 && q != 0x22 {
                if mode == TextMode::AttValue {
                    return Err(Error::MalformedAttValue);
                } else {
                    return Err(Error::MalformedEntityValue);
                }
            }
            q
        };
        let ghost body = self.stream();
        let ghost off: int = if mode == TextMode::CharData { 0 } else { 1 };
        assert(body == s.skip(off));
        assert(s.skip(0) =~= s);
        assert(text_run(s, mode) == shifted(expand(Seq::empty(), body, mode, delim), off));
        let entity_refs = mode != TextMode::EntityValue;
        let mut buf: Vec<u8> = Vec::new();
        let ghost mut done: int = 0;
        loop
            invariant_except_break
                self.stream() == body.skip(done),
                expand(Seq::empty(), body, mode, delim) == shifted(expand(buf@, self.stream(), mode, delim), done),
                expand_fault(Seq::empty(), body, mode, delim) == expand_fault(buf@, self.stream(), mode, delim),
            invariant
                expand_fault(Seq::empty(), body, mode, delim) == (if mode == TextMode::CharData {
                    expand_fault(Seq::empty(), s, mode, 0x3C)
                } else {
                    expand_fault(Seq::empty(), s.skip(1), mode, s[0])
                }),
                self.same_frame(*old(self)),
                s == old(self).stream(),
                0 <= off <= 1,
                body == s.skip(off),
                text_run(s, mode) == shifted(expand(Seq::empty(), body, mode, delim), off),
                0 <= done <= body.len(),
                mode == TextMode::CharData ==> delim == 0x3C && off == 0,
                mode != TextMode::CharData ==> off == 1 && s.len() > 0 && (s[0] == 0x22 || s[0] == 0x27) && delim == s[0],
                entity_refs == (mode != TextMode::EntityValue),
            ensures
                expand_fault(Seq::empty(), body, mode, delim) == 0,
                expand_fault(Seq::empty(), body, mode, delim) == (if mode == TextMode::CharData {
                    expand_fault(Seq::empty(), s, mode, 0x3C)
                } else {
                    expand_fault(Seq::empty(), s.skip(1), mode, s[0])
                }),
                self.same_frame(*old(self)),
                expand(Seq::empty(), body, mode, delim) == Some((buf@, done + (if mode == TextMode::CharData { 0int } else { 1int }))),
                self.stream() == body.skip(done + (if mode == TextMode::CharData { 0int } else { 1int })),
                0 <= done,
                done + (if mode == TextMode::CharData { 0int } else { 1int }) <= body.len(),
                body == s.skip(off),
                text_run(s, mode) == shifted(expand(Seq::empty(), body, mode, delim), off),
                s == old(self).stream(),
                0 <= off <= 1,
                mode == TextMode::CharData ==> self.stream().len() > 0 && self.stream()[0] == 0x3C,
                mode == TextMode::CharData ==> delim == 0x3C && off == 0,
                mode != TextMode::CharData ==> off == 1 && s.len() > 0 && (s[0] == 0x22 || s[0] == 0x27),
            decreases self.stream().len(),
        {
            let ghost cur = self.stream();
            let ghost acc = buf@;
            proof {
                lemma_expand_fault_unfold(acc, cur, mode, delim);
                lemma_expand_stop(acc, cur, mode, delim);
                if cur.len() >= 3 && cur[0] != delim && cur[0] == 0x26 && cur[1] == 0x23 {
                    lemma_expand_char_ref(acc, cur, mode, delim);
                }
                if cur.len() >= 2 && cur[0] != delim && cur[0] == 0x26 && cur[1] != 0x23 {
                    lemma_expand_entity(acc, cur, mode, delim);
                }
                if cur.len() > 0 && cur[0] != delim && cur[0] != 0x26 && !(cur[0] == 0x3C && mode
                    == TextMode::AttValue) && !(cur[0] == 0x25 && mode == TextMode::EntityValue) {
                    lemma_expand_plain(acc, cur, mode, delim);
                }
            }
            let b = self.next_byte()?;
            if b == delim {
                if mode == TextMode::CharData {
                    self.unget_byte(b);
                    assert(self.stream() =~= cur);
                } else {
                    assert(body.skip(done).skip(1) =~= body.skip(done + 1));
                }
                break ;
            }
            if b == 0x3C && mode == TextMode::AttValue {
                return Err(Error::MalformedAttValue);
            }
            if b == 0x26 {
                let b2 = self.next_byte()?;
                if b2 == 0x23 {
                    let b3 = self.next_byte()?;
                    if b3 == 0x78 {
                        assert(self.stream() =~= cur.skip(3));
                        self.char_ref(&mut buf, 16)?;
                        proof {
                            let n: int = name_run(cur.skip(3)) + 1 as int;
                            assert(self.stream() =~= cur.skip(3 + n));
                            assert(cur.skip(3 + n) =~= body.skip(done + 3 + n));
                            done = done + 3 + n;
                        }
                    } else {
                        self.unget_byte(b3);
                        assert(self.stream() =~= cur.skip(2));
                        self.char_ref(&mut buf, 10)?;
                        proof {
                            let n: int = name_run(cur.skip(2)) + 1 as int;
                            assert(self.stream() =~= cur.skip(2 + n));
                            assert(cur.skip(2 + n) =~= body.skip(done + 2 + n));
                            done = done + 2 + n;
                        }
                    }
                } else if entity_refs {
                    self.unget_byte(b2);
                    assert(self.stream() =~= cur.skip(1));
                    self.entity_ref(&mut buf)?;
                    proof {
                        let n: int = name_run(cur.skip(1)) + 1 as int;
                        assert(self.stream() =~= cur.skip(1 + n));
                        assert(cur.skip(1 + n) =~= body.skip(done + 1 + n));
                        done = done + 1 + n;
                    }
                } else {
                    self.unget_byte(b2);
                    assert(self.stream() =~= cur.skip(1));
                    self.kept_ref(&mut buf)?;
                    proof {
                        let n: int = name_run(cur.skip(1)) + 1 as int;
                        assert(self.stream() =~= cur.skip(1 + n));
                        assert(cur.skip(1 + n) =~= body.skip(done + 1 + n));
                        assert(seq![0x26u8] + cur.skip(1).take(n) =~= cur.take(1 + n));
                        assert(buf@ =~= acc + cur.take(1 + n));
                        done = done + 1 + n;
                    }
                }
            } else if b == 0x25 && mode == TextMode::EntityValue {
                return Err(Error::UnsupportedFeature(Feature::ParameterEntities));
            } else {
                buf.push(b);
                if mode == TextMode::CharData && b == 0x5D {
                    if self.closes_cdata_next() {
                        return Err(Error::MalformedCharData);
                    }
                }
                proof {
                    assert(self.stream() =~= cur.skip(1));
                    assert(cur.skip(1) =~= body.skip(done + 1));
                    done = done + 1;
                }
            }
        }
        proof {
            let c: int = done + (if mode == TextMode::CharData { 0int } else { 1int });
            assert(s.skip(off).skip(c) =~= s.skip(off + c));
        }
        into_text(buf)
    }

    /// Reads a character reference and appends the UTF-8 encoding of the
    /// character to `buf`.
    ///
    /// Expects `&#` or `&#x` to have been read.
    ///
    /// `CharRef ::= '&#' [0-9]+ ';' | '&#x' [0-9a-fA-F]+ ';'`
    pub(crate) fn char_ref(&mut self, buf: &mut Vec<u8>, radix: u32) -> (r: Result<()>)
        requires
            old(self).reader_ok(),
            radix == 10 || radix == 16,
        ensures
            r matches Err(e) ==> is_grammar_error(e),
            final(self).same_frame(*old(self)),
            final(self).stream().len() <= old(self).stream().len(),
            ({
                let s = old(self).stream();
                let k = name_run(s);
                let v = super::literal::number_of(s.take(k as int), radix);
                &&& r is Ok <==> 0 < k < s.len() && super::lex::text_of(s.take(k as int)) is Some
                    && s[k as int] == 0x3B && v is Some && scalar(v->0)
                &&& r is Ok ==> final(buf)@ == old(buf)@ + encode_scalar(v->0)
                    && final(self).stream() == s.skip(k + 1 as int)
                &&& r is Err ==> final(buf)@ == old(buf)@
                &&& 0 < k < s.len() && super::lex::text_of(s.take(k as int)) is Some && !(s[k as int]
                    == 0x3B && v is Some && scalar(v->0)) ==> (r matches Err(Error::MalformedCharRef))
            }),
    {
        let ghost s = self.stream();
        let ghost k = name_run(s);
        let name = self.name()?;
        proof {
            super::lex::lemma_name_run(s);
        }
        if !self.next_byte_is(0x3B)? {
            return Err(Error::MalformedCharRef);
        }
        assert(self.stream() =~= s.skip(k + 1 as int));
        let digits = name.as_str().as_bytes();
        proof {
            decode_utf8_encode_utf8(s.take(k as int));
        }
        assert(digits@ == s.take(k as int));
        match parse_number(digits, radix) {
            Some(v) => {
                if v > 0x10FFFF || (0xD800 <= v && v <= 0xDFFF) {
                    return Err(Error::MalformedCharRef);
                }
                let bytes = encode_char(v);
                let mut i: usize = 0;
                let ghost start = buf@;
                while i < bytes.len()
                    invariant
                        i <= bytes@.len(),
                        buf@ == start + bytes@.take(i as int),
                    decreases bytes.len() - i,
                {
                    buf.push(bytes[i]);
                    i = i + 1;
                    assert(buf@ =~= start + bytes@.take(i as int));
                }
                assert(bytes@.take(i as int) =~= bytes@);
                Ok(())
            },
            None => Err(Error::MalformedCharRef),
        }
    }

    /// Tells whether the next two bytes are `]>`, reading nothing.
    pub(crate) fn closes_cdata_next(&mut self) -> (r: bool)
        requires
            old(self).reader_ok(),
        ensures
            final(self).same_frame(*old(self)),
            final(self).stream() == old(self).stream(),
            r == (old(self).stream().len() >= 2 && old(self).stream()[0] == 0x5D && old(
                self,
            ).stream()[1] == 0x3E),
    {
        let ghost s = self.stream();
        let c1 = match self.next_byte() {
            Ok(c) => c,
            Err(_) => {
                return false;
            },
        };
        let c2 = match self.next_byte() {
            Ok(c) => c,
            Err(_) => {
                self.unget_byte(c1);
                assert(self.stream() =~= s);
                return false;
            },
        };
        self.unget_byte(c2);
        self.unget_byte(c1);
        assert(self.stream() =~= s);
        c1 == 0x5D && c2 == 0x3E
    }

    /// Reads a general entity reference inside an entity value and appends
    /// it to `buf` as written: `&`, its name and `;`.
    ///
    /// Expects `&` to have been read.
    pub(crate) fn kept_ref(&mut self, buf: &mut Vec<u8>) -> (r: Result<()>)
        requires
            old(self).reader_ok(),
        ensures
            r matches Err(e) ==> is_grammar_error(e),
            final(self).same_frame(*old(self)),
            final(self).stream().len() <= old(self).stream().len(),
            ({
                let s = old(self).stream();
                let k = name_run(s);
                &&& r is Ok <==> kept_ref_of(s) is Some
                &&& r is Ok ==> final(buf)@ == old(buf)@ + seq![0x26u8] + s.take(k + 1 as int)
                    && final(self).stream() == s.skip(k + 1 as int)
                &&& 0 < k < s.len() && super::lex::text_of(s.take(k as int)) is Some && s[k as int]
                    != 0x3B ==> (r matches Err(Error::MalformedEntityRef))
            }),
    {
        let ghost s = self.stream();
        let ghost k = name_run(s);
        let name = self.name()?;
        proof {
            super::lex::lemma_name_run(s);
            decode_utf8_encode_utf8(s.take(k as int));
        }
        if !self.next_byte_is(0x3B)? {
            return Err(Error::MalformedEntityRef);
        }
        assert(self.stream() =~= s.skip(k + 1 as int));
        let nb = name.as_str().as_bytes();
        let ghost start = buf@;
        buf.push(0x26);
        let mut i: usize = 0;
        while i < nb.len()
            invariant
                i <= nb@.len(),
                buf@ == start + seq![0x26u8] + nb@.take(i as int),
            decreases nb.len() - i,
        {
            buf.push(nb[i]);
            i = i + 1;
            assert(buf@ =~= start + seq![0x26u8] + nb@.take(i as int));
        }
        buf.push(0x3B);
        assert(nb@.take(i as int) =~= nb@);
        assert(s.take(k + 1 as int) =~= s.take(k as int).push(0x3B));
        assert(buf@ =~= start + seq![0x26u8] + s.take(k + 1 as int));
        Ok(())
    }

    /// Reads an entity reference and appends the byte of the predefined
    /// entity it names to `buf`.
    ///
    /// Expects `&` to have been read.
    ///
    /// `EntityRef ::= '&' Name ';'`
    pub(crate) fn entity_ref(&mut self, buf: &mut Vec<u8>) -> (r: Result<()>)
        requires
            old(self).reader_ok(),
        ensures
            r matches Err(e) ==> is_grammar_error(e),
            final(self).same_frame(*old(self)),
            final(self).stream().len() <= old(self).stream().len(),
            ({
                let s = old(self).stream();
                let k = name_run(s);
                let n = super::lex::text_of(s.take(k as int));
                &&& r is Ok <==> 0 < k < s.len() && n is Some && s[k as int] == 0x3B
                    && predefined_entity(n->0) is Some
                &&& r is Ok ==> final(buf)@ == old(buf)@.push(predefined_entity(n->0)->0)
                    && final(self).stream() == s.skip(k + 1 as int)
                &&& (0 < k < s.len() && n is Some && s[k as int] == 0x3B && predefined_entity(n->0) is None)
                    ==> (r matches Err(Error::UnmappedEntityRef))
                &&& (0 < k < s.len() && n is Some && s[k as int] != 0x3B) ==> (r matches Err(
                    Error::MalformedEntityRef,
                ))
                &&& r is Err ==> final(buf)@ == old(buf)@
            }),
    {
        let ghost s = self.stream();
        let ghost k = name_run(s);
        let name = self.name()?;
        proof {
            super::lex::lemma_name_run(s);
        }
        if !self.next_byte_is(0x3B)? {
            return Err(Error::MalformedEntityRef);
        }
        assert(self.stream() =~= s.skip(k + 1 as int));
        let b: u8 = if name_is(&name, "lt") {
            0x3C
        } else if name_is(&name, "gt") {
            0x3E
        } else if name_is(&name, "amp") {
            0x26
        } else if name_is(&name, "apos") {
            0x27
        } else if name_is(&name, "quot") {
            0x22
        } else {
            return Err(Error::UnmappedEntityRef);
        };
        buf.push(b);
        Ok(())
    }
}


/// The bytes that stand for `b` when character data is written out: `&lt;`
/// for `<`, `&gt;` for `>`, `&amp;` for `&`, and `b` itself otherwise.
pub open spec fn escape_byte(b: u8) -> Seq<u8> {
    if b == 0x3C {
        seq![0x26u8, 0x6C, 0x74, 0x3B]
    } else if b == 0x3E {
        seq![0x26u8, 0x67, 0x74, 0x3B]
    } else if b == 0x26 {
        seq![0x26u8, 0x61, 0x6D, 0x70, 0x3B]
    } else {
        seq![b]
    }
}

/// The bytes `t` written out as character data, each byte escaped.
pub open spec fn escape(t: Seq<u8>) -> Seq<u8>
    decreases t.len(),
{
    if t.len() == 0 {
        Seq::empty()
    } else {
        escape_byte(t[0]) + escape(t.drop_first())
    }
}

proof fn lemma_entity_name(w: Seq<u8>, rest: Seq<u8>, name: Seq<char>)
    requires
        w == encode_utf8(name),
        forall|i: int| 0 <= i < w.len() ==> 0x61 <= #[trigger] w[i] <= 0x7A,
        rest.len() > 0,
        rest[0] == 0x3B,
    ensures
        name_run(w + rest) == w.len(),
        super::lex::text_of((w + rest).take(w.len() as int)) == Some(name),
    decreases w.len(),
{
    if w.len() > 0 {
        let v = w.drop_first();
        assert((w + rest).drop_first() =~= v + rest);
        assert(forall|i: int| 0 <= i < v.len() ==> 0x61 <= #[trigger] v[i] <= 0x7A) by {
            assert forall|i: int| 0 <= i < v.len() implies 0x61 <= #[trigger] v[i] <= 0x7A by {
                assert(v[i] == w[i + 1]);
            }
        }
        lemma_name_run_prefix(v, rest);
        assert(0x61 <= w[0] <= 0x7A);
    } else {
        assert((w + rest)[0] == 0x3B);
    }
    assert((w + rest).take(w.len() as int) =~= w);
    encode_utf8_valid_utf8(name);
    encode_utf8_decode_utf8(name);
}

proof fn lemma_name_run_prefix(v: Seq<u8>, rest: Seq<u8>)
    requires
        forall|i: int| 0 <= i < v.len() ==> 0x61 <= #[trigger] v[i] <= 0x7A,
        rest.len() > 0,
        rest[0] == 0x3B,
    ensures
        name_run(v + rest) == v.len(),
    decreases v.len(),
{
    if v.len() > 0 {
        let u = v.drop_first();
        assert((v + rest).drop_first() =~= u + rest);
        assert(forall|i: int| 0 <= i < u.len() ==> 0x61 <= #[trigger] u[i] <= 0x7A) by {
            assert forall|i: int| 0 <= i < u.len() implies 0x61 <= #[trigger] u[i] <= 0x7A by {
                assert(u[i] == v[i + 1]);
            }
        }
        lemma_name_run_prefix(u, rest);
        assert(0x61 <= v[0] <= 0x7A);
    } else {
        assert((v + rest)[0] == 0x3B);
    }
}

proof fn lemma_escaped_entity(acc: Seq<u8>, w: Seq<u8>, name: Seq<char>, b: u8, rest: Seq<u8>)
    requires
        w == encode_utf8(name),
        w.len() >= 1,
        forall|i: int| 0 <= i < w.len() ==> 0x61 <= #[trigger] w[i] <= 0x7A,
        predefined_entity(name) == Some(b),
    ensures
        expand(acc, seq![0x26u8] + w + seq![0x3Bu8] + rest, TextMode::CharData, 0x3C) == shifted(
            expand(acc.push(b), rest, TextMode::CharData, 0x3C),
            w.len() + 2 as int,
        ),
{
    let s = seq![0x26u8] + w + seq![0x3Bu8] + rest;
    let u = s.skip(1);
    assert(u =~= w + (seq![0x3Bu8] + rest));
    lemma_entity_name(w, seq![0x3Bu8] + rest, name);
    assert(s[1] == w[0]);
    lemma_expand_entity(acc, s, TextMode::CharData, 0x3C);
    assert(u[w.len() as int] == 0x3B);
    assert(s.skip(w.len() + 2 as int) =~= rest);
}

proof fn lemma_escape_no_gt(t: Seq<u8>)
    ensures
        forall|i: int| 0 <= i < (escape(t) + seq![0x3Cu8]).len() ==> #[trigger] (escape(t) + seq![0x3Cu8])[i] != 0x3E,
    decreases t.len(),
{
    if t.len() > 0 {
        lemma_escape_no_gt(t.drop_first());
        let e = escape_byte(t[0]);
        let rest = escape(t.drop_first()) + seq![0x3Cu8];
        assert(escape(t) + seq![0x3Cu8] =~= e + rest);
        assert forall|i: int| 0 <= i < (e + rest).len() implies #[trigger] (e + rest)[i] != 0x3E by {
            if i >= e.len() {
                assert((e + rest)[i] == rest[i - e.len()]);
            }
        }
    } else {
        assert(escape(t) + seq![0x3Cu8] =~= seq![0x3Cu8]);
    }
}

proof fn lemma_escape_reads_back(acc: Seq<u8>, t: Seq<u8>)
    ensures
        expand(acc, escape(t) + seq![0x3Cu8], TextMode::CharData, 0x3C) == Some(
            (acc + t, escape(t).len() as int),
        ),
    decreases t.len(),
{
    let s = escape(t) + seq![0x3Cu8];
    if t.len() == 0 {
        assert(s =~= seq![0x3Cu8]);
        lemma_expand_stop(acc, s, TextMode::CharData, 0x3C);
        assert(acc + t =~= acc);
    } else {
        let b = t[0];
        let r = t.drop_first();
        lemma_escape_reads_back(acc.push(b), r);
        assert(acc.push(b) + r =~= acc + t);
        let tail = escape(r) + seq![0x3Cu8];
        if b == 0x3C {
            reveal_strlit("lt");
            assert("lt"@.len() == 2);
            is_ascii_chars_encode_utf8("lt"@);
            let w = encode_utf8("lt"@);
            assert(w =~= seq![0x6Cu8, 0x74]);
            assert(s =~= seq![0x26u8] + w + seq![0x3Bu8] + tail);
            lemma_escaped_entity(acc, w, "lt"@, b, tail);
        } else if b == 0x3E {
            reveal_strlit("gt");
            reveal_strlit("lt");
            assert("gt"@.len() == 2);
            assert("gt"@[0] != "lt"@[0]);
            is_ascii_chars_encode_utf8("gt"@);
            let w = encode_utf8("gt"@);
            assert(w =~= seq![0x67u8, 0x74]);
            assert(s =~= seq![0x26u8] + w + seq![0x3Bu8] + tail);
            lemma_escaped_entity(acc, w, "gt"@, b, tail);
        } else if b == 0x26 {
            reveal_strlit("amp");
            reveal_strlit("lt");
            reveal_strlit("gt");
            assert("amp"@.len() == 3);
            assert("amp"@.len() != "lt"@.len());
            assert("amp"@.len() != "gt"@.len());
            is_ascii_chars_encode_utf8("amp"@);
            let w = encode_utf8("amp"@);
            assert(w =~= seq![0x61u8, 0x6D, 0x70]);
            assert(s =~= seq![0x26u8] + w + seq![0x3Bu8] + tail);
            lemma_escaped_entity(acc, w, "amp"@, b, tail);
        } else {
            assert(s =~= seq![b] + tail);
            assert(s[0] == b);
            assert(s.skip(1) =~= tail);
            lemma_escape_no_gt(r);
            if s.len() >= 3 {
                assert(s[2] == tail[1]);
            }
            lemma_expand_plain(acc, s, TextMode::CharData, 0x3C);
        }
    }
}

/// Character data written out with every `<`, `>` and `&` escaped reads back
/// as the same bytes: the text that ends at the next `<` is exactly `t`, and
/// the escaped form is consumed whole.
pub proof fn lemma_escaped_text_round_trip(t: Seq<u8>)
    ensures
        text_run(escape(t) + seq![0x3Cu8], TextMode::CharData) == Some((t, escape(t).len() as int)),
{
    lemma_escape_reads_back(Seq::empty(), t);
    assert(Seq::<u8>::empty() + t =~= t);
}

} // verus!
