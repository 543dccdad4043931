//! The grammar of a DOCTYPE's internal subset. Declarations are read and
//! checked for shape; content models and attribute lists are skipped.
use vstd::prelude::*;
use vstd::utf8::*;

use super::lex::{find_byte, name_run, space_run, text_of};
use super::text::{expand_fault, text_run, TextMode};
use super::{is_grammar_error, Doctype, Parser, RawToken};
use crate::xml::{Error, Feature, Result};

verus! {

/// How many bytes the rest of an entity declaration takes (after
/// `<!ENTITY`): a general entity with a quoted value, no external
/// identifier, closed by `>`.
pub open spec fn entity_decl_of(s: Seq<u8>) -> Option<int> {
    let w = space_run(s) as int;
    let t = s.skip(w);
    let k = name_run(t) as int;
    let u = t.skip(k);
    let w2 = space_run(u) as int;
    let v = u.skip(w2);
    let value = text_run(v, TextMode::EntityValue);
    if 0 < w < s.len() && t[0] != 0x25 && 0 < k < t.len() && text_of(t.take(k)) is Some && 0 < w2
        < u.len() && v[0] != 0x53 && v[0] != 0x50 && value is Some && text_of(value.unwrap().0) is Some {
        let x = v.skip(value.unwrap().1);
        let w3 = space_run(x) as int;
        if w3 < x.len() && x[w3] == 0x3E {
            Some(w + k + w2 + value.unwrap().1 + w3 + 1)
        } else {
            None
        }
    } else {
        None
    }
}

/// How many bytes the rest of a declaration whose body is skipped takes
/// (after `<!ELEMENT` or `<!ATTLIST`): whitespace, a name, for an element
/// declaration more whitespace, then everything up to and including the
/// next `>`.
pub open spec fn skipped_decl_of(s: Seq<u8>, spaced: bool) -> Option<int> {
    let w = space_run(s) as int;
    let t = s.skip(w);
    let k = name_run(t) as int;
    let u = t.skip(k);
    let w2 = if spaced {
        space_run(u) as int
    } else {
        0
    };
    let v = u.skip(w2);
    let f = find_byte(v, 0x3E) as int;
    if 0 < w < s.len() && 0 < k < t.len() && text_of(t.take(k)) is Some && (spaced ==> 0 < w2
        < u.len()) && f < v.len() {
        Some(w + k + w2 + f + 1)
    } else {
        None
    }
}

impl Parser {
    /// Reads one token of the internal subset: a markup declaration, a
    /// comment, a processing instruction, or the end of the subset.
    ///
    /// ```text
    /// intSubset    ::=  (markupdecl | DeclSep)* InternalEnd
    /// markupdecl   ::=  elementdecl | AttlistDecl | EntityDecl | NotationDecl
    ///                 | PI | Comment
    /// DeclSep      ::=  PEReference | S
    /// InternalEnd  ::=  ']' S? '>'
    /// ```
    pub(crate) fn doctype_token(&mut self) -> (r: Result<RawToken>)
        requires
            old(self).reader_ok(),
        ensures
            r matches Err(e) ==> is_grammar_error(e),
            final(self).same_frame(*old(self)),
            final(self).stream().len() <= old(self).stream().len(),
            r is Ok ==> final(self).stream().len() < old(self).stream().len(),
            r matches Ok(t) ==> !(t matches RawToken::DoctypeDef(Doctype::DoctypeDecl(_))),
            ({
                let s = old(self).stream();
                let t = s.skip(1);
                let w = space_run(t) as int;
                &&& s.len() > 0 && s[0] == 0x25 ==> (r matches Err(
                    Error::UnsupportedFeature(Feature::ParameterEntities),
                ))
                &&& s.len() > 0 && s[0] != 0x3C && s[0] != 0x5D && s[0] != 0x25 ==> (r matches Err(
                    Error::MalformedDoctype,
                ))
                &&& s.len() > 0 && s[0] == 0x5D ==> (r is Ok <==> w < t.len() && t[w] == 0x3E) && (
                r is Ok ==> (r matches Ok(RawToken::DoctypeDef(Doctype::InternalEnd)))
                    && final(self).stream() == s.skip(w + 2))
                &&& (r matches Ok(RawToken::DoctypeDef(Doctype::InternalEnd))) ==> s.len() > 0 && s[0]
                    == 0x5D
                &&& s.len() >= 2 && s[0] == 0x3C && s[1] == 0x3F ==> (r matches Ok(t) ==> t is ProcInst
                    || t is XmlDecl)
                &&& s.len() >= 3 && s[0] == 0x3C && s[1] == 0x21 && s[2] == 0x2D ==> (r matches Ok(t)
                    ==> t is Comment)
                &&& s.len() > 0 && s[0] == 0x5D && w < t.len() && t[w] != 0x3E ==> (r matches Err(
                    Error::MalformedDoctype,
                ))
                &&& s.len() >= 2 && s[0] == 0x3C && s[1] != 0x3F && s[1] != 0x21 ==> (r matches Err(
                    Error::MalformedDoctype,
                ))
                &&& ({
                    let u = s.skip(2);
                    let k = name_run(u) as int;
                    let n = text_of(u.take(k));
                    let a = u.skip(k);
                    s.len() >= 3 && s[0] == 0x3C && s[1] == 0x21 && s[2] != 0x2D && 0 < k < u.len()
                        && n is Some ==> if n == Some("ENTITY"@) {
                        (r is Ok <==> entity_decl_of(a) is Some) && (r matches Ok(d) ==> d matches RawToken::DoctypeDef(
                            Doctype::EntityDecl,
                        ))
                    } else if n == Some("ELEMENT"@) {
                        (r is Ok <==> skipped_decl_of(a, true) is Some) && (r matches Ok(d) ==> d matches RawToken::DoctypeDef(
                            Doctype::ElementDecl,
                        ))
                    } else if n == Some("ATTLIST"@) {
                        (r is Ok <==> skipped_decl_of(a, false) is Some) && (r matches Ok(d) ==> d matches RawToken::DoctypeDef(
                            Doctype::AttlistDecl,
                        ))
                    } else if n == Some("NOTATION"@) {
                        r matches Err(Error::UnsupportedFeature(Feature::Notations))
                    } else {
                        r matches Err(Error::MalformedDoctype)
                    }
                })
            }),
    {
        let ghost s = self.stream();
        let b = self.next_byte()?;
        if b == 0x3C {
            let b2 = self.next_byte()?;
            if b2 == 0x3F {
                self.proc_inst()
            } else if b2 == 0x21 {
                let b3 = self.next_byte()?;
                if b3 == 0x2D {
                    self.comment()
                } else {
                    self.unget_byte(b3);
                    assert(self.stream() =~= s.skip(2));
                    let name = self.name()?;
                    let bytes = name.as_str().as_bytes();
                    proof {
                        super::lex::lemma_name_run(s.skip(2));
                        encode_utf8_decode_utf8(name@);
                        encode_utf8_decode_utf8("ENTITY"@);
                        encode_utf8_decode_utf8("ELEMENT"@);
                        encode_utf8_decode_utf8("ATTLIST"@);
                        encode_utf8_decode_utf8("NOTATION"@);
                    }
                    if super::literal::bytes_eq(bytes, "ENTITY".as_bytes()) {
                        self.entity_decl()
                    } else if super::literal::bytes_eq(bytes, "ELEMENT".as_bytes()) {
                        self.element_decl()
                    } else if super::literal::bytes_eq(bytes, "ATTLIST".as_bytes()) {
                        self.attlist_decl()
                    } else if super::literal::bytes_eq(bytes, "NOTATION".as_bytes()) {
                        self.notation_decl()
                    } else {
                        Err(Error::MalformedDoctype)
                    }
                }
            } else {
                Err(Error::MalformedDoctype)
            }
        } else if b == 0x5D {
            proof {
                super::lex::lemma_space_run(s.skip(1));
            }
            self.whitespace()?;
            if !self.next_byte_is(0x3E)? {
                return Err(Error::MalformedDoctype);
            }
            assert(self.stream() =~= s.skip(space_run(s.skip(1)) + 2 as int));
            Ok(RawToken::DoctypeDef(Doctype::InternalEnd))
        } else if b == 0x25 {
            self.param_entity_ref()
        } else {
            Err(Error::MalformedDoctype)
        }
    }

    /// Reads an entity declaration. Parameter entities and external
    /// entities are recognized and rejected.
    ///
    /// Expects `<!ENTITY` to have been read.
    ///
    /// ```text
    /// GEDecl      ::=  '<!ENTITY' S Name S EntityDef S? '>'
    /// PEDecl      ::=  '<!ENTITY' S '%' S Name S PEDef S? '>'
    /// EntityDef   ::=  EntityValue | (ExternalID NDataDecl?)
    /// ```
    pub(crate) fn entity_decl(&mut self) -> (r: Result<RawToken>)
        requires
            old(self).reader_ok(),
        ensures
            r matches Err(e) ==> is_grammar_error(e),
            final(self).same_frame(*old(self)),
            final(self).stream().len() <= old(self).stream().len(),
            r is Ok ==> final(self).stream().len() < old(self).stream().len(),
            r matches Ok(t) ==> t matches RawToken::DoctypeDef(Doctype::EntityDecl),
            r is Ok <==> entity_decl_of(old(self).stream()) is Some,
            ({
                let s = old(self).stream();
                let w = space_run(s) as int;
                let t = s.skip(w);
                let k = name_run(t) as int;
                let u = t.skip(k);
                let w2 = space_run(u) as int;
                let v = u.skip(w2);
                0 < w < s.len() && t[0] != 0x25 && 0 < k < t.len() && text_of(t.take(k)) is Some && 0 < w2
                    < u.len() && (v[0] == 0x53 || v[0] == 0x50) && super::markup::external_id_len(v) is Some
                    ==> (r matches Err(Error::UnsupportedFeature(Feature::ExternalEntities)))
            }),
            r is Ok ==> final(self).stream() == old(self).stream().skip(
                entity_decl_of(old(self).stream()).unwrap(),
            ),
            ({
                let s = old(self).stream();
                let w = space_run(s) as int;
                0 < w < s.len() && s[w] == 0x25 ==> (r matches Err(
                    Error::UnsupportedFeature(Feature::ParameterEntities),
                ))
            }),
    {
        let ghost s = self.stream();
        proof {
            super::lex::lemma_space_run(s);
        }
        if !self.whitespace()? {
            return Err(Error::MalformedEntityDecl);
        }
        let ghost t = self.stream();
        let b = self.next_byte()?;
        if b == 0x25 {
            return Err(Error::UnsupportedFeature(Feature::ParameterEntities));
        }
        self.unget_byte(b);
        assert(self.stream() =~= t);
        let _name = self.name()?;
        let ghost u = self.stream();
        proof {
            super::lex::lemma_name_run(t);
            super::lex::lemma_space_run(u);
        }
        if !self.whitespace()? {
            return Err(Error::MalformedEntityDecl);
        }
        let ghost v = self.stream();
        if self.external_entity()? {
            return Err(Error::UnsupportedFeature(Feature::ExternalEntities));
        }
        let _value = self.entity_value()?;
        let ghost x = self.stream();
        proof {
            super::text::lemma_text_run_len(v, TextMode::EntityValue);
            super::lex::lemma_space_run(x);
        }
        self.whitespace()?;
        if !self.next_byte_is(0x3E)? {
            return Err(Error::MalformedEntityDecl);
        }
        proof {
            let w = space_run(s) as int;
            let k = name_run(t) as int;
            let w2 = space_run(u) as int;
            let c = text_run(v, TextMode::EntityValue).unwrap().1;
            let w3 = space_run(x) as int;
            assert(self.stream() =~= s.skip(w + k + w2 + c + w3 + 1));
        }
        Ok(RawToken::DoctypeDef(Doctype::EntityDecl))
    }

    /// Reads an element declaration; its content model is skipped.
    ///
    /// Expects `<!ELEMENT` to have been read.
    ///
    /// `elementdecl ::= '<!ELEMENT' S Name S contentspec S? '>'`
    pub(crate) fn element_decl(&mut self) -> (r: Result<RawToken>)
        requires
            old(self).reader_ok(),
        ensures
            r matches Err(e) ==> is_grammar_error(e),
            final(self).same_frame(*old(self)),
            final(self).stream().len() <= old(self).stream().len(),
            r is Ok ==> final(self).stream().len() < old(self).stream().len(),
            r matches Ok(t) ==> t matches RawToken::DoctypeDef(Doctype::ElementDecl),
            r is Ok <==> skipped_decl_of(old(self).stream(), true) is Some,
            r is Ok ==> final(self).stream() == old(self).stream().skip(
                skipped_decl_of(old(self).stream(), true).unwrap(),
            ),
    {
        let ghost s = self.stream();
        proof {
            super::lex::lemma_space_run(s);
        }
        if !self.whitespace()? {
            return Err(Error::MalformedEntityDecl);
        }
        let ghost t = self.stream();
        let _name = self.name()?;
        let ghost u = self.stream();
        proof {
            super::lex::lemma_name_run(t);
            super::lex::lemma_space_run(u);
        }
        if !self.whitespace()? {
            return Err(Error::MalformedEntityDecl);
        }
        let ghost v = self.stream();
        proof {
            super::lex::lemma_find_byte(v, 0x3E);
        }
        self.read_until(0x3E)?;
        proof {
            let c = space_run(s) + name_run(t) + space_run(u) + find_byte(v, 0x3E) + 1;
            assert(self.stream() =~= s.skip(c as int));
        }
        Ok(RawToken::DoctypeDef(Doctype::ElementDecl))
    }

    /// Reads an attribute-list declaration; its definitions are skipped.
    ///
    /// Expects `<!ATTLIST` to have been read.
    ///
    /// `AttlistDecl ::= '<!ATTLIST' S Name AttDef* S? '>'`
    pub(crate) fn attlist_decl(&mut self) -> (r: Result<RawToken>)
        requires
            old(self).reader_ok(),
        ensures
            r matches Err(e) ==> is_grammar_error(e),
            final(self).same_frame(*old(self)),
            final(self).stream().len() <= old(self).stream().len(),
            r is Ok ==> final(self).stream().len() < old(self).stream().len(),
            r matches Ok(t) ==> t matches RawToken::DoctypeDef(Doctype::AttlistDecl),
            r is Ok <==> skipped_decl_of(old(self).stream(), false) is Some,
            r is Ok ==> final(self).stream() == old(self).stream().skip(
                skipped_decl_of(old(self).stream(), false).unwrap(),
            ),
    {
        let ghost s = self.stream();
        proof {
            super::lex::lemma_space_run(s);
        }
        if !self.whitespace()? {
            return Err(Error::MalformedAttlistDecl);
        }
        let ghost t = self.stream();
        let _name = self.name()?;
        let ghost v = self.stream();
        proof {
            super::lex::lemma_name_run(t);
            super::lex::lemma_find_byte(v, 0x3E);
            assert(v.skip(0) =~= v);
        }
        self.read_until(0x3E)?;
        proof {
            let c = space_run(s) + name_run(t) + find_byte(v, 0x3E) + 1;
            assert(self.stream() =~= s.skip(c as int));
        }
        Ok(RawToken::DoctypeDef(Doctype::AttlistDecl))
    }

    /// Notation declarations are not supported.
    pub(crate) fn notation_decl(&mut self) -> (r: Result<RawToken>)
        ensures
            r matches Err(e) ==> is_grammar_error(e),
            *final(self) == *old(self),
            r matches Err(Error::UnsupportedFeature(Feature::Notations)),
    {
        Err(Error::UnsupportedFeature(Feature::Notations))
    }

    /// Parameter-entity references are not supported.
    ///
    /// `PEReference ::= '%' Name ';'`
    pub(crate) fn param_entity_ref(&mut self) -> (r: Result<RawToken>)
        ensures
            r matches Err(e) ==> is_grammar_error(e),
            *final(self) == *old(self),
            r matches Err(Error::UnsupportedFeature(Feature::ParameterEntities)),
    {
        Err(Error::UnsupportedFeature(Feature::ParameterEntities))
    }

    /// Reads a quoted entity value: character references are expanded,
    /// general entity references are kept as written, and parameter-entity
    /// references are rejected.
    ///
    /// `EntityValue ::= '"' ([^%&"] | PEReference | Reference)* '"' | ...`
    pub(crate) fn entity_value(&mut self) -> (r: Result<String>)
        requires
            old(self).reader_ok(),
        ensures
            r matches Err(e) ==> is_grammar_error(e),
            final(self).same_frame(*old(self)),
            final(self).stream().len() <= old(self).stream().len(),
            r is Ok ==> final(self).stream().len() < old(self).stream().len(),
            ({
                let s = old(self).stream();
                let t = text_run(s, TextMode::EntityValue);
                &&& r is Ok <==> t is Some && super::lex::text_of(t.unwrap().0) is Some
                &&& r matches Ok(v) ==> Some(v@) == super::lex::text_of(t.unwrap().0)
                    && final(self).stream() == s.skip(t.unwrap().1)
                &&& s.len() > 0 && s[0] != 0x22 && s[0] != 0x27 ==> (r matches Err(
                    Error::MalformedEntityValue,
                ))
                &&& s.len() > 0 && (s[0] == 0x22 || s[0] == 0x27) && expand_fault(
                    Seq::empty(),
                    s.skip(1),
                    TextMode::EntityValue,
                    s[0],
                ) == 4 ==> (r matches Err(Error::UnsupportedFeature(Feature::ParameterEntities)))
            }),
    {
        self.expanded_text(TextMode::EntityValue)
    }
}

} // verus!
