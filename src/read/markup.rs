//! Grammar productions for declarations: comments, processing
//! instructions, the XML declaration and the DOCTYPE declaration.
use vstd::prelude::*;
use vstd::string::*;
use vstd::utf8::*;

use super::lex::{into_text, is_suffix, name_run, space_run, starts_with};
use super::tags::eq_at;
use super::literal::{quoted, quoted_body, quoted_len};
use super::{is_grammar_error, Doctype, Parser, RawToken};
use crate::xml::{self, Error, Feature, Result};

verus! {

/// The ASCII lower case of `b`.
pub open spec fn ascii_lower(b: u8) -> u8 {
    if 0x41 <= b <= 0x5A {
        (b + 0x20) as u8
    } else {
        b
    }
}

/// Whether the bytes of `name` spell `lit`.
pub(crate) fn name_is(name: &String, lit: &str) -> (r: bool)
    ensures
        r == (name@ == lit@),
{
    let a = name.as_str().as_bytes();
    let b = lit.as_bytes();
    proof {
        encode_utf8_decode_utf8(name@);
        encode_utf8_decode_utf8(lit@);
    }
    super::literal::bytes_eq(a, b)
}

/// The first `j >= i` at which `u.take(j)` ends with `?>`.
pub open spec fn pi_close(u: Seq<u8>, i: int) -> Option<int>
    decreases u.len() + 1 - i,
{
    if i < 0 || i > u.len() {
        None
    } else if i >= 2 && u[i - 2] == 0x3F && u[i - 1] == 0x3E {
        Some(i)
    } else {
        pi_close(u, i + 1)
    }
}

/// The processing instruction at the start of `s` (after `<?`), for a
/// target that is not reserved: its target, the bytes of its text, and how
/// many bytes it takes.
pub open spec fn pi_of(s: Seq<u8>) -> Option<(Seq<char>, Seq<u8>, int)> {
    let k = name_run(s);
    let n = super::lex::text_of(s.take(k as int));
    let t = s.skip(k as int);
    let w = space_run(t) as int;
    if 0 < k < s.len() && n is Some && w < t.len() {
        if w > 0 {
            match pi_close(t.skip(w), 0) {
                Some(j) => Some((n.unwrap(), t.skip(w).take(j - 2), k + w + j)),
                None => None,
            }
        } else if t.len() >= 2 && t[0] == 0x3F && t[1] == 0x3E {
            Some((n.unwrap(), Seq::empty(), k + 2 as int))
        } else {
            None
        }
    } else {
        None
    }
}

/// How many bytes of `s` the body of a comment takes, up to and including
/// its closing `-->`. Bytes are read in steps: a byte other than `-` is
/// skipped; `-` and a byte other than `-` are skipped together; `--` must be
/// followed by `>`.
pub open spec fn comment_body(s: Seq<u8>) -> Option<int>
    decreases s.len(),
{
    if s.len() == 0 {
        None
    } else if s[0] != 0x2D {
        match comment_body(s.skip(1)) {
            Some(n) => Some(n + 1),
            None => None,
        }
    } else if s.len() < 2 {
        None
    } else if s[1] != 0x2D {
        match comment_body(s.skip(2)) {
            Some(n) => Some(n + 2),
            None => None,
        }
    } else if s.len() >= 3 && s[2] == 0x3E {
        Some(3)
    } else {
        None
    }
}

/// How many bytes the rest of a comment takes after `<!-`.
pub open spec fn comment_len(s: Seq<u8>) -> Option<int> {
    if s.len() > 0 && s[0] == 0x2D {
        match comment_body(s.skip(1)) {
            Some(n) => Some(n + 1),
            None => None,
        }
    } else {
        None
    }
}

impl Parser {
    /// Reads a comment, whose text is dropped.
    ///
    /// Expects `<!-` to have been read.
    ///
    /// `Comment ::= '<!--' ((Char - '-') | ('-' (Char - '-')))* '-->'`
    pub(crate) fn comment(&mut self) -> (r: Result<RawToken>)
        requires
            old(self).reader_ok(),
        ensures
            r matches Err(e) ==> is_grammar_error(e),
            final(self).same_frame(*old(self)),
            final(self).stream().len() <= old(self).stream().len(),
            r is Ok ==> final(self).stream().len() < old(self).stream().len(),
            r matches Ok(t) ==> t is Comment,
            r matches Err(e) ==> e is MalformedComment || e is UnexpectedEof,
            r is Ok <==> comment_len(old(self).stream()) is Some,
            r is Ok ==> final(self).stream() == old(self).stream().skip(
                comment_len(old(self).stream()).unwrap(),
            ) && 0 <= comment_len(old(self).stream()).unwrap() <= old(self).stream().len(),
    {
        let ghost s = self.stream();
        if !self.next_byte_is(0x2D)? {
            return Err(Error::MalformedComment);
        }
        let ghost mut done: int = 1;
        loop
            invariant
                self.same_frame(*old(self)),
                s == old(self).stream(),
                s.len() > 0 && s[0] == 0x2D,
                1 <= done <= s.len(),
                self.stream() == s.skip(done),
                comment_len(s) == match comment_body(self.stream()) {
                    Some(n) => Some(n + done),
                    None => None,
                },
            decreases self.stream().len(),
        {
            let ghost cur = self.stream();
            if self.next_byte_is(0x2D)? {
                if self.next_byte_is(0x2D)? {
                    if !self.next_byte_is(0x3E)? {
                        return Err(Error::MalformedComment);
                    }
                    assert(self.stream() =~= s.skip(done + 3));
                    return Ok(RawToken::Comment);
                }
                proof {
                    assert(cur.skip(2) =~= s.skip(done + 2));
                    assert(self.stream() =~= cur.skip(2));
                    assert(comment_body(cur) == match comment_body(cur.skip(2)) {
                        Some(n) => Some(n + 2),
                        None => None,
                    });
                    done = done + 2;
                }
            } else {
                proof {
                    assert(cur.skip(1) =~= s.skip(done + 1));
                    assert(self.stream() =~= cur.skip(1));
                    assert(comment_body(cur) == match comment_body(cur.skip(1)) {
                        Some(n) => Some(n + 1),
                        None => None,
                    });
                    done = done + 1;
                }
            }
        }
    }

    /// Tells whether `target` begins with any casing of `xml`, which is
    /// reserved.
    pub(crate) fn has_xml_prefix(target: &String) -> (r: bool)
        ensures
            r == ({
                let b = encode_utf8(target@);
                b.len() >= 3 && ascii_lower(b[0]) == 0x78 && ascii_lower(b[1]) == 0x6D
                    && ascii_lower(b[2]) == 0x6C
            }),
    {
        let b = target.as_str().as_bytes();
        if b.len() < 3 {
            return false;
        }
        let lower = |c: u8| -> (l: u8)
            ensures
                l == ascii_lower(c),
            {
                if 0x41 <= c && c <= 0x5A {
                    c + 0x20
                } else {
                    c
                }
            };
        lower(b[0]) == 0x78 && lower(b[1]) == 0x6D && lower(b[2]) == 0x6C
    }

    /// Reads a processing instruction, or an XML declaration for the target
    /// `xml`. Other targets that begin with any casing of `xml` are
    /// reserved.
    ///
    /// Expects `<?` to have been read.
    ///
    /// `PI ::= '<?' PITarget (S (Char* - (Char* '?>' Char*)))? '?>'`
    pub(crate) fn proc_inst(&mut self) -> (r: Result<RawToken>)
        requires
            old(self).reader_ok(),
        ensures
            r matches Err(e) ==> is_grammar_error(e),
            final(self).same_frame(*old(self)),
            final(self).stream().len() <= old(self).stream().len(),
            r is Ok ==> final(self).stream().len() < old(self).stream().len(),
            r matches Ok(t) ==> t is ProcInst || t is XmlDecl,
            ({
                let s = old(self).stream();
                let k = name_run(s);
                let n = super::lex::text_of(s.take(k as int));
                let p = pi_of(s);
                &&& r matches Ok(RawToken::XmlDecl) ==> n == Some("xml"@)
                &&& 0 < k < s.len() && n == Some("xml"@) ==> (r is Ok <==> xml_decl_accepts(s.skip(
                    k as int,
                ))) && (decl_encoding_unsupported(s.skip(k as int)) ==> (r matches Err(
                    Error::UnsupportedEncoding,
                )))
                &&& 0 < k < s.len() && n is Some && Self::reserved_target(n.unwrap()) && n.unwrap()
                    != "xml"@ ==> (r matches Err(Error::MalformedProcInst))
                &&& !(0 < k < s.len() && n is Some && Self::reserved_target(n.unwrap())) ==> (r is Ok
                    <==> p is Some && super::lex::text_of(p.unwrap().1) is Some)
                &&& r matches Ok(RawToken::ProcInst(pi)) ==> ({
                    let (t, inst, c) = p.unwrap();
                    &&& t == pi.target@
                    &&& !Self::reserved_target(t)
                    &&& super::lex::text_of(inst) == Some(pi.inst@)
                    &&& final(self).stream() == s.skip(c)
                    &&& 0 <= c <= s.len()
                })
            }),
    {
        proof {
            reveal_strlit("xml");
            assert("xml"@.len() == 3);
            vstd::utf8::is_ascii_chars_encode_utf8("xml"@);
        }
        let ghost s = self.stream();
        let target = self.name()?;
        let ghost k = name_run(s);
        proof {
            super::lex::lemma_name_run(s);
            decode_utf8_encode_utf8(s.take(k as int));
        }
        if Self::has_xml_prefix(&target) {
            if name_is(&target, "xml") {
                return self.xml_decl();
            }
            return Err(Error::MalformedProcInst);
        }
        let ghost t = self.stream();
        proof {
            super::lex::lemma_space_run(t);
        }
        let mut buf: Vec<u8> = Vec::new();
        if self.whitespace()? {
            let ghost w = space_run(t) as int;
            let ghost u = self.stream();
            assert(u == t.skip(w));
            while !(buf.len() >= 2 && buf[buf.len() - 2] == 0x3F && buf[buf.len() - 1] == 0x3E)
                invariant
                    self.same_frame(*old(self)),
                    s == old(self).stream(),
                    k == name_run(s),
                    0 < k < s.len(),
                    super::lex::text_of(s.take(k as int)) == Some(target@),
                    !Self::reserved_target(target@),
                    Self::reserved_target("xml"@),
                    t == s.skip(k as int),
                    w == space_run(t),
                    0 < w < t.len(),
                    u == t.skip(w),
                    buf@.len() <= u.len(),
                    buf@ == u.take(buf@.len() as int),
                    self.stream() == u.skip(buf@.len() as int),
                    pi_close(u, 0) == pi_close(u, buf@.len() as int),
                decreases self.stream().len(),
            {
                let ghost i = buf@.len() as int;
                let b = match self.next_byte() {
                    Ok(b) => b,
                    Err(e) => {
                        assert(pi_close(u, i + 1) is None);
                        return Err(e);
                    },
                };
                buf.push(b);
                assert(buf@ =~= u.take(i + 1));
                assert(self.stream() =~= u.skip(i + 1));
            }
            let ghost j = buf@.len() as int;
            assert(pi_close(u, j) == Some(j));
            let cut = buf.len() - 2;
            buf.truncate(cut);
            assert(buf@ =~= u.take(j - 2));
            assert(t.skip(w).skip(j) =~= s.skip(k + w + j));
        } else {
            if !(self.next_byte_is(0x3F)? && self.next_byte_is(0x3E)?) {
                return Err(Error::MalformedProcInst);
            }
            assert(buf@ =~= Seq::<u8>::empty());
            assert(self.stream() =~= s.skip(k + 2 as int));
        }
        let inst = into_text(buf)?;
        Ok(RawToken::ProcInst(xml::ProcInst { target, inst }))
    }

    /// Whether a processing-instruction target is reserved: it starts with
    /// any casing of `xml`.
    pub open spec fn reserved_target(t: Seq<char>) -> bool {
        let b = encode_utf8(t);
        b.len() >= 3 && ascii_lower(b[0]) == 0x78 && ascii_lower(b[1]) == 0x6D && ascii_lower(b[2])
            == 0x6C
    }

    /// Reads the rest of an XML declaration. The version must read `1.`
    /// and a number; an encoding other than UTF-8 (in any casing) is
    /// `UnsupportedEncoding`; `encoding` and `standalone` may each come once,
    /// in that order.
    ///
    /// Expects `<?xml` to have been read.
    ///
    /// ```text
    /// XMLDecl       ::=  '<?xml' VersionInfo EncodingDecl? SDDecl? S? '?>'
    /// VersionInfo   ::=  S 'version' Eq VersLiteral
    /// EncodingDecl  ::=  S 'encoding' Eq EncLiteral
    /// SDDecl        ::=  S 'standalone' Eq YesNoLiteral
    /// ```
    #[verifier::rlimit(100)]
    #[verifier::spinoff_prover]
    pub(crate) fn xml_decl(&mut self) -> (r: Result<RawToken>)
        requires
            old(self).reader_ok(),
        ensures
            r matches Err(e) ==> is_grammar_error(e),
            final(self).same_frame(*old(self)),
            final(self).stream().len() <= old(self).stream().len(),
            r is Ok ==> final(self).stream().len() < old(self).stream().len(),
            r matches Ok(t) ==> t is XmlDecl,
            r is Ok <==> xml_decl_accepts(old(self).stream()),
            r is Ok ==> final(self).stream() == old(self).stream().skip(
                xml_decl_of(old(self).stream()).unwrap().0,
            ) && 0 <= xml_decl_of(old(self).stream()).unwrap().0 <= old(self).stream().len(),
            decl_encoding_unsupported(old(self).stream()) ==> (r matches Err(
                Error::UnsupportedEncoding,
            )),
            ({
                let s = old(self).stream();
                s.len() > 0 && space_run(s) == 0 ==> (r matches Err(Error::MalformedXmlDecl))
            }),
    {
        let ghost s = self.stream();
        proof {
            reveal(xml_decl_of);
            super::lex::lemma_space_run(s);
            reveal_strlit("version");
            reveal_strlit("ncoding");
            reveal_strlit("tandalone");
            assert("version"@.len() == 7);
            assert("ncoding"@.len() == 7);
            assert("tandalone"@.len() == 9);
            vstd::utf8::is_ascii_chars_encode_utf8("version"@);
            vstd::utf8::is_ascii_chars_encode_utf8("ncoding"@);
            vstd::utf8::is_ascii_chars_encode_utf8("tandalone"@);
            assert("version".spec_bytes().len() == 7);
            assert("ncoding".spec_bytes().len() == 7);
            assert("tandalone".spec_bytes().len() == 9);
        }
        if !self.whitespace()? {
            return Err(Error::MalformedXmlDecl);
        }
        let ghost t = self.stream();
        if !self.expect_str("version")? {
            return Err(Error::MalformedXmlDecl);
        }
        proof {
            super::lex::lemma_common_len(t, "version".spec_bytes());
        }
        let ghost t1 = self.stream();
        assert(t1 =~= t.skip(7));
        assert(s.skip(space_run(s) as int + 7) =~= t1);
        proof {
            super::lex::lemma_space_run(t1);
            if space_run(t1) < t1.len() {
                super::lex::lemma_space_run(t1.skip(space_run(t1) + 1 as int));
            }
        }
        self.equals()?;
        let ghost t2 = self.stream();
        assert(t2 == t1.skip(eq_at(t1).unwrap()));
        let _minor = self.version_literal()?;
        let ghost n0 = space_run(s) + 7 + eq_at(t1).unwrap() + quoted_len(t2);
        assert(self.stream() =~= s.skip(n0));
        proof {
            reveal(xml_decl_of);
            assert(s.skip(space_run(s) as int + 7) =~= t1);
        }
        let ghost base = self.stream();
        let mut encoding: Option<String> = None;
        let mut standalone: Option<bool> = None;
        let ghost mut enc_g: Option<Seq<u8>> = None;
        let ghost mut done: int = 0;
        loop
            invariant_except_break
                self.stream() == base.skip(done),
                xml_decl_of(s) == match decl_tail(self.stream(), enc_g, standalone is Some) {
                    Some((m, e)) => Some((n0 + done + m, e)),
                    None => None,
                },
            invariant
                self.same_frame(*old(self)),
                s == old(self).stream(),
                0 <= n0 <= s.len(),
                base == s.skip(n0),
                0 <= done <= base.len(),
                self.stream().len() < s.len(),
                encoding is Some == enc_g is Some,
                encoding matches Some(e) ==> enc_g == Some(encode_utf8(e@)),
                "ncoding".spec_bytes().len() == 7,
                "tandalone".spec_bytes().len() == 9,
                space_run(s) > 0,
            ensures
                self.same_frame(*old(self)),
                s == old(self).stream(),
                xml_decl_of(s) == Some((s.len() - self.stream().len(), enc_g)),
                self.stream() == s.skip(s.len() - self.stream().len()),
                self.stream().len() < s.len(),
                encoding is Some == enc_g is Some,
                encoding matches Some(e) ==> enc_g == Some(encode_utf8(e@)),
            decreases self.stream().len(),
        {
            let ghost cur = self.stream();
            proof {
                super::lex::lemma_space_run(cur);
                lemma_decl_tail_unfold(cur, enc_g, standalone is Some);
            }
            let sp = self.whitespace()?;
            let ghost w = space_run(cur) as int;
            let b = self.next_byte()?;
            let ghost u = self.stream();
            assert(u =~= cur.skip(w + 1));
            if b == 0x65 && sp && encoding.is_none() && standalone.is_none() {
                let e = self.decl_encoding()?;
                proof {
                    let v = u.skip(7);
                    let x = v.skip(eq_at(v).unwrap());
                    let n = w + 1 + 7 + eq_at(v).unwrap() + quoted_len(x);
                    assert(self.stream() =~= cur.skip(n));
                    assert(base.skip(done).skip(n) =~= base.skip(done + n));
                    enc_g = Some(quoted_body(x));
                    done = done + n;
                }
                encoding = Some(e);
            } else if b == 0x73 && sp && standalone.is_none() {
                let y = self.decl_standalone()?;
                proof {
                    let v = u.skip(9);
                    let x = v.skip(eq_at(v).unwrap());
                    let n = w + 1 + 9 + eq_at(v).unwrap() + quoted_len(x);
                    assert(self.stream() =~= cur.skip(n));
                    assert(base.skip(done).skip(n) =~= base.skip(done + n));
                    done = done + n;
                }
                standalone = Some(y);
            } else if b == 0x3F {
                if !self.next_byte_is(0x3E)? {
                    return Err(Error::MalformedXmlDecl);
                }
                proof {
                    assert(self.stream() =~= cur.skip(w + 2));
                    assert(base.skip(done).skip(w + 2) =~= base.skip(done + w + 2));
                    assert(self.stream() =~= s.skip(n0 + done + w + 2));
                }
                break ;
            } else {
                return Err(Error::MalformedXmlDecl);
            }
        }
        if let Some(enc) = encoding {
            proof {
                encode_utf8_valid_utf8(enc@);
            }
            if !is_utf8_label(enc.as_str().as_bytes()) {
                return Err(Error::UnsupportedEncoding);
            }
        }
        Ok(RawToken::XmlDecl)
    }

    /// Reads a DOCTYPE declaration up to its internal subset, if it has one.
    /// An external identifier is recognized and rejected.
    ///
    /// Expects `<!` to have been read.
    ///
    /// `doctypedecl ::= '<!DOCTYPE' S Name (S ExternalID)? S? ('[' intSubset ']' S?)? '>'`
    pub(crate) fn doctype(&mut self) -> (r: Result<RawToken>)
        requires
            old(self).reader_ok(),
        ensures
            r matches Err(e) ==> is_grammar_error(e),
            final(self).same_frame(*old(self)),
            final(self).stream().len() <= old(self).stream().len(),
            r is Ok ==> final(self).stream().len() < old(self).stream().len(),
            r matches Ok(t) ==> t matches RawToken::DoctypeDef(Doctype::DoctypeDecl(_)),
            r is Ok <==> doctype_of(old(self).stream()) is Some,
            r matches Ok(RawToken::DoctypeDef(Doctype::DoctypeDecl(f))) ==> ({
                let (g, c) = doctype_of(old(self).stream()).unwrap();
                f == g && final(self).stream() == old(self).stream().skip(c) && 0 <= c <= old(
                    self,
                ).stream().len()
            }),
            doctype_external(old(self).stream()) ==> (r matches Err(
                Error::UnsupportedFeature(Feature::ExternalEntities),
            )),
    {
        let ghost s = self.stream();
        if !self.expect_str("DOCTYPE")? {
            return Err(Error::MalformedDoctype);
        }
        proof {
            reveal_strlit("DOCTYPE");
            assert("DOCTYPE"@.len() == 7);
            vstd::utf8::is_ascii_chars_encode_utf8("DOCTYPE"@);
            super::lex::lemma_common_len(s, "DOCTYPE".spec_bytes());
        }
        let ghost t = self.stream();
        assert(t =~= s.skip(7));
        proof {
            super::lex::lemma_space_run(t);
        }
        if !self.whitespace()? {
            return Err(Error::MalformedDoctype);
        }
        let ghost u = self.stream();
        let _name = self.name()?;
        let ghost v = self.stream();
        proof {
            super::lex::lemma_name_run(u);
            super::lex::lemma_space_run(v);
        }
        if self.whitespace()? {
            if self.external_entity()? {
                return Err(Error::UnsupportedFeature(Feature::ExternalEntities));
            }
        }
        let ghost w2 = space_run(v) as int;
        assert(self.stream() == v.skip(w2));
        let b = self.next_byte()?;
        proof {
            let c = 7 + space_run(t) + name_run(u) + w2 + 1;
            assert(self.stream() =~= s.skip(c));
        }
        if b == 0x5B {
            Ok(RawToken::DoctypeDef(Doctype::DoctypeDecl(true)))
        } else if b == 0x3E {
            Ok(RawToken::DoctypeDef(Doctype::DoctypeDecl(false)))
        } else {
            Err(Error::MalformedDoctype)
        }
    }

    /// Reads an optional external identifier and tells whether there was
    /// one.
    ///
    /// ```text
    /// ExternalID  ::=  'SYSTEM' S SystemLiteral
    ///                | 'PUBLIC' S PubidLiteral S SystemLiteral
    /// ```
    pub(crate) fn external_entity(&mut self) -> (r: Result<bool>)
        requires
            old(self).reader_ok(),
        ensures
            r matches Err(e) ==> is_grammar_error(e),
            final(self).same_frame(*old(self)),
            final(self).stream().len() <= old(self).stream().len(),
            ({
                let s = old(self).stream();
                &&& s.len() > 0 && s[0] != 0x53 && s[0] != 0x50 ==> r == Ok::<bool, Error>(false)
                    && final(self).stream() == s
                &&& s.len() > 0 && (s[0] == 0x53 || s[0] == 0x50) ==> (r is Ok <==> external_id_len(
                    s,
                ) is Some) && (r is Ok ==> r == Ok::<bool, Error>(true) && final(self).stream()
                    == s.skip(external_id_len(s).unwrap()))
            }),
    {
        let ghost s = self.stream();
        let b = self.next_byte()?;
        if b == 0x53 || b == 0x50 {
            let system = b == 0x53;
            let ok = if system {
                self.expect_str("YSTEM")?
            } else {
                self.expect_str("UBLIC")?
            };
            if !ok {
                return Err(Error::MalformedExternalEntity);
            }
            proof {
                reveal_strlit("YSTEM");
                reveal_strlit("UBLIC");
                assert("YSTEM"@.len() == 5);
                assert("UBLIC"@.len() == 5);
                vstd::utf8::is_ascii_chars_encode_utf8("YSTEM"@);
                vstd::utf8::is_ascii_chars_encode_utf8("UBLIC"@);
                super::lex::lemma_common_len(s.drop_first(), "YSTEM".spec_bytes());
                super::lex::lemma_common_len(s.drop_first(), "UBLIC".spec_bytes());
            }
            let ghost t = self.stream();
            assert(t =~= s.skip(6));
            proof {
                super::lex::lemma_space_run(t);
            }
            if !self.whitespace()? {
                return Err(Error::MalformedExternalEntity);
            }
            let ghost w = space_run(t) as int;
            let ghost t1 = self.stream();
            assert(t1 == t.skip(w));
            let _first = self.system_literal()?;
            let ghost l1 = quoted_len(t1);
            assert(self.stream() =~= t.skip(w + l1));
            if system {
                proof {
                    assert(self.stream() =~= s.skip(6 + w + l1));
                }
                return Ok(true);
            }
            let ghost t2 = self.stream();
            proof {
                super::lex::lemma_space_run(t2);
            }
            if !self.whitespace()? {
                return Err(Error::MalformedExternalEntity);
            }
            let ghost w2 = space_run(t2) as int;
            let ghost t3 = self.stream();
            let _second = self.system_literal()?;
            let ghost l2 = quoted_len(t3);
            proof {
                assert(self.stream() =~= s.skip(6 + w + l1 + w2 + l2));
            }
            Ok(true)
        } else {
            self.unget_byte(b);
            assert(self.stream() =~= s);
            Ok(false)
        }
    }
}

/// The length of a quoted literal with valid UTF-8 text at the start of `s`.
pub open spec fn literal_len(s: Seq<u8>) -> Option<int> {
    if quoted(s) is Some && super::lex::text_of(quoted_body(s)) is Some {
        Some(quoted_len(s))
    } else {
        None
    }
}

/// How many bytes the external identifier at the start of `s` takes.
///
/// ```text
/// ExternalID  ::=  'SYSTEM' S SystemLiteral
///                | 'PUBLIC' S PubidLiteral S SystemLiteral
/// ```
pub open spec fn external_id_len(s: Seq<u8>) -> Option<int> {
    let t = s.skip(6);
    let w = space_run(t) as int;
    let l1 = literal_len(t.skip(w));
    if s.len() > 0 && (s[0] == 0x53 && starts_with(s.skip(1), "YSTEM".spec_bytes()) || s[0] == 0x50
        && starts_with(s.skip(1), "UBLIC".spec_bytes())) && 0 < w < t.len() && l1 is Some {
        if s[0] == 0x53 {
            Some(6 + w + l1.unwrap())
        } else {
            let t2 = t.skip(w + l1.unwrap());
            let w2 = space_run(t2) as int;
            let l2 = literal_len(t2.skip(w2));
            if 0 < w2 < t2.len() && l2 is Some {
                Some(6 + w + l1.unwrap() + w2 + l2.unwrap())
            } else {
                None
            }
        }
    } else {
        None
    }
}

/// A DOCTYPE declaration at the start of `s` (after `<!`) that has no
/// external identifier: whether an internal subset follows, and how many
/// bytes the declaration takes up to its `[` or `>`.
pub open spec fn doctype_of(s: Seq<u8>) -> Option<(bool, int)> {
    let t = s.skip(7);
    let w = space_run(t) as int;
    let u = t.skip(w);
    let k = name_run(u) as int;
    let v = u.skip(k);
    let w2 = space_run(v) as int;
    if starts_with(s, "DOCTYPE".spec_bytes()) && 0 < w < t.len() && 0 < k < u.len()
        && super::lex::text_of(u.take(k)) is Some && w2 < v.len() && !(w2 > 0 && (v[w2] == 0x53
        || v[w2] == 0x50)) && (v[w2] == 0x5B || v[w2] == 0x3E) {
        Some((v[w2] == 0x5B, 7 + w + k + w2 + 1))
    } else {
        None
    }
}

/// A declaration that `doctype_external` accepts starts with `D`.
pub proof fn lemma_doctype_external_start(s: Seq<u8>)
    ensures
        doctype_external(s) ==> s.len() >= 7 && s[0] == 0x44,
{
    reveal_strlit("DOCTYPE");
    assert("DOCTYPE"@.len() == 7);
    vstd::utf8::is_ascii_chars_encode_utf8("DOCTYPE"@);
    if doctype_external(s) {
        assert(s.take(7)[0] == s[0]);
    }
}

/// A DOCTYPE declaration at the start of `s` (after `<!`) with a well-formed
/// external identifier after its name.
pub open spec fn doctype_external(s: Seq<u8>) -> bool {
    let t = s.skip(7);
    let w = space_run(t) as int;
    let u = t.skip(w);
    let k = name_run(u) as int;
    let v = u.skip(k);
    let w2 = space_run(v) as int;
    starts_with(s, "DOCTYPE".spec_bytes()) && 0 < w < t.len() && 0 < k < u.len()
        && super::lex::text_of(u.take(k)) is Some && 0 < w2 < v.len() && (v[w2] == 0x53 || v[w2]
        == 0x50) && external_id_len(v.skip(w2)) is Some
}

/// Whether `enc` names UTF-8 in any casing.
pub(crate) fn is_utf8_label(enc: &[u8]) -> (r: bool)
    ensures
        r == names_utf8(enc@),
{
    if enc.len() != 5 {
        return false;
    }
    let lower = |c: u8| -> (l: u8)
        ensures
            l == ascii_lower(c),
        {
            if 0x41 <= c && c <= 0x5A {
                c + 0x20
            } else {
                c
            }
        };
    lower(enc[0]) == 0x75 && lower(enc[1]) == 0x74 && lower(enc[2]) == 0x66 && enc[3] == 0x2D
        && enc[4] == 0x38
}



/// Whether the encoding name `e` is UTF-8 in any casing.
pub open spec fn names_utf8(e: Seq<u8>) -> bool {
    e.len() == 5 && ascii_lower(e[0]) == 0x75 && ascii_lower(e[1]) == 0x74 && ascii_lower(e[2])
        == 0x66 && e[3] == 0x2D && e[4] == 0x38
}

/// Whether a quoted literal at the start of `s` reads `yes` or `no`.
pub open spec fn yesno_at(s: Seq<u8>) -> bool {
    quoted(s) is Some && (quoted_body(s) == "yes".spec_bytes() || quoted_body(s) == "no".spec_bytes())
}

/// Whether a quoted literal at the start of `s` is a version `1.` and a
/// number.
pub open spec fn version_at(s: Seq<u8>) -> bool {
    let b = quoted_body(s);
    quoted(s) is Some && super::lex::text_of(b) is Some && b.len() >= 2 && b[0] == 0x31 && b[1]
        == 0x2E && super::literal::number_of(b.skip(2), 10) is Some
}

/// The rest of an XML declaration after its version, in `s`: the optional
/// `encoding` (not after `standalone`, at most once) and `standalone` (at
/// most once), each after whitespace, then `?>`. Gives how many bytes it
/// takes and the encoding name's bytes, if one was given; `enc` and `sa`
/// tell what was seen already.
#[verifier::opaque]
pub open spec fn decl_tail(s: Seq<u8>, enc: Option<Seq<u8>>, sa: bool) -> Option<(int, Option<Seq<u8>>)>
    decreases s.len(),
{
    let sp = space_run(s) as int;
    let u = s.skip(sp + 1);
    if sp >= s.len() {
        None
    } else if s[sp] == 0x65 && sp > 0 && enc is None && !sa {
        let v = u.skip(7);
        let x = v.skip(eq_at(v).unwrap_or(0));
        let n = sp + 1 + 7 + eq_at(v).unwrap_or(0) + quoted_len(x);
        if starts_with(u, "ncoding".spec_bytes()) && eq_at(v) is Some && literal_len(x) is Some && 0
            < n <= s.len() {
            match decl_tail(s.skip(n), Some(quoted_body(x)), sa) {
                Some((m, e)) => Some((n + m, e)),
                None => None,
            }
        } else {
            None
        }
    } else if s[sp] == 0x73 && sp > 0 && !sa {
        let v = u.skip(9);
        let x = v.skip(eq_at(v).unwrap_or(0));
        let n = sp + 1 + 9 + eq_at(v).unwrap_or(0) + quoted_len(x);
        if starts_with(u, "tandalone".spec_bytes()) && eq_at(v) is Some && yesno_at(x) && 0 < n
            <= s.len() {
            match decl_tail(s.skip(n), enc, true) {
                Some((m, e)) => Some((n + m, e)),
                None => None,
            }
        } else {
            None
        }
    } else if s[sp] == 0x3F {
        if u.len() > 0 && u[0] == 0x3E {
            Some((sp + 2, enc))
        } else {
            None
        }
    } else {
        None
    }
}

/// One step of `decl_tail`: the first key, or the closing `?>`.
pub open spec fn decl_step(s: Seq<u8>, enc: Option<Seq<u8>>, sa: bool) -> Option<(int, Option<Seq<u8>>)> {
    let sp = space_run(s) as int;
    let u = s.skip(sp + 1);
    if sp >= s.len() {
        None
    } else if s[sp] == 0x65 && sp > 0 && enc is None && !sa {
        let v = u.skip(7);
        let x = v.skip(eq_at(v).unwrap_or(0));
        let n = sp + 1 + 7 + eq_at(v).unwrap_or(0) + quoted_len(x);
        if starts_with(u, "ncoding".spec_bytes()) && eq_at(v) is Some && literal_len(x) is Some && 0
            < n <= s.len() {
            match decl_tail(s.skip(n), Some(quoted_body(x)), sa) {
                Some((m, e)) => Some((n + m, e)),
                None => None,
            }
        } else {
            None
        }
    } else if s[sp] == 0x73 && sp > 0 && !sa {
        let v = u.skip(9);
        let x = v.skip(eq_at(v).unwrap_or(0));
        let n = sp + 1 + 9 + eq_at(v).unwrap_or(0) + quoted_len(x);
        if starts_with(u, "tandalone".spec_bytes()) && eq_at(v) is Some && yesno_at(x) && 0 < n
            <= s.len() {
            match decl_tail(s.skip(n), enc, true) {
                Some((m, e)) => Some((n + m, e)),
                None => None,
            }
        } else {
            None
        }
    } else if s[sp] == 0x3F {
        if u.len() > 0 && u[0] == 0x3E {
            Some((sp + 2, enc))
        } else {
            None
        }
    } else {
        None
    }
}

proof fn lemma_decl_tail_unfold(s: Seq<u8>, enc: Option<Seq<u8>>, sa: bool)
    ensures
        decl_tail(s, enc, sa) == decl_step(s, enc, sa),
{
    reveal(decl_tail);
}

/// An XML declaration at the start of `s` (after `<?xml`), as far as its
/// grammar goes: how many bytes it takes, and the encoding name's bytes if
/// one was given.
///
/// ```text
/// XMLDecl       ::=  '<?xml' VersionInfo EncodingDecl? SDDecl? S? '?>'
/// VersionInfo   ::=  S 'version' Eq VersLiteral
/// ```
#[verifier::opaque]
pub open spec fn xml_decl_of(s: Seq<u8>) -> Option<(int, Option<Seq<u8>>)> {
    let w = space_run(s) as int;
    let t1 = s.skip(w + 7);
    let t2 = t1.skip(eq_at(t1).unwrap_or(0));
    let n = w + 7 + eq_at(t1).unwrap_or(0) + quoted_len(t2);
    if 0 < w < s.len() && starts_with(s.skip(w), "version".spec_bytes()) && eq_at(t1) is Some
        && version_at(t2) && n <= s.len() {
        match decl_tail(s.skip(n), None, false) {
            Some((m, e)) => Some((n + m, e)),
            None => None,
        }
    } else {
        None
    }
}

/// Whether the XML declaration at the start of `s` is accepted: it follows
/// the grammar, and its encoding, if any, is UTF-8.
pub open spec fn xml_decl_accepts(s: Seq<u8>) -> bool {
    xml_decl_of(s) matches Some((_, e)) && (e is None || names_utf8(e.unwrap()))
}

/// Whether the XML declaration at the start of `s` follows the grammar but
/// names an encoding other than UTF-8.
pub open spec fn decl_encoding_unsupported(s: Seq<u8>) -> bool {
    xml_decl_of(s) matches Some((_, e)) && e is Some && !names_utf8(e.unwrap())
}


impl Parser {
    /// Reads `ncoding`, `Eq` and the quoted encoding name, after the `e`
    /// of `encoding`.
    fn decl_encoding(&mut self) -> (r: Result<String>)
        requires
            old(self).reader_ok(),
        ensures
            r matches Err(e) ==> is_grammar_error(e),
            final(self).same_frame(*old(self)),
            final(self).stream().len() <= old(self).stream().len(),
            ({
                let u = old(self).stream();
                let v = u.skip(7);
                let x = v.skip(eq_at(v).unwrap_or(0));
                &&& r is Ok <==> starts_with(u, "ncoding".spec_bytes()) && eq_at(v) is Some
                    && literal_len(x) is Some
                &&& r matches Ok(e) ==> encode_utf8(e@) == quoted_body(x) && final(self).stream()
                    == x.skip(quoted_len(x)) && 0 <= eq_at(v).unwrap() <= v.len() && 0 < quoted_len(x)
                    <= x.len() && u.len() >= 7
            }),
    {
        let ghost u = self.stream();
        proof {
            reveal_strlit("ncoding");
            assert("ncoding"@.len() == 7);
            vstd::utf8::is_ascii_chars_encode_utf8("ncoding"@);
            assert("ncoding".spec_bytes().len() == 7);
        }
        if !self.expect_str("ncoding")? {
            return Err(Error::MalformedXmlDecl);
        }
        proof {
            super::lex::lemma_common_len(u, "ncoding".spec_bytes());
        }
        let ghost v = self.stream();
        assert(v =~= u.skip(7));
        proof {
            super::lex::lemma_space_run(v);
            if space_run(v) < v.len() {
                super::lex::lemma_space_run(v.skip(space_run(v) + 1 as int));
            }
        }
        self.equals()?;
        let ghost x = self.stream();
        assert(x == v.skip(eq_at(v).unwrap()));
        let e = self.system_literal()?;
        proof {
            decode_utf8_encode_utf8(quoted_body(x));
        }
        Ok(e)
    }

    /// Reads `tandalone`, `Eq` and a quoted `yes` or `no`, after the `s` of
    /// `standalone`.
    fn decl_standalone(&mut self) -> (r: Result<bool>)
        requires
            old(self).reader_ok(),
        ensures
            r matches Err(e) ==> is_grammar_error(e),
            final(self).same_frame(*old(self)),
            final(self).stream().len() <= old(self).stream().len(),
            ({
                let u = old(self).stream();
                let v = u.skip(9);
                let x = v.skip(eq_at(v).unwrap_or(0));
                &&& r is Ok <==> starts_with(u, "tandalone".spec_bytes()) && eq_at(v) is Some
                    && yesno_at(x)
                &&& r is Ok ==> final(self).stream() == x.skip(quoted_len(x)) && 0 <= eq_at(
                    v,
                ).unwrap() <= v.len() && 0 < quoted_len(x) <= x.len() && u.len() >= 9
            }),
    {
        let ghost u = self.stream();
        proof {
            reveal_strlit("tandalone");
            assert("tandalone"@.len() == 9);
            vstd::utf8::is_ascii_chars_encode_utf8("tandalone"@);
            assert("tandalone".spec_bytes().len() == 9);
        }
        if !self.expect_str("tandalone")? {
            return Err(Error::MalformedXmlDecl);
        }
        proof {
            super::lex::lemma_common_len(u, "tandalone".spec_bytes());
        }
        let ghost v = self.stream();
        assert(v =~= u.skip(9));
        proof {
            super::lex::lemma_space_run(v);
            if space_run(v) < v.len() {
                super::lex::lemma_space_run(v.skip(space_run(v) + 1 as int));
            }
        }
        self.equals()?;
        let ghost x = self.stream();
        assert(x == v.skip(eq_at(v).unwrap()));
        self.yesno_literal()
    }
}

/// Whether the processing-instruction target at the start of `s` (after
/// `<?`) is reserved: a name that begins with any casing of `xml`.
pub open spec fn reserved_at(s: Seq<u8>) -> bool {
    let k = name_run(s) as int;
    let n = super::lex::text_of(s.take(k));
    0 < k < s.len() && n is Some && Parser::reserved_target(n.unwrap())
}

/// Whether `s` starts with `<?` and the target name `xml`.
pub open spec fn starts_decl(s: Seq<u8>) -> bool {
    let u = s.skip(2);
    let k = name_run(u) as int;
    s.len() >= 2 && s[0] == 0x3C && s[1] == 0x3F && 0 < k < u.len() && super::lex::text_of(u.take(k))
        == Some("xml"@)
}

impl Parser {
    /// Reads an XML declaration if the input starts with one, and leaves the
    /// input as it is otherwise.
    pub(crate) fn skip_xml_decl(&mut self) -> (r: Result<()>)
        requires
            old(self).reader_ok(),
        ensures
            r matches Err(e) ==> is_grammar_error(e),
            final(self).same_frame(*old(self)),
            final(self).stream().len() <= old(self).stream().len(),
            !starts_decl(old(self).stream()) && r is Ok ==> final(self).stream() == old(self).stream(),
            !starts_decl(old(self).stream()) && r is Err ==> ({
                let s = old(self).stream();
                let u = s.skip(2);
                let k = name_run(u) as int;
                s.len() >= 2 && s[0] == 0x3C && s[1] == 0x3F && !(0 < k < u.len()
                    && super::lex::text_of(u.take(k)) is Some)
            }),
            starts_decl(old(self).stream()) ==> ({
                let s = old(self).stream();
                &&& r is Ok <==> xml_decl_accepts(s.skip(5))
                &&& r is Ok ==> final(self).stream() == s.skip(5 + xml_decl_of(s.skip(5)).unwrap().0)
                &&& decl_encoding_unsupported(s.skip(5)) ==> (r matches Err(Error::UnsupportedEncoding))
            }),
    {
        let ghost s = self.stream();
        let b0 = match self.next_byte() {
            Ok(b) => b,
            Err(_) => {
                return Ok(());
            },
        };
        if b0 != 0x3C {
            self.unget_byte(b0);
            assert(self.stream() =~= s);
            return Ok(());
        }
        let b1 = match self.next_byte() {
            Ok(b) => b,
            Err(_) => {
                self.unget_byte(b0);
                assert(self.stream() =~= s);
                return Ok(());
            },
        };
        if b1 != 0x3F {
            self.unget_byte(b1);
            self.unget_byte(b0);
            assert(self.stream() =~= s);
            return Ok(());
        }
        let ghost u = self.stream();
        assert(u =~= s.skip(2));
        let name = self.name()?;
        proof {
            super::lex::lemma_name_run(u);
            decode_utf8_encode_utf8(u.take(name_run(u) as int));
        }
        let ghost k = name_run(u) as int;
        if name_is(&name, "xml") {
            proof {
                reveal_strlit("xml");
                assert("xml"@.len() == 3);
                vstd::utf8::is_ascii_chars_encode_utf8("xml"@);
                encode_utf8_decode_utf8("xml"@);
                assert(k == 3);
                assert(self.stream() =~= s.skip(5));
            }
            self.xml_decl()?;
            proof {
                assert(s.skip(5).skip(xml_decl_of(s.skip(5)).unwrap().0) =~= s.skip(
                    5 + xml_decl_of(s.skip(5)).unwrap().0,
                ));
            }
            return Ok(());
        }
        let mut back: Vec<u8> = Vec::new();
        back.push(b0);
        back.push(b1);
        let nb = name.as_str().as_bytes();
        let mut i: usize = 0;
        while i < nb.len()
            invariant
                i <= nb@.len(),
                back@ == seq![b0, b1] + nb@.take(i as int),
            decreases nb.len() - i,
        {
            back.push(nb[i]);
            i = i + 1;
            assert(back@ =~= seq![b0, b1] + nb@.take(i as int));
        }
        assert(nb@.take(i as int) =~= nb@);
        assert(back@ =~= s.take(2 + k));
        self.bytes_unget(&back);
        assert(self.stream() =~= s);
        Ok(())
    }
}

} // verus!
