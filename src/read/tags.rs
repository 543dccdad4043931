//! Grammar productions for tags and attributes.
use vstd::prelude::*;
use vstd::string::*;
use vstd::utf8::*;

use super::lex::{name_run, space_run};
use super::text::{lemma_text_run_len, text_run, TextMode};
use super::{is_grammar_error, Parser, RawToken};
use crate::xml::{self, Error, Result};

verus! {

/// The rest of a start tag after its name, in `s`: its attributes as name
/// and value, how many bytes it takes, and whether it closes itself (`/>`).
#[verifier::opaque]
pub open spec fn tag_rest(s: Seq<u8>) -> Option<(Seq<(Seq<char>, Seq<char>)>, int, bool)>
    decreases s.len(),
{
    let w = space_run(s) as int;
    if w >= s.len() {
        None
    } else if s[w] == 0x2F {
        if w + 1 < s.len() && s[w + 1] == 0x3E {
            Some((Seq::empty(), w + 2, true))
        } else {
            None
        }
    } else if s[w] == 0x3E {
        Some((Seq::empty(), w + 1, false))
    } else if w > 0 && attr_of(s.skip(w)) is Some {
        let (n, v, c) = attr_of(s.skip(w)).unwrap();
        if 0 < c && w + c <= s.len() {
            match tag_rest(s.skip(w + c)) {
                Some((rest, d, close)) => Some((seq![(n, v)] + rest, w + c + d, close)),
                None => None,
            }
        } else {
            None
        }
    } else {
        None
    }
}

/// `o` after the attributes `prefix` and `d` more bytes.
pub open spec fn with_attrs(
    prefix: Seq<(Seq<char>, Seq<char>)>,
    d: int,
    o: Option<(Seq<(Seq<char>, Seq<char>)>, int, bool)>,
) -> Option<(Seq<(Seq<char>, Seq<char>)>, int, bool)> {
    match o {
        Some((rest, c, close)) => Some((prefix + rest, c + d, close)),
        None => None,
    }
}

/// The attributes as name and value.
pub open spec fn attr_views(attrs: Seq<xml::Attr>) -> Seq<(Seq<char>, Seq<char>)> {
    attrs.map_values(|a: xml::Attr| (a.name@, a.value@))
}

pub(crate) proof fn lemma_attr_len(s: Seq<u8>)
    ensures
        attr_of(s) matches Some((n, v, c)) ==> 0 < c <= s.len(),
{
    let k = name_run(s);
    super::lex::lemma_name_run(s);
    let t = s.skip(k as int);
    super::lex::lemma_space_run(t);
    if space_run(t) < t.len() {
        super::lex::lemma_space_run(t.skip(space_run(t) + 1 as int));
    }
    if eq_at(t) is Some {
        lemma_text_run_len(t.skip(eq_at(t).unwrap()), TextMode::AttValue);
    }
}

/// Which error a start tag's rest at `s` (after its name) runs into, if
/// the attributes before it are well formed: 1 where an attribute does not
/// follow whitespace, 2 where `/` is not followed by `>`, 0 otherwise.
#[verifier::opaque]
pub open spec fn tag_fault(s: Seq<u8>) -> int
    decreases s.len(),
{
    let w = space_run(s) as int;
    if w >= s.len() {
        0
    } else if s[w] == 0x2F {
        if w + 1 < s.len() && s[w + 1] != 0x3E {
            2
        } else {
            0
        }
    } else if s[w] == 0x3E {
        0
    } else if w == 0 {
        1
    } else if attr_of(s.skip(w)) matches Some((_, _, c)) && 0 < c && w + c <= s.len() {
        tag_fault(s.skip(w + attr_of(s.skip(w)).unwrap().2))
    } else {
        0
    }
}

proof fn lemma_tag_fault_step(s: Seq<u8>)
    ensures
        ({
            let w = space_run(s) as int;
            &&& w < s.len() && s[w] == 0x2F && w + 1 < s.len() && s[w + 1] != 0x3E ==> tag_fault(s) == 2
            &&& w < s.len() && s[w] == 0x2F && !(w + 1 < s.len() && s[w + 1] != 0x3E) ==> tag_fault(s) == 0
            &&& w >= s.len() ==> tag_fault(s) == 0
            &&& w < s.len() && s[w] == 0x3E ==> tag_fault(s) == 0
            &&& w < s.len() && s[w] != 0x2F && s[w] != 0x3E && w == 0 ==> tag_fault(s) == 1
            &&& w < s.len() && s[w] != 0x2F && s[w] != 0x3E && w > 0 ==> tag_fault(s) == if attr_of(s.skip(w)) matches Some((_, _, c)) && 0 < c && w + c <= s.len() {
                tag_fault(s.skip(w + attr_of(s.skip(w)).unwrap().2))
            } else {
                0
            }
        }),
{
    reveal(tag_fault);
}

pub(crate) proof fn lemma_tag_rest_step(s: Seq<u8>)
    ensures
        ({
            let w = space_run(s) as int;
            &&& w >= s.len() ==> tag_rest(s) is None
            &&& w < s.len() && s[w] == 0x2F ==> tag_rest(s) == if w + 1 < s.len() && s[w + 1]
                == 0x3E {
                Some((Seq::<(Seq<char>, Seq<char>)>::empty(), w + 2, true))
            } else {
                None
            }
            &&& w < s.len() && s[w] == 0x3E ==> tag_rest(s) == Some(
                (Seq::<(Seq<char>, Seq<char>)>::empty(), w + 1, false),
            )
            &&& w < s.len() && s[w] != 0x2F && s[w] != 0x3E && (w == 0 || attr_of(s.skip(w)) is None)
                ==> tag_rest(s) is None
            &&& w < s.len() && s[w] != 0x2F && s[w] != 0x3E && w > 0 && attr_of(s.skip(w)) is Some
                ==> ({
                let (n, v, c) = attr_of(s.skip(w)).unwrap();
                tag_rest(s) == with_attrs(seq![(n, v)], w + c, tag_rest(s.skip(w + c)))
            })
        }),
{
    reveal(tag_rest);
    let w = space_run(s) as int;
    super::lex::lemma_space_run(s);
    if w < s.len() && w > 0 && attr_of(s.skip(w)) is Some {
        lemma_attr_len(s.skip(w));
    }
}

impl Parser {
    /// Reads a start tag or an empty-element tag. An empty-element tag
    /// schedules its end tag for the next read.
    ///
    /// Expects `<` to have been read.
    ///
    /// ```text
    /// EmptyElemTag  ::=  '<' Name (S Attribute)* S? '/>'
    /// STag          ::=  '<' Name (S Attribute)* S? '>'
    /// ```
    #[verifier::rlimit(60)]
    #[verifier::spinoff_prover]
    pub(crate) fn start_tag(&mut self) -> (r: Result<RawToken>)
        requires
            old(self).reader_ok(),
            old(self).closing() is None,
        ensures
            r matches Err(e) ==> is_grammar_error(e),
            final(self).same_structure(*old(self)),
            final(self).stream().len() <= old(self).stream().len(),
            r is Ok ==> final(self).stream().len() < old(self).stream().len(),
            r matches Ok(t) ==> t is StartTag,
            r is Ok && final(self).closing() is None ==> final(self).same_frame(*old(self)),
            r is Err ==> final(self).closing() == old(self).closing(),
            ({
                let s = old(self).stream();
                let k = name_run(s);
                let rest = tag_rest(s.skip(k as int));
                &&& r is Ok <==> 0 < k < s.len() && super::lex::text_of(s.take(k as int)) is Some
                    && rest is Some
                &&& 0 < k < s.len() && super::lex::text_of(s.take(k as int)) is Some && tag_fault(
                    s.skip(k as int),
                ) == 1 ==> (r matches Err(Error::MalformedStartTag))
                &&& 0 < k < s.len() && super::lex::text_of(s.take(k as int)) is Some && tag_fault(
                    s.skip(k as int),
                ) == 2 ==> (r matches Err(Error::MalformedEmptyElemTag))
                &&& r matches Ok(RawToken::StartTag(st)) ==> ({
                    let (attrs, c, close) = rest.unwrap();
                    &&& super::lex::text_of(s.take(k as int)) == Some(st.name@)
                    &&& attr_views(st.attrs@) == attrs
                    &&& final(self).stream() == s.skip(k + c)
                    &&& 0 <= k + c <= s.len()
                    &&& final(self).closing() == if close {
                        Some(st.name@)
                    } else {
                        None
                    }
                })
            }),
    {
        let ghost s = self.stream();
        let name = self.name()?;
        let ghost k = name_run(s);
        let ghost s1 = self.stream();
        proof {
            super::lex::lemma_name_run(s);
        }
        let mut attrs: Vec<xml::Attr> = Vec::new();
        let mut closes = false;
        let ghost mut done: int = 0;
        loop
            invariant_except_break
                self.stream() == s1.skip(done),
                tag_rest(s1) == with_attrs(attr_views(attrs@), done, tag_rest(self.stream())),
                tag_fault(s1) == tag_fault(self.stream()),
                !closes,
            invariant
                self.same_frame(*old(self)),
                s == old(self).stream(),
                k == name_run(s),
                0 < k < s.len(),
                super::lex::text_of(s.take(k as int)) == Some(name@),
                s1 == s.skip(k as int),
                0 <= done <= s1.len(),
                self.stream().len() <= s1.len(),
            ensures
                self.same_frame(*old(self)),
                s == old(self).stream(),
                k == name_run(s),
                0 < k < s.len(),
                super::lex::text_of(s.take(k as int)) == Some(name@),
                s1 == s.skip(k as int),
                0 < done <= s1.len(),
                self.stream() == s1.skip(done),
                tag_rest(s1) == Some((attr_views(attrs@), done, closes)),
                tag_fault(s1) == 0,
            decreases self.stream().len(),
        {
            let ghost cur = self.stream();
            proof {
                lemma_tag_rest_step(cur);
                lemma_tag_fault_step(cur);
                super::lex::lemma_space_run(cur);
            }
            let sp = self.whitespace()?;
            let ghost w = space_run(cur) as int;
            let b = self.next_byte()?;
            if b == 0x2F {
                if !self.next_byte_is(0x3E)? {
                    return Err(Error::MalformedEmptyElemTag);
                }
                closes = true;
                proof {
                    assert(self.stream() =~= s1.skip(done + w + 2));
                    assert(attr_views(attrs@) + Seq::empty() =~= attr_views(attrs@));
                    done = done + w + 2;
                }
                break ;
            } else if b == 0x3E {
                proof {
                    assert(self.stream() =~= s1.skip(done + w + 1));
                    assert(attr_views(attrs@) + Seq::empty() =~= attr_views(attrs@));
                    done = done + w + 1;
                }
                break ;
            } else if sp {
                self.unget_byte(b);
                assert(self.stream() =~= cur.skip(w));
                let ghost before = attrs@;
                let a = self.attr()?;
                proof {
                    lemma_attr_len(cur.skip(w));
                }
                let ghost c = attr_of(cur.skip(w)).unwrap().2;
                attrs.push(a);
                proof {
                    assert(attr_views(attrs@) =~= attr_views(before) + seq![(a.name@, a.value@)]);
                    assert(self.stream() =~= s1.skip(done + w + c));
                    assert(cur.skip(w + c) =~= self.stream());
                    let t = tag_rest(self.stream());
                    if let Some((rest, d, close)) = t {
                        assert(attr_views(attrs@) + rest =~= attr_views(before) + (seq![(a.name@, a.value@)] + rest));
                    }
                    done = done + w + c;
                }
            } else {
                return Err(Error::MalformedStartTag);
            }
        }
        if closes {
            self.auto_close = Some(name.clone());
        }
        proof {
            assert(s.skip(k as int).skip(done) =~= s.skip(k + done));
        }
        Ok(RawToken::StartTag(xml::StartTag { name, attrs }))
    }

    /// Reads an end tag.
    ///
    /// Expects `</` to have been read.
    ///
    /// `ETag ::= '</' Name S? '>'`
    pub(crate) fn end_tag(&mut self) -> (r: Result<RawToken>)
        requires
            old(self).reader_ok(),
        ensures
            r matches Err(e) ==> is_grammar_error(e),
            final(self).same_frame(*old(self)),
            final(self).stream().len() <= old(self).stream().len(),
            r is Ok <==> end_tag_of(old(self).stream()) is Some,
            r matches Ok(RawToken::EndTag(n)) ==> ({
                let (m, c) = end_tag_of(old(self).stream()).unwrap();
                m == n@ && final(self).stream() == old(self).stream().skip(c)
            }),
            r matches Ok(t) ==> t is EndTag,
    {
        let ghost s = self.stream();
        let name = self.name()?;
        let ghost t = self.stream();
        proof {
            super::lex::lemma_space_run(t);
            super::lex::lemma_name_run(s);
        }
        self.whitespace()?;
        if !self.next_byte_is(0x3E)? {
            return Err(Error::MalformedEndTag);
        }
        assert(self.stream() =~= t.skip(space_run(t) + 1 as int));
        assert(s.skip(name_run(s) as int).skip(space_run(t) + 1 as int) =~= s.skip(
            name_run(s) + space_run(t) + 1 as int,
        ));
        Ok(RawToken::EndTag(name))
    }

    /// Reads an attribute.
    ///
    /// `Attribute ::= Name Eq AttValue`
    pub(crate) fn attr(&mut self) -> (r: Result<xml::Attr>)
        requires
            old(self).reader_ok(),
        ensures
            r matches Err(e) ==> is_grammar_error(e),
            final(self).same_frame(*old(self)),
            final(self).stream().len() <= old(self).stream().len(),
            r is Ok ==> final(self).stream().len() < old(self).stream().len(),
            r is Ok <==> attr_of(old(self).stream()) is Some,
            r matches Ok(a) ==> ({
                let (n, v, c) = attr_of(old(self).stream()).unwrap();
                a.name@ == n && a.value@ == v && final(self).stream() == old(self).stream().skip(c)
            }),
    {
        let ghost s = self.stream();
        let name = self.name()?;
        let ghost k = name_run(s);
        let ghost t = self.stream();
        self.equals()?;
        let ghost u = self.stream();
        let ghost e = eq_at(t).unwrap();
        proof {
            super::lex::lemma_name_run(s);
            super::lex::lemma_space_run(t);
            super::lex::lemma_space_run(t.skip(space_run(t) + 1 as int));
        }
        assert(u == t.skip(e));
        assert(0 <= e <= t.len());
        let value = self.expanded_text(TextMode::AttValue)?;
        proof {
            let c = text_run(u, TextMode::AttValue).unwrap().1;
            assert(0 <= c <= u.len()) by {
                lemma_text_run_len(u, TextMode::AttValue);
            }
            assert(s.skip(k as int).skip(e).skip(c) =~= s.skip(k + e + c));
        }
        Ok(xml::Attr { name, value })
    }
}

/// The end tag at the start of `s` (after `</`): its name, and how many
/// bytes it takes.
pub open spec fn end_tag_of(s: Seq<u8>) -> Option<(Seq<char>, int)> {
    let k = name_run(s);
    let n = super::lex::text_of(s.take(k as int));
    let t = s.skip(k as int);
    let w = space_run(t);
    if 0 < k < s.len() && n is Some && w < t.len() && t[w as int] == 0x3E {
        Some((n.unwrap(), k + w + 1 as int))
    } else {
        None
    }
}

/// The start tag at the start of `s` (after `<`): its name, its
/// attributes, how many bytes it takes, and whether it closes itself.
pub open spec fn start_tag_of(s: Seq<u8>) -> Option<(Seq<char>, Seq<(Seq<char>, Seq<char>)>, int, bool)> {
    let k = name_run(s);
    let n = super::lex::text_of(s.take(k as int));
    let rest = tag_rest(s.skip(k as int));
    if 0 < k < s.len() && n is Some && rest is Some {
        let (attrs, c, close) = rest.unwrap();
        Some((n.unwrap(), attrs, k + c, close))
    } else {
        None
    }
}

/// The `Eq` production at the start of `s`: how many bytes it takes.
pub open spec fn eq_at(s: Seq<u8>) -> Option<int> {
    let k = space_run(s);
    let t = s.skip(k + 1 as int);
    if k < s.len() && s[k as int] == 0x3D && space_run(t) < t.len() {
        Some(k + 1 + space_run(t) as int)
    } else {
        None
    }
}

/// The attribute at the start of `s`: its name, its expanded value, and how
/// many bytes it takes.
pub open spec fn attr_of(s: Seq<u8>) -> Option<(Seq<char>, Seq<char>, int)> {
    let k = name_run(s);
    let n = super::lex::text_of(s.take(k as int));
    let t = s.skip(k as int);
    if 0 < k < s.len() && n is Some && eq_at(t) is Some {
        let e = eq_at(t).unwrap();
        let u = t.skip(e);
        let v = text_run(u, TextMode::AttValue);
        if v is Some && super::lex::text_of(v.unwrap().0) is Some {
            Some((n.unwrap(), super::lex::text_of(v.unwrap().0).unwrap(), k + e + v.unwrap().1))
        } else {
            None
        }
    } else {
        None
    }
}

} // verus!
