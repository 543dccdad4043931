//! The XML parser: grammar productions over a [`Bytes`] stream and the
//! document state machine that checks what may come where.
use vstd::prelude::*;

pub mod bytes;
mod lex;
mod literal;
mod markup;
mod tags;
mod text;
mod doctype;

pub use bytes::Bytes;

use crate::xml::{self, Error, Feature, Token};
use lex::{space_run, text_of};
use markup::{
    comment_len, doctype_external, doctype_of, pi_of, reserved_at, starts_decl, xml_decl_accepts,
    xml_decl_of,
};
use tags::{attr_views, end_tag_of, start_tag_of};
use text::{cdata_of, text_run, TextMode};

verus! {

/// The structural position of the parser in the document.
#[derive(PartialEq, Eq, Structural, Clone, Copy)]
pub(crate) enum State {
    /// The very beginning of the document.
    Begin,
    /// The prolog, before the root element.
    Prologue,
    /// Inside the internal subset of a DOCTYPE declaration.
    InternalDoctype,
    /// Inside the root element.
    Normal,
    /// After the root element.
    Epilogue,
    /// After a valid end of input.
    End,
}

/// Declarations seen in a DOCTYPE and in its internal subset.
#[derive(Debug, PartialEq, Eq, Structural, Clone, Copy)]
pub enum Doctype {
    /// A DOCTYPE declaration; the flag tells whether an internal subset
    /// follows.
    DoctypeDecl(bool),
    EntityDecl,
    ElementDecl,
    AttlistDecl,
    NotationDecl,
    /// The end of the internal subset.
    InternalEnd,
}

/// Raw tokens, before the state machine checks them against the structure.
pub(crate) enum RawToken {
    XmlDecl,
    Comment,
    ProcInst(xml::ProcInst),
    DoctypeDef(Doctype),
    StartTag(xml::StartTag),
    EndTag(String),
    CharData(String),
}

/// The XML parser over one input.
///
/// Entity references expand to the five predefined entities only: the
/// parser keeps no table of custom entities. Expanding such an entity means
/// reading its replacement text again, and a table whose entries refer to
/// each other would never finish; declarations in the internal subset are
/// checked but not recorded.
pub struct Parser {
    bytes: Bytes,
    state: State,
    /// the names of the open elements, innermost last
    tags: Vec<String>,
    /// the name of an empty-element tag still to be closed
    auto_close: Option<String>,
}

/// An error that a grammar production may raise: any but the structural
/// ones, which only the state machine raises.
pub open spec fn is_grammar_error(e: Error) -> bool {
    !(e is MismatchingStartEndTags) && !(e is UnexpectedToken)
}

/// Where the next token of the prolog (`doctypes`) or of the epilog starts
/// in `s`: whitespace, comments and, in the prolog, DOCTYPE declarations
/// without an internal subset are passed over; at the end of the input it
/// is `s.len()`. `None` where one of the passed-over items is malformed.
#[verifier::opaque]
pub open spec fn misc_next(s: Seq<u8>, doctypes: bool) -> Option<int>
    decreases s.len(),
{
    let w = space_run(s) as int;
    let t = s.skip(w);
    if w >= s.len() {
        Some(s.len() as int)
    } else if t.len() >= 3 && t[0] == 0x3C && t[1] == 0x21 && t[2] == 0x2D {
        match comment_len(t.skip(3)) {
            Some(c) => if 0 <= c && 3 + c <= t.len() {
                match misc_next(t.skip(3 + c), doctypes) {
                    Some(m) => Some(w + 3 + c + m),
                    None => None,
                }
            } else {
                None
            },
            None => None,
        }
    } else if doctypes && t.len() >= 3 && t[0] == 0x3C && t[1] == 0x21 && t[2] != 0x2D && t[2] != 0x5B {
        match doctype_of(t.skip(2)) {
            Some((false, c)) => if 0 <= c && 2 + c <= t.len() {
                match misc_next(t.skip(2 + c), doctypes) {
                    Some(m) => Some(w + 2 + c + m),
                    None => None,
                }
            } else {
                None
            },
            Some((true, _)) => Some(w),
            None => None,
        }
    } else {
        Some(w)
    }
}

/// One step of `misc_next`.
pub open spec fn misc_step(s: Seq<u8>, doctypes: bool) -> Option<int> {
    let w = space_run(s) as int;
    let t = s.skip(w);
    if w >= s.len() {
        Some(s.len() as int)
    } else if t.len() >= 3 && t[0] == 0x3C && t[1] == 0x21 && t[2] == 0x2D {
        match comment_len(t.skip(3)) {
            Some(c) => if 0 <= c && 3 + c <= t.len() {
                match misc_next(t.skip(3 + c), doctypes) {
                    Some(m) => Some(w + 3 + c + m),
                    None => None,
                }
            } else {
                None
            },
            None => None,
        }
    } else if doctypes && t.len() >= 3 && t[0] == 0x3C && t[1] == 0x21 && t[2] != 0x2D && t[2] != 0x5B {
        match doctype_of(t.skip(2)) {
            Some((false, c)) => if 0 <= c && 2 + c <= t.len() {
                match misc_next(t.skip(2 + c), doctypes) {
                    Some(m) => Some(w + 2 + c + m),
                    None => None,
                }
            } else {
                None
            },
            Some((true, _)) => Some(w),
            None => None,
        }
    } else {
        Some(w)
    }
}

proof fn lemma_misc_next_unfold(s: Seq<u8>, doctypes: bool)
    ensures
        misc_next(s, doctypes) == misc_step(s, doctypes),
{
    reveal(misc_next);
}

proof fn lemma_misc_next_len(s: Seq<u8>, doctypes: bool)
    ensures
        misc_next(s, doctypes) matches Some(k) ==> 0 <= k <= s.len(),
    decreases s.len(),
{
    lemma_misc_next_unfold(s, doctypes);
    lex::lemma_space_run(s);
    let w = space_run(s) as int;
    let t = s.skip(w);
    if w < s.len() {
        if t.len() >= 3 && t[0] == 0x3C && t[1] == 0x21 && t[2] == 0x2D {
            if let Some(c) = comment_len(t.skip(3)) {
                if 0 <= c && 3 + c <= t.len() {
                    lemma_misc_next_len(t.skip(3 + c), doctypes);
                }
            }
        } else if doctypes && t.len() >= 3 && t[0] == 0x3C && t[1] == 0x21 && t[2] != 0x2D && t[2]
            != 0x5B {
            if let Some((f, c)) = doctype_of(t.skip(2)) {
                if !f && 0 <= c && 2 + c <= t.len() {
                    lemma_misc_next_len(t.skip(2 + c), doctypes);
                }
            }
        }
    }
}

/// Whether `t` is not the start of a DOCTYPE declaration.
pub open spec fn not_doctype(t: Seq<u8>) -> bool {
    !(t.len() >= 3 && t[0] == 0x3C && t[1] == 0x21 && t[2] != 0x2D && t[2] != 0x5B)
}

/// Whether a byte order mark at the start of `s`, if any, is the UTF-8 one.
pub open spec fn mark_ok(s: Seq<u8>) -> bool {
    s.len() == 0 || (s[0] != 0x00 && s[0] != 0xFE && s[0] != 0xFF && (s[0] != 0xEF || (s.len()
        >= 3 && s[1] == 0xBB && s[2] == 0xBF)))
}

/// `s` without a UTF-8 byte order mark.
pub open spec fn after_mark(s: Seq<u8>) -> Seq<u8> {
    if s.len() >= 3 && s[0] == 0xEF && s[1] == 0xBB && s[2] == 0xBF {
        s.skip(3)
    } else {
        s
    }
}

/// The input of a document from which its prolog is read: after the byte
/// order mark and after an accepted XML declaration.
pub open spec fn prolog_input(s: Seq<u8>) -> Seq<u8> {
    let s0 = after_mark(s);
    if starts_decl(s0) && xml_decl_accepts(s0.skip(5)) {
        s0.skip(5 + xml_decl_of(s0.skip(5)).unwrap().0)
    } else {
        s0
    }
}

/// Whether the start of the document `s` is accepted: a byte order mark, if
/// any, is the UTF-8 one, and an XML declaration, if any, is accepted.
pub open spec fn start_ok(s: Seq<u8>) -> bool {
    mark_ok(s) && (starts_decl(after_mark(s)) ==> xml_decl_accepts(after_mark(s).skip(5)))
}

/// What `token` returns when the next token of the prolog (`prolog`) or of
/// the epilog starts at `t`, and how it leaves the parser (`new`).
pub open spec fn next_at(t: Seq<u8>, new: Parser, r: xml::Result<Token>, prolog: bool) -> bool {
    &&& t.len() == 0 ==> if prolog {
        r matches Err(Error::UnexpectedEof)
    } else {
        (r matches Ok(Token::EndOfFile)) && new.is_done()
    }
    &&& t.len() >= 2 && t[0] == 0x3C && t[1] != 0x2F && t[1] != 0x3F && t[1] != 0x21 ==> if prolog {
        (r is Ok <==> start_tag_of(t.skip(1)) is Some) && match r {
            Ok(Token::StartTag(st)) => start_tag_of(t.skip(1)) matches Some((n, attrs, c, close))
                && n == st.name@ && attrs == attr_views(st.attrs@) && new.in_root()
                && new.open_tags() == seq![n] && new.closing() == (if close {
                Some(n)
            } else {
                None
            }) && new.stream() == t.skip(1 + c),
            _ => true,
        }
    } else {
        start_tag_of(t.skip(1)) is Some ==> (r matches Err(Error::UnexpectedToken))
    }
    &&& t.len() >= 2 && t[0] == 0x3C && t[1] == 0x3F && !reserved_at(t.skip(2)) ==> (r is Ok
        <==> pi_of(t.skip(2)) is Some && text_of(pi_of(t.skip(2)).unwrap().1) is Some) && match r {
        Ok(Token::ProcInst(pi)) => pi_of(t.skip(2)) matches Some((tg, inst, c)) && tg == pi.target@
            && text_of(inst) == Some(pi.inst@) && new.stream() == t.skip(2 + c) && (if prolog {
            new.in_prologue()
        } else {
            new.after_root() && new.closing() is None
        }),
        Ok(_) => false,
        _ => true,
    }
    &&& t.len() >= 2 && t[0] == 0x3C && t[1] == 0x2F && end_tag_of(t.skip(2)) is Some ==> (r matches Err(
        Error::UnexpectedToken,
    ))
    &&& t.len() > 0 && t[0] != 0x3C && text_run(t, TextMode::CharData) is Some && text_of(
        text_run(t, TextMode::CharData).unwrap().0,
    ) is Some ==> (r matches Err(Error::UnexpectedToken))
    &&& t.len() >= 3 && t[0] == 0x3C && t[1] == 0x21 && t[2] == 0x5B && cdata_of(t.skip(3)) is Some
        && text_of(cdata_of(t.skip(3)).unwrap().0) is Some ==> (r matches Err(Error::UnexpectedToken))
}

/// What one call of [`Parser::token`] does in the prolog and in the epilog,
/// going from `old` to `new` and returning `r`: from the start of a
/// document, after an accepted byte order mark and XML declaration, and in
/// the prolog, the next token is read after whitespace, comments and DOCTYPE
/// declarations without an internal subset; in the epilog, after whitespace
/// and comments.
pub open spec fn misc_rules(old: Parser, new: Parser, r: xml::Result<Token>) -> bool {
    let s = old.stream();
    &&& old.at_start() && start_ok(s) ==> match misc_next(prolog_input(s), true) {
        Some(k) => next_at(prolog_input(s).skip(k), new, r, true),
        None => true,
    }
    &&& old.in_prologue() ==> match misc_next(s, true) {
        Some(k) => next_at(s.skip(k), new, r, true),
        None => true,
    }
    &&& old.after_root() && old.closing() is None ==> match misc_next(s, false) {
        Some(k) => next_at(s.skip(k), new, r, false),
        None => true,
    }
}

/// Inside a well-formed parser, the root element is open exactly when some
/// element is open.
pub proof fn lemma_in_root_iff_open(p: Parser)
    requires
        p.wf(),
    ensures
        p.in_root() == (p.open_tags().len() > 0),
{
}

/// How one call of [`Parser::token`] treats the end of the document: from
/// `old` it moves to `new` and returns `r`.
pub open spec fn end_kept(old: Parser, new: Parser, r: xml::Result<Token>) -> bool {
    &&& old.is_done() ==> (r matches Ok(Token::EndOfFile)) && new.is_done()
    &&& (r matches Ok(Token::EndOfFile)) ==> new.is_done()
}

/// Once `EndOfFile` has been returned, every later call of
/// [`Parser::token`] returns `EndOfFile` again: along a run of calls where
/// call `i` takes `states[i]` to `states[i + 1]` and returns `results[i]`,
/// an `EndOfFile` at `k` is followed by nothing else.
pub proof fn lemma_end_of_file_stays(
    states: Seq<Parser>,
    results: Seq<xml::Result<Token>>,
    k: int,
    j: int,
)
    requires
        states.len() == results.len() + 1,
        forall|i: int|
            0 <= i < results.len() ==> end_kept(states[i], states[i + 1], #[trigger] results[i]),
        0 <= k <= j < results.len(),
        results[k] matches Ok(Token::EndOfFile),
    ensures
        results[j] matches Ok(Token::EndOfFile),
        states[j + 1].is_done(),
    decreases j - k,
{
    if j > k {
        lemma_end_of_file_stays(states, results, k, j - 1);
        assert(end_kept(states[j], states[j + 1], results[j]));
    } else {
        assert(end_kept(states[k], states[k + 1], results[k]));
    }
}

/// What one call of [`Parser::token`] does to the open elements inside the
/// root element, going from `old` to `new` and returning `r`: a start tag
/// opens an element (and leaves the empty-element end pending when it reads
/// `/>`), a pending end tag is returned next, and an end tag closes the
/// innermost element.
pub open spec fn root_step(old: Parser, new: Parser, r: xml::Result<Token>) -> bool {
    old.in_root() ==> {
        &&& match r {
            Ok(Token::StartTag(st)) => new.in_root() && new.open_tags() == old.open_tags().push(
                st.name@,
            ),
            Ok(Token::EndTag(m)) => old.open_tags().len() > 0 && m@ == old.open_tags().last()
                && new.open_tags() == old.open_tags().drop_last(),
            _ => true,
        }
        &&& match old.closing() {
            Some(n) => if n == old.open_tags().last() {
                r matches Ok(Token::EndTag(m)) && m@ == n
            } else {
                r matches Err(Error::MismatchingStartEndTags)
            },
            None => true,
        }
        &&& ({
            let s = old.stream();
            old.closing() is None && s.len() >= 2 && s[0] == 0x3C && s[1] != 0x2F && s[1] != 0x3F
                && s[1] != 0x21 ==> match r {
                Ok(Token::StartTag(st)) => start_tag_of(s.skip(1)) matches Some((n, _, _, close))
                    && n == st.name@ && new.closing() == if close {
                    Some(n)
                } else {
                    None
                },
                _ => true,
            }
        })
    }
}

/// An empty-element tag reads as its start tag directly followed by its end
/// tag: inside the root element, once `token` has returned the start tag of
/// `<t .../>`, the next call returns the end tag of `t`, and the open
/// elements are as before the two calls.
pub proof fn lemma_empty_element_closes(
    before: Parser,
    between: Parser,
    start: xml::Result<Token>,
    after: Parser,
    next: xml::Result<Token>,
)
    requires
        root_step(before, between, start),
        root_step(between, after, next),
        before.in_root(),
        before.closing() is None,
        start matches Ok(Token::StartTag(_)),
        before.stream().len() >= 2 && before.stream()[0] == 0x3C && before.stream()[1] != 0x2F
            && before.stream()[1] != 0x3F && before.stream()[1] != 0x21,
        start_tag_of(before.stream().skip(1)) matches Some((_, _, _, close)) && close,
    ensures
        match (start, next) {
            (Ok(Token::StartTag(st)), Ok(Token::EndTag(m))) => m@ == st.name@,
            _ => false,
        },
        after.open_tags() == before.open_tags(),
{
    if let Ok(Token::StartTag(st)) = start {
        assert(between.open_tags().last() == st.name@);
        let n = start_tag_of(before.stream().skip(1)).unwrap().0;
        assert(between.closing() == Some(n));
        assert(before.open_tags().push(st.name@).drop_last() =~= before.open_tags());
    }
}

impl Parser {
    /// The parser's internal invariant: the byte stream is well formed, the
    /// root element is open exactly in the `Normal` state, and nothing is
    /// pending before the document starts.
    pub closed spec fn wf(&self) -> bool {
        &&& self.bytes.wf()
        &&& (self.state == State::Normal) == (self.tags.len() > 0)
        &&& (self.state != State::Normal ==> self.auto_close is None)
    }

    /// The names of the open elements, innermost last.
    pub closed spec fn open_tags(&self) -> Seq<Seq<char>> {
        self.tags@.map_values(|t: String| t@)
    }

    /// Whether the parser has seen the valid end of its input.
    pub closed spec fn is_done(&self) -> bool {
        self.state == State::End
    }

    /// Whether the parser is inside the root element.
    pub closed spec fn in_root(&self) -> bool {
        self.state == State::Normal
    }

    /// Whether the parser is in the prolog, with no token read ahead and no
    /// end tag pending.
    pub closed spec fn in_prologue(&self) -> bool {
        self.state == State::Prologue && self.auto_close is None
    }

    /// Whether the parser is past the root element.
    pub closed spec fn after_root(&self) -> bool {
        self.state == State::Epilogue
    }

    /// Whether the parser has not read anything yet.
    pub closed spec fn at_start(&self) -> bool {
        self.state == State::Begin
    }

    /// The logical bytes still to be read.
    pub closed spec fn stream(&self) -> Seq<u8> {
        self.bytes@
    }

    /// The name of an empty-element tag whose end tag is still to come.
    pub closed spec fn closing(&self) -> Option<Seq<char>> {
        match self.auto_close {
            Some(n) => Some(n@),
            None => None,
        }
    }

    /// Like `same_frame`, but the pending end tag may differ.
    pub closed spec fn same_structure(&self, old: Parser) -> bool {
        &&& self.bytes.wf()
        &&& self.state == old.state
        &&& self.tags == old.tags
    }

    /// The byte stream is well formed.
    pub closed spec fn reader_ok(&self) -> bool {
        self.bytes.wf()
    }

    /// Everything of the parser but its stream is as in `old`.
    pub closed spec fn same_frame(&self, old: Parser) -> bool {
        &&& self.bytes.wf()
        &&& self.state == old.state
        &&& self.tags == old.tags
        &&& self.auto_close == old.auto_close
    }
}

impl Parser {
    /// Creates a parser over the bytes of `reader`.
    pub fn from_reader(reader: &[u8]) -> (r: Parser)
        ensures
            r.wf(),
            r.at_start(),
            r.stream() == bytes::normalize(reader@),
            r.open_tags().len() == 0,
            r.closing() is None,
    {
        let p = Parser {
            bytes: Bytes::from_reader(reader),
            state: State::Begin,
            tags: Vec::new(),
            auto_close: None,
        };
        assert(p.open_tags() =~= Seq::<Seq<char>>::empty());
        p
    }

    /// Returns the next public token.
    ///
    /// Once the input has ended validly this returns `Token::EndOfFile`, and
    /// keeps returning it. After an error the parser must not be used again.
    pub fn token(&mut self) -> (r: xml::Result<Token>)
        requires
            old(self).wf(),
        ensures
            final(self).wf(),
            end_kept(*old(self), *final(self), r),
            root_step(*old(self), *final(self), r),
            misc_rules(*old(self), *final(self), r),
            r matches Ok(Token::EndOfFile) ==> final(self).open_tags().len() == 0,
            r matches Ok(Token::StartTag(s)) ==> final(self).open_tags() == old(self).open_tags().push(
                s.name@,
            ),
            r matches Ok(Token::EndTag(n)) ==> old(self).open_tags().len() > 0
                && old(self).open_tags().last() == n@ && final(self).open_tags() == old(
                self,
            ).open_tags().drop_last(),
            r matches Ok(Token::CharData(_)) ==> final(self).open_tags() == old(self).open_tags(),
            r matches Ok(Token::ProcInst(_)) ==> final(self).open_tags() == old(self).open_tags(),
            r matches Err(Error::MismatchingStartEndTags) ==> old(self).open_tags().len() > 0
                && final(self).open_tags() == old(self).open_tags(),
            old(self).at_start() && old(self).stream().len() > 0 && (old(self).stream()[0] == 0x00
                || old(self).stream()[0] == 0xFE || old(self).stream()[0] == 0xFF) ==> (r matches Err(
                Error::UnsupportedEncoding,
            )),
            old(self).at_start() && old(self).stream().len() >= 2 && old(self).stream()[0] == 0x3C
                && old(self).stream()[1] == 0x21 && doctype_external(old(self).stream().skip(2)) ==> (
            r matches Err(Error::UnsupportedFeature(Feature::ExternalEntities))),
            old(self).in_root() && old(self).closing() is None ==> ({
                let s = old(self).stream();
                let text = text_run(s, TextMode::CharData);
                &&& s.len() > 0 && s[0] != 0x3C ==> (r is Ok <==> text is Some && text_of(
                    text.unwrap().0,
                ) is Some) && (r matches Ok(t) ==> t is CharData) && (r matches Ok(
                    Token::CharData(v),
                ) ==> Some(v@) == text_of(text.unwrap().0) && final(self).stream() == s.skip(
                    text.unwrap().1,
                ) && final(self).in_root() && final(self).closing() is None)
                &&& s.len() >= 3 && s[0] == 0x3C && s[1] == 0x21 && s[2] == 0x5B ==> (r is Ok <==> cdata_of(
                    s.skip(3),
                ) is Some && text_of(cdata_of(s.skip(3)).unwrap().0) is Some) && (r matches Ok(
                    Token::CharData(v),
                ) ==> Some(v@) == text_of(cdata_of(s.skip(3)).unwrap().0) && final(self).stream()
                    == s.skip(3 + cdata_of(s.skip(3)).unwrap().1) && final(self).in_root()
                    && final(self).closing() is None)
                &&& s.len() >= 2 && s[0] == 0x3C && s[1] == 0x2F ==> match end_tag_of(s.skip(2)) {
                    Some((n, c)) => if n == old(self).open_tags().last() {
                        r matches Ok(Token::EndTag(m)) && m@ == n && final(self).stream() == s.skip(
                            2 + c,
                        ) && final(self).closing() is None && (if old(self).open_tags().len() == 1 {
                            final(self).after_root()
                        } else {
                            final(self).in_root()
                        })
                    } else {
                        r matches Err(Error::MismatchingStartEndTags)
                    },
                    None => r is Err,
                }
                &&& s.len() >= 2 && s[0] == 0x3C && s[1] != 0x2F && s[1] != 0x3F && s[1] != 0x21 ==> (
                r is Ok <==> start_tag_of(s.skip(1)) is Some) && (r matches Ok(t) ==> t is StartTag)
                    && (r matches Ok(Token::StartTag(st)) ==> ({
                    let (n, attrs, c, close) = start_tag_of(s.skip(1)).unwrap();
                    n == st.name@ && attrs == attr_views(st.attrs@) && final(self).closing() == (
                    if close {
                        Some(n)
                    } else {
                        None
                    }) && final(self).stream() == s.skip(1 + c) && final(self).in_root()
                }))
            }),
            old(self).in_root() ==> match old(self).closing() {
                Some(n) => if n == old(self).open_tags().last() {
                    r matches Ok(Token::EndTag(m)) && m@ == n
                } else {
                    r matches Err(Error::MismatchingStartEndTags)
                },
                None => true,
            },
    {
        let ghost mut first = true;
        let ghost s0 = old(self).stream();
        let ghost pro_in = if old(self).at_start() {
            prolog_input(s0)
        } else {
            s0
        };
        let ghost pro = (old(self).at_start() && start_ok(s0) && misc_next(pro_in, true) is Some) || (
        old(self).in_prologue() && misc_next(pro_in, true) is Some);
        let ghost pro_t = pro_in.skip(misc_next(pro_in, true).unwrap_or(0));
        let ghost epi = old(self).after_root() && old(self).closing() is None && misc_next(s0, false) is Some;
        let ghost epi_t = s0.skip(misc_next(s0, false).unwrap_or(0));
        loop
            invariant
                s0 == old(self).stream(),
                pro_in == if old(self).at_start() {
                    prolog_input(s0)
                } else {
                    s0
                },
                pro == ((old(self).at_start() && start_ok(s0) && misc_next(pro_in, true) is Some) || (
                old(self).in_prologue() && misc_next(pro_in, true) is Some)),
                pro_t == pro_in.skip(misc_next(pro_in, true).unwrap_or(0)),
                epi == (old(self).after_root() && old(self).closing() is None && misc_next(s0, false) is Some),
                epi_t == s0.skip(misc_next(s0, false).unwrap_or(0)),
                pro && self.state != State::Begin && not_doctype(pro_t) ==> self.state == State::Prologue
                    && self.auto_close is None && (misc_next(self.stream(), true) matches Some(k)
                    && self.stream().skip(k) == pro_t),
                epi ==> self.state == State::Epilogue && self.auto_close is None && (misc_next(
                    self.stream(),
                    false,
                ) matches Some(k) && self.stream().skip(k) == epi_t),
                self.wf(),
                self.tags@ == old(self).tags@,
                old(self).is_done() ==> self.is_done(),
                self.state == State::Begin ==> *self == *old(self),
                first ==> *self == *old(self),
                !first && old(self).in_root() && old(self).closing() is None ==> ({
                    let s = old(self).stream();
                    s.len() >= 3 && s[0] == 0x3C && s[1] == 0x21 && s[2] == 0x2D
                }),
                !first && old(self).in_root() ==> old(self).closing() is None,
                old(self).after_root() ==> self.after_root() || self.is_done(),
                old(self).in_root() ==> self.in_root(),
                self.state != State::Begin && old(self).at_start() && old(self).stream().len() >= 2
                    && old(self).stream()[0] == 0x3C && old(self).stream()[1] == 0x21
                    && doctype_external(old(self).stream().skip(2)) ==> self.state == State::Prologue
                    && self.stream() == old(self).stream() && self.auto_close is None,
                self.state != State::Begin && old(self).at_start() ==> !(old(self).stream().len() > 0
                    && (old(self).stream()[0] == 0x00 || old(self).stream()[0] == 0xFE || old(
                    self,
                ).stream()[0] == 0xFF)),
            decreases
                (if self.state == State::Begin {
                    1int
                } else {
                    0int
                }),
                self.stream().len(),
                (if self.auto_close is Some {
                    1int
                } else {
                    0int
                }),
        {
            match self.state {
                // the byte order mark, and an XML declaration that may only
                // come first, without any space before it
                State::Begin => {
                    proof {
                        let p = prolog_input(self.stream());
                        lemma_misc_next_unfold(p, true);
                        lex::lemma_space_run(p);
                        assert(p.skip(0) =~= p);
                    }
                    self.byte_order_mark()?;
                    self.state = State::Prologue;
                    self.skip_xml_decl()?;
                },
                // the prolog after the XML declaration; space is skipped
                // first so that character data can be rejected here
                State::Prologue => {
                    if let Some(res) = self.prolog_round() {
                        return res;
                    }
                },
                // the internal subset, read with its own grammar
                State::InternalDoctype => {
                    self.whitespace()?;
                    match self.doctype_token()? {
                        RawToken::DoctypeDef(Doctype::InternalEnd) => {
                            self.state = State::Prologue;
                        },
                        RawToken::DoctypeDef(_) => {},
                        RawToken::Comment => {},
                        RawToken::ProcInst(p) => {
                            return Ok(Token::ProcInst(p));
                        },
                        _ => {
                            return Err(Error::UnexpectedToken);
                        },
                    }
                },
                // inside the root element: space is character data now
                State::Normal => {
                    match self.raw_token()? {
                        RawToken::StartTag(s) => {
                            self.tags.push(s.name.clone());
                            assert(self.open_tags() =~= old(self).open_tags().push(s.name@));
                            return Ok(Token::StartTag(s));
                        },
                        RawToken::EndTag(name) => {
                            let n = self.tags.len();
                            if !(self.tags[n - 1] == name) {
                                return Err(Error::MismatchingStartEndTags);
                            }
                            self.tags.pop();
                            assert(self.open_tags() =~= old(self).open_tags().drop_last());
                            if self.tags.len() == 0 {
                                self.state = State::Epilogue;
                            }
                            return Ok(Token::EndTag(name));
                        },
                        RawToken::CharData(d) => {
                            return Ok(Token::CharData(d));
                        },
                        RawToken::Comment => {},
                        RawToken::ProcInst(p) => {
                            return Ok(Token::ProcInst(p));
                        },
                        _ => {
                            return Err(Error::UnexpectedToken);
                        },
                    }
                },
                // after the root element: only space, comments and
                // processing instructions until the input ends
                State::Epilogue => {
                    if let Some(res) = self.epilog_round() {
                        return res;
                    }
                },
                State::End => {
                    return Ok(Token::EndOfFile);
                },
            }
            proof {
                first = false;
            }
        }
    }

    /// Reads one raw token, reading just enough bytes to pick the
    /// production that reads the rest.
    #[verifier::rlimit(100)]
    #[verifier::spinoff_prover]
    fn raw_token(&mut self) -> (r: xml::Result<RawToken>)
        requires
            old(self).reader_ok(),
        ensures
            r matches Err(e) ==> is_grammar_error(e),
            final(self).same_structure(*old(self)),
            final(self).stream().len() <= old(self).stream().len(),
            r is Ok && old(self).closing() is None ==> final(self).stream().len() < old(
                self,
            ).stream().len(),
            old(self).closing() is Some ==> final(self).closing() is None && final(self).stream()
                == old(self).stream() && (r matches Ok(RawToken::EndTag(n)) && Some(n@) == old(
                self,
            ).closing()),
            old(self).closing() is None && final(self).closing() is Some ==> (r matches Ok(
                RawToken::StartTag(_),
            )),
            r matches Ok(RawToken::DoctypeDef(_)) ==> ({
                let s = old(self).stream();
                s.len() >= 3 && s[0] == 0x3C && s[1] == 0x21 && s[2] != 0x2D && s[2] != 0x5B
            }),
            r matches Ok(RawToken::Comment) ==> ({
                let s = old(self).stream();
                s.len() >= 3 && s[0] == 0x3C && s[1] == 0x21 && s[2] == 0x2D
            }),
            old(self).closing() is None ==> ({
                let s = old(self).stream();
                let text = text_run(s, TextMode::CharData);
                &&& s.len() > 0 && s[0] != 0x3C ==> (r is Ok <==> text is Some && text_of(
                    text.unwrap().0,
                ) is Some) && (r matches Ok(t) ==> t is CharData) && (r matches Ok(
                    RawToken::CharData(v),
                ) ==> Some(v@) == text_of(text.unwrap().0) && final(self).stream() == s.skip(
                    text.unwrap().1,
                ))
                &&& s.len() >= 2 && s[0] == 0x3C && s[1] == 0x2F ==> (r is Ok <==> end_tag_of(
                    s.skip(2),
                ) is Some) && (r matches Ok(t) ==> t is EndTag) && (r matches Ok(
                    RawToken::EndTag(n),
                ) ==> end_tag_of(s.skip(2)).unwrap().0 == n@ && final(self).stream() == s.skip(
                    2 + end_tag_of(s.skip(2)).unwrap().1,
                ))
                &&& s.len() >= 2 && s[0] == 0x3C && s[1] != 0x2F && s[1] != 0x3F && s[1] != 0x21 ==> (
                r is Ok <==> start_tag_of(s.skip(1)) is Some) && (r matches Ok(t) ==> t is StartTag)
                    && (r matches Ok(RawToken::StartTag(st)) ==> ({
                    let (n, attrs, c, close) = start_tag_of(s.skip(1)).unwrap();
                    n == st.name@ && attrs == attr_views(st.attrs@) && final(self).closing() == (
                    if close {
                        Some(n)
                    } else {
                        None
                    }) && final(self).stream() == s.skip(1 + c)
                }))
                &&& s.len() >= 2 && s[0] == 0x3C && s[1] == 0x3F ==> (r matches Ok(t) ==> t is ProcInst
                    || t is XmlDecl)
                &&& s.len() == 0 ==> (r matches Err(Error::UnexpectedEof))
                &&& s.len() >= 2 && s[0] == 0x3C && s[1] == 0x3F && !reserved_at(s.skip(2)) ==> (r is Ok
                    <==> pi_of(s.skip(2)) is Some && text_of(pi_of(s.skip(2)).unwrap().1) is Some) && (
                r matches Ok(t) ==> t is ProcInst) && match r {
                    Ok(RawToken::ProcInst(pi)) => pi_of(s.skip(2)) matches Some((tg, inst, c)) && tg
                        == pi.target@ && text_of(inst) == Some(pi.inst@) && final(self).stream()
                        == s.skip(2 + c),
                    _ => true,
                }
                &&& s.len() >= 3 && s[0] == 0x3C && s[1] == 0x21 && s[2] == 0x2D ==> (r is Ok <==> comment_len(
                    s.skip(3),
                ) is Some) && (r is Ok ==> final(self).stream() == s.skip(3 + comment_len(s.skip(3)).unwrap()))
                &&& s.len() >= 3 && s[0] == 0x3C && s[1] == 0x21 && s[2] != 0x2D && s[2] != 0x5B ==> (r is Ok
                    <==> doctype_of(s.skip(2)) is Some) && match r {
                    Ok(RawToken::DoctypeDef(Doctype::DoctypeDecl(f))) => doctype_of(s.skip(2)) matches Some(
                        (g, c),
                    ) && f == g && final(self).stream() == s.skip(2 + c),
                    _ => true,
                }
                &&& s.len() >= 3 && s[0] == 0x3C && s[1] == 0x21 && s[2] == 0x2D ==> (r matches Ok(t)
                    ==> t is Comment)
                &&& s.len() >= 3 && s[0] == 0x3C && s[1] == 0x21 && s[2] == 0x5B ==> (r matches Ok(t)
                    ==> t is CharData) && (r is Ok <==> cdata_of(s.skip(3)) is Some && text_of(
                    cdata_of(s.skip(3)).unwrap().0,
                ) is Some) && (r matches Ok(RawToken::CharData(v)) ==> Some(v@) == text_of(
                    cdata_of(s.skip(3)).unwrap().0,
                ) && final(self).stream() == s.skip(3 + cdata_of(s.skip(3)).unwrap().1))
                &&& s.len() >= 3 && s[0] == 0x3C && s[1] == 0x21 && s[2] != 0x2D && s[2] != 0x5B ==> (
                r matches Ok(t) ==> t matches RawToken::DoctypeDef(Doctype::DoctypeDecl(_)))
                &&& s.len() >= 2 && s[0] == 0x3C && s[1] == 0x21 && doctype_external(s.skip(2)) ==> (
                r matches Err(Error::UnsupportedFeature(Feature::ExternalEntities)))
            }),
    {
        let ghost s = self.stream();
        proof {
            markup::lemma_doctype_external_start(s.skip(2));
        }
        if let Some(name) = self.auto_close.take() {
            return Ok(RawToken::EndTag(name));
        }
        let b = self.next_byte()?;
        if b == 0x3C {
            let b2 = self.next_byte()?;
            if b2 == 0x2F {
                assert(self.stream() =~= s.skip(2));
                let r = self.end_tag();
                proof {
                    if let Some((n, c)) = end_tag_of(s.skip(2)) {
                        lex::lemma_name_run(s.skip(2));
                        assert(s.skip(2).skip(c) =~= s.skip(2 + c));
                    }
                }
                r
            } else if b2 == 0x3F {
                assert(self.stream() =~= s.skip(2));
                let r = self.proc_inst();
                proof {
                    reveal_strlit("xml");
                    assert("xml"@.len() == 3);
                    vstd::utf8::is_ascii_chars_encode_utf8("xml"@);
                    if let Some((tg, inst, c)) = pi_of(s.skip(2)) {
                        if 0 <= c <= s.len() - 2 {
                            assert(s.skip(2).skip(c) =~= s.skip(2 + c));
                        }
                    }
                }
                r
            } else if b2 == 0x21 {
                let b3 = self.next_byte()?;
                if b3 == 0x2D {
                    assert(self.stream() =~= s.skip(3));
                    let r = self.comment();
                    proof {
                        if r is Ok {
                            assert(s.skip(3).skip(comment_len(s.skip(3)).unwrap()) =~= s.skip(
                                3 + comment_len(s.skip(3)).unwrap(),
                            ));
                        }
                    }
                    r
                } else if b3 == 0x5B {
                    assert(self.stream() =~= s.skip(3));
                    let r = self.cdata();
                    proof {
                        if let Some((d, c)) = cdata_of(s.skip(3)) {
                            if 0 <= c <= s.len() - 3 {
                                assert(s.skip(3).skip(c) =~= s.skip(3 + c));
                            }
                        }
                    }
                    r
                } else {
                    self.unget_byte(b3);
                    assert(self.stream() =~= s.skip(2));
                    let r = self.doctype();
                    proof {
                        if let Some((g, c)) = doctype_of(s.skip(2)) {
                            if 0 <= c <= s.len() - 2 {
                                assert(s.skip(2).skip(c) =~= s.skip(2 + c));
                            }
                        }
                    }
                    r
                }
            } else {
                self.unget_byte(b2);
                assert(self.stream() =~= s.skip(1));
                let r = self.start_tag();
                proof {
                    if let Some((n, attrs, c, close)) = start_tag_of(s.skip(1)) {
                        if 0 <= c <= s.len() - 1 {
                            assert(s.skip(1).skip(c) =~= s.skip(1 + c));
                        }
                    }
                }
                r
            }
        } else {
            self.unget_byte(b);
            assert(self.stream() =~= s);
            self.char_data()
        }
    }

    /// Checks a byte order mark, if there is one: only the UTF-8 mark is
    /// accepted; the first bytes of the UTF-16 and UTF-32 marks are
    /// `UnsupportedEncoding`.
    ///
    /// | Bytes         | Encoding form         |
    /// |---------------|-----------------------|
    /// | `EF BB BF`    | UTF-8                 |
    /// | `FE FF`       | UTF-16, big-endian    |
    /// | `FF FE`       | UTF-16, little-endian |
    /// | `00 00 FE FF` | UTF-32, big-endian    |
    /// | `FF FE 00 00` | UTF-32, little-endian |
    fn byte_order_mark(&mut self) -> (r: xml::Result<()>)
        requires
            old(self).reader_ok(),
        ensures
            r matches Err(e) ==> is_grammar_error(e),
            final(self).same_frame(*old(self)),
            final(self).stream().len() <= old(self).stream().len(),
            ({
                let s = old(self).stream();
                &&& s.len() == 0 ==> (r matches Err(Error::UnexpectedEof))
                &&& s.len() > 0 && (s[0] == 0x00 || s[0] == 0xFE || s[0] == 0xFF) ==> (r matches Err(
                    Error::UnsupportedEncoding,
                ))
                &&& s.len() > 0 && s[0] != 0x00 && s[0] != 0xFE && s[0] != 0xFF && s[0] != 0xEF
                    ==> r is Ok && final(self).stream() == s
                &&& s.len() >= 3 && s[0] == 0xEF && s[1] == 0xBB && s[2] == 0xBF ==> r is Ok
                    && final(self).stream() == s.skip(3)
                &&& s.len() >= 2 && s[0] == 0xEF && s[1] != 0xBB ==> (r matches Err(
                    Error::MalformedByteOrderMark,
                ))
                &&& s.len() >= 3 && s[0] == 0xEF && s[1] == 0xBB && s[2] != 0xBF ==> (r matches Err(
                    Error::MalformedByteOrderMark,
                ))
                &&& s.len() > 0 && s[0] == 0xEF && !(s.len() >= 3 && s[1] == 0xBB && s[2] == 0xBF)
                    ==> r is Err
            }),
    {
        let ghost s = self.stream();
        let b = self.next_byte()?;
        if b == 0xEF {
            if self.next_byte_is(0xBB)? && self.next_byte_is(0xBF)? {
                assert(self.stream() =~= s.skip(3));
                Ok(())
            } else {
                Err(Error::MalformedByteOrderMark)
            }
        } else if b == 0x00 || b == 0xFE || b == 0xFF {
            Err(Error::UnsupportedEncoding)
        } else {
            self.unget_byte(b);
            assert(self.stream() =~= s);
            Ok(())
        }
    }
}


impl Parser {
    /// One round of the prolog: whitespace, then one raw token, handled as
    /// the prolog allows. `None` asks for another round.
    #[verifier::rlimit(100)]
    #[verifier::spinoff_prover]
    fn prolog_round(&mut self) -> (r: Option<xml::Result<Token>>)
        requires
            old(self).wf(),
            old(self).state == State::Prologue,
        ensures
            final(self).wf(),
            r is None ==> final(self).stream().len() < old(self).stream().len() && (final(self).state
                == State::Prologue || final(self).state == State::InternalDoctype) && final(self).tags
                == old(self).tags,
            match r {
                Some(Ok(Token::StartTag(st))) => final(self).in_root() && final(self).open_tags()
                    == old(self).open_tags().push(st.name@),
                Some(Ok(Token::ProcInst(_))) => final(self).state == State::Prologue
                    && final(self).tags == old(self).tags,
                Some(Ok(_)) => false,
                Some(Err(e)) => !(e is MismatchingStartEndTags) && final(self).tags == old(self).tags,
                None => true,
            },
            misc_next(old(self).stream(), true) matches Some(k) ==> ({
                let t = old(self).stream().skip(k);
                &&& r is None && not_doctype(t) ==> final(self).state == State::Prologue && (misc_next(
                    final(self).stream(),
                    true,
                ) matches Some(k2) && final(self).stream().skip(k2) == t)
                &&& r matches Some(res) ==> next_at(t, *final(self), res, true)
            }),
            ({
                let s = old(self).stream();
                s.len() >= 2 && s[0] == 0x3C && s[1] == 0x21 && doctype_external(s.skip(2)) ==> (
                r matches Some(Err(Error::UnsupportedFeature(Feature::ExternalEntities))))
            }),
    {
        let ghost cur = self.stream();
        proof {
            lex::lemma_space_run(cur);
            lemma_misc_next_unfold(cur, true);
            lemma_misc_next_len(cur, true);
        }
        if let Err(e) = self.whitespace() {
            return Some(Err(e));
        }
        let ghost w = space_run(cur) as int;
        let ghost t = self.stream();
        assert(t =~= cur.skip(w));
        proof {
            if w == 0 {
                assert(t =~= cur);
            }
            if let Some(k) = misc_next(cur, true) {
                if !(t.len() >= 3 && t[0] == 0x3C && t[1] == 0x21 && t[2] == 0x2D) && !(t.len() >= 3
                    && t[0] == 0x3C && t[1] == 0x21 && t[2] != 0x5B && doctype_of(t.skip(2)) matches Some(
                    (false, _),
                )) {
                    assert(k == w);
                    assert(cur.skip(k) == t);
                }
            }
        }
        proof {
            if w < cur.len() {
                let tt = cur.skip(w);
                if tt.len() >= 3 && tt[0] == 0x3C && tt[1] == 0x21 && tt[2] == 0x2D {
                    if let Some(c) = comment_len(tt.skip(3)) {
                        if 0 <= c && 3 + c <= tt.len() {
                            lemma_misc_next_len(tt.skip(3 + c), true);
                        }
                    }
                } else if tt.len() >= 3 && tt[0] == 0x3C && tt[1] == 0x21 && tt[2] != 0x2D && tt[2] != 0x5B {
                    if let Some((f, c)) = doctype_of(tt.skip(2)) {
                        if !f && 0 <= c && 2 + c <= tt.len() {
                            lemma_misc_next_len(tt.skip(2 + c), true);
                        }
                    }
                }
            }
        }
        let raw = match self.raw_token() {
            Ok(raw) => raw,
            Err(e) => {
                return Some(Err(e));
            },
        };
        match raw {
            RawToken::DoctypeDef(Doctype::DoctypeDecl(true)) => {
                self.state = State::InternalDoctype;
                None
            },
            RawToken::DoctypeDef(Doctype::DoctypeDecl(false)) => {
                proof {
                    if let Some(k) = misc_next(cur, true) {
                        let c = doctype_of(t.skip(2)).unwrap().1;
                        assert(self.stream() =~= cur.skip(w + 2 + c));
                        let m = misc_next(self.stream(), true).unwrap();
                        assert(cur.skip(k) =~= self.stream().skip(m));
                    }
                }
                None
            },
            RawToken::StartTag(s) => {
                self.tags.push(s.name.clone());
                self.state = State::Normal;
                assert(self.open_tags() =~= old(self).open_tags().push(s.name@));
                assert(self.open_tags() =~= seq![s.name@]);
                proof {
                    if let Some(k) = misc_next(cur, true) {
                        assert(next_at(cur.skip(k), *self, Ok(Token::StartTag(s)), true));
                    }
                }
                Some(Ok(Token::StartTag(s)))
            },
            RawToken::Comment => {
                proof {
                    if let Some(k) = misc_next(cur, true) {
                        let c = comment_len(t.skip(3)).unwrap();
                        assert(self.stream() =~= cur.skip(w + 3 + c));
                        let m = misc_next(self.stream(), true).unwrap();
                        assert(cur.skip(k) =~= self.stream().skip(m));
                    }
                }
                None
            },
            RawToken::ProcInst(p) => {
                assert(self.in_prologue());
                proof {
                    if let Some(k) = misc_next(cur, true) {
                        assert(next_at(cur.skip(k), *self, Ok(Token::ProcInst(p)), true));
                    }
                }
                Some(Ok(Token::ProcInst(p)))
            },
            _ => {
                proof {
                    if let Some(k) = misc_next(cur, true) {
                        assert(next_at(cur.skip(k), *self, Err(Error::UnexpectedToken), true));
                    }
                }
                Some(Err(Error::UnexpectedToken))
            },
        }
    }

    /// One round of the epilog: whitespace, then one raw token, handled as
    /// the epilog allows. `None` asks for another round.
    #[verifier::rlimit(100)]
    #[verifier::spinoff_prover]
    fn epilog_round(&mut self) -> (r: Option<xml::Result<Token>>)
        requires
            old(self).wf(),
            old(self).state == State::Epilogue,
        ensures
            final(self).wf(),
            final(self).tags == old(self).tags,
            r is None ==> final(self).stream().len() < old(self).stream().len() && final(self).state
                == State::Epilogue,
            match r {
                Some(Ok(Token::EndOfFile)) => final(self).is_done(),
                Some(Ok(Token::ProcInst(_))) => final(self).state == State::Epilogue,
                Some(Ok(_)) => false,
                Some(Err(e)) => !(e is MismatchingStartEndTags),
                None => true,
            },
            space_run(old(self).stream()) == old(self).stream().len() ==> (r matches Some(
                Ok(Token::EndOfFile),
            )),
            misc_next(old(self).stream(), false) matches Some(k) ==> ({
                let t = old(self).stream().skip(k);
                &&& r is None ==> (misc_next(final(self).stream(), false) matches Some(k2)
                    && final(self).stream().skip(k2) == t)
                &&& r matches Some(res) ==> next_at(t, *final(self), res, false)
            }),
    {
        let ghost cur = self.stream();
        proof {
            lex::lemma_space_run(cur);
            lemma_misc_next_unfold(cur, false);
            lemma_misc_next_len(cur, false);
        }
        match self.whitespace() {
            Ok(_) => {},
            Err(Error::UnexpectedEof) => {
                self.state = State::End;
                assert(cur.skip(cur.len() as int) =~= Seq::<u8>::empty());
                return Some(Ok(Token::EndOfFile));
            },
            Err(e) => {
                return Some(Err(e));
            },
        }
        let ghost w = space_run(cur) as int;
        let ghost t = self.stream();
        assert(t =~= cur.skip(w));
        proof {
            if let Some(k) = misc_next(cur, false) {
                if !(t.len() >= 3 && t[0] == 0x3C && t[1] == 0x21 && t[2] == 0x2D) {
                    assert(k == w);
                    assert(cur.skip(k) == t);
                }
            }
        }
        proof {
            if w < cur.len() {
                let tt = cur.skip(w);
                if tt.len() >= 3 && tt[0] == 0x3C && tt[1] == 0x21 && tt[2] == 0x2D {
                    if let Some(c) = comment_len(tt.skip(3)) {
                        if 0 <= c && 3 + c <= tt.len() {
                            lemma_misc_next_len(tt.skip(3 + c), false);
                        }
                    }
                }
            }
        }
        let raw = match self.raw_token() {
            Ok(raw) => raw,
            Err(e) => {
                self.auto_close = None;
                return Some(Err(e));
            },
        };
        self.auto_close = None;
        match raw {
            RawToken::Comment => {
                proof {
                    if let Some(k) = misc_next(cur, false) {
                        let c = comment_len(t.skip(3)).unwrap();
                        assert(self.stream() =~= cur.skip(w + 3 + c));
                        let m = misc_next(self.stream(), false).unwrap();
                        assert(cur.skip(k) =~= self.stream().skip(m));
                    }
                }
                None
            },
            RawToken::ProcInst(p) => Some(Ok(Token::ProcInst(p))),
            _ => Some(Err(Error::UnexpectedToken)),
        }
    }
}

} // verus!
