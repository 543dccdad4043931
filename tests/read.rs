use xml::read::Parser;
use xml::xml::{Attr, Error, Feature, ProcInst, StartTag, Token};

fn start(name: &str) -> Token {
    Token::StartTag(StartTag {
        name: String::from(name),
        attrs: vec![],
    })
}

fn tokens(text: &str) -> Vec<Token> {
    let mut reader = Parser::from_reader(text.as_bytes());
    let mut out = Vec::new();
    loop {
        let t = reader.token().unwrap();
        if t == Token::EndOfFile {
            return out;
        }
        out.push(t);
    }
}

fn first_error(text: &str) -> Error {
    let mut reader = Parser::from_reader(text.as_bytes());
    loop {
        match reader.token() {
            Ok(Token::EndOfFile) => panic!("no error in {:?}", text),
            Ok(_) => {}
            Err(e) => return e,
        }
    }
}

#[test]
fn element() {
    let text = "<test attr=\"val\" other = 'val' >hello</test>";
    let mut reader = Parser::from_reader(text.as_bytes());
    assert_eq!(
        reader.token().unwrap(),
        Token::StartTag(StartTag {
            name: String::from("test"),
            attrs: vec![
                Attr {
                    name: String::from("attr"),
                    value: String::from("val")
                },
                Attr {
                    name: String::from("other"),
                    value: String::from("val")
                },
            ]
        })
    );
    assert_eq!(
        reader.token().unwrap(),
        Token::CharData(String::from("hello"))
    );
    assert_eq!(reader.token().unwrap(), Token::EndTag(String::from("test")));
    assert_eq!(reader.token().unwrap(), Token::EndOfFile);
}

#[test]
fn autoclose() {
    let text = "<test attr='val'/>";
    let mut reader = Parser::from_reader(text.as_bytes());
    assert_eq!(
        reader.token().unwrap(),
        Token::StartTag(StartTag {
            name: String::from("test"),
            attrs: vec![Attr {
                name: String::from("attr"),
                value: String::from("val")
            },]
        })
    );
    assert_eq!(reader.token().unwrap(), Token::EndTag(String::from("test")));
    assert_eq!(reader.token().unwrap(), Token::EndOfFile);
}

#[test]
fn comment() {
    let text = "<test><!-- comment --></test>";
    let mut reader = Parser::from_reader(text.as_bytes());
    assert_eq!(
        reader.token().unwrap(),
        Token::StartTag(StartTag {
            name: String::from("test"),
            attrs: vec![]
        })
    );
    assert_eq!(reader.token().unwrap(), Token::EndTag(String::from("test")));
    assert_eq!(reader.token().unwrap(), Token::EndOfFile);
}

#[test]
fn proc_inst() {
    let text = "<?inst dostuff?><test/>";
    let mut reader = Parser::from_reader(text.as_bytes());
    assert_eq!(
        reader.token().unwrap(),
        Token::ProcInst(ProcInst {
            target: String::from("inst"),
            inst: String::from("dostuff")
        })
    );
    assert_eq!(
        reader.token().unwrap(),
        Token::StartTag(StartTag {
            name: String::from("test"),
            attrs: vec![]
        })
    );
    assert_eq!(reader.token().unwrap(), Token::EndTag(String::from("test")));
    assert_eq!(reader.token().unwrap(), Token::EndOfFile);
}

#[test]
fn xml_decl() {
    let text = "<?xml version=\"1.5\" encoding='uTf-8'?><test/>";
    let mut reader = Parser::from_reader(text.as_bytes());
    assert_eq!(
        reader.token().unwrap(),
        Token::StartTag(StartTag {
            name: String::from("test"),
            attrs: vec![]
        })
    );
    assert_eq!(reader.token().unwrap(), Token::EndTag(String::from("test")));
    assert_eq!(reader.token().unwrap(), Token::EndOfFile);
}

#[test]
fn doctype() {
    let text = "<!DOCTYPE test [  ]><test/>";
    let mut reader = Parser::from_reader(text.as_bytes());
    assert_eq!(
        reader.token().unwrap(),
        Token::StartTag(StartTag {
            name: String::from("test"),
            attrs: vec![]
        })
    );
    assert_eq!(reader.token().unwrap(), Token::EndTag(String::from("test")));
    assert_eq!(reader.token().unwrap(), Token::EndOfFile);
}

#[test]
fn char_ref() {
    let text = "<test>&#12486;&#x30B9;&#12488;&#x3002;</test>";
    let mut reader = Parser::from_reader(text.as_bytes());
    assert_eq!(
        reader.token().unwrap(),
        Token::StartTag(StartTag {
            name: String::from("test"),
            attrs: vec![]
        })
    );
    assert_eq!(
        reader.token().unwrap(),
        Token::CharData(String::from("\u{30c6}\u{30b9}\u{30c8}\u{3002}"))
    );
    assert_eq!(reader.token().unwrap(), Token::EndTag(String::from("test")));
    assert_eq!(reader.token().unwrap(), Token::EndOfFile);
}

#[test]
fn entity_ref() {
    let text = "<test>this &gt; that &lt; those</test>";
    let mut reader = Parser::from_reader(text.as_bytes());
    assert_eq!(
        reader.token().unwrap(),
        Token::StartTag(StartTag {
            name: String::from("test"),
            attrs: vec![]
        })
    );
    assert_eq!(
        reader.token().unwrap(),
        Token::CharData(String::from("this > that < those"))
    );
    assert_eq!(reader.token().unwrap(), Token::EndTag(String::from("test")));
    assert_eq!(reader.token().unwrap(), Token::EndOfFile);
}

#[test]
fn cdata() {
    let text = "<test><![CDATA[</>>&le;\r\n<]]></test>";
    let mut reader = Parser::from_reader(text.as_bytes());
    assert_eq!(
        reader.token().unwrap(),
        Token::StartTag(StartTag {
            name: String::from("test"),
            attrs: vec![]
        })
    );
    assert_eq!(
        reader.token().unwrap(),
        Token::CharData(String::from("</>>&le;\n<"))
    );
    assert_eq!(reader.token().unwrap(), Token::EndTag(String::from("test")));
    assert_eq!(reader.token().unwrap(), Token::EndOfFile);
}

#[test]
fn reference_expansion_decimal_hex_and_amp() {
    assert_eq!(
        tokens("<t>&#65;&#x41;&amp;</t>"),
        vec![start("t"), Token::CharData(String::from("AA&")), Token::EndTag(String::from("t"))]
    );
}

#[test]
fn self_closing_matches_explicit_pair() {
    let short = tokens("<t/>");
    assert_eq!(short, vec![start("t"), Token::EndTag(String::from("t"))]);
    assert_eq!(short, tokens("<t></t>"));
}

#[test]
fn cdata_is_not_expanded() {
    assert_eq!(
        tokens("<t><![CDATA[<a>&amp;]]></t>"),
        vec![start("t"), Token::CharData(String::from("<a>&amp;")), Token::EndTag(String::from("t"))]
    );
}

#[test]
fn every_line_break_form_is_one_newline() {
    for text in ["<t>a\nb</t>", "<t>a\rb</t>", "<t>a\r\nb</t>"] {
        assert_eq!(
            tokens(text),
            vec![start("t"), Token::CharData(String::from("a\nb")), Token::EndTag(String::from("t"))]
        );
    }
    assert_eq!(
        tokens("<t>\r\r\n\n</t>"),
        vec![start("t"), Token::CharData(String::from("\n\n\n")), Token::EndTag(String::from("t"))]
    );
}

#[test]
fn external_identifiers_are_rejected() {
    assert!(matches!(
        first_error("<!DOCTYPE t SYSTEM 'a.dtd'><t/>"),
        Error::UnsupportedFeature(Feature::ExternalEntities)
    ));
    assert!(matches!(
        first_error("<!DOCTYPE t PUBLIC 'id' 'a.dtd'><t/>"),
        Error::UnsupportedFeature(Feature::ExternalEntities)
    ));
}

#[test]
fn utf16_and_utf32_marks_are_unsupported() {
    for bytes in [&[0xFEu8, 0xFF, 0x00, 0x3C][..], &[0xFF, 0xFE, 0x3C, 0x00], &[0x00, 0x00, 0xFE, 0xFF]] {
        let mut reader = Parser::from_reader(bytes);
        assert!(matches!(reader.token(), Err(Error::UnsupportedEncoding)));
    }
}

#[test]
fn utf8_mark_is_skipped() {
    let mut text = vec![0xEFu8, 0xBB, 0xBF];
    text.extend_from_slice(b"<t/>");
    let mut reader = Parser::from_reader(&text);
    assert_eq!(reader.token().unwrap(), start("t"));
    assert_eq!(reader.token().unwrap(), Token::EndTag(String::from("t")));
    assert_eq!(reader.token().unwrap(), Token::EndOfFile);
}

#[test]
fn broken_utf8_mark() {
    let mut reader = Parser::from_reader(&[0xEF, 0xBB, 0x3C]);
    assert!(matches!(reader.token(), Err(Error::MalformedByteOrderMark)));
}

#[test]
fn end_of_file_repeats() {
    let mut reader = Parser::from_reader("<a/> <!-- c --> ".as_bytes());
    assert_eq!(reader.token().unwrap(), start("a"));
    assert_eq!(reader.token().unwrap(), Token::EndTag(String::from("a")));
    for _ in 0..5 {
        assert_eq!(reader.token().unwrap(), Token::EndOfFile);
    }
}

#[test]
fn mismatched_end_tag() {
    let mut reader = Parser::from_reader("<a><b></a></b>".as_bytes());
    assert_eq!(reader.token().unwrap(), start("a"));
    assert_eq!(reader.token().unwrap(), start("b"));
    assert!(matches!(reader.token(), Err(Error::MismatchingStartEndTags)));
}

#[test]
fn nested_elements_close_in_order() {
    assert_eq!(
        tokens("<a><b>x</b><c/></a>"),
        vec![
            start("a"),
            start("b"),
            Token::CharData(String::from("x")),
            Token::EndTag(String::from("b")),
            start("c"),
            Token::EndTag(String::from("c")),
            Token::EndTag(String::from("a")),
        ]
    );
}

#[test]
fn round_trip_of_supported_tokens() {
    let text = "<?go now?><a k=\"v &amp; w\"><b>x &lt; y</b><c/></a>";
    let first = tokens(text);
    let mut out = String::new();
    for t in &first {
        match t {
            Token::StartTag(s) => {
                out.push('<');
                out.push_str(&s.name);
                for a in &s.attrs {
                    out.push_str(&format!(" {}=\"{}\"", a.name, a.value.replace('&', "&amp;")));
                }
                out.push('>');
            }
            Token::EndTag(n) => out.push_str(&format!("</{}>", n)),
            Token::CharData(d) => out.push_str(&d.replace('&', "&amp;").replace('<', "&lt;")),
            Token::ProcInst(p) => out.push_str(&format!("<?{} {}?>", p.target, p.inst)),
            Token::EndOfFile => {}
        }
    }
    assert_eq!(tokens(&out), first);
}

#[test]
fn character_data_before_root_is_unexpected() {
    assert!(matches!(first_error("text<a/>"), Error::UnexpectedToken));
}

#[test]
fn content_after_root_is_unexpected() {
    assert!(matches!(first_error("<a/><b/>"), Error::UnexpectedToken));
}

#[test]
fn truncated_input_is_unexpected_eof() {
    assert!(matches!(first_error("<a><b>"), Error::UnexpectedEof));
    assert!(matches!(first_error(""), Error::UnexpectedEof));
}

#[test]
fn malformed_inputs_name_their_production() {
    assert!(matches!(first_error("<a x='<'/>"), Error::MalformedAttValue));
    assert!(matches!(first_error("<a x=v/>"), Error::MalformedAttValue));
    assert!(matches!(first_error("<a>x]]>y</a>"), Error::MalformedCharData));
    assert!(matches!(first_error("<a>&#xD800;</a>"), Error::MalformedCharRef));
    assert!(matches!(first_error("<a>&#1z;</a>"), Error::MalformedCharRef));
    assert!(matches!(first_error("<a>&#65</a>"), Error::MalformedCharRef));
    assert!(matches!(first_error("<a><!-x--></a>"), Error::MalformedComment));
    assert!(matches!(first_error("<a><!-- x -- y --></a>"), Error::MalformedComment));
    assert!(matches!(first_error("<a><![CDAT[x]]></a>"), Error::MalformedCData));
    assert!(matches!(first_error("<!DOCTYPX a><a/>"), Error::MalformedDoctype));
    assert!(matches!(first_error("<!DOCTYPE a [ <!FOO x> ]><a/>"), Error::MalformedDoctype));
    assert!(matches!(first_error("<a/ ><b/>"), Error::MalformedEmptyElemTag));
    assert!(matches!(first_error("<a></a x>"), Error::MalformedEndTag));
    assert!(matches!(first_error("<a>&lt</a>"), Error::MalformedEntityRef));
    assert!(matches!(first_error("<!DOCTYPE a [ <!ENTITY e x> ]><a/>"), Error::MalformedEntityValue));
    assert!(matches!(first_error("<!DOCTYPE a [ <!ENTITY e 'x' y> ]><a/>"), Error::MalformedEntityDecl));
    assert!(matches!(first_error("<a x 'v'/>"), Error::MalformedEq));
    assert!(matches!(first_error("<!DOCTYPE a SYSTEMX 'x'><a/>"), Error::MalformedExternalEntity));
    assert!(matches!(first_error("< a/>"), Error::MalformedName));
    assert!(matches!(first_error("<?xmlfoo bar?><a/>"), Error::MalformedProcInst));
    assert!(matches!(first_error("<a x='1'y='2'/>"), Error::MalformedStartTag));
    assert!(matches!(first_error("<!DOCTYPE a SYSTEM x><a/>"), Error::MalformedSystemLiteral));
    assert!(matches!(first_error("<?xml version='2.0'?><a/>"), Error::MalformedVersionLiteral));
    assert!(matches!(first_error("<?xml version='1.x'?><a/>"), Error::MalformedVersionLiteral));
    assert!(matches!(first_error("<?xml version='1.0' standalone='maybe'?><a/>"), Error::MalformedYesNoLiteral));
    assert!(matches!(first_error("<?xml version='1.0' standalone='yes' encoding='utf-8'?><a/>"), Error::MalformedXmlDecl));
    assert!(matches!(first_error("<?xml version='1.0' encoding='latin-1'?><a/>"), Error::UnsupportedEncoding));
    assert!(matches!(first_error("<a>&nbsp;</a>"), Error::UnmappedEntityRef));
    let mut reader = Parser::from_reader(&[b'<', b'a', 0xC3, b'/', b'>']);
    assert!(matches!(reader.token(), Err(Error::Utf8Error(_))));
    assert!(matches!(first_error("<a><?go x?</a>"), Error::UnexpectedEof));
    assert!(matches!(first_error("<a><?go></a>"), Error::MalformedProcInst));
}

#[test]
fn internal_subset_declarations() {
    let text = "<!DOCTYPE a [\n<!ELEMENT a (#PCDATA)>\n<!ATTLIST a x CDATA #IMPLIED>\n<!ENTITY e 'v&#65;'>\n<!-- c -->\n<?pi data?>\n]>\n<a/>";
    let mut reader = Parser::from_reader(text.as_bytes());
    assert_eq!(
        reader.token().unwrap(),
        Token::ProcInst(ProcInst {
            target: String::from("pi"),
            inst: String::from("data")
        })
    );
    assert_eq!(reader.token().unwrap(), start("a"));
    assert_eq!(reader.token().unwrap(), Token::EndTag(String::from("a")));
    assert_eq!(reader.token().unwrap(), Token::EndOfFile);
}

#[test]
fn unsupported_subset_features() {
    assert!(matches!(
        first_error("<!DOCTYPE a [ <!NOTATION n SYSTEM 'x'> ]><a/>"),
        Error::UnsupportedFeature(Feature::Notations)
    ));
    assert!(matches!(
        first_error("<!DOCTYPE a [ %pe; ]><a/>"),
        Error::UnsupportedFeature(Feature::ParameterEntities)
    ));
    assert!(matches!(
        first_error("<!DOCTYPE a [ <!ENTITY % pe 'x'> ]><a/>"),
        Error::UnsupportedFeature(Feature::ParameterEntities)
    ));
    assert!(matches!(
        first_error("<!DOCTYPE a [ <!ENTITY e '%pe;'> ]><a/>"),
        Error::UnsupportedFeature(Feature::ParameterEntities)
    ));
    assert!(matches!(
        first_error("<!DOCTYPE a [ <!ENTITY e SYSTEM 'x'> ]><a/>"),
        Error::UnsupportedFeature(Feature::ExternalEntities)
    ));
}

#[test]
fn processing_instruction_without_text() {
    assert_eq!(
        tokens("<a><?go?></a>"),
        vec![
            start("a"),
            Token::ProcInst(ProcInst {
                target: String::from("go"),
                inst: String::new()
            }),
            Token::EndTag(String::from("a")),
        ]
    );
}

#[test]
fn names_may_hold_any_non_ascii_byte() {
    assert_eq!(
        tokens("<a\u{3000}b\u{80}/>"),
        vec![start("a\u{3000}b\u{80}"), Token::EndTag(String::from("a\u{3000}b\u{80}"))]
    );
}

#[test]
fn entity_value_keeps_general_references() {
    assert_eq!(
        tokens("<!DOCTYPE a [ <!ENTITY e 'x&y;z'> ]><a/>"),
        vec![start("a"), Token::EndTag(String::from("a"))]
    );
    assert!(matches!(first_error("<!DOCTYPE a [ <!ENTITY e 'a&'> ]><a/>"), Error::MalformedName));
    assert!(matches!(first_error("<!DOCTYPE a [ <!ENTITY e 'a&b'> ]><a/>"), Error::MalformedEntityRef));
}

#[test]
fn prolog_items_before_root() {
    let text = "\u{feff}<?xml version='1.0' encoding='UTF-8' standalone='no'?>\n<!-- c -->\n<!DOCTYPE a>\n<?go x?>\n<a/>";
    assert_eq!(
        tokens(text),
        vec![
            Token::ProcInst(ProcInst {
                target: String::from("go"),
                inst: String::from("x")
            }),
            start("a"),
            Token::EndTag(String::from("a")),
        ]
    );
    assert!(matches!(first_error("</a>"), Error::UnexpectedToken));
    assert!(matches!(first_error("<?xml version='1.0'?x><a/>"), Error::MalformedXmlDecl));
}

#[test]
fn cdata_close_check_is_on_literal_bytes() {
    assert_eq!(
        tokens("<a>]&#93;></a>"),
        vec![start("a"), Token::CharData(String::from("]]>")), Token::EndTag(String::from("a"))]
    );
    assert!(matches!(first_error("<a>]]></a>"), Error::MalformedCharData));
}
