use vyges_sta::float32::F32;
use vyges_sta::liberty_parse::{is_float_text, parse, tokenize, ParseError, Tok, Value};

fn f(x: f32) -> F32 {
    F32(x.to_bits())
}

/// A number is a whole-token float match; `1ns`, `a1` are words; a signed number is a number; an
/// exponent may carry a sign.
#[test]
fn numbers_are_whole_token_floats() {
    for (t, is) in [
        ("0.5", true),
        ("-1.25e-3", true),
        ("1e+3", true),
        (".5", true),
        ("5.", true),
        ("1ns", false),
        ("a1", false),
        ("e5", false),
        ("1e", false),
    ] {
        assert_eq!(is_float_text(t), is, "{t}");
    }
    let g = parse("library (x) { time_unit : \"1ns\" ; nom_voltage : 1.8 ; k : -2.5e-1 ; }").unwrap();
    assert_eq!(g.attr("time_unit"), Some(&Value::Str("1ns".into())));
    assert_eq!(g.attr("nom_voltage"), Some(&Value::Float(f(1.8f32))));
    assert_eq!(g.attr_float("k"), Some(f(-0.25f32)));
}

/// Groups nest; a complex attribute keeps its values in order; a quoted list stays one text value
/// (its numbers are read later); expressions flatten to text.
#[test]
fn groups_complex_attributes_and_expressions() {
    let text = r#"library (lib) {
        capacitive_load_unit (1, pf) ;
        /* a comment */
        cell (INV) {
            pin (Y) { direction : output ; function : "!A" ;
                timing () { related_pin : "A" ; when : "A&B" ;
                    cell_rise (tmpl) { index_1 ("0.01, 0.02") ; values ("0.1, 0.2", \
                               "0.3, 0.4") ; }
                }
            }
        }
    }"#;
    let g = parse(text).unwrap();
    assert_eq!(
        g.complex_attr("capacitive_load_unit"),
        Some(&vec![Value::Float(f(1.0)), Value::Str("pf".into())])
    );
    let cells = g.groups_of("cell");
    let cell = cells[0];
    assert_eq!(cell.name().as_deref(), Some("INV"));
    let pins = cell.groups_of("pin");
    let pin = pins[0];
    assert_eq!(pin.attr_text("function").as_deref(), Some("!A"));
    let timings = pin.groups_of("timing");
    let timing = timings[0];
    assert_eq!(timing.attr_text("when").as_deref(), Some("A&B"));
    let rises = timing.groups_of("cell_rise");
    let rise = rises[0];
    assert_eq!(rise.complex_attr("values").unwrap().len(), 2);
}

fn refused(text: &str) -> ParseError {
    match parse(text) {
        Err(e) => e,
        Ok(_) => panic!("{text} is accepted"),
    }
}

/// Every reason a text is refused for, with its line.
#[test]
fn refusals_name_their_line() {
    assert_eq!(refused("library (x) {\n a : \"b\n c\" ; }"), ParseError::UnterminatedString { line: 2 });
    assert_eq!(refused("library (x) {\n a : ; }"), ParseError::ExpectedValue { line: 2 });
    assert_eq!(refused("library (x) { a : 1 ;"), ParseError::UnexpectedEnd);
    assert_eq!(refused("library (x) { ; }"), ParseError::Unexpected { line: 1, token: Tok::Punct(';') });
    assert_eq!(
        refused("library (x) {\n\n a b ; }"),
        ParseError::UnexpectedAfter { line: 3, name: "a".into(), found: Some(Tok::Word("b".into())) }
    );
    assert_eq!(
        refused("library (x) { a"),
        ParseError::UnexpectedAfter { line: 1, name: "a".into(), found: None }
    );
    assert_eq!(refused("\"x\" (y) {}"), ParseError::UnexpectedAtTop { line: 1, token: Tok::Quoted("x".into()) });
    assert_eq!(refused("library : x ;"), ParseError::ExpectedGroup { line: 1, name: "library".into() });
    assert_eq!(refused("\nlibrary (x) ;"), ParseError::ExpectedBody { line: 2, name: "library".into() });
    assert_eq!(refused("  /* nothing */ // here"), ParseError::NoLibrary);
}

#[test]
fn tokens_carry_their_lines() {
    let toks = tokenize("a+1 /* x\n */ 1e+3 // y\n\"q\\\"r\\\n s\" +.5 -2 \\\n z").unwrap();
    assert_eq!(
        toks,
        vec![
            (Tok::Word("a".into()), 1),
            (Tok::Float(f(1.0)), 1),
            (Tok::Float(f(1000.0)), 2),
            (Tok::Quoted("q\\\"r s".into()), 4),
            (Tok::Float(f(0.5)), 4),
            (Tok::Float(f(-2.0)), 4),
            (Tok::Word("z".into()), 5),
        ]
    );
}

/// A value of several tokens is text, its numbers in their shortest form; two operands side by
/// side are two values.
#[test]
fn values_flatten_to_text() {
    let g = parse("library (l) { v : VDD + 0.50 ; w : a * (b + 2) ; z (1 two \"3\", four) ; }").unwrap();
    assert_eq!(g.attr_text("v").as_deref(), Some("VDD+0.5"));
    assert_eq!(g.attr_text("w").as_deref(), Some("a*(b+2)"));
    assert_eq!(
        g.complex_attr("z"),
        Some(&vec![
            Value::Float(f(1.0)),
            Value::Str("two".into()),
            Value::Str("3".into()),
            Value::Str("four".into()),
        ])
    );
    assert_eq!(g.attr("absent"), None);
    assert_eq!(g.attr_float("v"), None);
}

#[test]
fn values_read_as_numbers_and_text() {
    assert_eq!(Value::Float(f(2.5)).float(), Some(f(2.5)));
    assert_eq!(Value::Str("-2.5e1".into()).float(), Some(f(-25.0)));
    assert_eq!(Value::Str("infinity".into()).float(), Some(f(f32::INFINITY)));
    assert_eq!(Value::Str(" 2.5".into()).float(), None);
    assert_eq!(Value::Str("x".into()).float(), None);
    assert_eq!(Value::Float(f(0.1)).text(), "0.1");
    assert_eq!(Value::Str("x y".into()).text(), "x y");
}

/// Groups stand in their order, with the line of their name; of two equal attributes the last one
/// counts.
#[test]
fn groups_and_attributes_keep_their_order() {
    let g = parse("library (l) { a : 1 ; a : 2 ;\n cell (x) {} ; cell (y) {}\n }").unwrap();
    assert_eq!(g.simple.len(), 2);
    assert_eq!(g.attr_float("a"), Some(f(2.0)));
    let cells = g.groups_of("cell");
    assert_eq!(cells.iter().map(|c| (c.name().unwrap(), c.line)).collect::<Vec<_>>(), vec![
        ("x".to_string(), 2),
        ("y".to_string(), 2),
    ]);
    assert_eq!(g.groups_of("pin").len(), 0);
    assert_eq!((g.kind.as_str(), g.line), ("library", 1));
}

#[test]
fn groups_copy() {
    let g = parse("library (t) { a : 1 ; b (x, 2) ; cell (c) { pin (p) { d : e ; } } }").unwrap();
    assert_eq!(g.clone(), g);
    assert_eq!(g.clone().groups[0].groups[0].kind, "pin");
}
