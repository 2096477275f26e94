use vyges_sta::float32::F32;
use vyges_sta::names::{comes_before, contains, split_words, NameMap, WordKind};
use vyges_sta::number::{is_float_text, parse_number};
use vyges_sta::shortest::display_text;
use vyges_sta::text::{decimal_text, equal_ignoring_case, hex_text, join, slice, to_chars, to_lower};

fn agrees(text: &str) {
    let want = text.parse::<f32>().ok();
    let got = parse_number(text);
    match (want, got) {
        (Some(w), Some(g)) => {
            let nan = w.is_nan() && g.is_nan();
            assert!(nan || w.to_bits() == g.to_bits(), "{text}: {w} and {}", f32::from_bits(g.to_bits()));
        }
        (w, g) => assert_eq!(w.is_none(), g.is_none(), "{text}"),
    }
}

#[test]
fn numbers_read_as_the_nearest_single() {
    for t in [
        "0", "-0", "+0", "1", "-1", "+1", "1.", ".5", "-.5", "1e10", "1E10", "1e+10", "1e-10", "1.5e3", "00012.50",
        "3.4028235e38", "3.4028236e38", "3.5e38", "1e39", "1e400", "1e-45", "7e-46", "7.1e-46", "1e-60", "1e-400",
        "16777217", "16777219", "0.1", "0.3", "123456789012345678901234567890", "1e2147483648", "1e-2147483649",
        "inf", "-inf", "infinity", "INFINITY", "nan", "NaN", "-nan", "", ".", "e5", "1e", "1e+", "+", "-", "1 ", " 1",
        "0x10", "1_000", "--1", "1.2.3", "infinit", "1.17549435e-38", "1.1754942e-38", "9999999.5", "0.000000000001",
        "00000000000000000000000000000000000000000001", "1.00000005960464477539062500000000001",
        "1.000000059604644775390625", "33554433", "1e00000000000000000001", "-1e-99999999999999999999",
    ] {
        agrees(t);
    }
}

#[test]
fn many_numbers_read_as_the_nearest_single() {
    let mut state: u64 = 0x1234_5678_9abc_def1;
    let mut next = || {
        state ^= state << 13;
        state ^= state >> 7;
        state ^= state << 17;
        state
    };
    for _ in 0..3_000 {
        let (m, e) = (next(), next());
        agrees(&format!("{}e{}", m % 10_000_000_000, (e % 100) as i64 - 60));
        agrees(&format!("{}.{}", m % 1_000_000, e % 1_000_000));
    }
}

/// The text of a number is the machine's, and reads back as the number.
#[test]
fn numbers_display_in_their_shortest_form() {
    let mut state: u64 = 0xdead_beef_cafe_f00d;
    let mut next = || {
        state ^= state << 13;
        state ^= state >> 7;
        state ^= state << 17;
        state
    };
    let mut values = vec![
        0u32, 0x8000_0000, 1, 0x7f_ffff, 0x80_0000, 0x3f80_0000, 0x3dcc_cccd, 0x7f7f_ffff, 0x7f80_0000, 0xff80_0000,
        0x7fc0_0000, 0x4b80_0000, 0x4b7f_ffff, 0x501502f9, 0x3089_705f, 0x2edb_e6ff, 0x0000_0002, 0x5a00_0000,
    ];
    for _ in 0..1_500 {
        values.push(next() as u32);
    }
    for b in values {
        let v = f32::from_bits(b);
        let text = display_text(F32(b));
        assert_eq!(text, format!("{v}"), "{b:08x}");
        let back = parse_number(&text).unwrap();
        assert!(back.to_bits() == b || v.is_nan(), "{text}");
    }
}

/// Everything that is a float text reads as a number.
#[test]
fn float_texts_are_numbers() {
    for t in ["1", "-1.5", ".5", "5.", "1e5", "1.e5", "+2E-3", "1e", "abc", "1.5x", "", "-", "1e5e5", "..5"] {
        if is_float_text(t) {
            assert!(parse_number(t).is_some(), "{t}");
        }
    }
    assert!(is_float_text("5.") && is_float_text("+.5") && !is_float_text("1e") && !is_float_text(""));
}

/// Words part at white space as the machine knows it.
#[test]
fn words_part_at_white_space() {
    for code in 0..0x3100u32 {
        if let Some(c) = char::from_u32(code) {
            let text = format!("a{c}b");
            let want: Vec<String> = text.split_whitespace().map(String::from).collect();
            assert_eq!(split_words(WordKind::Solid, &text), want, "{code:x}");
        }
    }
    assert_eq!(split_words(WordKind::ListItem, "{1.0, 2.5 ,3}"), vec!["1.0", "2.5", "3"]);
    assert_eq!(split_words(WordKind::Identifier, "A[0]*!b_1"), vec!["A[0]", "b_1"]);
    let words = split_words(WordKind::Solid, "x yy");
    assert!(contains(&words, "yy") && !contains(&words, "y"));
}

#[test]
fn texts_are_made_and_taken_apart() {
    assert_eq!(to_chars("aµ☃"), vec!['a', 'µ', '☃']);
    assert_eq!(slice(&to_chars("timing"), 1, 4), "imi");
    assert_eq!(slice(&to_chars("timing"), 2, 2), "");
    assert_eq!(join("ab", "µc"), "abµc");
    assert!(equal_ignoring_case("PF", "pf") && !equal_ignoring_case("pf", "pff"));
    assert!(!equal_ignoring_case("É", "é"), "letters beyond ASCII have one case");
    assert_eq!((to_lower('Q'), to_lower('q'), to_lower('É')), ('q', 'q', 'É'));
    for n in [0u64, 7, 10, 1234567890, u64::MAX] {
        assert_eq!(decimal_text(n), format!("{n}"));
        assert_eq!(hex_text(n, 16), format!("{n:016x}"));
    }
    assert_eq!(hex_text(0xab, 8), "000000ab");
}

#[test]
fn a_name_map_holds_the_last_value_of_a_name() {
    let mut m = NameMap::new();
    assert!(m.get("a").is_none());
    m.insert("a".to_string(), 1);
    m.insert("b".to_string(), 2);
    m.insert("a".to_string(), 3);
    assert_eq!((m.get("a"), m.get("b")), (Some(&3), Some(&2)));
    assert!(m.contains_key("b") && !m.contains_key("c"));
}

/// A map is walked in the order of its names, each once.
#[test]
fn a_name_map_is_walked_in_order() {
    let mut m = NameMap::default();
    assert!(m.is_empty() && m.len() == 0);
    for (i, name) in ["nor2", "and2", "É", "", "and", "Z", "and2", "nor2"].iter().enumerate() {
        m.insert(name.to_string(), i);
    }
    assert_eq!(m.names(), ["", "Z", "and", "and2", "nor2", "É"]);
    assert_eq!((m.len(), m.is_empty()), (6, false));
    assert_eq!(m.names().iter().map(|n| *m.get(n).unwrap()).collect::<Vec<_>>(), [3, 5, 4, 6, 7, 2]);
    let mut want = m.names();
    want.sort();
    assert_eq!(m.names(), want);
    let mut copy = m.clone();
    assert_eq!(copy, m);
    copy.insert("and".to_string(), 9);
    assert_ne!(copy, m);
    assert!(comes_before("a", "ab") && !comes_before("ab", "a") && !comes_before("a", "a"));
}
