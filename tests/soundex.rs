use soundex::american_soundex_code;
use soundex::american_soundex;
use soundex::runs::collapse_runs;

#[test]
fn american_soundex_correct() {
    let params: Vec<(&str, &str)> = vec![
        ("", "0000"),
        ("007bond", "0153"),
        ("Ashcraft", "A261"),
        ("Pfister", "P236"),
        ("Robert", "R163"),
        ("Rubin", "R150"),
        ("Rupert", "R163"),
        ("Toto", "T300"),
        ("Tymczak", "T522"),
        ("husobee", "H210"),
        ("touchstone", "T235"),
        ("heart \u{201a}\u{f9}\u{a7}", "H630"),
    ];

    for (i, o) in params {
        assert_eq!(american_soundex(i), o.to_string());
    }
}

#[test]
fn code_is_four_ascii_symbols_with_digit_tail() {
    let inputs = [
        "", "a", "Lloyd", "  spaced  ", "1abc", "\u{2764}", "Wh\u{e9}ler", "x!y?z", "QQQQQQQQQQ",
        "Washington",
    ];
    for s in inputs {
        let code = american_soundex(s);
        assert_eq!(code.len(), 4);
        assert!(code.is_ascii());
        for c in code.chars().skip(1) {
            assert!(('0'..='6').contains(&c), "{} gave {}", s, code);
        }
    }
}

#[test]
fn repeated_calls_agree() {
    for s in ["Robert", "", "Tymczak", "007bond"] {
        assert_eq!(american_soundex(s), american_soundex(s));
    }
}

#[test]
fn non_ascii_characters_are_ignored() {
    assert_eq!(american_soundex("Ro\u{2764}bert"), american_soundex("Robert"));
    assert_eq!(american_soundex("\u{2764}Robert\u{e9}"), "R163");
    assert_eq!(american_soundex("\u{e9}\u{2764}"), "0000");
    assert_eq!(american_soundex("T\u{f6}oto"), "T300");
    // once the non-ASCII character is gone the two Ts are one run
    assert_eq!(american_soundex("T\u{f6}to"), american_soundex("Tto"));
    assert_eq!(american_soundex("T\u{f6}to"), "T000");
}

#[test]
fn doubled_letters_and_h_w_collapse() {
    assert_eq!(american_soundex("Lloyd"), "L300");
    assert_eq!(american_soundex("Ashcraft"), "A261");
    assert_eq!(american_soundex("Washington"), "W252");
    assert_eq!(american_soundex("lowercase"), american_soundex("LOWERCASE"));
}

#[test]
fn leading_non_letter_is_kept() {
    assert_eq!(american_soundex("1abc"), "1120");
    assert_eq!(american_soundex(" bob"), " 110");
    assert_eq!(american_soundex("a"), "A000");
    assert_eq!(american_soundex("Pppppfbv"), "P000");
}

#[test]
fn long_input_is_truncated() {
    assert_eq!(american_soundex("Bcdlmnr"), "B234");
}

#[test]
fn class_table() {
    for c in [b'B', b'F', b'P', b'V'] {
        assert_eq!(american_soundex_code(c), Some(b'1'));
    }
    for c in [b'C', b'G', b'J', b'K', b'Q', b'S', b'X', b'Z'] {
        assert_eq!(american_soundex_code(c), Some(b'2'));
    }
    assert_eq!(american_soundex_code(b'D'), Some(b'3'));
    assert_eq!(american_soundex_code(b'T'), Some(b'3'));
    assert_eq!(american_soundex_code(b'L'), Some(b'4'));
    assert_eq!(american_soundex_code(b'M'), Some(b'5'));
    assert_eq!(american_soundex_code(b'N'), Some(b'5'));
    assert_eq!(american_soundex_code(b'R'), Some(b'6'));
    for c in [b'A', b'E', b'I', b'O', b'U', b'Y', b'H', b'W', b'b', b'0', b' '] {
        assert_eq!(american_soundex_code(c), None);
    }
}

#[test]
fn runs_keep_first_of_each() {
    let items = vec![
        (b'L', Some(b'4')),
        (b'L', Some(b'4')),
        (b'O', None),
        (b'Y', None),
        (b'D', Some(b'3')),
        (b'T', Some(b'3')),
        (b'L', Some(b'4')),
    ];
    let heads = collapse_runs(items);
    assert_eq!(
        heads,
        vec![(b'L', Some(b'4')), (b'O', None), (b'D', Some(b'3')), (b'L', Some(b'4'))]
    );
    assert_eq!(collapse_runs(vec![]), vec![]);
}
