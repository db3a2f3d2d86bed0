use dispatch_synth::utils::{
    is_prefix, starts_with_case_insensitive, InPlace, StringTrimInPlace,
};

fn chars(text: &str) -> Vec<char> {
    text.chars().collect()
}

#[test]
fn in_place_keeps_what_the_mutator_picks() {
    let mut text = String::from("  keep me  ");
    text.in_place(str::trim);
    assert_eq!(text, "keep me");

    let mut text = String::from("abcdef");
    text.in_place(|t| &t[2..4]);
    assert_eq!(text, "cd");

    let mut text = String::from("whole");
    text.in_place(|t| t);
    assert_eq!(text, "whole");

    let mut text = String::from("gone");
    text.in_place(|_| "");
    assert_eq!(text, "");
}

#[test]
fn trim_in_place_trims() {
    let mut text = String::from(" \t UART_RX\n");
    text.trim_in_place();
    assert_eq!(text, "UART_RX");

    let mut text = String::from("   ");
    text.trim_in_place();
    assert_eq!(text, "");

    let mut text = String::from("a  b");
    text.trim_in_place();
    assert_eq!(text, "a  b");
}

#[test]
fn is_prefix_compares_the_beginning() {
    assert!(is_prefix(&chars(""), &chars("")));
    assert!(is_prefix(&chars(""), &chars("abc")));
    assert!(is_prefix(&chars("ab"), &chars("abc")));
    assert!(is_prefix(&chars("abc"), &chars("abc")));
    assert!(!is_prefix(&chars("abcd"), &chars("abc")));
    assert!(!is_prefix(&chars("abc"), &chars("")));
    assert!(!is_prefix(&chars("ac"), &chars("abc")));
    assert!(!is_prefix(&chars("b"), &chars("abc")));
    assert!(!is_prefix(&chars("abd"), &chars("abc")));
}

#[test]
fn starts_with_case_insensitive_ignores_case() {
    assert!(starts_with_case_insensitive("RESERVED0", "reserved"));
    assert!(starts_with_case_insensitive("Reserved1", "reserved"));
    assert!(starts_with_case_insensitive("reserved", "RESERVED"));
    assert!(starts_with_case_insensitive("rEsErVeD_x", "ReSeRvEd"));
    assert!(starts_with_case_insensitive("anything", ""));
    assert!(starts_with_case_insensitive("", ""));
}

#[test]
fn starts_with_case_insensitive_needs_the_whole_prefix() {
    assert!(!starts_with_case_insensitive("RESERVE", "reserved"));
    assert!(!starts_with_case_insensitive("", "reserved"));
    assert!(!starts_with_case_insensitive("UART_RX", "reserved"));
    assert!(!starts_with_case_insensitive("_reserved", "reserved"));
    assert!(!starts_with_case_insensitive(" reserved", "reserved"));
    assert!(!starts_with_case_insensitive("resorved", "reserved"));
}

#[test]
fn starts_with_case_insensitive_folds_other_scripts() {
    assert!(starts_with_case_insensitive("Äpfel", "äp"));
    assert!(starts_with_case_insensitive("äpfel", "ÄP"));
    assert!(starts_with_case_insensitive("İstanbul", "i\u{307}s"));
    assert!(!starts_with_case_insensitive("Äpfel", "ap"));
}

#[test]
fn starts_with_case_insensitive_compares_lowercase_forms_and_not_bytes() {
    // The Kelvin sign takes three bytes and has the one-byte letter k as its lowercase form.
    assert!(!starts_with_case_insensitive("\u{212a}", "kkk"));
    assert!(!starts_with_case_insensitive("\u{212a}", "kx"));
    assert!(starts_with_case_insensitive("kx", "\u{212a}"));
    assert!(starts_with_case_insensitive("\u{212a}x", "k"));
    assert!(starts_with_case_insensitive("\u{212a}x", "KX"));
    assert!(starts_with_case_insensitive("kxx", "\u{212a}"));
    assert!(starts_with_case_insensitive("k", "\u{212a}"));
    // One character may have two as its lowercase form.
    assert!(starts_with_case_insensitive("İ", "i"));
    assert!(!starts_with_case_insensitive("i", "İ"));
}

#[test]
fn starts_with_case_insensitive_is_a_prefix_test_on_the_lowercase_characters() {
    let samples = [
        "", "r", "reserved", "RESERVED0", "Reserved1", "reserve", "UART_RX", " reserved",
        "Äpfel", "äp", "İstanbul", "i\u{307}s", "\u{212a}", "kx", "k", "kkk", "ΣΑΣ", "σας", "ß",
        "SS",
    ];
    for a in samples {
        for b in samples {
            let lower_a: Vec<char> = a.chars().flat_map(char::to_lowercase).collect();
            let lower_b: Vec<char> = b.chars().flat_map(char::to_lowercase).collect();
            let expected = lower_a.starts_with(&lower_b);
            assert_eq!(starts_with_case_insensitive(a, b), expected, "for {:?} and {:?}", a, b);
        }
    }
}

#[test]
fn starts_with_case_insensitive_is_the_plain_prefix_test_on_lowercase_ascii() {
    let samples = ["", "r", "reserved", "reserved0", "reserve", "uart_rx", " reserved", "_"];
    for a in samples {
        for b in samples {
            assert_eq!(starts_with_case_insensitive(a, b), a.starts_with(b));
            assert_eq!(starts_with_case_insensitive(&a.to_uppercase(), b), a.starts_with(b));
            assert_eq!(starts_with_case_insensitive(a, &b.to_uppercase()), a.starts_with(b));
        }
    }
}
