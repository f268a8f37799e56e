//! Strings, and the answers about keysyms.

use niri_input::keysyms::{Keysyms, Lookup, KEY_RETURN, KEY_TAB, NO_SYMBOL};
use niri_input::text::{
    char_vec, is_whitespace, lower_char, lowercase_is, same, split_once, split_trimmed, trim,
};

#[test]
fn characters_of_a_string() {
    assert_eq!(char_vec("a\u{20ac}\n"), vec!['a', '\u{20ac}', '\n']);
    assert_eq!(char_vec(""), Vec::<char>::new());
}

#[test]
fn same_compares_contents() {
    assert!(same("key", "key"));
    assert!(!same("key", "keys"));
    assert!(!same("key", "Key"));
    assert!(same("", ""));
}

#[test]
fn whitespace_agrees_with_std() {
    for n in 0..=0x10ffff_u32 {
        if let Some(c) = char::from_u32(n) {
            assert_eq!(is_whitespace(c), c.is_whitespace(), "{n:#x}");
        }
    }
}

#[test]
fn lower_case_agrees_with_std() {
    for n in 0..=0x10ffff_u32 {
        if let Some(c) = char::from_u32(n) {
            assert_eq!(lower_char(c), c.to_ascii_lowercase(), "{n:#x}");
        }
    }
}

#[test]
fn lowercase_is_folds_only_ascii_letters() {
    assert!(lowercase_is("CTRL", "ctrl"));
    assert!(lowercase_is("ISO_Level3_Shift", "iso_level3_shift"));
    assert!(!lowercase_is("ctrl", "CTRL"));
    assert!(!lowercase_is("ctrl ", "ctrl"));
    assert!(!lowercase_is("\u{212a}ey", "key"));
}

#[test]
fn split_once_agrees_with_std() {
    for s in ["", ":", "text:a:b", "text", ":x", "x:", "\u{20ac}:\u{20ac}"] {
        assert_eq!(split_once(s, ':'), s.split_once(':'), "{s:?}");
    }
}

#[test]
fn trim_agrees_with_std() {
    for s in ["", " ", " a b ", "\u{3000}x\u{85}", "x", "\t\n", "a ", " a"] {
        assert_eq!(trim(s), s.trim(), "{s:?}");
    }
}

#[test]
fn split_trimmed_agrees_with_std() {
    for s in ["", "+", "++", "ctrl+r", " ctrl + shift +r ", "a+", "+a", "a+ +b", "\u{2003}+x"] {
        let expected: Vec<&str> =
            s.split('+').map(str::trim).filter(|piece| !piece.is_empty()).collect();
        assert_eq!(split_trimmed(s, '+'), expected, "{s:?}");
    }
}

#[test]
fn keysyms_keep_the_latest_answer() {
    let mut keysyms = Keysyms::new();
    assert_eq!(keysyms.get(&Lookup::Char('a')), None);
    keysyms.insert(Lookup::Char('a'), 1);
    keysyms.insert(Lookup::Name("a".to_string()), 2);
    keysyms.insert(Lookup::FoldedName("a".to_string()), 3);
    assert_eq!(keysyms.get(&Lookup::Char('a')), Some(1));
    assert_eq!(keysyms.get(&Lookup::Name("a".to_string())), Some(2));
    assert_eq!(keysyms.get(&Lookup::FoldedName("a".to_string())), Some(3));
    assert_eq!(keysyms.get(&Lookup::Char('b')), None);
    keysyms.insert(Lookup::Char('a'), 4);
    assert_eq!(keysyms.get(&Lookup::Char('a')), Some(4));
    assert_eq!(keysyms.get(&Lookup::Name("a".to_string())), Some(2));
}

#[test]
fn lookups_of_different_kinds_differ() {
    let name = Lookup::Name("a".to_string());
    assert!(name.is(&Lookup::Name("a".to_string())));
    assert!(!name.is(&Lookup::Name("A".to_string())));
    assert!(!name.is(&Lookup::FoldedName("a".to_string())));
    assert!(!name.is(&Lookup::Char('a')));
}

#[test]
fn named_keysyms_are_those_of_the_keyboard_library() {
    assert_eq!(NO_SYMBOL, xkeysym::Keysym::NoSymbol.raw());
    assert_eq!(KEY_RETURN, xkeysym::Keysym::Return.raw());
    assert_eq!(KEY_TAB, xkeysym::Keysym::Tab.raw());
}
