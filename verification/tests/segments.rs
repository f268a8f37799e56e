//! Translating segments into chords.

use niri_input::keysyms::{Keysyms, Lookup};
use niri_input::segments::{
    parse_combo, translate, translate_all, translate_combo, translate_segment, translate_text,
    SegmentError, Stop,
};
use std::cell::RefCell;
use xkeysym::Keysym;

/// What the tables of keysyms say: the first keysym of a name, and the keysym of a character.
fn keyboard(lookup: &Lookup) -> u32 {
    let named = |wanted: &dyn Fn(&str) -> bool| {
        (1..=0xffff_u32).find(|raw| {
            let name = Keysym::new(*raw).name().and_then(|name| name.strip_prefix("XK_"));
            name.is_some_and(wanted)
        })
    };
    match lookup {
        Lookup::Name(name) => named(&|other| other == name).unwrap_or(0),
        Lookup::FoldedName(name) => named(&|other| other.eq_ignore_ascii_case(name)).unwrap_or(0),
        Lookup::Char(c) => Keysym::from_char(*c).raw(),
    }
}

/// Translates with a table of answers, answering what is asked for; also gives the questions in
/// order.
fn answered<T>(translation: impl Fn(&Keysyms) -> Result<T, Stop>) -> (Result<T, Stop>, Vec<Lookup>) {
    let mut keysyms = Keysyms::new();
    let mut asked = Vec::new();
    loop {
        match translation(&keysyms) {
            Err(Stop::Ask(lookup)) => {
                let keysym = keyboard(&lookup);
                asked.push(copy(&lookup));
                keysyms.insert(lookup, keysym);
            }
            outcome => return (outcome, asked),
        }
    }
}

fn copy(lookup: &Lookup) -> Lookup {
    match lookup {
        Lookup::Name(name) => Lookup::Name(name.clone()),
        Lookup::FoldedName(name) => Lookup::FoldedName(name.clone()),
        Lookup::Char(c) => Lookup::Char(*c),
    }
}

fn combo(combo: &str) -> Result<Vec<u32>, Stop> {
    parse_combo(combo, &keyboard)
}

/// Parses a combination; also gives the questions in order.
fn combo_asked(combo: &str) -> (Result<Vec<u32>, Stop>, Vec<Lookup>) {
    let asked = RefCell::new(Vec::new());
    let outcome = parse_combo(combo, &|lookup: &Lookup| {
        asked.borrow_mut().push(copy(lookup));
        keyboard(lookup)
    });
    (outcome, asked.into_inner())
}

fn strings(segments: &[&str]) -> Vec<String> {
    segments.iter().map(|segment| segment.to_string()).collect()
}

fn all(segments: &[&str]) -> Result<Vec<Vec<u32>>, Stop> {
    translate_all(&strings(segments), &keyboard)
}

#[test]
fn combo_puts_modifiers_first_and_key_last() {
    assert_eq!(combo("ctrl+shift+r"), Ok(vec![0xffe3, 0xffe1, 0x72]));
    assert_eq!(combo("shift+ctrl+r"), Ok(vec![0xffe1, 0xffe3, 0x72]));
    assert_eq!(combo("Return"), Ok(vec![0xff0d]));
}

#[test]
fn combo_knows_every_modifier() {
    for (names, keysym) in [
        (vec!["ctrl", "control", "ctl", "Ctrl", "CONTROL"], 0xffe3),
        (vec!["shift", "SHIFT"], 0xffe1),
        (vec!["alt", "mod1", "meta", "Mod1"], 0xffe9),
        (vec!["super", "logo", "win", "mod4", "Super"], 0xffeb),
        (vec!["altgr", "iso_level3_shift", "mod5", "ISO_Level3_Shift"], 0xfe03),
    ] {
        for name in names {
            assert_eq!(combo(&format!("{name}+r")), Ok(vec![keysym, 0x72]), "{name}");
        }
    }
}

#[test]
fn combo_trims_parts_and_drops_empty_ones() {
    assert_eq!(combo("  ctrl \t+ + r +"), Ok(vec![0xffe3, 0x72]));
    assert_eq!(combo("+r"), Ok(vec![0x72]));
    assert_eq!(combo("\u{3000}r\u{a0}"), Ok(vec![0x72]));
}

#[test]
fn combo_repeats_a_repeated_modifier() {
    assert_eq!(combo("ctrl+control+r"), Ok(vec![0xffe3, 0xffe3, 0x72]));
}

#[test]
fn combo_tries_exact_name_then_folded_name_then_character() {
    let (outcome, asked) = combo_asked("Return");
    assert_eq!(outcome, Ok(vec![0xff0d]));
    assert_eq!(asked, vec![Lookup::Name("Return".to_string())]);

    let (outcome, asked) = combo_asked("RETURN");
    assert_eq!(outcome, Ok(vec![0xff0d]));
    assert_eq!(
        asked,
        vec![Lookup::Name("RETURN".to_string()), Lookup::FoldedName("RETURN".to_string())],
    );

    let (outcome, asked) = combo_asked("#");
    assert_eq!(outcome, Ok(vec![0x23]));
    assert_eq!(
        asked,
        vec![
            Lookup::Name("#".to_string()),
            Lookup::FoldedName("#".to_string()),
            Lookup::Char('#'),
        ],
    );
}

#[test]
fn combo_without_key_is_malformed() {
    for text in ["", " ", "+", " + + "] {
        assert_eq!(combo(text), Err(Stop::Malformed(SegmentError::UnknownCombo)), "{text:?}");
    }
}

#[test]
fn combo_with_unknown_modifier_is_malformed() {
    let (outcome, asked) = combo_asked("ctrl+hyper+r");
    assert_eq!(outcome, Err(Stop::Malformed(SegmentError::UnknownCombo)));
    assert_eq!(asked, vec![Lookup::Name("Control_L".to_string())]);
}

#[test]
fn combo_with_unknown_key_is_malformed() {
    let unknown = Err(Stop::Malformed(SegmentError::UnknownCombo));
    assert_eq!(combo("ctrl+nosuchkey"), unknown);
    // A single character without a keysym.
    assert_eq!(combo("\u{fdd0}"), unknown);
    assert_eq!(combo("\u{fdd0}x"), unknown);
}

#[test]
fn modifier_name_alone_is_the_key() {
    // `ctrl` is no keysym name: as the last part it is looked up as a key.
    assert_eq!(combo("ctrl"), Err(Stop::Malformed(SegmentError::UnknownCombo)));
    assert_eq!(combo("shift+Return"), Ok(vec![0xffe1, 0xff0d]));
}

#[test]
fn combo_case_matters_for_the_exact_name() {
    assert_eq!(combo("R"), Ok(vec![0x52]));
    assert_eq!(combo("r"), Ok(vec![0x72]));
}

#[test]
fn text_is_one_keypress_per_character() {
    let (outcome, asked) = answered(|keysyms| translate_text(keysyms, "aB\u{20ac}"));
    assert_eq!(outcome, Ok(vec![vec![0x61], vec![0x42], vec![0x20ac]]));
    assert_eq!(asked, vec![Lookup::Char('a'), Lookup::Char('B'), Lookup::Char('\u{20ac}')]);
}

#[test]
fn text_turns_line_breaks_and_tabs_into_keys() {
    let (outcome, asked) = answered(|keysyms| translate_text(keysyms, "\n\r\t"));
    assert_eq!(outcome, Ok(vec![vec![0xff0d], vec![0xff0d], vec![0xff09]]));
    assert_eq!(asked, vec![]);
}

#[test]
fn text_skips_characters_without_a_keysym() {
    let (outcome, _) = answered(|keysyms| translate_text(keysyms, "a\u{fdd0}b"));
    assert_eq!(outcome, Ok(vec![vec![0x61], vec![0x62]]));
    let (outcome, _) = answered(|keysyms| translate_text(keysyms, "\u{fdd0}"));
    assert_eq!(outcome, Ok(vec![]));
}

#[test]
fn text_asks_for_each_character_once() {
    let (outcome, asked) = answered(|keysyms| translate_text(keysyms, "aba"));
    assert_eq!(outcome, Ok(vec![vec![0x61], vec![0x62], vec![0x61]]));
    assert_eq!(asked, vec![Lookup::Char('a'), Lookup::Char('b')]);
}

#[test]
fn text_segment_keeps_further_colons() {
    let (outcome, _) = answered(|keysyms| translate_segment(keysyms, "text:a:b"));
    assert_eq!(outcome, Ok(vec![vec![0x61], vec![0x3a], vec![0x62]]));
}

#[test]
fn text_segment_is_not_trimmed() {
    let (outcome, _) = answered(|keysyms| translate_segment(keysyms, "text: a"));
    assert_eq!(outcome, Ok(vec![vec![0x20], vec![0x61]]));
}

#[test]
fn key_and_keys_mean_the_same() {
    let (key, _) = answered(|keysyms| translate_segment(keysyms, "key:ctrl+r"));
    let (keys, _) = answered(|keysyms| translate_segment(keysyms, "keys:ctrl+r"));
    assert_eq!(key, Ok(vec![vec![0xffe3, 0x72]]));
    assert_eq!(keys, key);
}

#[test]
fn segment_without_colon_is_malformed() {
    assert_eq!(all(&["text"]), Err(Stop::Malformed(SegmentError::NoSeparator)));
    assert_eq!(all(&[""]), Err(Stop::Malformed(SegmentError::NoSeparator)));
}

#[test]
fn segment_of_unknown_kind_is_malformed() {
    for segment in ["Text:a", " text:a", "keyss:r", ":a", "\u{20ac}:a"] {
        assert_eq!(all(&[segment]), Err(Stop::Malformed(SegmentError::UnknownKind)), "{segment}");
    }
}

#[test]
fn segment_with_bad_combo_is_malformed() {
    assert_eq!(all(&["key:"]), Err(Stop::Malformed(SegmentError::UnknownCombo)));
}

#[test]
fn segments_are_translated_in_order() {
    assert_eq!(
        all(&["text:ab", "key:ctrl+r", "text:\n"]),
        Ok(vec![vec![0x61], vec![0x62], vec![0xffe3, 0x72], vec![0xff0d]]),
    );
    let mut first = all(&["text:ab"]).unwrap();
    first.extend(all(&["key:ctrl+r", "text:\n"]).unwrap());
    assert_eq!(all(&["text:ab", "key:ctrl+r", "text:\n"]), Ok(first));
    assert_eq!(all(&[]), Ok(vec![]));
    assert_eq!(all(&["text:"]), Ok(vec![]));
}

#[test]
fn one_bad_segment_stops_all() {
    assert_eq!(
        all(&["text:a", "bad", "text:b"]),
        Err(Stop::Malformed(SegmentError::NoSeparator)),
    );
    // The first bad segment is the one reported.
    assert_eq!(
        all(&["nope:a", "bad"]),
        Err(Stop::Malformed(SegmentError::UnknownKind)),
    );
}

#[test]
fn translation_asks_for_what_is_unknown() {
    let segments = strings(&["text:\na"]);
    let mut keysyms = Keysyms::new();
    assert_eq!(translate(&keysyms, &segments), Err(Stop::Ask(Lookup::Char('a'))));
    keysyms.insert(Lookup::Char('a'), 0x61);
    assert_eq!(translate(&keysyms, &segments), Ok(vec![vec![0xff0d], vec![0x61]]));
    // Further answers change nothing.
    keysyms.insert(Lookup::Char('b'), 0x62);
    assert_eq!(translate(&keysyms, &segments), Ok(vec![vec![0xff0d], vec![0x61]]));
}

#[test]
fn nothing_is_asked_behind_a_malformed_segment() {
    let segments = strings(&["bad", "text:a"]);
    assert_eq!(
        translate(&Keysyms::new(), &segments),
        Err(Stop::Malformed(SegmentError::NoSeparator)),
    );
}

#[test]
fn known_names_are_those_of_the_keyboard_library() {
    assert_eq!(
        combo("ctrl+shift+alt+super+altgr+F1"),
        Ok(vec![
            Keysym::Control_L.raw(),
            Keysym::Shift_L.raw(),
            Keysym::Alt_L.raw(),
            Keysym::Super_L.raw(),
            Keysym::ISO_Level3_Shift.raw(),
            Keysym::F1.raw(),
        ]),
    );
    assert_eq!(combo("escape"), Ok(vec![Keysym::Escape.raw()]));
}

#[test]
fn leading_modifier_adds_its_keysym_in_front() {
    for rest in ["r", "shift+r", " alt + Return", "shift+nosuchkey", "hyper+r"] {
        let expected = combo(rest).map(|chord| {
            let mut all = vec![0xffe3];
            all.extend(chord);
            all
        });
        assert_eq!(combo(&format!("ctrl+{rest}")), expected, "{rest}");
    }
}

#[test]
fn modifier_with_nothing_behind_it_is_the_key() {
    let unknown = Err(Stop::Malformed(SegmentError::UnknownCombo));
    for rest in ["", " ", "+", " + "] {
        assert_eq!(combo(rest), unknown, "{rest:?}");
        // No key is called `ctrl`.
        assert_eq!(combo(&format!("ctrl+{rest}")), unknown, "{rest:?}");
        // This modifier is also the name of a key.
        assert_eq!(combo(&format!("iso_level3_shift+{rest}")), Ok(vec![0xfe03]), "{rest:?}");
    }
}

#[test]
fn combo_with_given_answers() {
    let mut keysyms = Keysyms::new();
    let name = || Lookup::Name("Return".to_string());
    assert_eq!(translate_combo(&keysyms, "Return"), Err(Stop::Ask(name())));
    keysyms.insert(name(), 0xff0d);
    assert_eq!(translate_combo(&keysyms, "Return"), Ok(vec![0xff0d]));
}

#[test]
fn asking_agrees_with_given_answers() {
    let segments = strings(&["text:a\n\u{20ac}", "key:Ctrl+RETURN", "keys:#"]);
    let (expected, _) = answered(|keysyms| translate(keysyms, &segments));
    assert_eq!(translate_all(&segments, &keyboard), expected);
    assert_eq!(
        expected,
        Ok(vec![vec![0x61], vec![0xff0d], vec![0x20ac], vec![0xffe3, 0xff0d], vec![0x23]]),
    );
}

#[test]
fn keyboard_is_asked_once_for_each_question_in_order() {
    let asked = RefCell::new(Vec::new());
    let outcome = translate_all(&strings(&["text:aba", "key:ctrl+r", "bad", "text:z"]), &|lookup: &Lookup| {
        asked.borrow_mut().push(copy(lookup));
        keyboard(lookup)
    });
    assert_eq!(outcome, Err(Stop::Malformed(SegmentError::NoSeparator)));
    assert_eq!(
        asked.into_inner(),
        vec![
            Lookup::Char('a'),
            Lookup::Char('b'),
            Lookup::Name("Control_L".to_string()),
            Lookup::Name("r".to_string()),
        ],
    );
}

#[test]
fn nul_in_a_text_is_asked_for_as_a_character() {
    let outcome = translate_all(&strings(&["text:\0"]), &|lookup: &Lookup| match lookup {
        Lookup::Char('\0') => 7,
        _ => panic!("no name is asked for"),
    });
    assert_eq!(outcome, Ok(vec![vec![7]]));
}
