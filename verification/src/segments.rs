//! Translating input segments into chords of keysyms.
//!
//! A segment is `text:<literal>` or `key:<combo>`. Each character of a text becomes a chord of
//! its own; a combination such as `ctrl+shift+r` becomes one chord, modifiers first.

use crate::keyboard::{all_answers, given, is_function, lemma_given, lemma_given_insert};
use crate::keysyms::{Keysyms, Lookup, LookupView, KEY_RETURN, KEY_TAB, NO_SYMBOL};
use crate::text::{
    ascii_lower, char_vec, contents, is_space, law_split_at_first, law_trimmed,
    lemma_pieces_hold_no_separator, lemma_pieces_joined, lemma_reads_as, lemma_single_piece,
    lemma_split_at_first, lemma_trimmed_nonempty, lemma_trimmed_nonempty_joined, lowercase_is,
    pieces, reads_as, same, split_at_first, split_once, split_trimmed, trimmed, trimmed_nonempty,
};
use vstd::prelude::*;
use vstd::seq_lib::seq_to_set_is_finite;

verus! {

/// What is wrong with a segment.
#[derive(Clone, Copy, Debug, PartialEq, Eq, Structural)]
pub enum SegmentError {
    /// It has no `:`.
    NoSeparator,
    /// What stands before its first `:` is not `text`, `key` or `keys`.
    UnknownKind,
    /// Its key combination is empty, or names an unknown modifier or an unknown key.
    UnknownCombo,
}

/// Why input was not sent.
#[derive(Debug, PartialEq, Eq)]
pub enum Stop {
    /// The answer to this question is needed first.
    Ask(Lookup),
    /// A segment is malformed.
    Malformed(SegmentError),
    /// There is no window with the given id.
    NoWindow,
}

/// A [`Stop`] by its contents.
pub enum StopView {
    Ask(LookupView),
    Malformed(SegmentError),
    NoWindow,
}

impl View for Stop {
    type V = StopView;

    open spec fn view(&self) -> StopView {
        match *self {
            Stop::Ask(lookup) => StopView::Ask(lookup@),
            Stop::Malformed(error) => StopView::Malformed(error),
            Stop::NoWindow => StopView::NoWindow,
        }
    }
}

/// The contents of a list of lists.
pub open spec fn nested<T>(lists: Seq<Vec<T>>) -> Seq<Seq<T>> {
    lists.map_values(|list: Vec<T>| list@)
}

/// The outcome of translating one combination, by its contents.
pub open spec fn chord_outcome(outcome: Result<Vec<u32>, Stop>) -> Result<Seq<u32>, StopView> {
    match outcome {
        Ok(chord) => Ok(chord@),
        Err(stop) => Err(stop@),
    }
}

/// The outcome of a translation into chords, by its contents.
pub open spec fn chords_outcome(outcome: Result<Vec<Vec<u32>>, Stop>) -> Result<
    Seq<Seq<u32>>,
    StopView,
> {
    match outcome {
        Ok(chords) => Ok(nested(chords@)),
        Err(stop) => Err(stop@),
    }
}

/// The answer to `lookup`, or the need to ask for it.
pub open spec fn answer(answers: Map<LookupView, u32>, lookup: LookupView) -> Result<
    u32,
    StopView,
> {
    if answers.contains_key(lookup) {
        Ok(answers[lookup])
    } else {
        Err(StopView::Ask(lookup))
    }
}

/// The name of the keysym that a modifier in a combination stands for. Upper and lower case are
/// taken as equal.
pub open spec fn modifier_name(modifier: Seq<char>) -> Option<Seq<char>> {
    let lower = ascii_lower(modifier);
    if lower == "ctrl"@ || lower == "control"@ || lower == "ctl"@ {
        Some("Control_L"@)
    } else if lower == "shift"@ {
        Some("Shift_L"@)
    } else if lower == "alt"@ || lower == "mod1"@ || lower == "meta"@ {
        Some("Alt_L"@)
    } else if lower == "super"@ || lower == "logo"@ || lower == "win"@ || lower == "mod4"@ {
        Some("Super_L"@)
    } else if lower == "altgr"@ || lower == "iso_level3_shift"@ || lower == "mod5"@ {
        Some("ISO_Level3_Shift"@)
    } else {
        None
    }
}

/// The keysyms of the given modifiers, in their order.
pub open spec fn modifier_keysyms(
    answers: Map<LookupView, u32>,
    modifiers: Seq<Seq<char>>,
) -> Result<Seq<u32>, StopView>
    decreases modifiers.len(),
{
    if modifiers.len() == 0 {
        Ok(seq![])
    } else {
        match modifier_keysyms(answers, modifiers.drop_last()) {
            Err(stop) => Err(stop),
            Ok(before) => match modifier_name(modifiers.last()) {
                None => Err(StopView::Malformed(SegmentError::UnknownCombo)),
                Some(name) => match answer(answers, LookupView::Name(name)) {
                    Err(stop) => Err(stop),
                    Ok(keysym) => Ok(before.push(keysym)),
                },
            },
        }
    }
}

/// The keysym of the main key of a combination: that of the exact name, else that of the name
/// with case ignored, else, for a single character, that of the character.
pub open spec fn key_keysym(answers: Map<LookupView, u32>, key: Seq<char>) -> Result<
    u32,
    StopView,
> {
    match answer(answers, LookupView::Name(key)) {
        Err(stop) => Err(stop),
        Ok(exact) => if exact != NO_SYMBOL {
            Ok(exact)
        } else {
            match answer(answers, LookupView::FoldedName(key)) {
                Err(stop) => Err(stop),
                Ok(folded) => if folded != NO_SYMBOL {
                    Ok(folded)
                } else if key.len() != 1 {
                    Err(StopView::Malformed(SegmentError::UnknownCombo))
                } else {
                    match answer(answers, LookupView::Char(key[0])) {
                        Err(stop) => Err(stop),
                        Ok(of_char) => if of_char != NO_SYMBOL {
                            Ok(of_char)
                        } else {
                            Err(StopView::Malformed(SegmentError::UnknownCombo))
                        },
                    }
                },
            }
        },
    }
}

/// The parts of a combination: what stands between the `+` signs, trimmed, without empty parts.
pub open spec fn combo_parts(combo: Seq<char>) -> Seq<Seq<char>> {
    trimmed_nonempty(pieces(combo, '+'))
}

/// The chord of a combination: the keysyms of its modifiers, then that of its main key, which
/// comes last.
pub open spec fn combo_chord(answers: Map<LookupView, u32>, combo: Seq<char>) -> Result<
    Seq<u32>,
    StopView,
> {
    let parts = combo_parts(combo);
    if parts.len() == 0 {
        Err(StopView::Malformed(SegmentError::UnknownCombo))
    } else {
        match modifier_keysyms(answers, parts.drop_last()) {
            Err(stop) => Err(stop),
            Ok(modifiers) => match key_keysym(answers, parts.last()) {
                Err(stop) => Err(stop),
                Ok(key) => Ok(modifiers.push(key)),
            },
        }
    }
}

/// The keysym of a character of a text: Return for a line break, Tab for a tab.
pub open spec fn char_keysym(answers: Map<LookupView, u32>, c: char) -> Result<u32, StopView> {
    if c == '\n' || c == '\r' {
        Ok(KEY_RETURN)
    } else if c == '\t' {
        Ok(KEY_TAB)
    } else {
        answer(answers, LookupView::Char(c))
    }
}

/// The chords of a text: one for each character that has a keysym.
pub open spec fn text_chords(answers: Map<LookupView, u32>, text: Seq<char>) -> Result<
    Seq<Seq<u32>>,
    StopView,
>
    decreases text.len(),
{
    if text.len() == 0 {
        Ok(seq![])
    } else {
        match text_chords(answers, text.drop_last()) {
            Err(stop) => Err(stop),
            Ok(before) => match char_keysym(answers, text.last()) {
                Err(stop) => Err(stop),
                Ok(keysym) => Ok(
                    if keysym == NO_SYMBOL {
                        before
                    } else {
                        before.push(seq![keysym])
                    },
                ),
            },
        }
    }
}

/// The chords of one segment.
pub open spec fn segment_chords(answers: Map<LookupView, u32>, segment: Seq<char>) -> Result<
    Seq<Seq<u32>>,
    StopView,
> {
    match split_at_first(segment, ':') {
        None => Err(StopView::Malformed(SegmentError::NoSeparator)),
        Some((kind, value)) => if kind == "text"@ {
            text_chords(answers, value)
        } else if kind == "key"@ || kind == "keys"@ {
            match combo_chord(answers, value) {
                Err(stop) => Err(stop),
                Ok(chord) => Ok(seq![chord]),
            }
        } else {
            Err(StopView::Malformed(SegmentError::UnknownKind))
        },
    }
}

/// The chords of a list of segments, in order; the first thing that stops the translation stops
/// it for good.
pub open spec fn translation(answers: Map<LookupView, u32>, segments: Seq<Seq<char>>) -> Result<
    Seq<Seq<u32>>,
    StopView,
>
    decreases segments.len(),
{
    if segments.len() == 0 {
        Ok(seq![])
    } else {
        match translation(answers, segments.drop_last()) {
            Err(stop) => Err(stop),
            Ok(before) => match segment_chords(answers, segments.last()) {
                Err(stop) => Err(stop),
                Ok(chords) => Ok(before + chords),
            },
        }
    }
}

/// The contents of a sequence of segments.
pub open spec fn segment_contents(segments: Seq<String>) -> Seq<Seq<char>> {
    segments.map_values(|segment: String| segment@)
}

/// The answer to `lookup`, or the stop that asks for it.
fn ask(keysyms: &Keysyms, lookup: Lookup) -> (outcome: Result<u32, Stop>)
    ensures
        match outcome {
            Ok(keysym) => answer(keysyms@, lookup@) == Ok::<u32, StopView>(keysym),
            Err(stop) => answer(keysyms@, lookup@) == Err::<u32, StopView>(stop@),
        },
{
    match keysyms.get(&lookup) {
        Some(keysym) => Ok(keysym),
        None => Err(Stop::Ask(lookup)),
    }
}

/// The name of the keysym that a modifier in a combination stands for.
fn modifier_keysym_name(modifier: &str) -> (name: Option<&'static str>)
    ensures
        match name {
            Some(name) => modifier_name(modifier@) == Some(name@),
            None => modifier_name(modifier@) is None,
        },
{
    if lowercase_is(modifier, "ctrl") || lowercase_is(modifier, "control") || lowercase_is(
        modifier,
        "ctl",
    ) {
        Some("Control_L")
    } else if lowercase_is(modifier, "shift") {
        Some("Shift_L")
    } else if lowercase_is(modifier, "alt") || lowercase_is(modifier, "mod1") || lowercase_is(
        modifier,
        "meta",
    ) {
        Some("Alt_L")
    } else if lowercase_is(modifier, "super") || lowercase_is(modifier, "logo") || lowercase_is(
        modifier,
        "win",
    ) || lowercase_is(modifier, "mod4") {
        Some("Super_L")
    } else if lowercase_is(modifier, "altgr") || lowercase_is(modifier, "iso_level3_shift")
        || lowercase_is(modifier, "mod5") {
        Some("ISO_Level3_Shift")
    } else {
        None
    }
}

/// The keysym of the main key of a combination.
fn main_keysym(keysyms: &Keysyms, key: &str) -> (outcome: Result<u32, Stop>)
    ensures
        match outcome {
            Ok(keysym) => key_keysym(keysyms@, key@) == Ok::<u32, StopView>(keysym),
            Err(stop) => key_keysym(keysyms@, key@) == Err::<u32, StopView>(stop@),
        },
{
    let exact: u32 = match ask(keysyms, Lookup::Name(key.to_owned())) {
        Ok(keysym) => keysym,
        Err(stop) => return Err(stop),
    };
    if exact != NO_SYMBOL {
        return Ok(exact);
    }
    let folded: u32 = match ask(keysyms, Lookup::FoldedName(key.to_owned())) {
        Ok(keysym) => keysym,
        Err(stop) => return Err(stop),
    };
    if folded != NO_SYMBOL {
        return Ok(folded);
    }
    let chars: Vec<char> = char_vec(key);
    if chars.len() != 1 {
        return Err(Stop::Malformed(SegmentError::UnknownCombo));
    }
    let of_char: u32 = match ask(keysyms, Lookup::Char(chars[0])) {
        Ok(keysym) => keysym,
        Err(stop) => return Err(stop),
    };
    if of_char != NO_SYMBOL {
        Ok(of_char)
    } else {
        Err(Stop::Malformed(SegmentError::UnknownCombo))
    }
}

/// Translates a key combination into its chord, with the answers given.
pub fn translate_combo(keysyms: &Keysyms, combo: &str) -> (outcome: Result<Vec<u32>, Stop>)
    ensures
        chord_outcome(outcome) == combo_chord(keysyms@, combo@),
{
    let parts: Vec<&str> = split_trimmed(combo, '+');
    let ghost all = combo_parts(combo@);
    assert(all.len() == parts.len());
    if parts.len() == 0 {
        return Err(Stop::Malformed(SegmentError::UnknownCombo));
    }
    let last: usize = parts.len() - 1;
    let mut chord: Vec<u32> = Vec::new();
    assert(all.drop_last() =~= all.take(last as int));
    for i in 0..last
        invariant
            last == parts.len() - 1,
            contents(parts@) == all,
            all == combo_parts(combo@),
            all.drop_last() == all.take(last as int),
            modifier_keysyms(keysyms@, all.take(i as int)) == Ok::<Seq<u32>, StopView>(chord@),
    {
        proof {
            assert(all.take(i + 1).drop_last() =~= all.take(i as int));
            assert(all[i as int] == parts@[i as int]@);
            lemma_modifier_stop(keysyms@, all.take(last as int), i + 1);
            assert(all.take(last as int).take(i + 1) =~= all.take(i + 1));
        }
        let name = match modifier_keysym_name(parts[i]) {
            Some(name) => name,
            None => return Err(Stop::Malformed(SegmentError::UnknownCombo)),
        };
        let keysym: u32 = match ask(keysyms, Lookup::Name(name.to_owned())) {
            Ok(keysym) => keysym,
            Err(stop) => return Err(stop),
        };
        chord.push(keysym);
    }
    assert(all.last() == parts@[last as int]@);
    let key: u32 = match main_keysym(keysyms, parts[last]) {
        Ok(keysym) => keysym,
        Err(stop) => return Err(stop),
    };
    chord.push(key);
    Ok(chord)
}

/// What stops the modifiers before position `n` stops them all.
proof fn lemma_modifier_stop(
    answers: Map<LookupView, u32>,
    modifiers: Seq<Seq<char>>,
    n: int,
)
    requires
        0 <= n <= modifiers.len(),
    ensures
        modifier_keysyms(answers, modifiers.take(n)) is Err ==> modifier_keysyms(
            answers,
            modifiers,
        ) == modifier_keysyms(answers, modifiers.take(n)),
    decreases modifiers.len(),
{
    if n == modifiers.len() {
        assert(modifiers.take(n) =~= modifiers);
    } else {
        lemma_modifier_stop(answers, modifiers.drop_last(), n);
        assert(modifiers.drop_last().take(n) =~= modifiers.take(n));
    }
}

/// What stops a text before position `n` stops the whole text.
proof fn lemma_text_stop(answers: Map<LookupView, u32>, text: Seq<char>, n: int)
    requires
        0 <= n <= text.len(),
    ensures
        text_chords(answers, text.take(n)) is Err ==> text_chords(answers, text) == text_chords(
            answers,
            text.take(n),
        ),
    decreases text.len(),
{
    if n == text.len() {
        assert(text.take(n) =~= text);
    } else {
        lemma_text_stop(answers, text.drop_last(), n);
        assert(text.drop_last().take(n) =~= text.take(n));
    }
}

/// What stops the segments before position `n` stops them all.
proof fn lemma_translation_stop(
    answers: Map<LookupView, u32>,
    segments: Seq<Seq<char>>,
    n: int,
)
    requires
        0 <= n <= segments.len(),
    ensures
        translation(answers, segments.take(n)) is Err ==> translation(answers, segments)
            == translation(answers, segments.take(n)),
    decreases segments.len(),
{
    if n == segments.len() {
        assert(segments.take(n) =~= segments);
    } else {
        lemma_translation_stop(answers, segments.drop_last(), n);
        assert(segments.drop_last().take(n) =~= segments.take(n));
    }
}

/// Translates a text into one chord for each character that has a keysym, with the answers given.
pub fn translate_text(keysyms: &Keysyms, text: &str) -> (outcome: Result<Vec<Vec<u32>>, Stop>)
    ensures
        chords_outcome(outcome) == text_chords(keysyms@, text@),
{
    let chars: Vec<char> = char_vec(text);
    let mut chords: Vec<Vec<u32>> = Vec::new();
    assert(nested(chords@) =~= seq![]);
    for i in 0..chars.len()
        invariant
            chars@ == text@,
            text_chords(keysyms@, text@.take(i as int)) == Ok::<Seq<Seq<u32>>, StopView>(
                nested(chords@),
            ),
    {
        proof {
            assert(text@.take(i + 1).drop_last() =~= text@.take(i as int));
            lemma_text_stop(keysyms@, text@, i + 1);
        }
        let c: char = chars[i];
        let keysym: u32 = if c == '\n' || c == '\r' {
            KEY_RETURN
        } else if c == '\t' {
            KEY_TAB
        } else {
            match ask(keysyms, Lookup::Char(c)) {
                Ok(keysym) => keysym,
                Err(stop) => return Err(stop),
            }
        };
        if keysym != NO_SYMBOL {
            let ghost earlier = chords@;
            let chord: Vec<u32> = vec![keysym];
            assert(chord@ =~= seq![keysym]);
            chords.push(chord);
            assert(nested(chords@) =~= nested(earlier).push(seq![keysym]));
        }
    }
    assert(text@.take(chars.len() as int) =~= text@);
    Ok(chords)
}

/// Translates one segment into its chords, with the answers given.
pub fn translate_segment(keysyms: &Keysyms, segment: &str) -> (outcome: Result<
    Vec<Vec<u32>>,
    Stop,
>)
    ensures
        chords_outcome(outcome) == segment_chords(keysyms@, segment@),
{
    let (kind, value) = match split_once(segment, ':') {
        Some(parts) => parts,
        None => return Err(Stop::Malformed(SegmentError::NoSeparator)),
    };
    if same(kind, "text") {
        translate_text(keysyms, value)
    } else if same(kind, "key") || same(kind, "keys") {
        match translate_combo(keysyms, value) {
            Ok(chord) => {
                let chords: Vec<Vec<u32>> = vec![chord];
                assert(nested(chords@) =~= seq![chord@]);
                Ok(chords)
            },
            Err(stop) => Err(stop),
        }
    } else {
        Err(Stop::Malformed(SegmentError::UnknownKind))
    }
}

/// Translates segments into their chords, in order, with the answers given.
pub fn translate(keysyms: &Keysyms, segments: &[String]) -> (outcome: Result<
    Vec<Vec<u32>>,
    Stop,
>)
    ensures
        chords_outcome(outcome) == translation(keysyms@, segment_contents(segments@)),
{
    let mut chords: Vec<Vec<u32>> = Vec::new();
    let ghost all = segment_contents(segments@);
    proof {
        assert(nested(chords@) =~= seq![]);
        assert(all.take(0) =~= seq![]);
    }
    for i in 0..segments.len()
        invariant
            all == segment_contents(segments@),
            translation(keysyms@, all.take(i as int)) == Ok::<Seq<Seq<u32>>, StopView>(
                nested(chords@),
            ),
    {
        proof {
            assert(all.take(i + 1).drop_last() =~= all.take(i as int));
            lemma_translation_stop(keysyms@, all, i + 1);
        }
        let mut more: Vec<Vec<u32>> = match translate_segment(keysyms, segments[i].as_str()) {
            Ok(more) => more,
            Err(stop) => return Err(stop),
        };
        let ghost before = chords@;
        let ghost added = more@;
        chords.append(&mut more);
        assert(nested(chords@) =~= nested(before) + nested(added));
    }
    assert(all.take(segments.len() as int) =~= all);
    Ok(chords)
}

/// Whether parsing `combo` can come to the question `view`, with what `keyboard` answers.
pub open spec fn combo_raises<K: Fn(&Lookup) -> u32>(
    keyboard: K,
    combo: Seq<char>,
    view: LookupView,
) -> bool {
    exists|answers: Map<LookupView, u32>| #[trigger]
        given(keyboard, answers) && combo_chord(answers, combo) == Err::<Seq<u32>, StopView>(
            StopView::Ask(view),
        )
}

/// Parses a key combination such as `ctrl+shift+r` or `Return` into the list of keysyms to press
/// together: modifiers first, main key last. `keyboard` is asked for each keysym that is needed.
pub fn parse_combo<K: Fn(&Lookup) -> u32>(combo: &str, keyboard: &K) -> (outcome: Result<
    Vec<u32>,
    Stop,
>)
    requires
        forall|lookup: Lookup|
            combo_raises(*keyboard, combo@, lookup@) ==> #[trigger] call_requires(
                *keyboard,
                (&lookup,),
            ),
    ensures
        settled(chord_outcome(outcome)),
        exists|answers: Map<LookupView, u32>| #[trigger]
            given(*keyboard, answers) && chord_outcome(outcome) == combo_chord(answers, combo@),
        forall|keysym_of: spec_fn(LookupView) -> u32| #[trigger]
            is_function(*keyboard, keysym_of) ==> chord_outcome(outcome) == combo_chord(
                all_answers(keysym_of),
                combo@,
            ),
{
    let mut keysyms: Keysyms = Keysyms::new();
    loop
        invariant
            given(*keyboard, keysyms@),
            forall|lookup: Lookup|
                combo_raises(*keyboard, combo@, lookup@) ==> #[trigger] call_requires(
                    *keyboard,
                    (&lookup,),
                ),
        decreases combo_lookups(combo@).difference(keysyms@.dom()).len(),
    {
        let outcome = translate_combo(&keysyms, combo);
        proof {
            lemma_combo_lookups(keysyms@, combo@);
        }
        match outcome {
            Err(Stop::Ask(lookup)) => {
                let ghost before = keysyms@;
                proof {
                    lemma_combo_asks(before, combo@, lookup@);
                    assert(combo_raises(*keyboard, combo@, lookup@));
                }
                let keysym: u32 = keyboard(&lookup);
                proof {
                    lemma_given_insert(*keyboard, before, lookup, keysym);
                    lemma_one_less(combo_lookups(combo@), before, lookup@, keysym);
                }
                keysyms.insert(lookup, keysym);
            },
            outcome => {
                proof {
                    assert forall|keysym_of: spec_fn(LookupView) -> u32| #[trigger]
                        is_function(*keyboard, keysym_of) implies chord_outcome(outcome)
                        == combo_chord(all_answers(keysym_of), combo@) by {
                        lemma_given(*keyboard, keysym_of, keysyms@);
                        law_settled_combo_is_final(keysyms@, all_answers(keysym_of), combo@);
                    }
                }
                return outcome;
            },
        }
    }
}

/// An answer leaves one question less.
proof fn lemma_one_less(
    lookups: Set<LookupView>,
    answers: Map<LookupView, u32>,
    view: LookupView,
    keysym: u32,
)
    requires
        lookups.finite(),
        lookups.contains(view),
        !answers.contains_key(view),
    ensures
        lookups.difference(answers.insert(view, keysym).dom()).len() < lookups.difference(
            answers.dom(),
        ).len(),
{
    let open = lookups.difference(answers.dom());
    assert(lookups.difference(answers.insert(view, keysym).dom()) =~= open.remove(view));
    assert(open.contains(view));
}

/// Whether translating `segments` can come to the question `view`, with what `keyboard` answers.
pub open spec fn raises<K: Fn(&Lookup) -> u32>(
    keyboard: K,
    segments: Seq<Seq<char>>,
    view: LookupView,
) -> bool {
    exists|answers: Map<LookupView, u32>| #[trigger]
        given(keyboard, answers) && translation(answers, segments) == Err::<
            Seq<Seq<u32>>,
            StopView,
        >(StopView::Ask(view))
}

/// Translates segments into their chords, in order. `keyboard` is asked for each keysym that is
/// needed.
pub fn translate_all<K: Fn(&Lookup) -> u32>(segments: &[String], keyboard: &K) -> (outcome: Result<
    Vec<Vec<u32>>,
    Stop,
>)
    requires
        forall|lookup: Lookup|
            raises(*keyboard, segment_contents(segments@), lookup@) ==> #[trigger] call_requires(
                *keyboard,
                (&lookup,),
            ),
    ensures
        settled(chords_outcome(outcome)),
        exists|answers: Map<LookupView, u32>| #[trigger]
            given(*keyboard, answers) && chords_outcome(outcome) == translation(
                answers,
                segment_contents(segments@),
            ),
        forall|keysym_of: spec_fn(LookupView) -> u32| #[trigger]
            is_function(*keyboard, keysym_of) ==> chords_outcome(outcome) == translation(
                all_answers(keysym_of),
                segment_contents(segments@),
            ),
{
    let ghost all = segment_contents(segments@);
    let mut keysyms: Keysyms = Keysyms::new();
    loop
        invariant
            all == segment_contents(segments@),
            given(*keyboard, keysyms@),
            forall|lookup: Lookup|
                raises(*keyboard, all, lookup@) ==> #[trigger] call_requires(
                    *keyboard,
                    (&lookup,),
                ),
        decreases segment_lookups(all).difference(keysyms@.dom()).len(),
    {
        let outcome = translate(&keysyms, segments);
        proof {
            law_asking_ends(keysyms@, all);
        }
        match outcome {
            Err(Stop::Ask(lookup)) => {
                let ghost before = keysyms@;
                proof {
                    law_asks_for_what_is_unknown(before, all, lookup@);
                    assert(raises(*keyboard, all, lookup@));
                }
                let keysym: u32 = keyboard(&lookup);
                proof {
                    lemma_given_insert(*keyboard, before, lookup, keysym);
                    lemma_one_less(segment_lookups(all), before, lookup@, keysym);
                }
                keysyms.insert(lookup, keysym);
            },
            outcome => {
                proof {
                    assert forall|keysym_of: spec_fn(LookupView) -> u32| #[trigger]
                        is_function(*keyboard, keysym_of) implies chords_outcome(outcome)
                        == translation(all_answers(keysym_of), all) by {
                        lemma_given(*keyboard, keysym_of, keysyms@);
                        law_settled_translation_is_final(keysyms@, all_answers(keysym_of), all);
                    }
                }
                return outcome;
            },
        }
    }
}

/// Segments are applied in order: the chords of two lists of segments, one after the other, are
/// the chords of the first, then those of the second; what stops the first stops both.
pub proof fn law_translation_in_order(
    answers: Map<LookupView, u32>,
    first: Seq<Seq<char>>,
    second: Seq<Seq<char>>,
)
    ensures
        translation(answers, first + second) == match translation(answers, first) {
            Err(stop) => Err(stop),
            Ok(before) => match translation(answers, second) {
                Err(stop) => Err(stop),
                Ok(after) => Ok(before + after),
            },
        },
    decreases second.len(),
{
    if second.len() == 0 {
        assert(first + second =~= first);
        if let Ok(before) = translation(answers, first) {
            assert(before + Seq::<Seq<u32>>::empty() =~= before);
        }
    } else {
        law_translation_in_order(answers, first, second.drop_last());
        assert((first + second).drop_last() =~= first + second.drop_last());
        assert((first + second).last() == second.last());
        if let (Ok(before), Ok(middle), Ok(after)) = (
            translation(answers, first),
            translation(answers, second.drop_last()),
            segment_chords(answers, second.last()),
        ) {
            assert(before + (middle + after) =~= (before + middle) + after);
        }
    }
}

/// A segment that cannot be translated stops the translation of every list that it is in.
pub proof fn law_one_bad_segment_stops_all(
    answers: Map<LookupView, u32>,
    segments: Seq<Seq<char>>,
    i: int,
)
    requires
        0 <= i < segments.len(),
        segment_chords(answers, segments[i]) is Err,
    ensures
        translation(answers, segments) is Err,
    decreases segments.len(),
{
    if i < segments.len() - 1 {
        law_one_bad_segment_stops_all(answers, segments.drop_last(), i);
    }
}

/// Whether `outcome` asks for nothing.
pub open spec fn settled<T>(outcome: Result<T, StopView>) -> bool {
    !(outcome is Err && outcome->Err_0 is Ask)
}

/// A question that is answered stays so.
proof fn lemma_answer_kept(
    fewer: Map<LookupView, u32>,
    more: Map<LookupView, u32>,
    lookup: LookupView,
)
    requires
        fewer.submap_of(more),
        fewer.contains_key(lookup),
    ensures
        answer(more, lookup) == answer(fewer, lookup),
{
    assert(fewer.dom().contains(lookup));
}

/// Modifiers that are settled stay so, whatever else is answered.
proof fn lemma_modifiers_settled(
    fewer: Map<LookupView, u32>,
    more: Map<LookupView, u32>,
    modifiers: Seq<Seq<char>>,
)
    requires
        fewer.submap_of(more),
        settled(modifier_keysyms(fewer, modifiers)),
    ensures
        modifier_keysyms(more, modifiers) == modifier_keysyms(fewer, modifiers),
    decreases modifiers.len(),
{
    if modifiers.len() > 0 {
        lemma_modifiers_settled(fewer, more, modifiers.drop_last());
        if let Some(name) = modifier_name(modifiers.last()) {
            if fewer.contains_key(LookupView::Name(name)) {
                lemma_answer_kept(fewer, more, LookupView::Name(name));
            }
        }
    }
}

/// A text that is settled stays so, whatever else is answered.
proof fn lemma_text_settled(
    fewer: Map<LookupView, u32>,
    more: Map<LookupView, u32>,
    text: Seq<char>,
)
    requires
        fewer.submap_of(more),
        settled(text_chords(fewer, text)),
    ensures
        text_chords(more, text) == text_chords(fewer, text),
    decreases text.len(),
{
    if text.len() > 0 {
        lemma_text_settled(fewer, more, text.drop_last());
        if fewer.contains_key(LookupView::Char(text.last())) {
            lemma_answer_kept(fewer, more, LookupView::Char(text.last()));
        }
    }
}

/// A combination that is settled stays so, whatever else is answered.
pub proof fn law_settled_combo_is_final(
    fewer: Map<LookupView, u32>,
    more: Map<LookupView, u32>,
    combo: Seq<char>,
)
    requires
        fewer.submap_of(more),
        settled(combo_chord(fewer, combo)),
    ensures
        combo_chord(more, combo) == combo_chord(fewer, combo),
{
    let parts = combo_parts(combo);
    if parts.len() > 0 {
        lemma_modifiers_settled(fewer, more, parts.drop_last());
        let key = parts.last();
        if fewer.contains_key(LookupView::Name(key)) {
            lemma_answer_kept(fewer, more, LookupView::Name(key));
        }
        if fewer.contains_key(LookupView::FoldedName(key)) {
            lemma_answer_kept(fewer, more, LookupView::FoldedName(key));
        }
        if fewer.contains_key(LookupView::Char(key[0])) {
            lemma_answer_kept(fewer, more, LookupView::Char(key[0]));
        }
    }
}

/// A segment that is settled stays so, whatever else is answered.
proof fn lemma_segment_settled(
    fewer: Map<LookupView, u32>,
    more: Map<LookupView, u32>,
    segment: Seq<char>,
)
    requires
        fewer.submap_of(more),
        settled(segment_chords(fewer, segment)),
    ensures
        segment_chords(more, segment) == segment_chords(fewer, segment),
{
    if let Some((kind, value)) = split_at_first(segment, ':') {
        if kind == "text"@ {
            lemma_text_settled(fewer, more, value);
        } else if kind == "key"@ || kind == "keys"@ {
            law_settled_combo_is_final(fewer, more, value);
        }
    }
}

/// A translation that asks for nothing is final: further answers do not change it.
pub proof fn law_settled_translation_is_final(
    fewer: Map<LookupView, u32>,
    more: Map<LookupView, u32>,
    segments: Seq<Seq<char>>,
)
    requires
        fewer.submap_of(more),
        settled(translation(fewer, segments)),
    ensures
        translation(more, segments) == translation(fewer, segments),
    decreases segments.len(),
{
    if segments.len() > 0 {
        law_settled_translation_is_final(fewer, more, segments.drop_last());
        if translation(fewer, segments.drop_last()) is Ok {
            lemma_segment_settled(fewer, more, segments.last());
        }
    }
}

/// Only what was not answered yet is asked for.
pub proof fn law_asks_for_what_is_unknown(
    answers: Map<LookupView, u32>,
    segments: Seq<Seq<char>>,
    lookup: LookupView,
)
    requires
        translation(answers, segments) == Err::<Seq<Seq<u32>>, StopView>(StopView::Ask(lookup)),
    ensures
        !answers.contains_key(lookup),
    decreases segments.len(),
{
    if segments.len() > 0 {
        if translation(answers, segments.drop_last()) is Err {
            law_asks_for_what_is_unknown(answers, segments.drop_last(), lookup);
        } else if let Some((kind, value)) = split_at_first(segments.last(), ':') {
            if kind == "text"@ {
                lemma_text_asks(answers, value, lookup);
            } else {
                lemma_combo_asks(answers, value, lookup);
            }
        }
    }
}

/// A text asks only for what was not answered yet.
proof fn lemma_text_asks(answers: Map<LookupView, u32>, text: Seq<char>, lookup: LookupView)
    requires
        text_chords(answers, text) == Err::<Seq<Seq<u32>>, StopView>(StopView::Ask(lookup)),
    ensures
        !answers.contains_key(lookup),
    decreases text.len(),
{
    if text.len() > 0 && text_chords(answers, text.drop_last()) is Err {
        lemma_text_asks(answers, text.drop_last(), lookup);
    }
}

/// A combination asks only for what was not answered yet.
proof fn lemma_combo_asks(answers: Map<LookupView, u32>, combo: Seq<char>, lookup: LookupView)
    requires
        combo_chord(answers, combo) == Err::<Seq<u32>, StopView>(StopView::Ask(lookup)),
    ensures
        !answers.contains_key(lookup),
{
    let parts = combo_parts(combo);
    if modifier_keysyms(answers, parts.drop_last()) is Err {
        lemma_modifiers_ask(answers, parts.drop_last(), lookup);
    }
}

/// Modifiers ask only for what was not answered yet.
proof fn lemma_modifiers_ask(
    answers: Map<LookupView, u32>,
    modifiers: Seq<Seq<char>>,
    lookup: LookupView,
)
    requires
        modifier_keysyms(answers, modifiers) == Err::<Seq<u32>, StopView>(StopView::Ask(lookup)),
    ensures
        !answers.contains_key(lookup),
    decreases modifiers.len(),
{
    if modifiers.len() > 0 && modifier_keysyms(answers, modifiers.drop_last()) is Err {
        lemma_modifiers_ask(answers, modifiers.drop_last(), lookup);
    }
}

/// The modifiers of a chord come first, each as the keysym of its name, and the main key, which
/// has a keysym, comes last.
pub proof fn law_modifiers_first_key_last(answers: Map<LookupView, u32>, combo: Seq<char>)
    requires
        combo_chord(answers, combo) is Ok,
    ensures
        ({
            let parts = combo_parts(combo);
            let chord = combo_chord(answers, combo)->Ok_0;
            &&& chord.len() == parts.len()
            &&& chord.len() > 0
            &&& chord.last() != NO_SYMBOL
            &&& key_keysym(answers, parts.last()) == Ok::<u32, StopView>(chord.last())
            &&& forall|i: int|
                0 <= i < parts.len() - 1 ==> modifier_name(#[trigger] parts[i]) is Some && answer(
                    answers,
                    LookupView::Name(modifier_name(parts[i])->0),
                ) == Ok::<u32, StopView>(chord[i])
        }),
{
    let parts = combo_parts(combo);
    lemma_modifiers_in_order(answers, parts.drop_last());
    assert forall|i: int| 0 <= i < parts.len() - 1 implies parts.drop_last()[i]
        == #[trigger] parts[i] by {}
}

/// A known modifier in front of a combination adds its keysym in front of the chord, and nothing
/// else: what stops the rest stops the whole in the same way. Where the rest has no parts, this
/// takes a modifier whose word is not itself the name of a key, as `iso_level3_shift` is.
pub proof fn law_leading_modifier(
    answers: Map<LookupView, u32>,
    modifier: Seq<char>,
    rest: Seq<char>,
)
    requires
        modifier_name(modifier) is Some,
        combo_parts(rest).len() > 0 ==> answers.contains_key(
            LookupView::Name(modifier_name(modifier)->0),
        ),
        combo_parts(rest).len() == 0 ==> key_keysym(answers, modifier) == Err::<u32, StopView>(
            StopView::Malformed(SegmentError::UnknownCombo),
        ),
    ensures
        combo_chord(answers, modifier + seq!['+'] + rest) == match combo_chord(answers, rest) {
            Ok(chord) => Ok(
                seq![answers[LookupView::Name(modifier_name(modifier)->0)]] + chord,
            ),
            Err(stop) => Err(stop),
        },
{
    let parts = combo_parts(rest);
    law_combo_parts_in_order(modifier, rest);
    lemma_modifier_is_a_part(modifier);
    let all = seq![modifier] + parts;
    if parts.len() == 0 {
        law_modifier_alone_is_the_key(answers, modifier, rest);
    } else {
        assert(all.drop_last() =~= seq![modifier] + parts.drop_last());
        assert(all.last() == parts.last());
        lemma_first_modifier(answers, modifier, parts.drop_last());
        if let Ok(chord) = combo_chord(answers, rest) {
            let keysym = answers[LookupView::Name(modifier_name(modifier)->0)];
            assert((seq![keysym] + chord.drop_last()).push(chord.last()) =~= seq![keysym] + chord);
            assert(chord.drop_last() =~= modifier_keysyms(answers, parts.drop_last())->Ok_0);
        }
    }
}

/// A modifier with nothing but white space and `+` behind it is looked up as the key, whatever it
/// stands for as a modifier.
pub proof fn law_modifier_alone_is_the_key(
    answers: Map<LookupView, u32>,
    modifier: Seq<char>,
    rest: Seq<char>,
)
    requires
        modifier_name(modifier) is Some,
        combo_parts(rest).len() == 0,
    ensures
        combo_chord(answers, modifier + seq!['+'] + rest) == match key_keysym(answers, modifier) {
            Ok(keysym) => Ok(seq![keysym]),
            Err(stop) => Err(stop),
        },
{
    law_combo_parts_in_order(modifier, rest);
    lemma_modifier_is_a_part(modifier);
    let all = combo_parts(modifier + seq!['+'] + rest);
    assert(all =~= seq![modifier]);
    assert(all.drop_last() =~= seq![]);
    if let Ok(keysym) = key_keysym(answers, modifier) {
        assert(Seq::<u32>::empty().push(keysym) =~= seq![keysym]);
    }
}

/// A known modifier in front of others adds its keysym in front of theirs.
proof fn lemma_first_modifier(
    answers: Map<LookupView, u32>,
    modifier: Seq<char>,
    others: Seq<Seq<char>>,
)
    requires
        modifier_name(modifier) is Some,
        answers.contains_key(LookupView::Name(modifier_name(modifier)->0)),
    ensures
        modifier_keysyms(answers, seq![modifier] + others) == match modifier_keysyms(
            answers,
            others,
        ) {
            Ok(keysyms) => Ok(
                seq![answers[LookupView::Name(modifier_name(modifier)->0)]] + keysyms,
            ),
            Err(stop) => Err(stop),
        },
    decreases others.len(),
{
    let all = seq![modifier] + others;
    let keysym = answers[LookupView::Name(modifier_name(modifier)->0)];
    if others.len() == 0 {
        assert(all.drop_last() =~= seq![]);
        assert(all.last() == modifier);
        assert(modifier_keysyms(answers, all.drop_last()) == Ok::<Seq<u32>, StopView>(seq![]));
        assert(Seq::<u32>::empty().push(keysym) =~= seq![keysym] + Seq::<u32>::empty());
    } else {
        lemma_first_modifier(answers, modifier, others.drop_last());
        assert(all.drop_last() =~= seq![modifier] + others.drop_last());
        assert(all.last() == others.last());
        if let Ok(keysyms) = modifier_keysyms(answers, others) {
            assert((seq![keysym] + keysyms.drop_last()).push(keysyms.last()) =~= seq![keysym]
                + keysyms);
            assert(keysyms.drop_last() =~= modifier_keysyms(answers, others.drop_last())->Ok_0);
        }
    }
}

/// The name of a modifier is a part of a combination as it stands.
proof fn lemma_modifier_is_a_part(modifier: Seq<char>)
    requires
        modifier_name(modifier) is Some,
    ensures
        combo_parts(modifier) == seq![modifier],
{
    reveal_strlit("ctrl");
    reveal_strlit("control");
    reveal_strlit("ctl");
    reveal_strlit("shift");
    reveal_strlit("alt");
    reveal_strlit("mod1");
    reveal_strlit("meta");
    reveal_strlit("super");
    reveal_strlit("logo");
    reveal_strlit("win");
    reveal_strlit("mod4");
    reveal_strlit("altgr");
    reveal_strlit("iso_level3_shift");
    reveal_strlit("mod5");
    let lower = ascii_lower(modifier);
    assert(lower.len() == modifier.len());
    assert(lower.len() > 0);
    assert(forall|i: int| 0 <= i < lower.len() ==> '0' <= #[trigger] lower[i] <= 'z');
    assert forall|i: int| 0 <= i < modifier.len() implies #[trigger] modifier[i] != '+'
        && !is_space(modifier[i]) by {
        assert('0' <= lower[i] <= 'z');
    }
    lemma_single_piece(modifier, '+');
    assert(trimmed(modifier) == modifier);
    assert(seq![modifier].drop_last() =~= seq![]);
    reveal_with_fuel(trimmed_nonempty, 2);
    assert(combo_parts(modifier) =~= seq![modifier]);
}

/// Each modifier becomes the keysym of its name.
proof fn lemma_modifiers_in_order(answers: Map<LookupView, u32>, modifiers: Seq<Seq<char>>)
    requires
        modifier_keysyms(answers, modifiers) is Ok,
    ensures
        ({
            let keysyms = modifier_keysyms(answers, modifiers)->Ok_0;
            &&& keysyms.len() == modifiers.len()
            &&& forall|i: int|
                0 <= i < modifiers.len() ==> modifier_name(#[trigger] modifiers[i]) is Some
                    && answer(answers, LookupView::Name(modifier_name(modifiers[i])->0)) == Ok::<
                    u32,
                    StopView,
                >(keysyms[i])
        }),
    decreases modifiers.len(),
{
    if modifiers.len() > 0 {
        lemma_modifiers_in_order(answers, modifiers.drop_last());
        assert forall|i: int| 0 <= i < modifiers.len() - 1 implies modifiers.drop_last()[i]
            == #[trigger] modifiers[i] by {}
    }
}

/// The keysym that a character of a text is typed as, where it has one.
pub open spec fn typed(answers: Map<LookupView, u32>) -> spec_fn(char) -> Option<Seq<u32>> {
    |c: char|
        match char_keysym(answers, c) {
            Ok(keysym) => if keysym == NO_SYMBOL {
                None
            } else {
                Some(seq![keysym])
            },
            Err(_) => None,
        }
}

/// Each character of a text that has a keysym is a single keypress, in the order of the text;
/// the others are skipped.
pub proof fn law_text_is_single_keypresses(answers: Map<LookupView, u32>, text: Seq<char>)
    requires
        text_chords(answers, text) is Ok,
    ensures
        text_chords(answers, text)->Ok_0 == text.filter_map(typed(answers)),
    decreases text.len(),
{
    if text.len() > 0 {
        law_text_is_single_keypresses(answers, text.drop_last());
        let before = text.drop_last().filter_map(typed(answers));
        if let Some(chord) = typed(answers)(text.last()) {
            assert(before.push(chord) =~= before + seq![chord]);
        }
    }
}

/// Upper and lower case do not matter in the name of a modifier.
pub proof fn law_modifier_case_is_ignored(modifier: Seq<char>)
    ensures
        modifier_name(ascii_lower(modifier)) == modifier_name(modifier),
{
    assert(ascii_lower(ascii_lower(modifier)) =~= ascii_lower(modifier));
}

/// What stands behind the first `:` of a `text` segment is typed as it is, further `:` included;
/// `key` and `keys` mean the same.
pub proof fn law_segment_kinds(answers: Map<LookupView, u32>, value: Seq<char>)
    ensures
        segment_chords(answers, "text:"@ + value) == text_chords(answers, value),
        segment_chords(answers, "keys:"@ + value) == segment_chords(answers, "key:"@ + value),
        segment_chords(answers, "key:"@ + value) == match combo_chord(answers, value) {
            Ok(chord) => Ok(seq![chord]),
            Err(stop) => Err(stop),
        },
{
    reveal_strlit("text");
    reveal_strlit("key");
    reveal_strlit("keys");
    reveal_strlit("text:");
    reveal_strlit("key:");
    reveal_strlit("keys:");
    assert("text:"@ + value =~= "text"@ + seq![':'] + value);
    assert("key:"@ + value =~= "key"@ + seq![':'] + value);
    assert("keys:"@ + value =~= "keys"@ + seq![':'] + value);
    lemma_split_at_first("text"@, ':', value);
    lemma_split_at_first("key"@, ':', value);
    lemma_split_at_first("keys"@, ':', value);
    assert("key"@.len() != "text"@.len());
    assert("keys"@[0] != "text"@[0]);
}

/// The parts of two combinations joined by `+` are the parts of the first, then those of the
/// second.
pub proof fn law_combo_parts_in_order(first: Seq<char>, second: Seq<char>)
    ensures
        combo_parts(first + seq!['+'] + second) == combo_parts(first) + combo_parts(second),
{
    lemma_pieces_joined(first, '+', second);
    lemma_trimmed_nonempty_joined(pieces(first, '+'), pieces(second, '+'));
}

/// The parts of a combination are not empty, begin and end with no white space, and hold no `+`.
pub proof fn law_combo_parts_are_clean(combo: Seq<char>, i: int)
    requires
        0 <= i < combo_parts(combo).len(),
    ensures
        ({
            let part = combo_parts(combo)[i];
            &&& part.len() > 0
            &&& !is_space(part.first())
            &&& !is_space(part.last())
            &&& !part.contains('+')
        }),
{
    lemma_pieces_hold_no_separator(combo, '+');
    lemma_trimmed_nonempty(pieces(combo, '+'), '+');
}

/// The question for a character.
pub open spec fn char_lookup(c: char) -> LookupView {
    LookupView::Char(c)
}

/// The questions that the characters of a text can raise.
pub open spec fn text_lookups(text: Seq<char>) -> Set<LookupView> {
    text.map_values(|c: char| char_lookup(c)).to_set()
}

/// The questions that modifiers can raise.
pub open spec fn modifier_lookups(modifiers: Seq<Seq<char>>) -> Set<LookupView>
    decreases modifiers.len(),
{
    if modifiers.len() == 0 {
        Set::empty()
    } else {
        let before = modifier_lookups(modifiers.drop_last());
        match modifier_name(modifiers.last()) {
            Some(name) => before.insert(LookupView::Name(name)),
            None => before,
        }
    }
}

/// The questions that a combination can raise.
pub open spec fn combo_lookups(combo: Seq<char>) -> Set<LookupView> {
    let parts = combo_parts(combo);
    if parts.len() == 0 {
        Set::empty()
    } else {
        let key = parts.last();
        modifier_lookups(parts.drop_last()).insert(LookupView::Name(key)).insert(
            LookupView::FoldedName(key),
        ).insert(char_lookup(key[0]))
    }
}

/// The questions that segments can raise.
pub open spec fn segment_lookups(segments: Seq<Seq<char>>) -> Set<LookupView>
    decreases segments.len(),
{
    if segments.len() == 0 {
        Set::empty()
    } else {
        let before = segment_lookups(segments.drop_last());
        match split_at_first(segments.last(), ':') {
            None => before,
            Some((kind, value)) => if kind == "text"@ {
                before.union(text_lookups(value))
            } else if kind == "key"@ || kind == "keys"@ {
                before.union(combo_lookups(value))
            } else {
                before
            },
        }
    }
}

/// Segments raise finitely many questions, so that asking comes to an end: what is asked for is
/// among them, whatever was answered before.
pub proof fn law_asking_ends(
    answers: Map<LookupView, u32>,
    segments: Seq<Seq<char>>,
)
    ensures
        segment_lookups(segments).finite(),
        translation(answers, segments) matches Err(StopView::Ask(lookup)) ==> segment_lookups(
            segments,
        ).contains(lookup),
    decreases segments.len(),
{
    if segments.len() > 0 {
        law_asking_ends(answers, segments.drop_last());
        if let Some((kind, value)) = split_at_first(segments.last(), ':') {
            lemma_text_lookups(answers, value);
            lemma_combo_lookups(answers, value);
        }
    }
}

/// A text asks only for its characters.
proof fn lemma_text_lookups(answers: Map<LookupView, u32>, text: Seq<char>)
    ensures
        text_lookups(text).finite(),
        text_chords(answers, text) matches Err(StopView::Ask(lookup)) ==> text_lookups(
            text,
        ).contains(lookup),
    decreases text.len(),
{
    let lookups = text.map_values(|c: char| char_lookup(c));
    seq_to_set_is_finite(lookups);
    if text.len() > 0 {
        lemma_text_lookups(answers, text.drop_last());
        let before = text.drop_last().map_values(|c: char| char_lookup(c));
        assert forall|lookup: LookupView| before.contains(lookup) implies lookups.contains(
            lookup,
        ) by {
            let i = choose|i: int| 0 <= i < before.len() && before[i] == lookup;
            assert(lookups[i] == lookup);
        }
        assert(lookups[text.len() - 1] == char_lookup(text.last()));
    }
}

/// A combination asks only for its modifiers and its key.
proof fn lemma_combo_lookups(answers: Map<LookupView, u32>, combo: Seq<char>)
    ensures
        combo_lookups(combo).finite(),
        combo_chord(answers, combo) matches Err(StopView::Ask(lookup)) ==> combo_lookups(
            combo,
        ).contains(lookup),
{
    lemma_modifier_lookups(answers, combo_parts(combo).drop_last());
}

/// Modifiers ask only for their names.
proof fn lemma_modifier_lookups(answers: Map<LookupView, u32>, modifiers: Seq<Seq<char>>)
    ensures
        modifier_lookups(modifiers).finite(),
        modifier_keysyms(answers, modifiers) matches Err(StopView::Ask(lookup))
            ==> modifier_lookups(modifiers).contains(lookup),
    decreases modifiers.len(),
{
    if modifiers.len() > 0 {
        lemma_modifier_lookups(answers, modifiers.drop_last());
    }
}

/// The contents of a list of lists are those of each, in order.
pub proof fn law_nested<T>(lists: Seq<Vec<T>>)
    ensures
        nested(lists).len() == lists.len(),
        forall|i: int| 0 <= i < lists.len() ==> #[trigger] nested(lists)[i] == lists[i]@,
{
}

/// The contents of segments are those of each, in order.
pub proof fn law_segment_contents(segments: Seq<String>)
    ensures
        segment_contents(segments).len() == segments.len(),
        forall|i: int|
            0 <= i < segments.len() ==> #[trigger] segment_contents(segments)[i] == segments[i]@,
{
}

/// A stop shows its kind and what it is about.
pub proof fn law_stop_view(stop: Stop)
    ensures
        stop matches Stop::Ask(lookup) ==> stop@ == StopView::Ask(lookup@),
        stop matches Stop::Malformed(error) ==> stop@ == StopView::Malformed(error),
        stop is NoWindow ==> stop@ == StopView::NoWindow,
{
}

/// Outcomes show whether there was a stop, which one, and what came out where there was none.
pub proof fn law_outcomes(chord: Result<Vec<u32>, Stop>, chords: Result<Vec<Vec<u32>>, Stop>)
    ensures
        chord matches Ok(keysyms) ==> chord_outcome(chord) == Ok::<Seq<u32>, StopView>(keysyms@),
        chord matches Err(stop) ==> chord_outcome(chord) == Err::<Seq<u32>, StopView>(stop@),
        chords matches Ok(lists) ==> {
            &&& chords_outcome(chords) is Ok
            &&& chords_outcome(chords)->Ok_0.len() == lists@.len()
            &&& forall|i: int|
                0 <= i < lists@.len() ==> #[trigger] chords_outcome(chords)->Ok_0[i] == lists@[i]@
        },
        chords matches Err(stop) ==> chords_outcome(chords) == Err::<Seq<Seq<u32>>, StopView>(
            stop@,
        ),
{
}

/// Everything but a question is settled.
pub proof fn law_settled<T>(outcome: Result<T, StopView>)
    ensures
        settled(outcome) <==> (outcome is Ok || outcome->Err_0 is Malformed || outcome->Err_0
            is NoWindow),
{
}

/// A question can come up only where some answers of the keyboard leave the translation stuck on
/// it; it is then one of those that the segments hold, and not answered yet.
pub proof fn law_raised_questions<K: Fn(&Lookup) -> u32>(
    keyboard: K,
    segments: Seq<Seq<char>>,
    view: LookupView,
)
    requires
        raises(keyboard, segments, view),
    ensures
        segment_lookups(segments).contains(view),
        exists|answers: Map<LookupView, u32>| #[trigger]
            given(keyboard, answers) && !answers.contains_key(view) && translation(
                answers,
                segments,
            ) == Err::<Seq<Seq<u32>>, StopView>(StopView::Ask(view)),
{
    let answers = choose|answers: Map<LookupView, u32>| #[trigger]
        given(keyboard, answers) && translation(answers, segments) == Err::<
            Seq<Seq<u32>>,
            StopView,
        >(StopView::Ask(view));
    law_asking_ends(answers, segments);
    law_asks_for_what_is_unknown(answers, segments, view);
}

/// The same holds of the questions that a combination raises.
pub proof fn law_questions_of_a_combo<K: Fn(&Lookup) -> u32>(
    keyboard: K,
    combo: Seq<char>,
    view: LookupView,
)
    requires
        combo_raises(keyboard, combo, view),
    ensures
        combo_lookups(combo).contains(view),
        exists|answers: Map<LookupView, u32>| #[trigger]
            given(keyboard, answers) && !answers.contains_key(view) && combo_chord(answers, combo)
                == Err::<Seq<u32>, StopView>(StopView::Ask(view)),
{
    let answers = choose|answers: Map<LookupView, u32>| #[trigger]
        given(keyboard, answers) && combo_chord(answers, combo) == Err::<Seq<u32>, StopView>(
            StopView::Ask(view),
        );
    lemma_combo_lookups(answers, combo);
    lemma_combo_asks(answers, combo, view);
}

/// The main key of a combination, whatever its characters: the keysym of the exact name where
/// there is one, else that of the name with case ignored. The second is asked for only where the
/// first gave nothing, and a key of more than one character is unknown only where neither gave
/// anything.
pub proof fn law_main_key(answers: Map<LookupView, u32>, key: Seq<char>)
    ensures
        ({
            let name = LookupView::Name(key);
            let folded = LookupView::FoldedName(key);
            let keysym = key_keysym(answers, key);
            let no_name = answers.contains_key(name) && answers[name] == 0;
            &&& !answers.contains_key(name) ==> keysym == Err::<u32, StopView>(StopView::Ask(name))
            &&& answers.contains_key(name) && answers[name] != 0 ==> keysym == Ok::<u32, StopView>(
                answers[name],
            )
            &&& no_name && !answers.contains_key(folded) ==> keysym == Err::<u32, StopView>(
                StopView::Ask(folded),
            )
            &&& no_name && answers.contains_key(folded) && answers[folded] != 0 ==> keysym == Ok::<
                u32,
                StopView,
            >(answers[folded])
            &&& no_name && answers.contains_key(folded) && answers[folded] == 0 && key.len() != 1
                ==> keysym == Err::<u32, StopView>(StopView::Malformed(SegmentError::UnknownCombo))
        }),
{
}

/// A main key of one character that is no name in either way is what the keyboard says of the
/// character, and unknown only where that is nothing.
pub proof fn law_main_key_character(answers: Map<LookupView, u32>, c: char)
    requires
        answers.contains_key(LookupView::Name(seq![c])),
        answers[LookupView::Name(seq![c])] == 0,
        answers.contains_key(LookupView::FoldedName(seq![c])),
        answers[LookupView::FoldedName(seq![c])] == 0,
    ensures
        ({
            let lookup = LookupView::Char(c);
            key_keysym(answers, seq![c]) == if !answers.contains_key(lookup) {
                Err::<u32, StopView>(StopView::Ask(lookup))
            } else if answers[lookup] != 0 {
                Ok(answers[lookup])
            } else {
                Err(StopView::Malformed(SegmentError::UnknownCombo))
            }
        }),
{
    assert(seq![c][0] == c);
}

/// What a text of one character becomes: a line break is Return, a tab is Tab, and every other
/// character is what the keyboard says of it, skipped only where it says that there is no keysym.
pub proof fn law_typed_character(answers: Map<LookupView, u32>, c: char)
    ensures
        text_chords(answers, seq![]) == Ok::<Seq<Seq<u32>>, StopView>(seq![]),
        c == '\n' || c == '\r' ==> text_chords(answers, seq![c]) == Ok::<Seq<Seq<u32>>, StopView>(
            seq![seq![0xff0du32]],
        ),
        c == '\t' ==> text_chords(answers, seq![c]) == Ok::<Seq<Seq<u32>>, StopView>(
            seq![seq![0xff09u32]],
        ),
        c != '\n' && c != '\r' && c != '\t' ==> {
            let lookup = LookupView::Char(c);
            &&& !answers.contains_key(lookup) ==> text_chords(answers, seq![c]) == Err::<
                Seq<Seq<u32>>,
                StopView,
            >(StopView::Ask(lookup))
            &&& answers.contains_key(lookup) && answers[lookup] != 0 ==> text_chords(
                answers,
                seq![c],
            ) == Ok::<Seq<Seq<u32>>, StopView>(seq![seq![answers[lookup]]])
            &&& answers.contains_key(lookup) && answers[lookup] == 0 ==> text_chords(
                answers,
                seq![c],
            ) == Ok::<Seq<Seq<u32>>, StopView>(seq![])
        },
{
    reveal_with_fuel(text_chords, 2);
    assert(seq![c].drop_last() =~= seq![]);
    assert(seq![c].last() == c);
    if let Ok(keysym) = char_keysym(answers, c) {
        assert(Seq::<Seq<u32>>::empty().push(seq![keysym]) =~= seq![seq![keysym]]);
    }
}

/// A text is typed in order: two texts, one after the other, become the chords of the first, then
/// those of the second; what stops the first stops both.
pub proof fn law_text_in_order(answers: Map<LookupView, u32>, first: Seq<char>, second: Seq<char>)
    ensures
        text_chords(answers, first + second) == match text_chords(answers, first) {
            Err(stop) => Err(stop),
            Ok(before) => match text_chords(answers, second) {
                Err(stop) => Err(stop),
                Ok(after) => Ok(before + after),
            },
        },
    decreases second.len(),
{
    if second.len() == 0 {
        assert(first + second =~= first);
        if let Ok(before) = text_chords(answers, first) {
            assert(before + Seq::<Seq<u32>>::empty() =~= before);
        }
    } else {
        law_text_in_order(answers, first, second.drop_last());
        assert((first + second).drop_last() =~= first + second.drop_last());
        assert((first + second).last() == second.last());
        if let (Ok(before), Ok(after)) = (
            text_chords(answers, first),
            text_chords(answers, second.drop_last()),
        ) {
            if let Ok(keysym) = char_keysym(answers, second.last()) {
                assert(before + after.push(seq![keysym]) =~= (before + after).push(seq![keysym]));
            }
        }
    }
}

/// A text whose characters all have keysyms is typed in full: one chord for each character, which
/// is the keysym of that character alone.
pub proof fn law_known_text_is_typed_in_full(answers: Map<LookupView, u32>, text: Seq<char>)
    requires
        forall|i: int|
            0 <= i < text.len() && text[i] != '\n' && text[i] != '\r' && text[i] != '\t' ==> {
                &&& answers.contains_key(LookupView::Char(#[trigger] text[i]))
                &&& answers[LookupView::Char(text[i])] != 0
            },
    ensures
        text_chords(answers, text) is Ok,
        text_chords(answers, text)->Ok_0.len() == text.len(),
        forall|i: int|
            0 <= i < text.len() ==> #[trigger] text_chords(answers, text)->Ok_0[i] == seq![
                if text[i] == '\n' || text[i] == '\r' {
                    0xff0du32
                } else if text[i] == '\t' {
                    0xff09u32
                } else {
                    answers[LookupView::Char(text[i])]
                },
            ],
    decreases text.len(),
{
    if text.len() > 0 {
        let rest = text.drop_last();
        assert forall|i: int|
            0 <= i < rest.len() && rest[i] != '\n' && rest[i] != '\r' && rest[i] != '\t' implies {
            &&& answers.contains_key(LookupView::Char(#[trigger] rest[i]))
            &&& answers[LookupView::Char(rest[i])] != 0
        } by {
            assert(rest[i] == text[i]);
        }
        law_known_text_is_typed_in_full(answers, rest);
        assert(text[text.len() - 1] == text.last());
        assert forall|i: int| 0 <= i < rest.len() implies #[trigger] text_chords(
            answers,
            text,
        )->Ok_0[i] == text_chords(answers, rest)->Ok_0[i] && rest[i] == text[i] by {}
    }
}

/// A segment without `:` is malformed, and so is one whose kind is none of `text`, `key` and
/// `keys`, whatever stands behind it.
pub proof fn law_malformed_segments(
    answers: Map<LookupView, u32>,
    segment: Seq<char>,
    kind: Seq<char>,
    value: Seq<char>,
)
    requires
        !segment.contains(':'),
        !kind.contains(':'),
        kind != "text"@,
        kind != "key"@,
        kind != "keys"@,
    ensures
        segment_chords(answers, segment) == Err::<Seq<Seq<u32>>, StopView>(
            StopView::Malformed(SegmentError::NoSeparator),
        ),
        segment_chords(answers, kind + seq![':'] + value) == Err::<Seq<Seq<u32>>, StopView>(
            StopView::Malformed(SegmentError::UnknownKind),
        ),
{
    law_split_at_first(segment, ':');
    lemma_split_at_first(kind, ':', value);
}

/// No segments are translated into no chords, and a single one into its own.
pub proof fn law_single_segment(answers: Map<LookupView, u32>, segment: Seq<char>)
    ensures
        translation(answers, seq![]) == Ok::<Seq<Seq<u32>>, StopView>(seq![]),
        translation(answers, seq![segment]) == segment_chords(answers, segment),
{
    reveal_with_fuel(translation, 2);
    assert(seq![segment].drop_last() =~= seq![]);
    if let Ok(chords) = segment_chords(answers, segment) {
        assert(Seq::<Seq<u32>>::empty() + chords =~= chords);
    }
}

/// Which words are modifiers, in whatever case, and which keysym each of them names.
pub proof fn law_modifier_words(word: Seq<char>)
    ensures
        modifier_name(word) == Some("Control_L"@) <==> reads_as(word, "ctrl"@) || reads_as(
            word,
            "control"@,
        ) || reads_as(word, "ctl"@),
        modifier_name(word) == Some("Shift_L"@) <==> reads_as(word, "shift"@),
        modifier_name(word) == Some("Alt_L"@) <==> reads_as(word, "alt"@) || reads_as(
            word,
            "mod1"@,
        ) || reads_as(word, "meta"@),
        modifier_name(word) == Some("Super_L"@) <==> reads_as(word, "super"@) || reads_as(
            word,
            "logo"@,
        ) || reads_as(word, "win"@) || reads_as(word, "mod4"@),
        modifier_name(word) == Some("ISO_Level3_Shift"@) <==> reads_as(word, "altgr"@)
            || reads_as(word, "iso_level3_shift"@) || reads_as(word, "mod5"@),
        modifier_name(word) is Some ==> {
            let name = modifier_name(word)->0;
            name == "Control_L"@ || name == "Shift_L"@ || name == "Alt_L"@ || name == "Super_L"@
                || name == "ISO_Level3_Shift"@
        },
{
    reveal_strlit("ctrl");
    reveal_strlit("control");
    reveal_strlit("ctl");
    reveal_strlit("shift");
    reveal_strlit("alt");
    reveal_strlit("mod1");
    reveal_strlit("meta");
    reveal_strlit("super");
    reveal_strlit("logo");
    reveal_strlit("win");
    reveal_strlit("mod4");
    reveal_strlit("altgr");
    reveal_strlit("iso_level3_shift");
    reveal_strlit("mod5");
    reveal_strlit("Control_L");
    reveal_strlit("Shift_L");
    reveal_strlit("Alt_L");
    reveal_strlit("Super_L");
    reveal_strlit("ISO_Level3_Shift");
    lemma_reads_as(word, "ctrl"@);
    lemma_reads_as(word, "control"@);
    lemma_reads_as(word, "ctl"@);
    lemma_reads_as(word, "shift"@);
    lemma_reads_as(word, "alt"@);
    lemma_reads_as(word, "mod1"@);
    lemma_reads_as(word, "meta"@);
    lemma_reads_as(word, "super"@);
    lemma_reads_as(word, "logo"@);
    lemma_reads_as(word, "win"@);
    lemma_reads_as(word, "mod4"@);
    lemma_reads_as(word, "altgr"@);
    lemma_reads_as(word, "iso_level3_shift"@);
    lemma_reads_as(word, "mod5"@);
    let lower = ascii_lower(word);
    assert("Control_L"@[0] == 'C' && "Shift_L"@[0] == 'S' && "Alt_L"@[0] == 'A' && "Super_L"@[1]
        == 'u' && "Shift_L"@[1] == 'h' && "ISO_Level3_Shift"@[0] == 'I' && "Super_L"@[0] == 'S');
    assert(lower == "ctrl"@ || lower == "control"@ || lower == "ctl"@ ==> lower[0] == 'c');
    assert(lower == "shift"@ ==> lower.len() == 5 && lower[0] == 's' && lower[1] == 'h');
    assert(lower == "super"@ ==> lower[1] == 'u');
    assert(lower == "alt"@ ==> lower.len() == 3 && lower[0] == 'a');
    assert(lower == "altgr"@ ==> lower.len() == 5 && lower[0] == 'a');
    assert(lower == "mod1"@ ==> lower[0] == 'm' && lower[3] == '1');
    assert(lower == "mod4"@ ==> lower[0] == 'm' && lower[3] == '4');
    assert(lower == "mod5"@ ==> lower[0] == 'm' && lower[3] == '5');
    assert(lower == "meta"@ ==> lower[0] == 'm' && lower[3] == 'a');
    assert(lower == "logo"@ ==> lower[0] == 'l');
    assert(lower == "win"@ ==> lower[0] == 'w');
    assert(lower == "iso_level3_shift"@ ==> lower[0] == 'i');
}

/// White space around a part is dropped, a part of white space alone is no part, and what stands
/// around a `+` are the parts of the two sides.
pub proof fn law_combo_part_is_trimmed(left: Seq<char>, core: Seq<char>, right: Seq<char>)
    requires
        forall|i: int| 0 <= i < left.len() ==> is_space(#[trigger] left[i]),
        forall|i: int| 0 <= i < right.len() ==> is_space(#[trigger] right[i]),
        core.len() > 0 ==> !is_space(core.first()) && !is_space(core.last()),
        !core.contains('+'),
    ensures
        combo_parts(left + core + right) == if core.len() > 0 {
            seq![core]
        } else {
            seq![]
        },
{
    let all = left + core + right;
    assert(!all.contains('+')) by {
        if all.contains('+') {
            let i = choose|i: int| 0 <= i < all.len() && all[i] == '+';
            if i < left.len() {
                assert(is_space(left[i]));
            } else if i < left.len() + core.len() {
                assert(core[i - left.len()] == '+');
            } else {
                assert(is_space(right[i - left.len() - core.len()]));
            }
        }
    }
    lemma_single_piece(all, '+');
    law_trimmed(left, core, right);
    reveal_with_fuel(trimmed_nonempty, 2);
    assert(seq![all].drop_last() =~= seq![]);
    if core.len() > 0 {
        assert(Seq::<Seq<char>>::empty().push(core) =~= seq![core]);
    }
}

/// A combination whose modifiers are known and answered is decided by its key: what stops the key
/// stops the combination, and else the chord is the keysym of each modifier, in order, and then
/// that of the key. Without any part a combination is malformed.
pub proof fn law_combo_of_known_modifiers(answers: Map<LookupView, u32>, combo: Seq<char>)
    requires
        forall|i: int|
            0 <= i < combo_parts(combo).len() - 1 ==> {
                &&& modifier_name(#[trigger] combo_parts(combo)[i]) is Some
                &&& answers.contains_key(
                    LookupView::Name(modifier_name(combo_parts(combo)[i])->0),
                )
            },
    ensures
        ({
            let parts = combo_parts(combo);
            let chord = combo_chord(answers, combo);
            &&& parts.len() == 0 ==> chord == Err::<Seq<u32>, StopView>(
                StopView::Malformed(SegmentError::UnknownCombo),
            )
            &&& parts.len() > 0 && key_keysym(answers, parts.last()) is Err ==> chord == Err::<
                Seq<u32>,
                StopView,
            >(key_keysym(answers, parts.last())->Err_0)
            &&& parts.len() > 0 && key_keysym(answers, parts.last()) is Ok ==> {
                &&& chord is Ok
                &&& chord->Ok_0.len() == parts.len()
                &&& chord->Ok_0.last() == key_keysym(answers, parts.last())->Ok_0
                &&& forall|i: int|
                    0 <= i < parts.len() - 1 ==> #[trigger] chord->Ok_0[i]
                        == answers[LookupView::Name(modifier_name(parts[i])->0)]
            }
        }),
{
    let parts = combo_parts(combo);
    if parts.len() > 0 {
        lemma_known_modifiers(answers, parts.drop_last());
    }
}

/// Known and answered modifiers become the keysyms of their names, in order.
proof fn lemma_known_modifiers(answers: Map<LookupView, u32>, modifiers: Seq<Seq<char>>)
    requires
        forall|i: int|
            0 <= i < modifiers.len() ==> {
                &&& modifier_name(#[trigger] modifiers[i]) is Some
                &&& answers.contains_key(LookupView::Name(modifier_name(modifiers[i])->0))
            },
    ensures
        modifier_keysyms(answers, modifiers) is Ok,
        modifier_keysyms(answers, modifiers)->Ok_0.len() == modifiers.len(),
        forall|i: int|
            0 <= i < modifiers.len() ==> #[trigger] modifier_keysyms(answers, modifiers)->Ok_0[i]
                == answers[LookupView::Name(modifier_name(modifiers[i])->0)],
    decreases modifiers.len(),
{
    if modifiers.len() > 0 {
        let rest = modifiers.drop_last();
        assert forall|i: int| 0 <= i < rest.len() implies {
            &&& modifier_name(#[trigger] rest[i]) is Some
            &&& answers.contains_key(LookupView::Name(modifier_name(rest[i])->0))
        } by {
            assert(rest[i] == modifiers[i]);
        }
        lemma_known_modifiers(answers, rest);
        assert(modifier_name(modifiers[modifiers.len() - 1]) is Some);
    }
}

/// The first modifier that is unknown or not answered decides: an unknown one makes the
/// combination malformed, and one that is not answered is asked for.
pub proof fn law_combo_stops_at_first_bad_modifier(
    answers: Map<LookupView, u32>,
    combo: Seq<char>,
    n: int,
)
    requires
        0 <= n < combo_parts(combo).len() - 1,
        forall|i: int|
            0 <= i < n ==> {
                &&& modifier_name(#[trigger] combo_parts(combo)[i]) is Some
                &&& answers.contains_key(
                    LookupView::Name(modifier_name(combo_parts(combo)[i])->0),
                )
            },
        modifier_name(combo_parts(combo)[n]) matches Some(name) ==> !answers.contains_key(
            LookupView::Name(name),
        ),
    ensures
        combo_chord(answers, combo) == Err::<Seq<u32>, StopView>(
            match modifier_name(combo_parts(combo)[n]) {
                Some(name) => StopView::Ask(LookupView::Name(name)),
                None => StopView::Malformed(SegmentError::UnknownCombo),
            },
        ),
{
    let modifiers = combo_parts(combo).drop_last();
    let good = modifiers.take(n);
    assert forall|i: int| 0 <= i < good.len() implies {
        &&& modifier_name(#[trigger] good[i]) is Some
        &&& answers.contains_key(LookupView::Name(modifier_name(good[i])->0))
    } by {
        assert(good[i] == combo_parts(combo)[i]);
    }
    lemma_known_modifiers(answers, good);
    assert(modifiers.take(n + 1).drop_last() =~= good);
    assert(modifiers.take(n + 1).last() == combo_parts(combo)[n]);
    lemma_modifier_stop(answers, modifiers, n + 1);
}

} // verus!
