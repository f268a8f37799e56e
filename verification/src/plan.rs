//! Turning chords of keysyms into presses and releases of keys.

use crate::bits::{has_bit, lemma_one_bit};
use crate::keymap::{
    key_activates, law_modifier_keys_never_lock, law_modifier_map, lock_modifier,
    modifier_keycodes, modifier_map, resolution, resolve_keysym, Keymap,
};
use crate::segments::nested;
use std::collections::HashMap;
use vstd::prelude::*;

verus! {

/// Whether a key goes up or down.
#[derive(Clone, Copy, Debug, PartialEq, Eq, Structural)]
pub enum KeyState {
    Released,
    Pressed,
}

/// The numbers of the bits below number `n` that are set in `mask`, lowest first.
pub open spec fn bits_below(mask: u32, n: nat) -> Seq<u32>
    decreases n,
{
    if n == 0 {
        seq![]
    } else {
        let before = bits_below(mask, (n - 1) as nat);
        if has_bit(mask, (n - 1) as u32) {
            before.push((n - 1) as u32)
        } else {
            before
        }
    }
}

/// The modifiers in the given masks: those of the first mask, lowest first, then those of the
/// next.
pub open spec fn needed_modifiers(masks: Seq<u32>) -> Seq<u32>
    decreases masks.len(),
{
    if masks.len() == 0 {
        seq![]
    } else {
        needed_modifiers(masks.drop_last()) + bits_below(masks.last(), 32)
    }
}

/// `s` with only the first occurrence of each of its elements.
pub open spec fn without_repeats(s: Seq<u32>) -> Seq<u32>
    decreases s.len(),
{
    if s.len() == 0 {
        seq![]
    } else {
        let before = without_repeats(s.drop_last());
        if before.contains(s.last()) {
            before
        } else {
            before.push(s.last())
        }
    }
}

/// Whether there is a key for each of the given modifiers.
pub open spec fn covered(codes: Map<u32, u32>, modifiers: Seq<u32>) -> bool {
    forall|i: int| 0 <= i < modifiers.len() ==> codes.contains_key(#[trigger] modifiers[i])
}

/// The keys of the given modifiers.
pub open spec fn keys_of(codes: Map<u32, u32>, modifiers: Seq<u32>) -> Seq<u32> {
    modifiers.map_values(|bit: u32| codes[bit])
}

/// The keys that activate all the modifiers in the given masks, each once, where there is a key
/// for each of them.
pub open spec fn modifier_codes(codes: Map<u32, u32>, masks: Seq<u32>) -> Option<Seq<u32>> {
    if covered(codes, needed_modifiers(masks)) {
        Some(without_repeats(keys_of(codes, needed_modifiers(masks))))
    } else {
        None
    }
}

/// The given keys pressed in order, then released in reverse.
pub open spec fn pressed_then_released(codes: Seq<u32>) -> Seq<(u32, KeyState)> {
    codes.map_values(|code: u32| (code, KeyState::Pressed)) + codes.reverse().map_values(
        |code: u32| (code, KeyState::Released),
    )
}

/// A keycode and a modifier mask for each keysym of a chord, where each has them.
pub open spec fn resolved(keymap: Keymap, chord: Seq<u32>) -> Option<Seq<(u32, u32)>> {
    if forall|i: int| 0 <= i < chord.len() ==> resolution(keymap, #[trigger] chord[i]) is Some {
        Some(chord.map_values(|keysym: u32| resolution(keymap, keysym)->0))
    } else {
        None
    }
}

/// The keycodes of resolved keysyms.
pub open spec fn base_codes(keys: Seq<(u32, u32)>) -> Seq<u32> {
    keys.map_values(|key: (u32, u32)| key.0)
}

/// The modifier masks of resolved keysyms.
pub open spec fn base_masks(keys: Seq<(u32, u32)>) -> Seq<u32> {
    keys.map_values(|key: (u32, u32)| key.1)
}

/// The keys of the modifiers of `keymap`.
pub open spec fn keymap_modifiers(keymap: Keymap) -> Map<u32, u32> {
    modifier_map(keymap.keys@, lock_modifier(keymap.mod_names@))
}

/// The keys that make up a chord, modifiers first, where the keymap can produce it.
pub open spec fn chord_codes(keymap: Keymap, chord: Seq<u32>) -> Option<Seq<u32>> {
    match resolved(keymap, chord) {
        None => None,
        Some(keys) => match modifier_codes(keymap_modifiers(keymap), base_masks(keys)) {
            None => None,
            Some(modifiers) => Some(modifiers + base_codes(keys)),
        },
    }
}

/// The presses and releases that produce a chord, where the keymap can produce it.
pub open spec fn chord_events(keymap: Keymap) -> spec_fn(Seq<u32>) -> Option<
    Seq<(u32, KeyState)>,
> {
    |chord: Seq<u32>|
        match chord_codes(keymap, chord) {
            None => None,
            Some(codes) => Some(pressed_then_released(codes)),
        }
}

/// The events of those chords that the keymap can produce, in order.
pub open spec fn plan(keymap: Keymap, chords: Seq<Seq<u32>>) -> Seq<Seq<(u32, KeyState)>> {
    chords.filter_map(chord_events(keymap))
}

/// A bit that is set in `mask` is among its bits.
proof fn lemma_bits_below(mask: u32, n: nat, bit: u32)
    requires
        bit < n <= 32,
        has_bit(mask, bit),
    ensures
        bits_below(mask, n).contains(bit),
    decreases n,
{
    let before = bits_below(mask, (n - 1) as nat);
    if bit == n - 1 {
        assert(bits_below(mask, n).last() == bit);
    } else {
        lemma_bits_below(mask, (n - 1) as nat, bit);
        let i = choose|i: int| 0 <= i < before.len() && before[i] == bit;
        assert(bits_below(mask, n)[i] == bit);
    }
}

/// A modifier in one of the masks is among the needed ones.
proof fn lemma_needed(masks: Seq<u32>, n: int, bit: u32)
    requires
        0 <= n < masks.len(),
        bit < 32,
        has_bit(masks[n], bit),
    ensures
        needed_modifiers(masks).contains(bit),
    decreases masks.len(),
{
    let before = needed_modifiers(masks.drop_last());
    let last = bits_below(masks.last(), 32);
    if n == masks.len() - 1 {
        lemma_bits_below(masks.last(), 32, bit);
        let i = choose|i: int| 0 <= i < last.len() && last[i] == bit;
        assert(needed_modifiers(masks)[before.len() + i] == bit);
    } else {
        lemma_needed(masks.drop_last(), n, bit);
        let i = choose|i: int| 0 <= i < before.len() && before[i] == bit;
        assert(needed_modifiers(masks)[i] == bit);
    }
}

/// Whether `code` is among `codes`.
fn has_code(codes: &Vec<u32>, code: u32) -> (answer: bool)
    ensures
        answer == codes@.contains(code),
{
    for i in 0..codes.len()
        invariant
            forall|j: int| 0 <= j < i ==> codes@[j] != code,
    {
        if codes[i] == code {
            return true;
        }
    }
    false
}

/// The keys that activate all the modifiers that a chord needs, each once.
fn chord_modifiers(modifiers: &HashMap<u32, u32>, keys: &Vec<(u32, u32)>) -> (found: Option<
    Vec<u32>,
>)
    ensures
        match found {
            Some(codes) => modifier_codes(modifiers@, base_masks(keys@)) == Some(codes@),
            None => modifier_codes(modifiers@, base_masks(keys@)) is None,
        },
{
    broadcast use vstd::std_specs::hash::group_hash_axioms;

    let mut codes: Vec<u32> = Vec::new();
    let ghost masks = base_masks(keys@);
    proof {
        assert(masks.take(0) =~= seq![]);
        assert(keys_of(modifiers@, seq![]) =~= seq![]);
    }
    for i in 0..keys.len()
        invariant
            masks == base_masks(keys@),
            covered(modifiers@, needed_modifiers(masks.take(i as int))),
            codes@ == without_repeats(
                keys_of(modifiers@, needed_modifiers(masks.take(i as int))),
            ),
    {
        let mask: u32 = keys[i].1;
        let ghost before = needed_modifiers(masks.take(i as int));
        assert(before + bits_below(mask, 0) =~= before);
        for bit in 0u32..32u32
            invariant
                i < keys.len(),
                masks == base_masks(keys@),
                mask == masks[i as int],
                before == needed_modifiers(masks.take(i as int)),
                covered(modifiers@, before + bits_below(mask, bit as nat)),
                codes@ == without_repeats(
                    keys_of(modifiers@, before + bits_below(mask, bit as nat)),
                ),
        {
            let ghost so_far = before + bits_below(mask, bit as nat);
            if mask & (1u32 << bit) != 0 {
                let code: u32 = match modifiers.get(&bit) {
                    Some(code) => *code,
                    None => {
                        proof {
                            lemma_needed(masks, i as int, bit);
                            let all = needed_modifiers(masks);
                            let k = choose|k: int| 0 <= k < all.len() && all[k] == bit;
                            assert(!modifiers@.contains_key(all[k]));
                        }
                        return None;
                    },
                };
                proof {
                    assert(before + bits_below(mask, (bit + 1) as nat) =~= so_far.push(bit));
                    assert(keys_of(modifiers@, so_far.push(bit)) =~= keys_of(
                        modifiers@,
                        so_far,
                    ).push(code));
                    assert(keys_of(modifiers@, so_far.push(bit)).drop_last() =~= keys_of(
                        modifiers@,
                        so_far,
                    ));
                }
                if !has_code(&codes, code) {
                    codes.push(code);
                }
            }
        }
        assert(masks.take(i + 1).drop_last() =~= masks.take(i as int));
    }
    assert(masks.take(keys.len() as int) =~= masks);
    Some(codes)
}

/// A keycode and a modifier mask for each keysym of a chord.
fn resolve_chord(keymap: &Keymap, chord: &Vec<u32>) -> (found: Option<Vec<(u32, u32)>>)
    ensures
        match found {
            Some(keys) => resolved(*keymap, chord@) == Some(keys@),
            None => resolved(*keymap, chord@) is None,
        },
{
    let mut keys: Vec<(u32, u32)> = Vec::new();
    for i in 0..chord.len()
        invariant
            keys.len() == i,
            forall|j: int|
                0 <= j < i ==> resolution(*keymap, #[trigger] chord@[j]) == Some(keys@[j]),
    {
        match resolve_keysym(keymap, chord[i]) {
            Some(key) => keys.push(key),
            None => {
                assert(resolution(*keymap, chord@[i as int]) is None);
                return None;
            },
        }
    }
    assert(keys@ =~= chord@.map_values(|keysym: u32| resolution(*keymap, keysym)->0));
    Some(keys)
}

/// Presses the modifiers, then the keys; releases the keys, then the modifiers, each in reverse.
fn press_and_release(modifiers: &Vec<u32>, keys: &Vec<(u32, u32)>) -> (events: Vec<
    (u32, KeyState),
>)
    ensures
        events@ == pressed_then_released(modifiers@ + base_codes(keys@)),
{
    let mut events: Vec<(u32, KeyState)> = Vec::new();
    let ghost codes = modifiers@ + base_codes(keys@);
    let ghost all = pressed_then_released(codes);
    for i in 0..modifiers.len()
        invariant
            codes == modifiers@ + base_codes(keys@),
            all == pressed_then_released(codes),
            events@ == all.take(i as int),
    {
        events.push((modifiers[i], KeyState::Pressed));
        assert(events@ =~= all.take(i + 1));
    }
    for i in 0..keys.len()
        invariant
            codes == modifiers@ + base_codes(keys@),
            all == pressed_then_released(codes),
            events@ == all.take(modifiers.len() + i),
    {
        events.push((keys[i].0, KeyState::Pressed));
        assert(events@ =~= all.take(modifiers.len() + i + 1));
    }
    let mut i: usize = keys.len();
    while i > 0
        invariant
            i <= keys.len(),
            codes == modifiers@ + base_codes(keys@),
            all == pressed_then_released(codes),
            events@ == all.take(codes.len() + keys.len() - i),
        decreases i,
    {
        i = i - 1;
        events.push((keys[i].0, KeyState::Released));
        assert(events@ =~= all.take(codes.len() + keys.len() - i));
    }
    let mut i: usize = modifiers.len();
    while i > 0
        invariant
            i <= modifiers.len(),
            codes == modifiers@ + base_codes(keys@),
            all == pressed_then_released(codes),
            events@ == all.take(codes.len() + codes.len() - i),
        decreases i,
    {
        i = i - 1;
        events.push((modifiers[i], KeyState::Released));
        assert(events@ =~= all.take(codes.len() + codes.len() - i));
    }
    assert(events@ =~= all);
    events
}

/// Turns each chord of keysyms into an ordered list of presses and releases that reproduce those
/// keysyms under `keymap`.
///
/// A chord whose keysyms cannot all be produced by the keymap is skipped rather than aborting the
/// whole injection.
pub fn build_plan(keymap: &Keymap, chords: &[Vec<u32>]) -> (events: Vec<Vec<(u32, KeyState)>>)
    ensures
        nested(events@) == plan(*keymap, nested(chords@)),
{
    let modifiers: HashMap<u32, u32> = modifier_keycodes(keymap);
    let mut events: Vec<Vec<(u32, KeyState)>> = Vec::new();
    let ghost all = nested(chords@);
    let ghost f = chord_events(*keymap);
    proof {
        assert(all.take(0) =~= seq![]);
        reveal(Seq::filter_map);
        assert(nested(events@) =~= seq![]);
    }
    for i in 0..chords.len()
        invariant
            all == nested(chords@),
            f == chord_events(*keymap),
            modifiers@ == keymap_modifiers(*keymap),
            nested(events@) == all.take(i as int).filter_map(f),
    {
        let ghost before = events@;
        proof {
            all.lemma_filter_map_take_succ(f, i as int);
            assert(all[i as int] == chords@[i as int]@);
        }
        if let Some(keys) = resolve_chord(keymap, &chords[i]) {
            if let Some(codes) = chord_modifiers(&modifiers, &keys) {
                let chord: Vec<(u32, KeyState)> = press_and_release(&codes, &keys);
                events.push(chord);
                assert(nested(events@) =~= nested(before).push(chord@));
            }
        }
        assert(nested(events@) =~= all.take(i + 1).filter_map(f));
    }
    assert(all.take(chords.len() as int) =~= all);
    events
}

/// The keys held down after the given events, oldest first, where each release is of the key
/// pressed last among those still held. `None` where some release is of another key.
pub open spec fn held_after(held: Seq<u32>, events: Seq<(u32, KeyState)>) -> Option<Seq<u32>>
    decreases events.len(),
{
    if events.len() == 0 {
        Some(held)
    } else {
        match held_after(held, events.drop_last()) {
            None => None,
            Some(before) => {
                let (code, state) = events.last();
                match state {
                    KeyState::Pressed => Some(before.push(code)),
                    KeyState::Released => if before.len() > 0 && before.last() == code {
                        Some(before.drop_last())
                    } else {
                        None
                    },
                }
            },
        }
    }
}

/// What is held after two lists of events is what the second leaves of what the first left.
pub proof fn lemma_held_after_both(
    held: Seq<u32>,
    first: Seq<(u32, KeyState)>,
    second: Seq<(u32, KeyState)>,
)
    requires
        held_after(held, first) is Some,
    ensures
        held_after(held, first + second) == held_after(held_after(held, first)->0, second),
    decreases second.len(),
{
    if second.len() == 0 {
        assert(first + second =~= first);
    } else {
        lemma_held_after_both(held, first, second.drop_last());
        assert((first + second).drop_last() =~= first + second.drop_last());
    }
}

/// Pressing keys holds them in order.
proof fn lemma_presses(held: Seq<u32>, codes: Seq<u32>)
    ensures
        held_after(held, codes.map_values(|code: u32| (code, KeyState::Pressed))) == Some(
            held + codes,
        ),
    decreases codes.len(),
{
    let events = codes.map_values(|code: u32| (code, KeyState::Pressed));
    if codes.len() == 0 {
        assert(held + codes =~= held);
    } else {
        lemma_presses(held, codes.drop_last());
        assert(events.drop_last() =~= codes.drop_last().map_values(
            |code: u32| (code, KeyState::Pressed),
        ));
        assert(held + codes =~= (held + codes.drop_last()).push(codes.last()));
    }
}

/// Releasing held keys in reverse lets go of them all.
proof fn lemma_releases(held: Seq<u32>, codes: Seq<u32>)
    ensures
        held_after(
            held + codes,
            codes.reverse().map_values(|code: u32| (code, KeyState::Released)),
        ) == Some(held),
    decreases codes.len(),
{
    let events = codes.reverse().map_values(|code: u32| (code, KeyState::Released));
    if codes.len() == 0 {
        assert(held + codes =~= held);
    } else {
        let first = codes.first();
        let rest = codes.drop_first();
        lemma_releases(held.push(first), rest);
        assert(held.push(first) + rest =~= held + codes);
        assert(events.drop_last() =~= rest.reverse().map_values(
            |code: u32| (code, KeyState::Released),
        ));
        assert(held.push(first).drop_last() =~= held);
    }
}

/// Keys pressed in order and released in reverse leave what was held before.
proof fn lemma_pressed_then_released(held: Seq<u32>, codes: Seq<u32>)
    ensures
        held_after(held, pressed_then_released(codes)) == Some(held),
{
    lemma_presses(held, codes);
    lemma_releases(held, codes);
    lemma_held_after_both(
        held,
        codes.map_values(|code: u32| (code, KeyState::Pressed)),
        codes.reverse().map_values(|code: u32| (code, KeyState::Released)),
    );
}

/// Every key that a plan presses is released again, each release being of the key pressed last:
/// after all chords no key is left held.
pub proof fn law_plan_releases_every_key(keymap: Keymap, chords: Seq<Seq<u32>>)
    ensures
        held_after(seq![], plan(keymap, chords).flatten()) == Some(Seq::<u32>::empty()),
    decreases chords.len(),
{
    let f = chord_events(keymap);
    if chords.len() == 0 {
        assert(plan(keymap, chords) =~= seq![]);
    } else {
        law_plan_releases_every_key(keymap, chords.drop_last());
        let before = plan(keymap, chords.drop_last());
        if let Some(events) = f(chords.last()) {
            assert(plan(keymap, chords) =~= before.push(events));
            before.lemma_flatten_push(events);
            lemma_pressed_then_released(seq![], chord_codes(keymap, chords.last())->0);
            lemma_held_after_both(seq![], before.flatten(), events);
        }
    }
}

/// Within a chord the events mirror each other: the first half are presses, the second half are
/// releases, and the key released last is the one pressed first.
pub proof fn law_chord_is_mirrored(keymap: Keymap, chord: Seq<u32>)
    requires
        chord_codes(keymap, chord) is Some,
    ensures
        chord_events(keymap)(chord) is Some,
        ({
            let codes = chord_codes(keymap, chord)->0;
            let events = chord_events(keymap)(chord)->0;
            &&& events.len() == 2 * codes.len()
            &&& forall|i: int|
                0 <= i < codes.len() ==> #[trigger] events[i] == (codes[i], KeyState::Pressed)
                    && events[events.len() - 1 - i] == (codes[i], KeyState::Released)
        }),
{
}

/// The chords of a plan come in order, and each stands for itself: the plan of two lists of
/// chords, one after the other, is the plan of the first, then that of the second.
pub proof fn law_plan_in_order(keymap: Keymap, first: Seq<Seq<u32>>, second: Seq<Seq<u32>>)
    ensures
        plan(keymap, first + second) == plan(keymap, first) + plan(keymap, second),
    decreases second.len(),
{
    if second.len() == 0 {
        assert(first + second =~= first);
        assert(plan(keymap, first) + plan(keymap, second) =~= plan(keymap, first));
    } else {
        law_plan_in_order(keymap, first, second.drop_last());
        assert((first + second).drop_last() =~= first + second.drop_last());
        assert(plan(keymap, first + second) =~= plan(keymap, first) + plan(keymap, second));
    }
}

/// A chord that the keymap cannot produce is skipped, and the other chords are planned as if it
/// were not there.
pub proof fn law_skipped_chord_leaves_the_others(
    keymap: Keymap,
    before: Seq<Seq<u32>>,
    chord: Seq<u32>,
    after: Seq<Seq<u32>>,
)
    requires
        chord_codes(keymap, chord) is None,
    ensures
        plan(keymap, before + seq![chord] + after) == plan(keymap, before + after),
{
    law_plan_in_order(keymap, before + seq![chord], after);
    law_plan_in_order(keymap, before, seq![chord]);
    law_plan_in_order(keymap, before, after);
    assert(seq![chord].drop_last() =~= seq![]);
    assert(plan(keymap, seq![chord]) =~= seq![]) by {
        reveal_with_fuel(Seq::filter_map, 2);
    }
    assert(plan(keymap, before) + seq![] =~= plan(keymap, before));
}

/// A chord is skipped exactly where the keymap cannot produce one of its keysyms, or has no key
/// for a modifier that one of them needs.
pub proof fn law_when_a_chord_is_skipped(keymap: Keymap, chord: Seq<u32>)
    ensures
        chord_codes(keymap, chord) is None <==> {
            ||| exists|i: int|
                0 <= i < chord.len() && resolution(keymap, #[trigger] chord[i]) is None
            ||| exists|i: int, bit: u32|
                0 <= i < chord.len() && bit < 32 && #[trigger] has_bit(
                    (resolution(keymap, chord[i])->0).1,
                    bit,
                ) && !keymap_modifiers(keymap).contains_key(bit)
        },
{
    let map = keymap_modifiers(keymap);
    if let Some(keys) = resolved(keymap, chord) {
        let masks = base_masks(keys);
        let needed = needed_modifiers(masks);
        if chord_codes(keymap, chord) is None {
            let k = choose|k: int|
                0 <= k < needed.len() && !map.contains_key(#[trigger] needed[k]);
            let n = lemma_needed_is_in_a_mask(masks, k);
            assert(has_bit((resolution(keymap, chord[n])->0).1, needed[k]));
        } else {
            assert forall|i: int, bit: u32|
                0 <= i < chord.len() && bit < 32 && #[trigger] has_bit(
                    (resolution(keymap, chord[i])->0).1,
                    bit,
                ) implies map.contains_key(bit) by {
                assert(masks[i] == (resolution(keymap, chord[i])->0).1);
                lemma_needed(masks, i, bit);
                let k = choose|k: int| 0 <= k < needed.len() && needed[k] == bit;
                assert(map.contains_key(needed[k]));
            }
        }
    }
}

/// The bits of a mask are below 32 and set in it.
proof fn lemma_bits_are_set(mask: u32, n: nat)
    requires
        n <= 32,
    ensures
        forall|i: int|
            0 <= i < bits_below(mask, n).len() ==> #[trigger] bits_below(mask, n)[i] < n
                && has_bit(mask, bits_below(mask, n)[i]),
    decreases n,
{
    if n > 0 {
        lemma_bits_are_set(mask, (n - 1) as nat);
        let before = bits_below(mask, (n - 1) as nat);
        assert forall|i: int| 0 <= i < bits_below(mask, n).len() implies #[trigger] bits_below(
            mask,
            n,
        )[i] < n && has_bit(mask, bits_below(mask, n)[i]) by {
            if i < before.len() {
                assert(bits_below(mask, n)[i] == before[i]);
            }
        }
    }
}

/// Dropping repeats keeps the elements, each once.
pub proof fn lemma_without_repeats(s: Seq<u32>)
    ensures
        without_repeats(s).no_duplicates(),
        forall|x: u32| without_repeats(s).contains(x) <==> s.contains(x),
    decreases s.len(),
{
    if s.len() > 0 {
        let rest = s.drop_last();
        lemma_without_repeats(rest);
        assert forall|x: u32| without_repeats(s).contains(x) <==> s.contains(x) by {
            if s.contains(x) {
                let i = choose|i: int| 0 <= i < s.len() && s[i] == x;
                if i < rest.len() {
                    assert(rest[i] == x);
                    assert(rest.contains(x));
                    let j = choose|j: int|
                        0 <= j < without_repeats(rest).len() && without_repeats(rest)[j] == x;
                    assert(without_repeats(s)[j] == x);
                } else if !without_repeats(rest).contains(x) {
                    assert(without_repeats(s).last() == x);
                }
            }
            if without_repeats(s).contains(x) {
                let j = choose|j: int|
                    0 <= j < without_repeats(s).len() && without_repeats(s)[j] == x;
                if j < without_repeats(rest).len() {
                    assert(without_repeats(rest)[j] == x);
                    assert(rest.contains(x));
                    let i = choose|i: int| 0 <= i < rest.len() && rest[i] == x;
                    assert(s[i] == x);
                } else {
                    assert(s[s.len() - 1] == x);
                }
            }
        }
    }
}

/// Every needed modifier is in one of the masks.
proof fn lemma_needed_is_in_a_mask(masks: Seq<u32>, k: int) -> (n: int)
    requires
        0 <= k < needed_modifiers(masks).len(),
    ensures
        0 <= n < masks.len(),
        needed_modifiers(masks)[k] < 32,
        has_bit(masks[n], needed_modifiers(masks)[k]),
    decreases masks.len(),
{
    let before = needed_modifiers(masks.drop_last());
    if k < before.len() {
        assert(needed_modifiers(masks)[k] == before[k]);
        lemma_needed_is_in_a_mask(masks.drop_last(), k)
    } else {
        lemma_bits_are_set(masks.last(), 32);
        let last = bits_below(masks.last(), 32);
        assert(needed_modifiers(masks)[k] == last[k - before.len()]);
        masks.len() - 1
    }
}

/// Whether the modifier of number `bit` is in one of the masks.
pub open spec fn needs(masks: Seq<u32>, bit: u32) -> bool {
    bit < 32 && exists|n: int| 0 <= n < masks.len() && has_bit(#[trigger] masks[n], bit)
}

/// The modifier keys of a chord are distinct; each modifier that a key of the chord needs has its
/// key among them, and each of them is the key of such a modifier. Lock is no such modifier: it
/// has no key.
pub proof fn law_chord_presses_needed_modifiers(keymap: Keymap, masks: Seq<u32>)
    requires
        modifier_codes(keymap_modifiers(keymap), masks) is Some,
    ensures
        ({
            let map = keymap_modifiers(keymap);
            let codes = modifier_codes(map, masks)->0;
            &&& codes.no_duplicates()
            &&& forall|bit: u32| #[trigger]
                needs(masks, bit) ==> map.contains_key(bit) && codes.contains(map[bit])
                    && lock_modifier(keymap.mod_names@) != Some(bit as int)
            &&& forall|code: u32| #[trigger]
                codes.contains(code) ==> exists|bit: u32| #[trigger]
                    needs(masks, bit) && map[bit] == code
        }),
{
    let map = keymap_modifiers(keymap);
    let needed = needed_modifiers(masks);
    let keys = keys_of(map, needed);
    let codes = modifier_codes(map, masks)->0;
    lemma_without_repeats(keys);
    assert forall|bit: u32| #[trigger] needs(masks, bit) implies map.contains_key(bit)
        && codes.contains(map[bit]) && lock_modifier(keymap.mod_names@) != Some(bit as int) by {
        let n = choose|n: int| 0 <= n < masks.len() && has_bit(#[trigger] masks[n], bit);
        lemma_needed(masks, n, bit);
        let k = choose|k: int| 0 <= k < needed.len() && needed[k] == bit;
        assert(map.contains_key(needed[k]));
        assert(keys[k] == map[bit]);
        assert(keys.contains(map[bit]));
    }
    assert forall|code: u32| #[trigger] codes.contains(code) implies exists|bit: u32| #[trigger]
        needs(masks, bit) && map[bit] == code by {
        assert(keys.contains(code));
        let k = choose|k: int| 0 <= k < keys.len() && keys[k] == code;
        let n = lemma_needed_is_in_a_mask(masks, k);
        assert(has_bit(masks[n], needed[k]));
        assert(needs(masks, needed[k]) && map[needed[k]] == code);
    }
}

/// Whether the key with the given code activates exactly the modifier of number `bit`.
pub open spec fn activates(keymap: Keymap, code: u32, bit: u32) -> bool {
    exists|i: int|
        0 <= i < keymap.keys@.len() && (#[trigger] keymap.keys@[i]).code == code && key_activates(
            bit,
        )(keymap.keys@[i])
}

/// What a keysym on its own takes: the key that produces it is pressed last, and the keys before
/// it activate the modifiers of the mask that reaches its level, all of them and no other.
pub proof fn law_keysym_is_reached(keymap: Keymap, keysym: u32)
    requires
        keymap.has_distinct_codes(),
        chord_codes(keymap, seq![keysym]) is Some,
    ensures
        resolution(keymap, keysym) is Some,
        ({
            let codes = chord_codes(keymap, seq![keysym])->0;
            let (code, mask) = resolution(keymap, keysym)->0;
            &&& codes.len() > 0
            &&& codes.last() == code
            &&& forall|bit: u32|
                bit < 32 ==> (#[trigger] has_bit(mask, bit) <==> exists|i: int|
                    0 <= i < codes.len() - 1 && activates(keymap, #[trigger] codes[i], bit))
        }),
{
    let chord = seq![keysym];
    let map = keymap_modifiers(keymap);
    let codes = chord_codes(keymap, chord)->0;
    assert(resolution(keymap, chord[0]) is Some);
    let (code, mask) = resolution(keymap, keysym)->0;
    let masks = base_masks(resolved(keymap, chord)->0);
    assert(masks =~= seq![mask]);
    let modifiers = modifier_codes(map, masks)->0;
    law_chord_presses_needed_modifiers(keymap, masks);
    assert(codes =~= modifiers.push(code));
    assert forall|bit: u32| bit < 32 implies (#[trigger] has_bit(mask, bit) <==> exists|i: int|
        0 <= i < codes.len() - 1 && activates(keymap, #[trigger] codes[i], bit)) by {
        if has_bit(mask, bit) {
            assert(has_bit(masks[0], bit));
            assert(needs(masks, bit));
            let i = choose|i: int| 0 <= i < modifiers.len() && modifiers[i] == map[bit];
            law_modifier_keys_never_lock(keymap, bit);
            assert(codes[i] == modifiers[i]);
            assert(activates(keymap, codes[i], bit));
        }
        if exists|i: int| 0 <= i < codes.len() - 1 && activates(keymap, #[trigger] codes[i], bit) {
            let i = choose|i: int|
                0 <= i < codes.len() - 1 && activates(keymap, #[trigger] codes[i], bit);
            assert(modifiers.contains(modifiers[i]));
            let needed = choose|b: u32| #[trigger] needs(masks, b) && map[b] == modifiers[i];
            law_modifier_keys_never_lock(keymap, needed);
            let k = choose|k: int|
                0 <= k < keymap.keys@.len() && (#[trigger] keymap.keys@[k]).held_mods == 1u32
                    << needed && keymap.keys@[k].code == map[needed];
            lemma_one_bit(bit, needed);
        }
    }
}

/// No chords have an empty plan; a single chord is planned exactly where the keymap can produce
/// it, as its own events.
pub proof fn law_plan_of_one_chord(keymap: Keymap, chord: Seq<u32>)
    ensures
        plan(keymap, seq![]).len() == 0,
        chord_codes(keymap, chord) is None ==> plan(keymap, seq![chord]).len() == 0,
        chord_codes(keymap, chord) is Some ==> plan(keymap, seq![chord]).len() == 1 && plan(
            keymap,
            seq![chord],
        )[0] == chord_events(keymap)(chord)->0,
{
    reveal_with_fuel(Seq::filter_map, 2);
    assert(seq![chord].drop_last() =~= seq![]);
    assert(seq![chord].last() == chord);
}

/// The modifiers that a plan can press are those of the keymap: one has a key exactly where it is
/// not Lock and holding some key activates it alone, and the first such key is the one.
pub proof fn law_keymap_modifiers(keymap: Keymap, bit: u32)
    ensures
        keymap_modifiers(keymap).contains_key(bit) <==> bit < 32 && lock_modifier(
            keymap.mod_names@,
        ) != Some(bit as int) && exists|i: int|
            0 <= i < keymap.keys@.len() && (#[trigger] keymap.keys@[i]).held_mods == 1u32 << bit,
        forall|i: int|
            keymap_modifiers(keymap).contains_key(bit) && 0 <= i < keymap.keys@.len() && (
            #[trigger] keymap.keys@[i]).held_mods == 1u32 << bit && (forall|j: int|
                0 <= j < i ==> (#[trigger] keymap.keys@[j]).held_mods != 1u32 << bit)
                ==> keymap_modifiers(keymap)[bit] == keymap.keys@[i].code,
{
    law_modifier_map(keymap.keys@, lock_modifier(keymap.mod_names@), bit);
}

/// A chord that is not skipped is pressed in full: behind the modifier keys stand the keys of all
/// its keysyms, each of them, in the order of the chord.
pub proof fn law_chord_is_pressed_in_full(keymap: Keymap, chord: Seq<u32>)
    requires
        chord_codes(keymap, chord) is Some,
    ensures
        ({
            let codes = chord_codes(keymap, chord)->0;
            let m = codes.len() - chord.len();
            &&& m >= 0
            &&& forall|i: int|
                0 <= i < chord.len() ==> resolution(keymap, #[trigger] chord[i]) is Some && codes[m
                    + i] == (resolution(keymap, chord[i])->0).0
        }),
{
    let keys = resolved(keymap, chord)->0;
    let modifiers = modifier_codes(keymap_modifiers(keymap), base_masks(keys))->0;
    let codes = chord_codes(keymap, chord)->0;
    assert(codes == modifiers + base_codes(keys));
    assert forall|i: int| 0 <= i < chord.len() implies resolution(keymap, #[trigger] chord[i]) is Some
        && codes[modifiers.len() + i] == (resolution(keymap, chord[i])->0).0 by {
        assert(base_codes(keys)[i] == keys[i].0);
    }
}

/// The keys in front of those of the chord itself are modifier keys: no key twice, one for each
/// modifier that a keysym of the chord needs, and no other.
pub proof fn law_chord_modifiers(keymap: Keymap, chord: Seq<u32>)
    requires
        chord_codes(keymap, chord) is Some,
    ensures
        ({
            let codes = chord_codes(keymap, chord)->0;
            let m = codes.len() - chord.len();
            let map = keymap_modifiers(keymap);
            &&& forall|i: int, j: int|
                0 <= i < j < m ==> #[trigger] codes[i] != #[trigger] codes[j]
            &&& forall|i: int, bit: u32| #[trigger]
                needs_modifier(keymap, chord, i, bit) ==> map.contains_key(bit) && codes.take(
                    m,
                ).contains(map[bit])
            &&& forall|code: u32| #[trigger]
                codes.take(m).contains(code) ==> exists|i: int, bit: u32| #[trigger]
                    needs_modifier(keymap, chord, i, bit) && map[bit] == code
        }),
{
    let keys = resolved(keymap, chord)->0;
    let masks = base_masks(keys);
    let map = keymap_modifiers(keymap);
    let modifiers = modifier_codes(map, masks)->0;
    let codes = chord_codes(keymap, chord)->0;
    let m = modifiers.len();
    assert(codes == modifiers + base_codes(keys));
    law_chord_presses_needed_modifiers(keymap, masks);
    assert(codes.take(m as int) =~= modifiers);
    assert forall|i: int, bit: u32| #[trigger]
        needs_modifier(keymap, chord, i, bit) implies map.contains_key(bit) && modifiers.contains(
        map[bit],
    ) by {
        assert(masks[i] == (resolution(keymap, chord[i])->0).1);
        assert(has_bit(masks[i], bit));
        assert(needs(masks, bit));
    }
    assert forall|code: u32| #[trigger] modifiers.contains(code) implies exists|i: int, bit: u32|
        #[trigger] needs_modifier(keymap, chord, i, bit) && map[bit] == code by {
        let bit = choose|bit: u32| #[trigger] needs(masks, bit) && map[bit] == code;
        let i = choose|i: int| 0 <= i < masks.len() && has_bit(#[trigger] masks[i], bit);
        assert(masks[i] == (resolution(keymap, chord[i])->0).1);
        assert(needs_modifier(keymap, chord, i, bit));
    }
}

/// Whether the keysym at position `i` of a chord needs the modifier of number `bit`.
pub open spec fn needs_modifier(keymap: Keymap, chord: Seq<u32>, i: int, bit: u32) -> bool {
    0 <= i < chord.len() && bit < 32 && (resolution(keymap, chord[i])->0).1 & (1u32 << bit) != 0
}

/// The bits of a mask are listed in ascending order.
proof fn lemma_bits_ascend(mask: u32, n: nat)
    requires
        n <= 32,
    ensures
        forall|i: int, j: int|
            0 <= i < j < bits_below(mask, n).len() ==> #[trigger] bits_below(mask, n)[i]
                < #[trigger] bits_below(mask, n)[j],
    decreases n,
{
    if n > 0 {
        let before = bits_below(mask, (n - 1) as nat);
        lemma_bits_ascend(mask, (n - 1) as nat);
        lemma_bits_are_set(mask, (n - 1) as nat);
        assert forall|i: int, j: int| 0 <= i < j < bits_below(mask, n).len() implies
            #[trigger] bits_below(mask, n)[i] < #[trigger] bits_below(mask, n)[j] by {
            assert(bits_below(mask, n)[i] == before[i]);
            if j < before.len() {
                assert(bits_below(mask, n)[j] == before[j]);
            }
        }
    }
}

/// The needed modifiers of the first masks come first.
proof fn lemma_needed_prefix(masks: Seq<u32>, n: int)
    requires
        0 <= n <= masks.len(),
    ensures
        needed_modifiers(masks.take(n)).len() <= needed_modifiers(masks).len(),
        forall|p: int|
            0 <= p < needed_modifiers(masks.take(n)).len() ==> needed_modifiers(masks)[p]
                == #[trigger] needed_modifiers(masks.take(n))[p],
    decreases masks.len(),
{
    if n == masks.len() {
        assert(masks.take(n) =~= masks);
    } else {
        lemma_needed_prefix(masks.drop_last(), n);
        assert(masks.drop_last().take(n) =~= masks.take(n));
    }
}

/// The needed modifiers up to a mask are those of the masks before it, then its own.
proof fn lemma_needed_block(masks: Seq<u32>, n: int)
    requires
        0 <= n < masks.len(),
    ensures
        needed_modifiers(masks.take(n + 1)) == needed_modifiers(masks.take(n)) + bits_below(
            masks[n],
            32,
        ),
{
    assert(masks.take(n + 1).drop_last() =~= masks.take(n));
    assert(masks.take(n + 1).last() == masks[n]);
}

/// The mask that a needed modifier comes from.
proof fn lemma_needed_from(masks: Seq<u32>, p: int) -> (n: int)
    requires
        0 <= p < needed_modifiers(masks).len(),
    ensures
        0 <= n < masks.len(),
        needed_modifiers(masks.take(n)).len() <= p < needed_modifiers(masks.take(n + 1)).len(),
        needed_modifiers(masks)[p] < 32,
        has_bit(masks[n], needed_modifiers(masks)[p]),
    decreases masks.len(),
{
    let rest = masks.drop_last();
    let before = needed_modifiers(rest);
    if p < before.len() {
        let n = lemma_needed_from(rest, p);
        assert(rest.take(n) =~= masks.take(n));
        assert(rest.take(n + 1) =~= masks.take(n + 1));
        assert(needed_modifiers(masks)[p] == before[p]);
        n
    } else {
        let n = masks.len() - 1;
        assert(masks.take(n) =~= rest);
        assert(masks.take(n + 1) =~= masks);
        lemma_bits_are_set(masks.last(), 32);
        assert(needed_modifiers(masks)[p] == bits_below(masks.last(), 32)[p - before.len()]);
        n
    }
}

/// What comes before an element that is kept comes before every occurrence of it.
proof fn lemma_without_repeats_order(s: Seq<u32>, i: int, j: int, q: int)
    requires
        0 <= i < j < without_repeats(s).len(),
        0 <= q < s.len(),
        s[q] == without_repeats(s)[j],
    ensures
        exists|p: int| 0 <= p < q && #[trigger] s[p] == without_repeats(s)[i],
    decreases s.len(),
{
    let rest = s.drop_last();
    let before = without_repeats(rest);
    lemma_without_repeats(rest);
    lemma_without_repeats(s);
    if q < rest.len() {
        assert(rest[q] == s[q]);
        assert(rest.contains(s[q]));
        assert(before.contains(s[q]));
        let k = choose|k: int| 0 <= k < before.len() && before[k] == s[q];
        assert(without_repeats(s)[k] == before[k]);
        assert(k == j);
        assert(without_repeats(s)[i] == before[i]);
        lemma_without_repeats_order(rest, i, j, q);
        let p = choose|p: int| 0 <= p < q && #[trigger] rest[p] == before[i];
        assert(s[p] == without_repeats(s)[i]);
    } else {
        assert(i < before.len());
        assert(without_repeats(s)[i] == before[i]);
        assert(before.contains(before[i]));
        assert(rest.contains(before[i]));
        let p = choose|p: int| 0 <= p < rest.len() && rest[p] == before[i];
        assert(s[p] == without_repeats(s)[i]);
    }
}

/// Modifier keys are pressed in the order in which they are needed: keysym by keysym along the
/// chord, and for each keysym from the lowest modifier up. Of two of them, the one pressed first
/// is needed before every need of the other.
pub proof fn law_modifier_order(
    keymap: Keymap,
    chord: Seq<u32>,
    k: int,
    l: int,
    i: int,
    bit: u32,
)
    requires
        chord_codes(keymap, chord) is Some,
        0 <= k < l < chord_codes(keymap, chord)->0.len() - chord.len(),
        needs_modifier(keymap, chord, i, bit),
        keymap_modifiers(keymap)[bit] == chord_codes(keymap, chord)->0[l],
    ensures
        exists|earlier: int, lower: u32| #[trigger]
            needs_modifier(keymap, chord, earlier, lower) && (earlier < i || (earlier == i && lower
                < bit)) && keymap_modifiers(keymap)[lower] == chord_codes(keymap, chord)->0[k],
{
    let keys = resolved(keymap, chord)->0;
    let masks = base_masks(keys);
    let map = keymap_modifiers(keymap);
    let modifiers = modifier_codes(map, masks)->0;
    let codes = chord_codes(keymap, chord)->0;
    let needed = needed_modifiers(masks);
    let list = keys_of(map, needed);
    assert(codes == modifiers + base_codes(keys));
    assert(modifiers == without_repeats(list));
    assert(codes[k] == modifiers[k] && codes[l] == modifiers[l]);
    assert(masks[i] == (resolution(keymap, chord[i])->0).1);
    lemma_bits_below(masks[i], 32, bit);
    let bits = bits_below(masks[i], 32);
    let b = choose|b: int| 0 <= b < bits.len() && bits[b] == bit;
    lemma_needed_block(masks, i);
    lemma_needed_prefix(masks, i + 1);
    let start = needed_modifiers(masks.take(i)).len();
    let q = start + b;
    assert(needed_modifiers(masks.take(i + 1))[q] == bit);
    assert(needed[q] == bit);
    assert(list[q] == map[bit]);
    lemma_without_repeats_order(list, k, l, q);
    let p = choose|p: int| 0 <= p < q && #[trigger] list[p] == modifiers[k];
    let n = lemma_needed_from(masks, p);
    if n > i {
        lemma_needed_prefix(masks.take(n), i + 1);
        assert(masks.take(n).take(i + 1) =~= masks.take(i + 1));
    }
    if n == i {
        lemma_bits_ascend(masks[i], 32);
        assert(needed_modifiers(masks.take(i + 1))[p] == bits[p - start]);
        assert(needed[p] == bits[p - start]);
        assert(bits[p - start] < bits[b]);
    }
    assert(masks[n] == (resolution(keymap, chord[n])->0).1);
    assert(needs_modifier(keymap, chord, n, needed[p]));
    assert(map[needed[p]] == list[p]);
}

} // verus!
