//! Finding the keys of a keymap that produce given keysyms and modifiers.

use crate::bits::{count_ones, lemma_one_bit, ones, single_bit};
use crate::search::{first_where, lemma_first_where, lemma_is_first};
use crate::text::{ascii_lower, lemma_reads_as, lowercase_is, reads_as};
use std::collections::HashMap;
use vstd::prelude::*;

verus! {

/// One shift level of a key.
#[derive(Debug)]
pub struct Level {
    /// The keysyms that the key produces at this level.
    pub syms: Vec<u32>,
    /// The modifier masks that reach this level.
    pub masks: Vec<u32>,
}

/// One key, in the layout in effect.
#[derive(Debug)]
pub struct Key {
    /// The keycode.
    pub code: u32,
    /// The shift levels, lowest first.
    pub levels: Vec<Level>,
    /// The mask of the modifiers that are active while the key is held.
    pub held_mods: u32,
}

/// A keymap as it is in the layout in effect.
#[derive(Debug)]
pub struct Keymap {
    /// The keys, by ascending keycode.
    pub keys: Vec<Key>,
    /// The names of the modifiers. The position of a name is the number of the modifier's bit.
    pub mod_names: Vec<String>,
}

impl Keymap {
    /// Whether the keys are listed by ascending keycode.
    pub open spec fn is_ascending(self) -> bool {
        forall|i: int, j: int|
            0 <= i < j < self.keys@.len() ==> (#[trigger] self.keys@[i]).code < (
            #[trigger] self.keys@[j]).code
    }

    /// Whether no two keys have the same keycode.
    pub open spec fn has_distinct_codes(self) -> bool {
        forall|i: int, j: int|
            0 <= i < j < self.keys@.len() ==> (#[trigger] self.keys@[i]).code != (
            #[trigger] self.keys@[j]).code
    }
}

/// The first of those masks that hold the fewest modifiers, or 0 where there is no mask.
pub open spec fn lightest(masks: Seq<u32>) -> u32
    decreases masks.len(),
{
    if masks.len() == 0 {
        0
    } else if masks.len() == 1 {
        masks[0]
    } else {
        let before = lightest(masks.drop_last());
        if ones(masks.last()) < ones(before) {
            masks.last()
        } else {
            before
        }
    }
}

/// Whether a level produces `keysym` and nothing else.
pub open spec fn level_makes(keysym: u32) -> spec_fn(Level) -> bool {
    |level: Level| level.syms@ == seq![keysym]
}

/// Whether some level of a key produces `keysym` and nothing else.
pub open spec fn key_makes(keysym: u32) -> spec_fn(Key) -> bool {
    |key: Key| first_where(key.levels@, level_makes(keysym)) is Some
}

/// The keycode of the first key that produces `keysym`, with the lightest mask that reaches the
/// first level on which it does.
pub open spec fn resolution(keymap: Keymap, keysym: u32) -> Option<(u32, u32)> {
    match first_where(keymap.keys@, key_makes(keysym)) {
        None => None,
        Some(i) => {
            let key = keymap.keys@[i];
            let level = key.levels@[first_where(key.levels@, level_makes(keysym))->0];
            Some((key.code, lightest(level.masks@)))
        },
    }
}

/// The number of the Lock (Caps Lock) modifier.
pub open spec fn lock_modifier(mod_names: Seq<String>) -> Option<int> {
    first_where(mod_names, |name: String| ascii_lower(name@) == "lock"@)
}

/// Whether holding a key activates exactly the modifier of number `bit`.
pub open spec fn key_activates(bit: u32) -> spec_fn(Key) -> bool {
    |key: Key| key.held_mods == 1u32 << bit
}

/// The modifiers that some key activates alone, Lock left out, each with the keycode of the first
/// such key.
pub open spec fn modifier_map(keys: Seq<Key>, lock: Option<int>) -> Map<u32, u32> {
    Map::new(
        |bit: u32|
            bit < 32 && lock != Some(bit as int) && first_where(keys, key_activates(bit)) is Some,
        |bit: u32| keys[first_where(keys, key_activates(bit))->0].code,
    )
}

/// The first of the masks with the fewest modifiers, or 0 where there is none.
pub fn lightest_mask(masks: &Vec<u32>) -> (mask: u32)
    ensures
        mask == lightest(masks@),
{
    if masks.len() == 0 {
        return 0;
    }
    let mut best: u32 = masks[0];
    for i in 1..masks.len()
        invariant
            best == lightest(masks@.take(i as int)),
    {
        assert(masks@.take(i + 1).drop_last() =~= masks@.take(i as int));
        if count_ones(masks[i]) < count_ones(best) {
            best = masks[i];
        }
    }
    assert(masks@.take(masks.len() as int) =~= masks@);
    best
}

/// Finds a keycode that produces `keysym`, together with the modifier mask needed to reach the
/// level it sits on. The mask with the fewest modifiers is preferred.
pub fn resolve_keysym(keymap: &Keymap, keysym: u32) -> (found: Option<(u32, u32)>)
    ensures
        found == resolution(*keymap, keysym),
{
    for i in 0..keymap.keys.len()
        invariant
            forall|k: int| 0 <= k < i ==> !key_makes(keysym)(#[trigger] keymap.keys@[k]),
    {
        let key: &Key = &keymap.keys[i];
        for j in 0..key.levels.len()
            invariant
                i < keymap.keys.len(),
                *key == keymap.keys@[i as int],
                forall|k: int| 0 <= k < i ==> !key_makes(keysym)(#[trigger] keymap.keys@[k]),
                forall|k: int| 0 <= k < j ==> !level_makes(keysym)(#[trigger] key.levels@[k]),
        {
            let level: &Level = &key.levels[j];
            if level.syms.len() == 1 && level.syms[0] == keysym {
                proof {
                    assert(level.syms@ =~= seq![keysym]);
                    lemma_is_first(key.levels@, level_makes(keysym), j as int);
                    lemma_is_first(keymap.keys@, key_makes(keysym), i as int);
                }
                return Some((key.code, lightest_mask(&level.masks)));
            }
        }
        proof {
            lemma_first_where(key.levels@, level_makes(keysym));
        }
    }
    proof {
        lemma_first_where(keymap.keys@, key_makes(keysym));
    }
    None
}

/// The number of the Lock modifier.
fn lock_bit(keymap: &Keymap) -> (found: Option<usize>)
    ensures
        match found {
            Some(i) => lock_modifier(keymap.mod_names@) == Some(i as int),
            None => lock_modifier(keymap.mod_names@) is None,
        },
{
    let ghost wanted = |name: String| ascii_lower(name@) == "lock"@;
    for i in 0..keymap.mod_names.len()
        invariant
            wanted == (|name: String| ascii_lower(name@) == "lock"@),
            forall|j: int| 0 <= j < i ==> !wanted(#[trigger] keymap.mod_names@[j]),
    {
        if lowercase_is(keymap.mod_names[i].as_str(), "lock") {
            proof {
                lemma_is_first(keymap.mod_names@, wanted, i as int);
            }
            return Some(i);
        }
    }
    proof {
        lemma_first_where(keymap.mod_names@, wanted);
    }
    None
}

/// Builds a map from modifier number to a keycode that activates it. Only keys that activate
/// exactly one modifier are taken. The Lock (Caps Lock) modifier is skipped so that injection
/// never toggles it.
pub fn modifier_keycodes(keymap: &Keymap) -> (codes: HashMap<u32, u32>)
    ensures
        codes@ == modifier_map(keymap.keys@, lock_modifier(keymap.mod_names@)),
{
    broadcast use vstd::std_specs::hash::group_hash_axioms;

    let lock = lock_bit(keymap);
    let mut codes: HashMap<u32, u32> = HashMap::new();
    let ghost number = lock_modifier(keymap.mod_names@);
    let ghost keys = keymap.keys@;
    assert(codes@ =~= modifier_map(keys.take(0), number));
    for i in 0..keymap.keys.len()
        invariant
            keys == keymap.keys@,
            match lock {
                Some(n) => number == Some(n as int),
                None => number is None,
            },
            codes@ == modifier_map(keys.take(i as int), number),
    {
        let ghost before = codes@;
        let key: &Key = &keymap.keys[i];
        let found: Option<u32> = single_bit(key.held_mods);
        proof {
            assert(keys.take(i + 1).drop_last() =~= keys.take(i as int));
            assert(keys.take(i + 1).last() == *key);
            assert forall|bit: u32| bit < 32 implies #[trigger] key_activates(bit)(*key) == (found
                == Some(bit)) by {
                if key.held_mods == 1u32 << bit {
                    lemma_one_bit(bit, found->0);
                }
            }
            assert forall|bit: u32| #[trigger]
                first_where(keys.take(i as int), key_activates(bit)) is Some implies keys.take(
                i as int,
            )[first_where(keys.take(i as int), key_activates(bit))->0] == keys.take(i + 1)[
            first_where(keys.take(i as int), key_activates(bit))->0] by {
                lemma_first_where(keys.take(i as int), key_activates(bit));
            }
        }
        if let Some(bit) = found {
            let is_lock: bool = match lock {
                Some(n) => n == bit as usize,
                None => false,
            };
            if !is_lock && !codes.contains_key(&bit) {
                codes.insert(bit, key.code);
            }
        }
        assert(codes@ =~= modifier_map(keys.take(i + 1), number));
    }
    assert(keys.take(keymap.keys.len() as int) =~= keys);
    codes
}

/// The lightest mask is one of the masks, no mask has fewer modifiers, and it is the first such.
pub proof fn law_lightest_mask_is_preferred(masks: Seq<u32>)
    requires
        masks.len() > 0,
    ensures
        forall|i: int| 0 <= i < masks.len() ==> ones(lightest(masks)) <= ones(#[trigger] masks[i]),
        exists|i: int|
            0 <= i < masks.len() && #[trigger] masks[i] == lightest(masks) && forall|j: int|
                0 <= j < i ==> ones(lightest(masks)) < ones(#[trigger] masks[j]),
    decreases masks.len(),
{
    if masks.len() == 1 {
        assert(masks[0] == lightest(masks));
    } else {
        let rest = masks.drop_last();
        law_lightest_mask_is_preferred(rest);
        let i = choose|i: int|
            0 <= i < rest.len() && #[trigger] rest[i] == lightest(rest) && forall|j: int|
                0 <= j < i ==> ones(lightest(rest)) < ones(#[trigger] rest[j]);
        assert forall|j: int| 0 <= j < rest.len() implies #[trigger] masks[j] == rest[j] by {}
        if ones(masks.last()) < ones(lightest(rest)) {
            assert(masks[masks.len() - 1] == lightest(masks));
        } else {
            assert(masks[i] == lightest(masks));
        }
    }
}

/// A resolved keysym is what its key produces, alone, on a level that its mask reaches: the mask
/// is one of that level's, with the fewest modifiers, or 0 where the level has none.
pub proof fn law_resolution_produces_keysym(keymap: Keymap, keysym: u32)
    requires
        resolution(keymap, keysym) is Some,
    ensures
        ({
            let (code, mask) = resolution(keymap, keysym)->0;
            exists|i: int, j: int|
                #![trigger keymap.keys@[i].levels@[j]]
                0 <= i < keymap.keys@.len() && 0 <= j < keymap.keys@[i].levels@.len() && {
                    let level = keymap.keys@[i].levels@[j];
                    &&& keymap.keys@[i].code == code
                    &&& level.syms@ == seq![keysym]
                    &&& level.masks@.len() == 0 ==> mask == 0
                    &&& level.masks@.len() > 0 ==> level.masks@.contains(mask)
                    &&& forall|n: int|
                        0 <= n < level.masks@.len() ==> ones(mask) <= ones(
                            #[trigger] level.masks@[n],
                        )
                }
        }),
{
    lemma_first_where(keymap.keys@, key_makes(keysym));
    let i = first_where(keymap.keys@, key_makes(keysym))->0;
    let levels = keymap.keys@[i].levels@;
    lemma_first_where(levels, level_makes(keysym));
    let j = first_where(levels, level_makes(keysym))->0;
    let level = keymap.keys@[i].levels@[j];
    assert(level.syms@ == seq![keysym]);
    if level.masks@.len() > 0 {
        law_lightest_mask_is_preferred(level.masks@);
    }
}

/// A keysym is not resolved exactly where no key produces it alone on any level.
pub proof fn law_unresolved_keysym_is_not_in_keymap(keymap: Keymap, keysym: u32)
    ensures
        resolution(keymap, keysym) is None <==> forall|i: int, j: int|
            #![trigger keymap.keys@[i].levels@[j]]
            0 <= i < keymap.keys@.len() && 0 <= j < keymap.keys@[i].levels@.len()
                ==> keymap.keys@[i].levels@[j].syms@ != seq![keysym],
{
    lemma_first_where(keymap.keys@, key_makes(keysym));
    if resolution(keymap, keysym) is None {
        assert forall|i: int, j: int|
            #![trigger keymap.keys@[i].levels@[j]]
            0 <= i < keymap.keys@.len() && 0 <= j
                < keymap.keys@[i].levels@.len() implies keymap.keys@[i].levels@[j].syms@
            != seq![keysym] by {
            assert(!key_makes(keysym)(keymap.keys@[i]));
            lemma_first_where(keymap.keys@[i].levels@, level_makes(keysym));
            assert(!level_makes(keysym)(keymap.keys@[i].levels@[j]));
        }
    } else {
        law_resolution_produces_keysym(keymap, keysym);
    }
}

/// The Lock modifier has no key in the map, and the key of every other modifier in it activates
/// exactly that modifier.
pub proof fn law_modifier_keys_never_lock(keymap: Keymap, bit: u32)
    requires
        modifier_map(keymap.keys@, lock_modifier(keymap.mod_names@)).contains_key(bit),
    ensures
        bit < 32,
        lock_modifier(keymap.mod_names@) != Some(bit as int),
        exists|i: int|
            0 <= i < keymap.keys@.len() && (#[trigger] keymap.keys@[i]).held_mods == 1u32 << bit
                && keymap.keys@[i].code == modifier_map(
                keymap.keys@,
                lock_modifier(keymap.mod_names@),
            )[bit],
{
    lemma_first_where(keymap.keys@, key_activates(bit));
    let i = first_where(keymap.keys@, key_activates(bit))->0;
    assert(keymap.keys@[i].held_mods == 1u32 << bit);
}

/// The key resolved for a keysym has the smallest keycode of those that produce it alone on some
/// level.
pub proof fn law_smallest_keycode_resolves(keymap: Keymap, keysym: u32, i: int, j: int)
    requires
        keymap.is_ascending(),
        0 <= i < keymap.keys@.len(),
        0 <= j < keymap.keys@[i].levels@.len(),
        keymap.keys@[i].levels@[j].syms@ == seq![keysym],
    ensures
        resolution(keymap, keysym) is Some,
        (resolution(keymap, keysym)->0).0 <= keymap.keys@[i].code,
{
    lemma_first_where(keymap.keys@[i].levels@, level_makes(keysym));
    assert(level_makes(keysym)(keymap.keys@[i].levels@[j]));
    lemma_first_where(keymap.keys@, key_makes(keysym));
    assert(key_makes(keysym)(keymap.keys@[i]));
}

/// The key kept for a modifier has the smallest keycode of those that activate exactly it.
pub proof fn law_smallest_keycode_activates(keymap: Keymap, bit: u32, i: int)
    requires
        keymap.is_ascending(),
        bit < 32,
        lock_modifier(keymap.mod_names@) != Some(bit as int),
        0 <= i < keymap.keys@.len(),
        keymap.keys@[i].held_mods == 1u32 << bit,
    ensures
        ({
            let map = modifier_map(keymap.keys@, lock_modifier(keymap.mod_names@));
            map.contains_key(bit) && map[bit] <= keymap.keys@[i].code
        }),
{
    lemma_first_where(keymap.keys@, key_activates(bit));
    assert(key_activates(bit)(keymap.keys@[i]));
}

/// Keys listed by ascending keycode have distinct keycodes.
pub proof fn law_ascending_codes_are_distinct(keymap: Keymap)
    requires
        keymap.is_ascending(),
    ensures
        keymap.has_distinct_codes(),
{
}

/// The first key that produces a keysym alone, and its first level that does, are the ones taken,
/// with the lightest of the masks of that level.
pub proof fn law_first_key_and_level_resolve(keymap: Keymap, keysym: u32, i: int, j: int)
    requires
        0 <= i < keymap.keys@.len(),
        0 <= j < keymap.keys@[i].levels@.len(),
        keymap.keys@[i].levels@[j].syms@ == seq![keysym],
        forall|k: int, l: int|
            #![trigger keymap.keys@[k].levels@[l]]
            0 <= k <= i && 0 <= l < keymap.keys@[k].levels@.len() && (k < i || l < j)
                ==> keymap.keys@[k].levels@[l].syms@ != seq![keysym],
    ensures
        resolution(keymap, keysym) is Some,
        (resolution(keymap, keysym)->0).0 == keymap.keys@[i].code,
        (resolution(keymap, keysym)->0).1 == lightest(keymap.keys@[i].levels@[j].masks@),
        keymap.keys@[i].levels@[j].masks@.len() == 0 ==> (resolution(keymap, keysym)->0).1 == 0,
{
    let levels = keymap.keys@[i].levels@;
    assert forall|l: int| 0 <= l < j implies !level_makes(keysym)(#[trigger] levels[l]) by {
        assert(keymap.keys@[i].levels@[l].syms@ != seq![keysym]);
    }
    lemma_is_first(levels, level_makes(keysym), j);
    assert forall|k: int| 0 <= k < i implies !key_makes(keysym)(#[trigger] keymap.keys@[k]) by {
        let others = keymap.keys@[k].levels@;
        lemma_first_where(others, level_makes(keysym));
        if let Some(l) = first_where(others, level_makes(keysym)) {
            assert(keymap.keys@[k].levels@[l].syms@ != seq![keysym]);
        }
    }
    lemma_is_first(keymap.keys@, key_makes(keysym), i);
}

/// Lock is the first modifier whose name reads `lock`, in whatever case, and none where no name
/// does.
pub proof fn law_lock_modifier(mod_names: Seq<String>)
    ensures
        match lock_modifier(mod_names) {
            Some(i) => {
                &&& 0 <= i < mod_names.len()
                &&& reads_as(mod_names[i]@, seq!['l', 'o', 'c', 'k'])
                &&& forall|j: int|
                    0 <= j < i ==> !reads_as((#[trigger] mod_names[j])@, seq!['l', 'o', 'c', 'k'])
            },
            None => forall|j: int|
                0 <= j < mod_names.len() ==> !reads_as(
                    (#[trigger] mod_names[j])@,
                    seq!['l', 'o', 'c', 'k'],
                ),
        },
{
    let wanted = |name: String| ascii_lower(name@) == "lock"@;
    reveal_strlit("lock");
    assert("lock"@ =~= seq!['l', 'o', 'c', 'k']);
    lemma_first_where(mod_names, wanted);
    assert forall|j: int| 0 <= j < mod_names.len() implies wanted(#[trigger] mod_names[j])
        == reads_as(mod_names[j]@, seq!['l', 'o', 'c', 'k']) by {
        lemma_reads_as(mod_names[j]@, "lock"@);
    }
}

/// A modifier has a key exactly where it is not Lock and holding some key activates it alone; the
/// first such key is the one.
pub proof fn law_modifier_map(keys: Seq<Key>, lock: Option<int>, bit: u32)
    ensures
        modifier_map(keys, lock).contains_key(bit) <==> bit < 32 && lock != Some(bit as int)
            && exists|i: int|
            0 <= i < keys.len() && (#[trigger] keys[i]).held_mods == 1u32 << bit,
        forall|i: int|
            modifier_map(keys, lock).contains_key(bit) && 0 <= i < keys.len() && (
            #[trigger] keys[i]).held_mods == 1u32 << bit && (forall|j: int|
                0 <= j < i ==> (#[trigger] keys[j]).held_mods != 1u32 << bit)
                ==> modifier_map(keys, lock)[bit] == keys[i].code,
{
    lemma_first_where(keys, key_activates(bit));
    if let Some(i) = first_where(keys, key_activates(bit)) {
        assert(keys[i].held_mods == 1u32 << bit);
        assert(forall|j: int| 0 <= j < i ==> !key_activates(bit)(#[trigger] keys[j]));
    } else {
        assert(forall|j: int| 0 <= j < keys.len() ==> !key_activates(bit)(#[trigger] keys[j]));
    }
    assert forall|i: int|
        modifier_map(keys, lock).contains_key(bit) && 0 <= i < keys.len() && (
        #[trigger] keys[i]).held_mods == 1u32 << bit && (forall|j: int|
            0 <= j < i ==> (#[trigger] keys[j]).held_mods != 1u32 << bit) implies modifier_map(
        keys,
        lock,
    )[bit] == keys[i].code by {
        lemma_is_first(keys, key_activates(bit), i);
    }
}

} // verus!
