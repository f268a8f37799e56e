//! Injecting synthetic keyboard input into specific windows.
//!
//! Keyboard focus is tracked per seat. To type into a window that is not the one the user is
//! working in, the keyboard focus of a second, keyboard-only "injector" seat is pointed at the
//! window, the keys are forwarded, and the focus is dropped again. The real seat is never touched.
//!
//! Each keysym is looked up in the injector seat's current keymap, which is never changed. A
//! keysym that the keymap cannot produce is skipped rather than typed.

use crate::keyboard::{all_answers, given, is_function};
use crate::keymap::Keymap;
use crate::keysyms::{Keysyms, Lookup, LookupView};
use crate::layout::{law_window_with_id, window_with_id, Layout};
use crate::plan::{
    build_plan, held_after, law_plan_in_order, law_plan_releases_every_key, plan, KeyState,
};
use crate::segments::{
    combo_parts, law_one_bad_segment_stops_all, law_settled_translation_is_final,
    law_translation_in_order, modifier_keysyms, nested, raises, segment_chords, segment_contents,
    settled, text_chords, translate, translate_all, translation, Stop, StopView,
};
use crate::state::{Effect, State};
use crate::text::split_at_first;
use vstd::prelude::*;

verus! {

/// The effects that forward the given keys.
pub open spec fn key_effects(events: Seq<(u32, KeyState)>) -> Seq<Effect> {
    events.map_values(
        |event: (u32, KeyState)| Effect::InjectorKey { code: event.0, state: event.1 },
    )
}

/// Focuses the window on the injector seat, forwards the keys of all chords in order, and drops
/// the focus.
pub open spec fn focus_cycle(id: u64, chords: Seq<Seq<(u32, KeyState)>>) -> Seq<Effect> {
    seq![Effect::InjectorFocus { window: id }] + key_effects(chords.flatten()) + seq![
        Effect::InjectorUnfocus,
    ]
}

/// What delivering chords to a window asks for. Where the keymap can produce none of them,
/// nothing.
pub open spec fn injected(layout: Layout, keymap: Keymap, id: u64, chords: Seq<Seq<u32>>) -> Result<
    Seq<Effect>,
    StopView,
> {
    if window_with_id(layout, id) is None {
        Err(StopView::NoWindow)
    } else if plan(keymap, chords).len() == 0 {
        Ok(seq![])
    } else {
        Ok(focus_cycle(id, plan(keymap, chords)))
    }
}

/// What sending segments to a window asks for.
pub open spec fn sent(
    layout: Layout,
    answers: Map<LookupView, u32>,
    keymap: Keymap,
    id: u64,
    segments: Seq<Seq<char>>,
) -> Result<Seq<Effect>, StopView> {
    match translation(answers, segments) {
        Err(stop) => Err(stop),
        Ok(chords) => if chords.len() == 0 {
            Ok(seq![])
        } else {
            injected(layout, keymap, id, chords)
        },
    }
}

/// Whether `after` is what `outcome` makes of `before`: the effects were added, or, where there
/// is a stop, nothing changed.
pub open spec fn delivered(
    before: State,
    after: State,
    outcome: Result<Seq<Effect>, StopView>,
    result: Result<(), Stop>,
) -> bool {
    match outcome {
        Ok(effects) => result is Ok && after.extends(before, effects),
        Err(stop) => result is Err && result->Err_0@ == stop && after == before,
    }
}

impl State {
    /// Sends an ordered mix of typed text and key combinations to the window with the given id
    /// without focusing it.
    ///
    /// Each segment is `text:<literal>` or `key:<combo>`. Text characters are each sent as a
    /// single keypress (line breaks as Return, tabs as Tab; characters with no keysym are
    /// skipped); key segments are pressed as a chord. Everything is applied in order within a
    /// single focus cycle. If any segment is malformed, nothing is sent.
    ///
    /// `keyboard` is asked for each keysym that is needed.
    pub fn send_into_window<K: Fn(&Lookup) -> u32>(
        &mut self,
        id: u64,
        segments: &[String],
        keyboard: &K,
    ) -> (result: Result<(), Stop>)
        requires
            forall|lookup: Lookup|
                raises(*keyboard, segment_contents(segments@), lookup@)
                    ==> #[trigger] call_requires(*keyboard, (&lookup,)),
        ensures
            !(result is Err && result->Err_0 is Ask),
            exists|answers: Map<LookupView, u32>| #[trigger]
                given(*keyboard, answers) && delivered(
                    *old(self),
                    *final(self),
                    sent(
                        old(self).layout,
                        answers,
                        old(self).keymap,
                        id,
                        segment_contents(segments@),
                    ),
                    result,
                ),
            forall|keysym_of: spec_fn(LookupView) -> u32| #[trigger]
                is_function(*keyboard, keysym_of) ==> delivered(
                    *old(self),
                    *final(self),
                    sent(
                        old(self).layout,
                        all_answers(keysym_of),
                        old(self).keymap,
                        id,
                        segment_contents(segments@),
                    ),
                    result,
                ),
    {
        let chords: Vec<Vec<u32>> = match translate_all(segments, keyboard) {
            Ok(chords) => chords,
            Err(stop) => return Err(stop),
        };
        self.send_chords(id, chords.as_slice())
    }

    /// Does the same with the answers given. Where the result is [`Stop::Ask`], an answer is
    /// missing and nothing is sent.
    pub fn send_answered(&mut self, id: u64, segments: &[String], keysyms: &Keysyms) -> (result:
        Result<(), Stop>)
        ensures
            delivered(
                *old(self),
                *final(self),
                sent(
                    old(self).layout,
                    keysyms@,
                    old(self).keymap,
                    id,
                    segment_contents(segments@),
                ),
                result,
            ),
    {
        let chords: Vec<Vec<u32>> = match translate(keysyms, segments) {
            Ok(chords) => chords,
            Err(stop) => return Err(stop),
        };
        self.send_chords(id, chords.as_slice())
    }

    /// Delivers translated chords to a window. Where there are none, the window is not looked for.
    pub fn send_chords(&mut self, id: u64, chords: &[Vec<u32>]) -> (result: Result<(), Stop>)
        ensures
            delivered(
                *old(self),
                *final(self),
                if chords@.len() == 0 {
                    Ok(seq![])
                } else {
                    injected(old(self).layout, old(self).keymap, id, nested(chords@))
                },
                result,
            ),
    {
        if chords.len() == 0 {
            assert(self.effects@ =~= old(self).effects@ + seq![]);
            return Ok(());
        }
        self.inject_into_window(id, chords)
    }

    /// Delivers a sequence of key chords to a window via the injector seat.
    ///
    /// Each chord is a list of keysyms to press together; within a chord the keys are pressed in
    /// order and released in reverse.
    pub fn inject_into_window(&mut self, id: u64, chords: &[Vec<u32>]) -> (result: Result<
        (),
        Stop,
    >)
        ensures
            delivered(
                *old(self),
                *final(self),
                injected(old(self).layout, old(self).keymap, id, nested(chords@)),
                result,
            ),
    {
        if self.layout.find_window(id).is_none() {
            return Err(Stop::NoWindow);
        }
        let events: Vec<Vec<(u32, KeyState)>> = build_plan(&self.keymap, chords);
        let ghost all = nested(events@);
        let ghost before = self.effects@;
        if events.len() == 0 {
            assert(self.effects@ =~= old(self).effects@ + seq![]);
            return Ok(());
        }
        self.effects.push(Effect::InjectorFocus { window: id });
        let ghost start = self.effects@;
        proof {
            assert(all.take(0) =~= seq![]);
            assert(start + key_effects(all.take(0).flatten()) =~= start);
        }
        for i in 0..events.len()
            invariant
                all == nested(events@),
                self.layout == old(self).layout,
                self.keymap == old(self).keymap,
                self.effects@ == start + key_effects(all.take(i as int).flatten()),
        {
            let chord: &Vec<(u32, KeyState)> = &events[i];
            let ghost so_far = all.take(i as int).flatten();
            assert(so_far + chord@.take(0) =~= so_far);
            for j in 0..chord.len()
                invariant
                    self.layout == old(self).layout,
                        self.keymap == old(self).keymap,
                    self.effects@ == start + key_effects(so_far + chord@.take(j as int)),
            {
                self.injector_key(chord[j].0, chord[j].1);
                assert(so_far + chord@.take(j + 1) =~= (so_far + chord@.take(j as int)).push(
                    chord@[j as int],
                ));
                assert(self.effects@ =~= start + key_effects(so_far + chord@.take(j + 1)));
            }
            proof {
                assert(chord@.take(chord.len() as int) =~= chord@);
                all.take(i as int).lemma_flatten_push(chord@);
                assert(all.take(i + 1) =~= all.take(i as int).push(chord@));
            }
        }
        self.effects.push(Effect::InjectorUnfocus);
        proof {
            assert(all.take(events.len() as int) =~= all);
            assert(self.effects@ =~= before + focus_cycle(id, all));
        }
        Ok(())
    }

    /// Forwards a single key press or release on the injector seat to its focused window.
    fn injector_key(&mut self, code: u32, state: KeyState)
        ensures
            final(self).extends(*old(self), seq![Effect::InjectorKey { code, state }]),
    {
        self.effects.push(Effect::InjectorKey { code, state });
        assert(self.effects@ =~= old(self).effects@ + seq![Effect::InjectorKey { code, state }]);
    }
}

/// A segment that cannot be translated keeps everything from being sent, whatever stands before
/// and after it.
pub proof fn law_bad_segment_sends_nothing(
    layout: Layout,
    answers: Map<LookupView, u32>,
    keymap: Keymap,
    id: u64,
    segments: Seq<Seq<char>>,
    i: int,
)
    requires
        0 <= i < segments.len(),
        segment_chords(answers, segments[i]) is Err,
    ensures
        sent(layout, answers, keymap, id, segments) is Err,
{
    law_one_bad_segment_stops_all(answers, segments, i);
}

/// What is sent is final once no question is open: further answers do not change it.
pub proof fn law_settled_sending_is_final(
    layout: Layout,
    fewer: Map<LookupView, u32>,
    more: Map<LookupView, u32>,
    keymap: Keymap,
    id: u64,
    segments: Seq<Seq<char>>,
)
    requires
        fewer.submap_of(more),
        settled(sent(layout, fewer, keymap, id, segments)),
    ensures
        sent(layout, more, keymap, id, segments) == sent(layout, fewer, keymap, id, segments),
{
    law_settled_translation_is_final(fewer, more, segments);
}

/// Everything is sent within a single focus cycle: where there is anything, the window is focused
/// first, the focus is dropped last, and all that comes between is keys.
pub proof fn law_single_focus_cycle(
    layout: Layout,
    answers: Map<LookupView, u32>,
    keymap: Keymap,
    id: u64,
    segments: Seq<Seq<char>>,
)
    requires
        sent(layout, answers, keymap, id, segments) is Ok,
    ensures
        ({
            let effects = sent(layout, answers, keymap, id, segments)->Ok_0;
            effects.len() > 0 ==> {
                &&& effects.len() >= 2
                &&& effects.first() == (Effect::InjectorFocus { window: id })
                &&& effects.last() == Effect::InjectorUnfocus
                &&& forall|i: int|
                    0 < i < effects.len() - 1 ==> #[trigger] effects[i] is InjectorKey
            }
        }),
{
}

/// Sending keys leaves every output alone, the focused one included.
pub proof fn law_sending_touches_no_output(
    layout: Layout,
    answers: Map<LookupView, u32>,
    keymap: Keymap,
    id: u64,
    segments: Seq<Seq<char>>,
    i: int,
)
    requires
        sent(layout, answers, keymap, id, segments) is Ok,
        0 <= i < sent(layout, answers, keymap, id, segments)->Ok_0.len(),
    ensures
        sent(layout, answers, keymap, id, segments)->Ok_0[i].output() is None,
{
}

/// The key that an effect forwards.
pub open spec fn forwarded_key() -> spec_fn(Effect) -> Option<(u32, KeyState)> {
    |effect: Effect|
        match effect {
            Effect::InjectorKey { code, state } => Some((code, state)),
            _ => None,
        }
}

/// The keys that effects forward, in order.
pub open spec fn forwarded(effects: Seq<Effect>) -> Seq<(u32, KeyState)> {
    effects.filter_map(forwarded_key())
}

/// Effects that forward keys forward those keys.
proof fn lemma_forwarded_keys(before: Seq<Effect>, events: Seq<(u32, KeyState)>)
    ensures
        forwarded(before + key_effects(events)) == forwarded(before) + events,
    decreases events.len(),
{
    let effects = key_effects(events);
    if events.len() == 0 {
        assert(before + effects =~= before);
        assert(forwarded(before) + events =~= forwarded(before));
    } else {
        lemma_forwarded_keys(before, events.drop_last());
        assert((before + effects).drop_last() =~= before + key_effects(events.drop_last()));
        assert((before + effects).last() == effects.last());
        assert(forwarded_key()(effects.last()) == Some(events.last()));
        assert(forwarded(before) + events =~= (forwarded(before) + events.drop_last()).push(
            events.last(),
        ));
    }
}

/// A focus cycle forwards the keys of its chords, in order.
proof fn lemma_forwarded(id: u64, chords: Seq<Seq<(u32, KeyState)>>)
    ensures
        forwarded(focus_cycle(id, chords)) == chords.flatten(),
{
    let focus = seq![Effect::InjectorFocus { window: id }];
    let cycle = focus_cycle(id, chords);
    assert(forwarded(focus) =~= seq![]) by {
        reveal_with_fuel(Seq::filter_map, 2);
    }
    lemma_forwarded_keys(focus, chords.flatten());
    assert(cycle.drop_last() =~= focus + key_effects(chords.flatten()));
    assert(cycle.last() == Effect::InjectorUnfocus);
    assert(forwarded(cycle) =~= chords.flatten());
}

/// The keys that are forwarded are those of the plan of all chords.
proof fn lemma_sent_keys(
    layout: Layout,
    answers: Map<LookupView, u32>,
    keymap: Keymap,
    id: u64,
    segments: Seq<Seq<char>>,
)
    requires
        sent(layout, answers, keymap, id, segments) is Ok,
    ensures
        translation(answers, segments) is Ok,
        forwarded(sent(layout, answers, keymap, id, segments)->Ok_0) == plan(
            keymap,
            translation(answers, segments)->Ok_0,
        ).flatten(),
{
    let chords = translation(answers, segments)->Ok_0;
    lemma_forwarded(id, plan(keymap, chords));
    if chords.len() == 0 {
        assert(plan(keymap, chords) =~= seq![]);
    }
    if plan(keymap, chords).len() == 0 {
        assert(plan(keymap, chords) =~= seq![]);
    }
}

/// Every key that is pressed in a window is released again before its focus is dropped, each
/// release being of the key pressed last.
pub proof fn law_sending_releases_every_key(
    layout: Layout,
    answers: Map<LookupView, u32>,
    keymap: Keymap,
    id: u64,
    segments: Seq<Seq<char>>,
)
    requires
        sent(layout, answers, keymap, id, segments) is Ok,
    ensures
        held_after(seq![], forwarded(sent(layout, answers, keymap, id, segments)->Ok_0)) == Some(
            Seq::<u32>::empty(),
        ),
{
    lemma_sent_keys(layout, answers, keymap, id, segments);
    law_plan_releases_every_key(keymap, translation(answers, segments)->Ok_0);
}

/// Everything is applied in order: sending two lists of segments at once forwards the keys of the
/// first, then those of the second.
pub proof fn law_segments_are_sent_in_order(
    layout: Layout,
    answers: Map<LookupView, u32>,
    keymap: Keymap,
    id: u64,
    first: Seq<Seq<char>>,
    second: Seq<Seq<char>>,
)
    requires
        sent(layout, answers, keymap, id, first) is Ok,
        sent(layout, answers, keymap, id, second) is Ok,
    ensures
        sent(layout, answers, keymap, id, first + second) is Ok,
        forwarded(sent(layout, answers, keymap, id, first + second)->Ok_0) == forwarded(
            sent(layout, answers, keymap, id, first)->Ok_0,
        ) + forwarded(sent(layout, answers, keymap, id, second)->Ok_0),
{
    law_translation_in_order(answers, first, second);
    let before = translation(answers, first)->Ok_0;
    let after = translation(answers, second)->Ok_0;
    lemma_sent_keys(layout, answers, keymap, id, first);
    lemma_sent_keys(layout, answers, keymap, id, second);
    lemma_sent_keys(layout, answers, keymap, id, first + second);
    law_plan_in_order(keymap, before, after);
    vstd::seq_lib::lemma_flatten_concat(plan(keymap, before), plan(keymap, after));
}

/// Any window that there is can be typed into: it is missing exactly where there is something to
/// type and no window has the id.
pub proof fn law_only_a_missing_window_is_refused(
    layout: Layout,
    answers: Map<LookupView, u32>,
    keymap: Keymap,
    id: u64,
    segments: Seq<Seq<char>>,
)
    ensures
        sent(layout, answers, keymap, id, segments) == Err::<Seq<Effect>, StopView>(
            StopView::NoWindow,
        ) <==> translation(answers, segments) is Ok && translation(answers, segments)->Ok_0.len()
            > 0 && forall|i: int|
            0 <= i < layout.windows@.len() ==> (#[trigger] layout.windows@[i]).id != id,
        translation(answers, segments) matches Err(stop) ==> sent(
            layout,
            answers,
            keymap,
            id,
            segments,
        ) == Err::<Seq<Effect>, StopView>(stop),
        translation(answers, segments) is Ok && (exists|i: int|
            0 <= i < layout.windows@.len() && (#[trigger] layout.windows@[i]).id == id) ==> sent(
            layout,
            answers,
            keymap,
            id,
            segments,
        ) is Ok,
        translation(answers, segments) is Ok && translation(answers, segments)->Ok_0.len() == 0
            ==> sent(layout, answers, keymap, id, segments) == Ok::<Seq<Effect>, StopView>(seq![]),
{
    law_window_with_id(layout, id);
    lemma_translation_needs_no_window(answers, segments);
}

/// A translation never asks for a window.
proof fn lemma_translation_needs_no_window(
    answers: Map<LookupView, u32>,
    segments: Seq<Seq<char>>,
)
    ensures
        translation(answers, segments) != Err::<Seq<Seq<u32>>, StopView>(StopView::NoWindow),
    decreases segments.len(),
{
    if segments.len() > 0 {
        lemma_translation_needs_no_window(answers, segments.drop_last());
        if let Some((_, value)) = split_at_first(segments.last(), ':') {
            lemma_text_needs_no_window(answers, value);
            lemma_modifiers_need_no_window(answers, combo_parts(value).drop_last());
        }
    }
}

/// Nor does a text.
proof fn lemma_text_needs_no_window(answers: Map<LookupView, u32>, text: Seq<char>)
    ensures
        text_chords(answers, text) != Err::<Seq<Seq<u32>>, StopView>(StopView::NoWindow),
    decreases text.len(),
{
    if text.len() > 0 {
        lemma_text_needs_no_window(answers, text.drop_last());
    }
}

/// Nor do modifiers.
proof fn lemma_modifiers_need_no_window(
    answers: Map<LookupView, u32>,
    modifiers: Seq<Seq<char>>,
)
    ensures
        modifier_keysyms(answers, modifiers) != Err::<Seq<u32>, StopView>(StopView::NoWindow),
    decreases modifiers.len(),
{
    if modifiers.len() > 0 {
        lemma_modifiers_need_no_window(answers, modifiers.drop_last());
    }
}

/// Where the windows are and which output is focused makes no difference to what is sent: two
/// layouts in which the same ids occur are typed into alike.
pub proof fn law_sending_ignores_outputs(
    layout: Layout,
    other: Layout,
    answers: Map<LookupView, u32>,
    keymap: Keymap,
    id: u64,
    segments: Seq<Seq<char>>,
)
    requires
        (exists|i: int| 0 <= i < layout.windows@.len() && (#[trigger] layout.windows@[i]).id == id)
            <==> (exists|i: int|
            0 <= i < other.windows@.len() && (#[trigger] other.windows@[i]).id == id),
    ensures
        sent(layout, answers, keymap, id, segments) == sent(other, answers, keymap, id, segments),
{
    law_window_with_id(layout, id);
    law_window_with_id(other, id);
}

/// What is typed is the plan of the translated chords, key by key and nothing else: where there is
/// any, the window with the id asked for is focused before it and the focus is dropped behind it.
pub proof fn law_sent_is_the_plan(
    layout: Layout,
    answers: Map<LookupView, u32>,
    keymap: Keymap,
    id: u64,
    segments: Seq<Seq<char>>,
)
    requires
        sent(layout, answers, keymap, id, segments) is Ok,
    ensures
        translation(answers, segments) is Ok,
        ({
            let events = plan(keymap, translation(answers, segments)->Ok_0);
            let keys = events.flatten();
            let effects = sent(layout, answers, keymap, id, segments)->Ok_0;
            &&& events.len() == 0 ==> effects.len() == 0
            &&& events.len() > 0 ==> {
                &&& effects.len() == keys.len() + 2
                &&& effects[0] == (Effect::InjectorFocus { window: id })
                &&& effects.last() == Effect::InjectorUnfocus
                &&& forall|i: int|
                    0 <= i < keys.len() ==> effects[i + 1] == (Effect::InjectorKey {
                        code: (#[trigger] keys[i]).0,
                        state: keys[i].1,
                    })
            }
        }),
{
    let chords = translation(answers, segments)->Ok_0;
    if chords.len() == 0 {
        assert(plan(keymap, chords) =~= seq![]);
    }
}

/// Chords are injected as they are sent: a window is missing exactly where none has the id, and
/// else the plan of the chords is typed in one focus cycle.
pub proof fn law_injected(layout: Layout, keymap: Keymap, id: u64, chords: Seq<Seq<u32>>)
    ensures
        (forall|i: int| 0 <= i < layout.windows@.len() ==> (#[trigger] layout.windows@[i]).id != id)
            ==> injected(layout, keymap, id, chords) == Err::<Seq<Effect>, StopView>(
            StopView::NoWindow,
        ),
        (exists|i: int| 0 <= i < layout.windows@.len() && (#[trigger] layout.windows@[i]).id == id)
            ==> {
            let events = plan(keymap, chords);
            let keys = events.flatten();
            let effects = injected(layout, keymap, id, chords)->Ok_0;
            &&& injected(layout, keymap, id, chords) is Ok
            &&& events.len() == 0 ==> effects.len() == 0
            &&& events.len() > 0 ==> {
                &&& effects.len() == keys.len() + 2
                &&& effects[0] == (Effect::InjectorFocus { window: id })
                &&& effects.last() == Effect::InjectorUnfocus
                &&& forall|i: int|
                    0 <= i < keys.len() ==> effects[i + 1] == (Effect::InjectorKey {
                        code: (#[trigger] keys[i]).0,
                        state: keys[i].1,
                    })
            }
        },
{
    law_window_with_id(layout, id);
}

/// A delivery is the outcome itself: what is asked for stands behind what was asked for before and
/// nothing else changes, or the stop is handed back and nothing changes at all.
pub proof fn law_delivered(
    before: State,
    after: State,
    outcome: Result<Seq<Effect>, StopView>,
    result: Result<(), Stop>,
)
    requires
        delivered(before, after, outcome, result),
    ensures
        outcome matches Ok(effects) ==> {
            &&& result is Ok
            &&& after.layout == before.layout
            &&& after.keymap == before.keymap
            &&& after.effects@ == before.effects@ + effects
        },
        outcome matches Err(stop) ==> {
            &&& result is Err
            &&& result->Err_0@ == stop
            &&& after == before
        },
{
}

} // verus!
