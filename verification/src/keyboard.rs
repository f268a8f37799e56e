//! The keyboard library, which knows what keysym a name or a character stands for.
//!
//! It is handed in as a function from a [`Lookup`] to a keysym, so that this crate links no
//! system library. Nothing is taken for granted of what the function answers.

use crate::keysyms::{Lookup, LookupView};
use vstd::prelude::*;

verus! {

/// Whether each of `answers` is one that `keyboard` can give.
pub open spec fn given<K: Fn(&Lookup) -> u32>(
    keyboard: K,
    answers: Map<LookupView, u32>,
) -> bool {
    forall|view: LookupView| #[trigger]
        answers.contains_key(view) ==> gives(keyboard, view, answers[view])
}

/// Whether `keyboard` can answer the question `view` with `keysym`.
pub open spec fn gives<K: Fn(&Lookup) -> u32>(
    keyboard: K,
    view: LookupView,
    keysym: u32,
) -> bool {
    exists|lookup: Lookup| lookup@ == view && #[trigger] call_ensures(keyboard, (&lookup,), keysym)
}

/// Whether `keyboard` answers every question with what `keysym_of` says, and nothing else.
pub open spec fn is_function<K: Fn(&Lookup) -> u32>(
    keyboard: K,
    keysym_of: spec_fn(LookupView) -> u32,
) -> bool {
    forall|lookup: Lookup, keysym: u32| #[trigger]
        call_ensures(keyboard, (&lookup,), keysym) ==> keysym == keysym_of(lookup@)
}

/// All the answers of `keysym_of`.
pub open spec fn all_answers(keysym_of: spec_fn(LookupView) -> u32) -> Map<LookupView, u32> {
    Map::new(|view: LookupView| true, |view: LookupView| keysym_of(view))
}

/// The answers that a function gives are among all its answers.
pub proof fn lemma_given<K: Fn(&Lookup) -> u32>(
    keyboard: K,
    keysym_of: spec_fn(LookupView) -> u32,
    answers: Map<LookupView, u32>,
)
    requires
        given(keyboard, answers),
        is_function(keyboard, keysym_of),
    ensures
        answers.submap_of(all_answers(keysym_of)),
{
    assert forall|view: LookupView| #[trigger] answers.dom().contains(view) implies all_answers(
        keysym_of,
    ).dom().contains(view) && answers[view] == all_answers(keysym_of)[view] by {
        assert(answers.contains_key(view));
        assert(gives(keyboard, view, answers[view]));
    }
}

/// What `keyboard` answers joins what it answered before.
pub proof fn lemma_given_insert<K: Fn(&Lookup) -> u32>(
    keyboard: K,
    answers: Map<LookupView, u32>,
    lookup: Lookup,
    keysym: u32,
)
    requires
        given(keyboard, answers),
        call_ensures(keyboard, (&lookup,), keysym),
    ensures
        given(keyboard, answers.insert(lookup@, keysym)),
{
    let more = answers.insert(lookup@, keysym);
    assert forall|view: LookupView| #[trigger] more.contains_key(view) implies gives(
        keyboard,
        view,
        more[view],
    ) by {
        if view != lookup@ {
            assert(answers.contains_key(view));
        }
    }
}

/// Every answer that was given is one that a call of `keyboard` on that question can return.
pub proof fn law_given_answers_are_returned<K: Fn(&Lookup) -> u32>(
    keyboard: K,
    answers: Map<LookupView, u32>,
    view: LookupView,
)
    requires
        given(keyboard, answers),
        answers.contains_key(view),
    ensures
        exists|lookup: Lookup| #[trigger]
            call_ensures(keyboard, (&lookup,), answers[view]) && lookup@ == view,
{
    assert(gives(keyboard, view, answers[view]));
}

/// A keyboard whose every call returns what `keysym_of` says is that function, which has an answer
/// to every question.
pub proof fn law_keyboard_function<K: Fn(&Lookup) -> u32>(
    keyboard: K,
    keysym_of: spec_fn(LookupView) -> u32,
    view: LookupView,
)
    requires
        forall|lookup: Lookup, keysym: u32| #[trigger]
            call_ensures(keyboard, (&lookup,), keysym) ==> keysym == keysym_of(lookup@),
    ensures
        is_function(keyboard, keysym_of),
        all_answers(keysym_of).contains_key(view),
        all_answers(keysym_of)[view] == keysym_of(view),
{
}

} // verus!
