//! What is selected, in terms of places.
use crate::selection::{
    effect_with, find_track, first, first_curve, fresh_selection, group_label, next_selection,
    target_text, track_with, Selection, Target,
};
use crate::tracks::{Effect, EffectHandle, Object, Track};
use vstd::prelude::*;

verus! {

/// The first item that fulfils a condition does so, and none before it does. Where none is
/// found, none does.
pub proof fn law_first_item_is_found<T>(items: Seq<T>, wanted: spec_fn(T) -> bool)
    ensures
        match first(items, wanted) {
            Some(item) => exists|i: int|
                #![trigger items[i]]
                0 <= i < items.len() && items[i] == item && wanted(items[i]) && forall|j: int|
                    #![trigger items[j]]
                    0 <= j < i ==> !wanted(items[j]),
            None => forall|i: int|
                #![trigger items[i]]
                0 <= i < items.len() ==> !wanted(items[i]),
        },
    decreases items.len(),
{
    if items.len() > 0 && !wanted(items[0]) {
        let rest = items.drop_first();
        law_first_item_is_found(rest, wanted);
        assert forall|j: int| 0 <= j < rest.len() implies #[trigger] rest[j] == items[j + 1] by {}
        match first(items, wanted) {
            Some(item) => {
                let i = choose|i: int|
                    #![trigger rest[i]]
                    0 <= i < rest.len() && rest[i] == item && wanted(rest[i]) && forall|j: int|
                        #![trigger rest[j]]
                        0 <= j < i ==> !wanted(rest[j]);
                assert(items[i + 1] == item);
                assert forall|j: int| #![trigger items[j]] 0 <= j < i + 1 implies !wanted(
                    items[j],
                ) by {
                    if j > 0 {
                        assert(rest[j - 1] == items[j]);
                    }
                }
            },
            None => {
                assert forall|j: int| #![trigger items[j]] 0 <= j < items.len() implies !wanted(
                    items[j],
                ) by {
                    if j > 0 {
                        assert(rest[j - 1] == items[j]);
                    }
                }
            },
        }
    } else if items.len() > 0 {
        assert(items[0] == first(items, wanted)->0);
    }
}

/// Whether the target is a group of tracks of an effect, with its curve.
pub open spec fn is_track_of(target: Target, effect: Effect, j: int) -> bool {
    &&& 0 <= j < effect.tracks.len()
    &&& target.effect_handle == effect.handle
    &&& target.names == effect.tracks[j].names
    &&& effect.tracks[j].curve == Some(target.curve)
}

/// Whether no group of tracks of an effect before the given place has a curve.
pub open spec fn has_no_curve_before(effect: Effect, j: int) -> bool {
    forall|k: int| 0 <= k < j ==> (#[trigger] effect.tracks[k]).curve is None
}

/// What is selected of an object that is shown anew is its first group of tracks with a
/// curve: none before it in its effect has one, and none in any effect before that.
pub proof fn law_first_curve_is_selected(effects: Seq<Effect>)
    requires
        fresh_selection(effects) is Selected,
    ensures
        exists|i: int, j: int|
            #![trigger is_track_of(fresh_selection(effects)->Selected_0, effects[i], j)]
            0 <= i < effects.len() && is_track_of(
                fresh_selection(effects)->Selected_0,
                effects[i],
                j,
            ) && has_no_curve_before(effects[i], j) && forall|k: int|
                0 <= k < i ==> has_no_curve_before(
                    #[trigger] effects[k],
                    effects[k].tracks.len() as int,
                ),
{
    lemma_first_curve_place(effects);
    let target = first_curve(effects)->0;
    let (i, j) = choose|i: int, j: int|
        #![trigger is_track_of(target, effects[i], j)]
        0 <= i < effects.len() && is_track_of(target, effects[i], j) && has_no_curve_before(
            effects[i],
            j,
        ) && forall|k: int|
            0 <= k < i ==> has_no_curve_before(
                #[trigger] effects[k],
                effects[k].tracks.len() as int,
            );
    assert(fresh_selection(effects)->Selected_0 == target);
    assert(is_track_of(fresh_selection(effects)->Selected_0, effects[i], j));
}

proof fn lemma_first_curve_place(effects: Seq<Effect>)
    requires
        first_curve(effects) is Some,
    ensures
        exists|i: int, j: int|
            #![trigger is_track_of(first_curve(effects)->0, effects[i], j)]
            0 <= i < effects.len() && is_track_of(first_curve(effects)->0, effects[i], j)
                && has_no_curve_before(effects[i], j) && forall|k: int|
                0 <= k < i ==> has_no_curve_before(
                    #[trigger] effects[k],
                    effects[k].tracks.len() as int,
                ),
    decreases effects.len(),
{
    let drawn = |track: Track| track.curve is Some;
    let tracks = effects[0].tracks;
    law_first_item_is_found(tracks, drawn);
    match first(tracks, drawn) {
        Some(track) => {
            let j = choose|j: int|
                #![trigger tracks[j]]
                0 <= j < tracks.len() && tracks[j] == track && drawn(tracks[j]) && forall|k: int|
                    #![trigger tracks[k]]
                    0 <= k < j ==> !drawn(tracks[k]);
            assert(is_track_of(first_curve(effects)->0, effects[0], j));
            assert forall|k: int| 0 <= k < j implies (
            #[trigger] effects[0].tracks[k]).curve is None by {
                assert(!drawn(tracks[k]));
            }
        },
        None => {
            let rest = effects.drop_first();
            lemma_first_curve_place(rest);
            let target = first_curve(rest)->0;
            let (i, j) = choose|i: int, j: int|
                #![trigger is_track_of(target, rest[i], j)]
                0 <= i < rest.len() && is_track_of(target, rest[i], j) && has_no_curve_before(
                    rest[i],
                    j,
                ) && forall|k: int|
                    0 <= k < i ==> has_no_curve_before(
                        #[trigger] rest[k],
                        rest[k].tracks.len() as int,
                    );
            assert(rest[i] == effects[i + 1]);
            assert(is_track_of(target, effects[i + 1], j));
            assert forall|k: int| 0 <= k < i + 1 implies has_no_curve_before(
                #[trigger] effects[k],
                effects[k].tracks.len() as int,
            ) by {
                if k == 0 {
                    assert forall|l: int| 0 <= l < tracks.len() implies (
                    #[trigger] effects[0].tracks[l]).curve is None by {
                        assert(!drawn(tracks[l]));
                    }
                } else {
                    assert(rest[k - 1] == effects[k]);
                }
            }
        },
    }
}

/// A group of tracks is looked for by all its names, in the first effect with the handle
/// alone.
pub proof fn law_track_is_found_by_handle_and_names(
    effects: Seq<Effect>,
    handle: EffectHandle,
    names: Seq<Seq<char>>,
)
    ensures
        match find_track(effects, handle, names) {
            Some(track) => track.names == names && exists|i: int|
                #![trigger effects[i]]
                0 <= i < effects.len() && effects[i].handle == handle && effects[i].tracks.contains(
                    track,
                ) && forall|k: int|
                    #![trigger effects[k]]
                    0 <= k < i ==> effects[k].handle != handle,
            None => forall|i: int, j: int|
                0 <= i < effects.len() && effects[i].handle == handle && (forall|k: int|
                    #![trigger effects[k]]
                    0 <= k < i ==> effects[k].handle != handle) && 0 <= j
                    < effects[i].tracks.len() ==> (#[trigger] effects[i].tracks[j]).names != names,
        },
{
    let right = |effect: Effect| effect.handle == handle;
    let named = |track: Track| track.names == names;
    law_first_item_is_found(effects, right);
    match effect_with(effects, handle) {
        Some(effect) => {
            let i = choose|i: int|
                #![trigger effects[i]]
                0 <= i < effects.len() && effects[i] == effect && right(effects[i]) && forall|j: int|
                    #![trigger effects[j]]
                    0 <= j < i ==> !right(effects[j]);
            assert forall|k: int| #![trigger effects[k]] 0 <= k < i implies effects[k].handle
                != handle by {
                assert(!right(effects[k]));
            }
            law_first_item_is_found(effect.tracks, named);
            match track_with(effect.tracks, names) {
                Some(track) => {
                    let j = choose|j: int|
                        #![trigger effect.tracks[j]]
                        0 <= j < effect.tracks.len() && effect.tracks[j] == track && named(
                            effect.tracks[j],
                        ) && forall|k: int|
                            #![trigger effect.tracks[k]]
                            0 <= k < j ==> !named(effect.tracks[k]);
                    assert(effects[i].tracks[j] == track);
                },
                None => {
                    assert forall|l: int, j: int|
                        0 <= l < effects.len() && effects[l].handle == handle && (forall|k: int|
                            #![trigger effects[k]]
                            0 <= k < l ==> effects[k].handle != handle) && 0 <= j
                            < effects[l].tracks.len() implies (
                    #[trigger] effects[l].tracks[j]).names != names by {
                        assert(l == i);
                        assert(!named(effect.tracks[j]));
                    }
                },
            }
        },
        None => {
            assert forall|l: int| 0 <= l < effects.len() implies (
            #[trigger] effects[l]).handle != handle by {
                assert(!right(effects[l]));
            }
        },
    }
}

/// Without a selected track, what the editor says of the object that is shown again stays
/// as long as it is true, and else the object is shown anew.
pub proof fn law_nothing_selected_stays_true(current: Selection, info: Object)
    requires
        !(current is Selected),
    ensures
        ({
            let (next, kept) = next_selection(current, Some(info.handle), info);
            let some = exists|i: int|
                0 <= i < info.effects.len() && (#[trigger] info.effects[i]).tracks.len() > 0;
            &&& kept ==> next == current
            &&& !kept ==> next == fresh_selection(info.effects)
            &&& current is NotSelected ==> kept == some
            &&& current is NoTracks ==> kept == !some
            &&& current is NoObject ==> !kept
        }),
{
}

/// The label of a group names its tracks in order, with a comma and a space between each
/// two.
pub proof fn law_label_names_the_tracks(names: Seq<Seq<char>>, name: Seq<char>)
    ensures
        group_label(seq![name]) == name,
        names.len() > 0 ==> group_label(names.push(name)) == group_label(names) + ", "@ + name,
{
    assert(names.push(name).drop_last() =~= names);
}

/// What is selected is named by its effect and its tracks.
pub proof fn law_target_is_named(target: Target, info: Object, other: Selection)
    requires
        !(other is Selected),
    ensures
        ({
            let text = target_text(Selection::Selected(target), info);
            let found = effect_with(info.effects, target.effect_handle);
            &&& found is Some ==> text == found->0.name + " / "@ + group_label(target.names)
            &&& found is None ==> text == "Unknown Effect"@ + " / "@ + group_label(target.names)
            &&& target_text(other, info) == "Select a track"@
        }),
{
}

} // verus!
