//! The editor's state: which track it edits, and how it shows it.
use crate::bounds::TimeControlVerticalBounds;
use crate::curve::{Curve, Position, TimeControl};
use crate::tracks::{
    copy_names, effects_view, has_full_groups, same_names, texts, tracks_view, Effect, EffectHandle,
    EffectTracksInfo, Object, ObjectEffectsInfo, ObjectHandle, Track, TrackInfo,
};
use vstd::prelude::*;
use vstd::string::*;

verus! {

/// The track that is edited, with its curve.
#[derive(Debug)]
pub struct SelectedTimeControlState {
    pub effect_handle: EffectHandle,
    pub track_name: Vec<String>,
    pub time_control: TimeControl,
}

/// The contents of a [`SelectedTimeControlState`].
pub struct Target {
    pub effect_handle: EffectHandle,
    pub names: Seq<Seq<char>>,
    pub curve: Curve,
}

impl View for SelectedTimeControlState {
    type V = Target;

    open spec fn view(&self) -> Target {
        Target {
            effect_handle: self.effect_handle,
            names: texts(self.track_name@),
            curve: self.time_control@,
        }
    }
}

/// What is selected.
#[derive(Debug)]
pub enum CurrentSelectionState {
    Selected(SelectedTimeControlState),
    /// The object has tracks, but none of them is selected.
    NotSelected,
    /// The object has no tracks.
    NoTracks,
    /// There is no object.
    NoObject,
}

/// The contents of a [`CurrentSelectionState`].
pub enum Selection {
    Selected(Target),
    NotSelected,
    NoTracks,
    NoObject,
}

impl View for CurrentSelectionState {
    type V = Selection;

    open spec fn view(&self) -> Selection {
        match self {
            CurrentSelectionState::Selected(state) => Selection::Selected(state@),
            CurrentSelectionState::NotSelected => Selection::NotSelected,
            CurrentSelectionState::NoTracks => Selection::NoTracks,
            CurrentSelectionState::NoObject => Selection::NoObject,
        }
    }
}

/// The first item of a row that fulfils a condition.
pub open spec fn first<T>(items: Seq<T>, wanted: spec_fn(T) -> bool) -> Option<T>
    decreases items.len(),
{
    if items.len() == 0 {
        None
    } else if wanted(items[0]) {
        Some(items[0])
    } else {
        first(items.drop_first(), wanted)
    }
}

/// The first effect with the given handle.
pub open spec fn effect_with(effects: Seq<Effect>, handle: EffectHandle) -> Option<Effect> {
    first(effects, |effect: Effect| effect.handle == handle)
}

/// The first group of tracks with the given names.
pub open spec fn track_with(tracks: Seq<Track>, names: Seq<Seq<char>>) -> Option<Track> {
    first(tracks, |track: Track| track.names == names)
}

/// The group of tracks with the given names, in the first effect with the given
/// handle.
pub open spec fn find_track(
    effects: Seq<Effect>,
    handle: EffectHandle,
    names: Seq<Seq<char>>,
) -> Option<Track> {
    match effect_with(effects, handle) {
        Some(effect) => track_with(effect.tracks, names),
        None => None,
    }
}

/// Whether no effect has tracks.
pub open spec fn has_no_tracks(effects: Seq<Effect>) -> bool {
    forall|i: int| 0 <= i < effects.len() ==> (#[trigger] effects[i]).tracks.len() == 0
}

/// The first group of tracks with a curve, over all effects.
pub open spec fn first_curve(effects: Seq<Effect>) -> Option<Target>
    decreases effects.len(),
{
    if effects.len() == 0 {
        None
    } else {
        match first(effects[0].tracks, |track: Track| track.curve is Some) {
            Some(track) => Some(
                Target {
                    effect_handle: effects[0].handle,
                    names: track.names,
                    curve: track.curve->0,
                },
            ),
            None => first_curve(effects.drop_first()),
        }
    }
}

/// What is selected when an object is shown anew: its first track with a curve.
pub open spec fn fresh_selection(effects: Seq<Effect>) -> Selection {
    match first_curve(effects) {
        Some(target) => Selection::Selected(target),
        None => if has_no_tracks(effects) {
            Selection::NoTracks
        } else {
            Selection::NotSelected
        },
    }
}

/// What stays selected when the object that is shown was read again: the same
/// group of tracks, with its new curve if it has one, or that there is nothing
/// to select. `None` where the selection does not fit the object any more.
pub open spec fn kept_selection(current: Selection, effects: Seq<Effect>) -> Option<Selection> {
    match current {
        Selection::Selected(target) => match find_track(
            effects,
            target.effect_handle,
            target.names,
        ) {
            Some(track) => Some(
                Selection::Selected(
                    Target {
                        effect_handle: target.effect_handle,
                        names: target.names,
                        curve: match track.curve {
                            Some(curve) => curve,
                            None => target.curve,
                        },
                    },
                ),
            ),
            None => None,
        },
        Selection::NotSelected => if has_no_tracks(effects) {
            None
        } else {
            Some(Selection::NotSelected)
        },
        Selection::NoTracks => if has_no_tracks(effects) {
            Some(Selection::NoTracks)
        } else {
            None
        },
        Selection::NoObject => None,
    }
}

/// What is selected when an object was read, and whether that is what was
/// selected before.
pub open spec fn next_selection(
    current: Selection,
    current_object: Option<ObjectHandle>,
    info: Object,
) -> (Selection, bool) {
    let keep = if current_object == Some(info.handle) {
        kept_selection(current, info.effects)
    } else {
        None
    };
    match keep {
        Some(selection) => (selection, true),
        None => (fresh_selection(info.effects), false),
    }
}

/// Skipping items that do not fulfil the condition does not change which one is
/// the first to do so.
proof fn lemma_first_skips<T>(items: Seq<T>, wanted: spec_fn(T) -> bool, n: int)
    requires
        0 <= n <= items.len(),
        forall|i: int| 0 <= i < n ==> !wanted(#[trigger] items[i]),
    ensures
        first(items, wanted) == first(items.skip(n), wanted),
    decreases n,
{
    if n == 0 {
        assert(items.skip(0) =~= items);
    } else {
        let rest = items.drop_first();
        assert forall|i: int| 0 <= i < n - 1 implies !wanted(#[trigger] rest[i]) by {
            assert(rest[i] == items[i + 1]);
        }
        assert(!wanted(items[0]));
        lemma_first_skips(rest, wanted, n - 1);
        assert(rest.skip(n - 1) =~= items.skip(n));
    }
}

/// The place of the first effect with the given handle.
fn position_of_effect(effects: &Vec<EffectTracksInfo>, handle: EffectHandle) -> (r: Option<usize>)
    ensures
        r matches Some(i) ==> i < effects.len() && effect_with(effects_view(effects@), handle)
            == Some(effects[i as int]@),
        r is None ==> effect_with(effects_view(effects@), handle) is None,
{
    let ghost all = effects_view(effects@);
    let ghost wanted = |effect: Effect| effect.handle == handle;
    let mut i: usize = 0;
    while i < effects.len()
        invariant
            i <= effects.len(),
            all == effects_view(effects@),
            wanted == (|effect: Effect| effect.handle == handle),
            forall|j: int| 0 <= j < i ==> !wanted(#[trigger] all[j]),
        decreases effects.len() - i,
    {
        if effects[i].handle == handle {
            proof {
                lemma_first_skips(all, wanted, i as int);
                assert(all.skip(i as int)[0] == effects[i as int]@);
            }
            return Some(i);
        }
        i = i + 1;
    }
    proof {
        lemma_first_skips(all, wanted, i as int);
    }
    None
}

/// The place of the first group of tracks with the given names.
fn position_of_track(tracks: &Vec<TrackInfo>, names: &Vec<String>) -> (r: Option<usize>)
    ensures
        r matches Some(i) ==> i < tracks.len() && track_with(tracks_view(tracks@), texts(names@))
            == Some(tracks[i as int]@),
        r is None ==> track_with(tracks_view(tracks@), texts(names@)) is None,
{
    let ghost all = tracks_view(tracks@);
    let ghost wanted = |track: Track| track.names == texts(names@);
    let mut i: usize = 0;
    while i < tracks.len()
        invariant
            i <= tracks.len(),
            all == tracks_view(tracks@),
            wanted == (|track: Track| track.names == texts(names@)),
            forall|j: int| 0 <= j < i ==> !wanted(#[trigger] all[j]),
        decreases tracks.len() - i,
    {
        if same_names(&tracks[i].track_name, names) {
            proof {
                lemma_first_skips(all, wanted, i as int);
                assert(all.skip(i as int)[0] == tracks[i as int]@);
            }
            return Some(i);
        }
        i = i + 1;
    }
    proof {
        lemma_first_skips(all, wanted, i as int);
    }
    None
}

/// The place of a group of tracks: that of its effect, and its own there.
fn locate(effects: &Vec<EffectTracksInfo>, handle: EffectHandle, names: &Vec<String>) -> (r: Option<
    (usize, usize),
>)
    ensures
        r matches Some((i, j)) ==> i < effects.len() && j < effects[i as int].tracks.len()
            && find_track(effects_view(effects@), handle, texts(names@)) == Some(
            effects[i as int].tracks[j as int]@,
        ),
        r is None ==> find_track(effects_view(effects@), handle, texts(names@)) is None,
{
    match position_of_effect(effects, handle) {
        Some(i) => match position_of_track(&effects[i].tracks, names) {
            Some(j) => Some((i, j)),
            None => None,
        },
        None => None,
    }
}

fn without_tracks(effects: &Vec<EffectTracksInfo>) -> (r: bool)
    ensures
        r == has_no_tracks(effects_view(effects@)),
{
    let ghost all = effects_view(effects@);
    let mut i: usize = 0;
    while i < effects.len()
        invariant
            i <= effects.len(),
            all == effects_view(effects@),
            forall|j: int| 0 <= j < i ==> (#[trigger] all[j]).tracks.len() == 0,
        decreases effects.len() - i,
    {
        if effects[i].tracks.len() > 0 {
            assert(all[i as int].tracks.len() > 0);
            return false;
        }
        assert(all[i as int].tracks.len() == 0);
        i = i + 1;
    }
    true
}

/// The first group of tracks with a curve in an effect.
fn first_curve_of(effect: &EffectTracksInfo) -> (r: Option<SelectedTimeControlState>)
    ensures
        match first(effect@.tracks, |track: Track| track.curve is Some) {
            Some(track) => r is Some && r->0@ == (Target {
                effect_handle: effect.handle,
                names: track.names,
                curve: track.curve->0,
            }),
            None => r is None,
        },
{
    let ghost all = effect@.tracks;
    let ghost wanted = |track: Track| track.curve is Some;
    let mut i: usize = 0;
    while i < effect.tracks.len()
        invariant
            i <= effect.tracks.len(),
            all == effect@.tracks,
            wanted == (|track: Track| track.curve is Some),
            forall|j: int| 0 <= j < i ==> !wanted(#[trigger] all[j]),
        decreases effect.tracks.len() - i,
    {
        let track = &effect.tracks[i];
        match &track.curve {
            Some(curve) => {
                proof {
                    lemma_first_skips(all, wanted, i as int);
                    assert(all.skip(i as int)[0] == track@);
                }
                return Some(
                    SelectedTimeControlState {
                        effect_handle: effect.handle,
                        track_name: copy_names(&track.track_name),
                        time_control: curve.clone(),
                    },
                );
            },
            None => {},
        }
        i = i + 1;
    }
    proof {
        lemma_first_skips(all, wanted, i as int);
    }
    None
}

fn select_first_curve(effects: &Vec<EffectTracksInfo>) -> (r: Option<SelectedTimeControlState>)
    ensures
        match first_curve(effects_view(effects@)) {
            Some(target) => r is Some && r->0@ == target,
            None => r is None,
        },
{
    let ghost all = effects_view(effects@);
    let mut i: usize = 0;
    assert(all.skip(0) =~= all);
    while i < effects.len()
        invariant
            i <= effects.len(),
            all == effects_view(effects@),
            first_curve(all) == first_curve(all.skip(i as int)),
        decreases effects.len() - i,
    {
        assert(all.skip(i as int)[0] == effects[i as int]@);
        assert(all.skip(i as int).drop_first() =~= all.skip(i + 1));
        let found = first_curve_of(&effects[i]);
        if found.is_some() {
            return found;
        }
        i = i + 1;
    }
    None
}

/// The text that names a group of tracks: the names with commas between them.
pub open spec fn group_label(names: Seq<Seq<char>>) -> Seq<char>
    decreases names.len(),
{
    if names.len() == 0 {
        Seq::empty()
    } else if names.len() == 1 {
        names[0]
    } else {
        group_label(names.drop_last()) + ", "@ + names.last()
    }
}

/// Whether the selected group of tracks, if there is one, is not empty.
pub open spec fn is_target_full(selection: Selection) -> bool {
    selection matches Selection::Selected(target) ==> target.names.len() > 0
}

/// The text that names what is selected of an object.
pub open spec fn target_text(selection: Selection, info: Object) -> Seq<char> {
    match selection {
        Selection::Selected(target) => (match effect_with(info.effects, target.effect_handle) {
            Some(effect) => effect.name,
            None => "Unknown Effect"@,
        }) + " / "@ + group_label(target.names),
        _ => "Select a track"@,
    }
}

/// The editor.
#[derive(Debug)]
pub struct TimeControlEditorApp {
    pub object_effects_info: Option<ObjectEffectsInfo>,
    pub timecontrol: CurrentSelectionState,
    pub timecontrol_clipboard: Option<TimeControl>,
    pub timecontrol_auto_scroll: bool,
    pub selected_point: usize,
    pub context_menu_position: Option<Position>,
    pub visible_y_bounds: Option<TimeControlVerticalBounds>,
    pub drag_scroll_y_bounds: Option<TimeControlVerticalBounds>,
}

/// What the editor shows below its bar.
#[derive(Clone, Copy, Debug, PartialEq, Eq, Structural)]
pub enum EditorContent {
    /// The curve of the selected track.
    Curve,
    /// A request to select a track.
    SelectTrack,
    /// That the object has no tracks.
    NoTracks,
    /// A request to select an object.
    SelectObject,
}

impl EditorContent {
    /// The text that is shown in place of a curve.
    pub fn text(self) -> (r: Option<&'static str>)
        ensures
            match self {
                EditorContent::Curve => r is None,
                EditorContent::SelectTrack => r is Some && r->0@
                    == "編集するトラックを選択してください"@,
                EditorContent::NoTracks => r is Some && r->0@
                    == "オブジェクトに時間制御があるトラックが存在しません"@,
                EditorContent::SelectObject => r is Some && r->0@
                    == "オブジェクトを選択してください"@,
            },
    {
        match self {
            EditorContent::Curve => None,
            EditorContent::SelectTrack => Some("編集するトラックを選択してください"),
            EditorContent::NoTracks => Some(
                "オブジェクトに時間制御があるトラックが存在しません",
            ),
            EditorContent::SelectObject => Some("オブジェクトを選択してください"),
        }
    }
}

/// The two sides of a point that have a handle.
#[derive(Clone, Copy, Debug, PartialEq, Eq, Structural)]
pub enum TimeControlHandleKind {
    In,
    Out,
}

impl TimeControlHandleKind {
    pub fn id(self) -> (r: &'static str)
        ensures
            r@ == match self {
                TimeControlHandleKind::In => "in"@,
                TimeControlHandleKind::Out => "out"@,
            },
    {
        match self {
            TimeControlHandleKind::In => "in",
            TimeControlHandleKind::Out => "out",
        }
    }
}

impl TimeControlEditorApp {
    /// Whether the view of the curve is as it is for a newly shown track: the
    /// first point selected, no menu open, and the whole curve visible.
    pub open spec fn view_is_reset(self) -> bool {
        &&& self.selected_point == 0
        &&& self.context_menu_position is None
        &&& self.visible_y_bounds is None
        &&& self.drag_scroll_y_bounds is None
    }

    /// Whether the view of the curve is the same in two states of the editor.
    pub open spec fn same_view(self, other: Self) -> bool {
        &&& self.selected_point == other.selected_point
        &&& self.context_menu_position == other.context_menu_position
        &&& self.visible_y_bounds == other.visible_y_bounds
        &&& self.drag_scroll_y_bounds == other.drag_scroll_y_bounds
    }

    /// Whether what the user keeps from track to track is the same.
    pub open spec fn same_settings(self, other: Self) -> bool {
        &&& self.timecontrol_clipboard == other.timecontrol_clipboard
        &&& self.timecontrol_auto_scroll == other.timecontrol_auto_scroll
    }

    /// Whether no group of tracks that the editor knows is empty.
    pub open spec fn has_full_groups(self) -> bool {
        &&& self.object_effects_info matches Some(info) ==> has_full_groups(info@.effects)
        &&& is_target_full(self.timecontrol@)
    }

    /// The editor before any object was read.
    pub fn new(timecontrol_auto_scroll: bool) -> (r: Self)
        ensures
            r.object_effects_info is None,
            r.timecontrol@ == Selection::NoObject,
            r.timecontrol_clipboard is None,
            r.timecontrol_auto_scroll == timecontrol_auto_scroll,
            r.view_is_reset(),
            r.has_full_groups(),
    {
        TimeControlEditorApp {
            object_effects_info: None,
            timecontrol: CurrentSelectionState::NoObject,
            timecontrol_clipboard: None,
            timecontrol_auto_scroll,
            selected_point: 0,
            context_menu_position: None,
            visible_y_bounds: None,
            drag_scroll_y_bounds: None,
        }
    }

    pub fn track_group_label(track_names: &Vec<String>) -> (r: String)
        requires
            track_names.len() > 0,
        ensures
            r@ == group_label(texts(track_names@)),
    {
        let ghost names = texts(track_names@);
        let mut label = track_names[0].clone();
        let mut i: usize = 1;
        assert(names.take(1).len() == 1 && names.take(1)[0] == names[0]);
        while i < track_names.len()
            invariant
                1 <= i <= track_names.len(),
                names == texts(track_names@),
                label@ == group_label(names.take(i as int)),
            decreases track_names.len() - i,
        {
            label.append(", ");
            label.append(track_names[i].as_str());
            assert(names.take(i + 1).drop_last() =~= names.take(i as int));
            i = i + 1;
        }
        assert(names.take(i as int) =~= names);
        label
    }

    pub fn selection_state_for_info(
        current: &CurrentSelectionState,
        current_object_handle: Option<ObjectHandle>,
        info: &ObjectEffectsInfo,
    ) -> (r: (CurrentSelectionState, bool))
        ensures
            (r.0@, r.1) == next_selection(current@, current_object_handle, info@),
    {
        let same_object: bool = match current_object_handle {
            Some(handle) => handle == info.handle,
            None => false,
        };
        if same_object {
            match current {
                CurrentSelectionState::Selected(current) => {
                    match locate(&info.effects, current.effect_handle, &current.track_name) {
                        Some((i, j)) => {
                            let time_control = match &info.effects[i].tracks[j].curve {
                                Some(time_control) => time_control.clone(),
                                None => current.time_control.clone(),
                            };
                            return (
                                CurrentSelectionState::Selected(
                                    SelectedTimeControlState {
                                        effect_handle: current.effect_handle,
                                        track_name: copy_names(&current.track_name),
                                        time_control,
                                    },
                                ),
                                true,
                            );
                        },
                        None => {},
                    }
                },
                CurrentSelectionState::NotSelected => {
                    if !without_tracks(&info.effects) {
                        return (CurrentSelectionState::NotSelected, true);
                    }
                },
                CurrentSelectionState::NoTracks => {
                    if without_tracks(&info.effects) {
                        return (CurrentSelectionState::NoTracks, true);
                    }
                },
                CurrentSelectionState::NoObject => {},
            }
        }
        let state = match select_first_curve(&info.effects) {
            Some(state) => CurrentSelectionState::Selected(state),
            None => if without_tracks(&info.effects) {
                CurrentSelectionState::NoTracks
            } else {
                CurrentSelectionState::NotSelected
            },
        };
        (state, false)
    }

    pub fn reset_timecontrol_editor_state(&mut self)
        ensures
            final(self).view_is_reset(),
            final(self).same_settings(*old(self)),
            final(self).object_effects_info == old(self).object_effects_info,
            final(self).timecontrol == old(self).timecontrol,
    {
        self.selected_point = 0;
        self.context_menu_position = None;
        self.visible_y_bounds = None;
        self.drag_scroll_y_bounds = None;
    }

    /// Takes what the watcher sent, if it sent anything: the object that has the
    /// focus, or that there is none.
    pub fn logic(&mut self, received: Option<Option<ObjectEffectsInfo>>)
        ensures
            final(self).same_settings(*old(self)),
            old(self).has_full_groups() && (received matches Some(Some(info)) ==> has_full_groups(
                info@.effects,
            )) ==> final(self).has_full_groups(),
            match received {
                None => *final(self) == *old(self),
                Some(None) => {
                    &&& final(self).timecontrol@ == Selection::NoObject
                    &&& final(self).object_effects_info == old(self).object_effects_info
                    &&& final(self).view_is_reset()
                },
                Some(Some(info)) => {
                    let known = match old(self).object_effects_info {
                        Some(current) => Some(current.handle),
                        None => None,
                    };
                    let (selection, kept) = next_selection(old(self).timecontrol@, known, info@);
                    &&& final(self).timecontrol@ == selection
                    &&& final(self).object_effects_info == Some(info)
                    &&& if kept {
                        final(self).same_view(*old(self))
                    } else {
                        final(self).view_is_reset()
                    }
                },
            },
    {
        match received {
            None => {},
            Some(None) => {
                self.timecontrol = CurrentSelectionState::NoObject;
                self.reset_timecontrol_editor_state();
            },
            Some(Some(info)) => {
                let current_object_handle = match &self.object_effects_info {
                    Some(current) => Some(current.handle),
                    None => None,
                };
                let (timecontrol, selection_kept) = Self::selection_state_for_info(
                    &self.timecontrol,
                    current_object_handle,
                    &info,
                );
                proof {
                    if has_full_groups(info@.effects) && is_target_full(self.timecontrol@) {
                        law_selected_group_is_not_empty(
                            self.timecontrol@,
                            current_object_handle,
                            info@,
                        );
                    }
                }
                self.object_effects_info = Some(info);
                self.timecontrol = timecontrol;
                if !selection_kept {
                    self.reset_timecontrol_editor_state();
                }
            },
        }
    }

    /// What the editor shows: whether the bar with the track is there, and what
    /// is below it.
    pub fn ui(&self) -> (r: (bool, EditorContent))
        ensures
            r == match self.timecontrol@ {
                Selection::Selected(_) => (true, EditorContent::Curve),
                Selection::NotSelected => (true, EditorContent::SelectTrack),
                Selection::NoTracks => (false, EditorContent::NoTracks),
                Selection::NoObject => (false, EditorContent::SelectObject),
            },
    {
        match &self.timecontrol {
            CurrentSelectionState::Selected(_) => (true, EditorContent::Curve),
            CurrentSelectionState::NotSelected => (true, EditorContent::SelectTrack),
            CurrentSelectionState::NoTracks => (false, EditorContent::NoTracks),
            CurrentSelectionState::NoObject => (false, EditorContent::SelectObject),
        }
    }

    /// The text in the bar: the selected effect and track. There is none before
    /// an object was read.
    pub fn target_label(&self) -> (r: Option<String>)
        requires
            self.object_effects_info is Some ==> self.timecontrol@ is Selected
                || self.timecontrol@ is NotSelected,
            self.object_effects_info is Some ==> (self.timecontrol@ matches Selection::Selected(
                target,
            ) ==> target.names.len() > 0),
        ensures
            match self.object_effects_info {
                None => r is None,
                Some(info) => r is Some && r->0@ == target_text(self.timecontrol@, info@),
            },
    {
        let info = match &self.object_effects_info {
            Some(info) => info,
            None => {
                return None;
            },
        };
        match &self.timecontrol {
            CurrentSelectionState::Selected(state) => {
                let mut text = match position_of_effect(&info.effects, state.effect_handle) {
                    Some(i) => info.effects[i].name.clone(),
                    None => "Unknown Effect".to_owned(),
                };
                text.append(" / ");
                assert(texts(state.track_name@).len() == state.track_name.len());
                text.append(Self::track_group_label(&state.track_name).as_str());
                Some(text)
            },
            _ => Some("Select a track".to_owned()),
        }
    }

    /// Selects a group of tracks. A group without a curve gets `default_curve`;
    /// the result says whether that is to be written to the tracks.
    pub fn select_track(
        &mut self,
        effect_handle: EffectHandle,
        track_name: Vec<String>,
        default_curve: TimeControl,
    ) -> (write_default: bool)
        requires
            old(self).object_effects_info is Some,
        ensures
            final(self).same_settings(*old(self)),
            final(self).same_view(*old(self)),
            final(self).object_effects_info == old(self).object_effects_info,
            old(self).has_full_groups() && track_name.len() > 0 ==> final(self).has_full_groups(),
            ({
                let found = match find_track(
                    old(self).object_effects_info->0@.effects,
                    effect_handle,
                    texts(track_name@),
                ) {
                    Some(track) => track.curve,
                    None => None,
                };
                &&& write_default == (found is None)
                &&& final(self).timecontrol@ == Selection::Selected(
                    Target {
                        effect_handle,
                        names: texts(track_name@),
                        curve: match found {
                            Some(curve) => curve,
                            None => default_curve@,
                        },
                    },
                )
            }),
    {
        let mut write_default: bool = true;
        let mut time_control = default_curve;
        match &self.object_effects_info {
            Some(info) => {
                match locate(&info.effects, effect_handle, &track_name) {
                    Some((i, j)) => {
                        match &info.effects[i].tracks[j].curve {
                            Some(curve) => {
                                time_control = curve.clone();
                                write_default = false;
                            },
                            None => {},
                        }
                    },
                    None => {},
                }
            },
            None => {},
        }
        self.timecontrol = CurrentSelectionState::Selected(
            SelectedTimeControlState { effect_handle, track_name, time_control },
        );
        write_default
    }

    /// Gives the selected track the curve of a preset.
    pub fn apply_preset(&mut self, preset: TimeControl)
        requires
            old(self).timecontrol@ is Selected,
        ensures
            final(self).view_is_reset(),
            final(self).same_settings(*old(self)),
            final(self).object_effects_info == old(self).object_effects_info,
            old(self).has_full_groups() ==> final(self).has_full_groups(),
            final(self).timecontrol@ == Selection::Selected(
                Target { curve: preset@, ..old(self).timecontrol@->Selected_0 },
            ),
    {
        match &mut self.timecontrol {
            CurrentSelectionState::Selected(state) => {
                state.time_control = preset;
            },
            _ => {},
        }
        self.reset_timecontrol_editor_state();
    }
}

/// The text that is shown when the mouse is over a group of tracks.
pub fn track_hint(track: &TrackInfo) -> (r: &'static str)
    ensures
        r@ == if track@.curve is Some {
            "時間制御トラックを編集する"@
        } else {
            "時間制御トラックが存在しません"@
        },
{
    match &track.curve {
        Some(_) => "時間制御トラックを編集する",
        None => "時間制御トラックが存在しません",
    }
}

// What holds of all selections.

/// The first item that fulfils a condition is an item that does so, and there is
/// one if any item does.
proof fn lemma_first<T>(items: Seq<T>, wanted: spec_fn(T) -> bool)
    ensures
        first(items, wanted) matches Some(item) ==> wanted(item) && items.contains(item),
        first(items, wanted) is None <==> forall|i: int|
            0 <= i < items.len() ==> !wanted(#[trigger] items[i]),
    decreases items.len(),
{
    if items.len() > 0 {
        let rest = items.drop_first();
        lemma_first(rest, wanted);
        assert forall|i: int| 0 <= i < rest.len() implies rest[i] == items[i + 1] by {}
        if !wanted(items[0]) {
            match first(rest, wanted) {
                Some(item) => {
                    let i = choose|i: int| 0 <= i < rest.len() && rest[i] == item;
                    assert(items[i + 1] == item);
                },
                None => {
                    assert forall|i: int| 0 <= i < items.len() implies !wanted(
                        #[trigger] items[i],
                    ) by {
                        if i > 0 {
                            assert(!wanted(rest[i - 1]));
                        }
                    }
                },
            }
        } else {
            assert(items.contains(items[0]));
        }
    }
}

/// Whether a group of tracks in some effect has a curve.
pub open spec fn has_curve(effects: Seq<Effect>) -> bool {
    exists|i: int, j: int|
        0 <= i < effects.len() && 0 <= j < effects[i].tracks.len() && (
        #[trigger] effects[i].tracks[j]).curve is Some
}

proof fn lemma_first_curve(effects: Seq<Effect>)
    ensures
        first_curve(effects) is Some <==> has_curve(effects),
    decreases effects.len(),
{
    if effects.len() > 0 {
        let rest = effects.drop_first();
        let tracks = effects[0].tracks;
        lemma_first(tracks, |track: Track| track.curve is Some);
        lemma_first_curve(rest);
        match first(tracks, |track: Track| track.curve is Some) {
            Some(track) => {
                let j = choose|j: int| 0 <= j < tracks.len() && tracks[j] == track;
                assert(effects[0].tracks[j].curve is Some);
            },
            None => {
                if has_curve(rest) {
                    let (i, j) = choose|i: int, j: int|
                        0 <= i < rest.len() && 0 <= j < rest[i].tracks.len() && (
                        #[trigger] rest[i].tracks[j]).curve is Some;
                    assert(effects[i + 1].tracks[j].curve is Some);
                }
                if has_curve(effects) {
                    let (i, j) = choose|i: int, j: int|
                        0 <= i < effects.len() && 0 <= j < effects[i].tracks.len() && (
                        #[trigger] effects[i].tracks[j]).curve is Some;
                    if i == 0 {
                        assert(!(tracks[j].curve is Some));
                    } else {
                        assert(rest[i - 1].tracks[j].curve is Some);
                    }
                }
            },
        }
    }
}

/// An object that is shown anew has a track selected if any of its tracks has a
/// curve. If none has, the editor says whether there are tracks to select.
pub proof fn law_fresh_selection(effects: Seq<Effect>)
    ensures
        fresh_selection(effects) is Selected <==> has_curve(effects),
        fresh_selection(effects) is NotSelected <==> !has_curve(effects) && !has_no_tracks(effects),
        fresh_selection(effects) is NoTracks <==> has_no_tracks(effects),
{
    lemma_first_curve(effects);
}

proof fn lemma_first_curve_is_not_empty(effects: Seq<Effect>)
    requires
        has_full_groups(effects),
    ensures
        first_curve(effects) matches Some(target) ==> target.names.len() > 0,
    decreases effects.len(),
{
    if effects.len() > 0 {
        let rest = effects.drop_first();
        let tracks = effects[0].tracks;
        lemma_first(tracks, |track: Track| track.curve is Some);
        match first(tracks, |track: Track| track.curve is Some) {
            Some(track) => {
                let j = choose|j: int| 0 <= j < tracks.len() && tracks[j] == track;
                assert(effects[0].tracks[j].names.len() > 0);
            },
            None => {
                assert forall|i: int, j: int|
                    0 <= i < rest.len() && 0 <= j < rest[i].tracks.len() implies (
                #[trigger] rest[i].tracks[j]).names.len() > 0 by {
                    assert(effects[i + 1].tracks[j].names.len() > 0);
                }
                lemma_first_curve_is_not_empty(rest);
            },
        }
    }
}

/// Where no group of tracks of an object is empty, the group that is selected is not
/// empty either, so that it has a label.
pub proof fn law_selected_group_is_not_empty(
    current: Selection,
    current_object: Option<ObjectHandle>,
    info: Object,
)
    requires
        is_target_full(current),
        has_full_groups(info.effects),
    ensures
        is_target_full(next_selection(current, current_object, info).0),
{
    lemma_first_curve_is_not_empty(info.effects);
}

/// Another object is always shown anew.
pub proof fn law_other_object_is_shown_anew(
    current: Selection,
    current_object: Option<ObjectHandle>,
    info: Object,
)
    requires
        current_object != Some(info.handle),
    ensures
        next_selection(current, current_object, info) == (fresh_selection(info.effects), false),
{
}

/// When the object that is shown was read again and still has the selected group
/// of tracks, that group stays selected, wherever it stands in the object. It
/// gets its new curve, or keeps the old one where it has none at the moment.
pub proof fn law_selected_target_stays(target: Target, info: Object)
    requires
        find_track(info.effects, target.effect_handle, target.names) is Some,
    ensures
        ({
            let track = find_track(info.effects, target.effect_handle, target.names)->0;
            next_selection(Selection::Selected(target), Some(info.handle), info) == (
                Selection::Selected(
                    Target {
                        curve: if track.curve is Some {
                            track.curve->0
                        } else {
                            target.curve
                        },
                        ..target
                    },
                ),
                true,
            )
        }),
{
}

/// When the object that is shown was read again and does not have the selected
/// group of tracks any more, it is shown anew.
pub proof fn law_lost_target_is_replaced(target: Target, info: Object)
    requires
        find_track(info.effects, target.effect_handle, target.names) is None,
    ensures
        next_selection(Selection::Selected(target), Some(info.handle), info) == (
            fresh_selection(info.effects),
            false,
        ),
{
}

/// Whether no two effects have the same handle.
pub open spec fn has_distinct_handles(effects: Seq<Effect>) -> bool {
    forall|i: int, j: int|
        0 <= i < j < effects.len() ==> (#[trigger] effects[i]).handle != (
        #[trigger] effects[j]).handle
}

/// The track that is selected first is found again.
proof fn lemma_first_curve_is_found(effects: Seq<Effect>)
    requires
        has_distinct_handles(effects),
        first_curve(effects) is Some,
    ensures
        ({
            let target = first_curve(effects)->0;
            let found = find_track(effects, target.effect_handle, target.names);
            &&& found is Some
            &&& found->0.curve is Some ==> found->0.curve->0 == target.curve
        }),
    decreases effects.len(),
{
    let rest = effects.drop_first();
    let tracks = effects[0].tracks;
    let drawn = |track: Track| track.curve is Some;
    let target = first_curve(effects)->0;
    lemma_first(tracks, drawn);
    match first(tracks, drawn) {
        Some(track) => {
            lemma_first_named(tracks, track);
        },
        None => {
            assert forall|i: int, j: int| 0 <= i < j < rest.len() implies (
            #[trigger] rest[i]).handle != (#[trigger] rest[j]).handle by {
                assert(effects[i + 1].handle != effects[j + 1].handle);
            }
            lemma_first_curve_is_found(rest);
            let same = |effect: Effect| effect.handle == target.effect_handle;
            lemma_first(rest, same);
            let effect = effect_with(rest, target.effect_handle)->0;
            let i = choose|i: int| 0 <= i < rest.len() && rest[i] == effect;
            assert(effects[0].handle != effects[i + 1].handle);
        },
    }
}

/// The first group with the names of the first one with a curve is that one, or
/// has no curve.
proof fn lemma_first_named(tracks: Seq<Track>, track: Track)
    requires
        first(tracks, |track: Track| track.curve is Some) == Some(track),
    ensures
        track_with(tracks, track.names) is Some,
        track_with(tracks, track.names)->0.curve is Some ==> track_with(tracks, track.names)->0
            == track,
    decreases tracks.len(),
{
    let rest = tracks.drop_first();
    if !(tracks[0].curve is Some) {
        lemma_first_named(rest, track);
    }
}

/// Reading the same object twice selects the same as reading it once, where no two
/// effects have the same handle.
pub proof fn law_refreshing_again_changes_nothing(
    current: Selection,
    current_object: Option<ObjectHandle>,
    info: Object,
)
    requires
        has_distinct_handles(info.effects),
    ensures
        ({
            let (selection, _) = next_selection(current, current_object, info);
            next_selection(selection, Some(info.handle), info) == (selection, true)
        }),
{
    law_fresh_selection(info.effects);
    if first_curve(info.effects) is Some {
        lemma_first_curve_is_found(info.effects);
    }
}

} // verus!
