use anarchy_time_control::bounds::TimeControlVerticalBounds;
use anarchy_time_control::curve::{
    Position, TimeControl, TimeControlBezier, TimeControlBounce, TimeControlElastic,
    TimeControlMode, TimeControlPoint, TimeControlSegment,
};
use anarchy_time_control::curve_io::serialize_curve_to_points;
use anarchy_time_control::double::Double;
use anarchy_time_control::error::CurveError;
use anarchy_time_control::object_reader::{HostAnswer, HostQuestion, ObjectReader, ReaderStage};
use anarchy_time_control::plugin::{plugin_information, plugin_name};
use anarchy_time_control::selection::{
    track_hint, CurrentSelectionState, EditorContent, SelectedTimeControlState,
    TimeControlEditorApp, TimeControlHandleKind,
};
use anarchy_time_control::spans::ControlPoint;
use anarchy_time_control::tracks::{
    default_curve_script, track_group, write_curve_to_track, EffectHandle,
    EffectScan, EffectTracksInfo, ObjectEffectsInfo, ObjectHandle, TrackControl, TrackInfo,
};
use anarchy_time_control::watcher::{
    WatcherAction, WatcherEvent, WatcherMessage, WatcherThreadInternal,
};

fn double(value: f64) -> Double {
    Double::from_bits(value.to_bits())
}

fn position(x: f64, y: f64) -> Position {
    Position::new(double(x), double(y))
}

fn default_for_mode(mode: TimeControlMode) -> TimeControl {
    let segment = match mode {
        TimeControlMode::Bezier => TimeControlSegment::Bezier(TimeControlBezier {
            start_handle: position(0.25, 0.25),
            end_handle: position(0.75, 0.75),
        }),
        TimeControlMode::Elastic => TimeControlSegment::Elastic(TimeControlElastic {
            reversed: false,
            amplitude: double(1.0),
            frequency: double(3.0),
            decay: double(5.0),
        }),
        TimeControlMode::Bounce => TimeControlSegment::Bounce(TimeControlBounce {
            reversed: false,
            vertex: position(0.6, 0.75),
        }),
    };
    TimeControl {
        points: vec![
            TimeControlPoint {
                position: position(0.0, 0.0),
                handles_separated: false,
            },
            TimeControlPoint {
                position: position(1.0, 1.0),
                handles_separated: false,
            },
        ],
        segments: vec![segment],
    }
}

fn default_curve() -> TimeControl {
    default_for_mode(TimeControlMode::Bezier)
}

fn mode(curve: &TimeControl) -> TimeControlMode {
    curve.segments[0].mode()
}

fn object_handle(value: usize) -> ObjectHandle {
    ObjectHandle { address: value }
}

fn effect_handle(value: usize) -> EffectHandle {
    EffectHandle { address: value }
}

fn names(names: &[&str]) -> Vec<String> {
    names.iter().map(|name| name.to_string()).collect()
}

fn effect_info(
    handle: EffectHandle,
    tracks: Vec<(Vec<&str>, Option<TimeControl>)>,
) -> EffectTracksInfo {
    EffectTracksInfo {
        name: format!("Effect {}", handle.address),
        handle,
        tracks: tracks
            .into_iter()
            .map(|(track_name, curve)| TrackInfo {
                track_name: names(&track_name),
                curve,
            })
            .collect(),
    }
}

fn selected(effect: EffectHandle, track_name: &[&str], curve: TimeControl) -> CurrentSelectionState {
    CurrentSelectionState::Selected(SelectedTimeControlState {
        effect_handle: effect,
        track_name: names(track_name),
        time_control: curve,
    })
}

#[test]
fn refreshed_info_keeps_a_selected_target_that_is_not_first() {
    let object = object_handle(1);
    let first_effect = effect_handle(1);
    let selected_effect = effect_handle(2);
    let current = selected(
        selected_effect,
        &["Selected X", "Selected Y"],
        default_curve(),
    );
    let info = ObjectEffectsInfo {
        handle: object,
        effects: vec![
            effect_info(first_effect, vec![(vec!["First"], Some(default_curve()))]),
            effect_info(
                selected_effect,
                vec![(
                    vec!["Selected X", "Selected Y"],
                    Some(default_for_mode(TimeControlMode::Elastic)),
                )],
            ),
        ],
    };

    let (next, selection_kept) =
        TimeControlEditorApp::selection_state_for_info(&current, Some(object), &info);

    assert!(selection_kept);
    let CurrentSelectionState::Selected(next) = next else {
        panic!("the selected target must remain selected");
    };
    assert_eq!(next.effect_handle, selected_effect);
    assert_eq!(next.track_name, ["Selected X", "Selected Y"]);
    assert_eq!(mode(&next.time_control), TimeControlMode::Elastic);
}

#[test]
fn refreshed_info_keeps_the_current_curve_if_the_target_curve_is_temporarily_missing() {
    let object = object_handle(1);
    let selected_effect = effect_handle(1);
    let current = selected(
        selected_effect,
        &["Selected X", "Selected Y"],
        default_for_mode(TimeControlMode::Bounce),
    );
    let info = ObjectEffectsInfo {
        handle: object,
        effects: vec![effect_info(
            selected_effect,
            vec![(vec!["Selected X", "Selected Y"], None)],
        )],
    };

    let (next, selection_kept) =
        TimeControlEditorApp::selection_state_for_info(&current, Some(object), &info);

    assert!(selection_kept);
    let CurrentSelectionState::Selected(next) = next else {
        panic!("the selected target must remain selected");
    };
    assert_eq!(mode(&next.time_control), TimeControlMode::Bounce);
}

#[test]
fn refreshed_info_resets_selection_if_the_track_group_changes() {
    let object = object_handle(1);
    let selected_effect = effect_handle(1);
    let current = selected(
        selected_effect,
        &["Selected X", "Selected Y"],
        default_curve(),
    );
    let info = ObjectEffectsInfo {
        handle: object,
        effects: vec![effect_info(
            selected_effect,
            vec![(vec!["Selected X", "Selected Z"], Some(default_curve()))],
        )],
    };

    let (next, selection_kept) =
        TimeControlEditorApp::selection_state_for_info(&current, Some(object), &info);

    assert!(!selection_kept);
    let CurrentSelectionState::Selected(next) = next else {
        panic!("the changed track group must become the new selection");
    };
    assert_eq!(next.track_name, ["Selected X", "Selected Z"]);
}

#[test]
fn track_group_label_lists_all_members() {
    assert_eq!(
        TimeControlEditorApp::track_group_label(&vec!["Single".to_string()]),
        "Single"
    );
    assert_eq!(
        TimeControlEditorApp::track_group_label(&vec![
            "Position X".to_string(),
            "Position Y".to_string(),
        ]),
        "Position X, Position Y"
    );
}

#[test]
fn refreshed_info_resets_selection_for_a_different_object() {
    let selected_effect = effect_handle(1);
    let current = selected(selected_effect, &["Selected"], default_curve());
    let next_object = object_handle(2);
    let info = ObjectEffectsInfo {
        handle: next_object,
        effects: vec![effect_info(
            selected_effect,
            vec![(
                vec!["First"],
                Some(default_for_mode(TimeControlMode::Elastic)),
            )],
        )],
    };

    let (next, selection_kept) =
        TimeControlEditorApp::selection_state_for_info(&current, Some(object_handle(1)), &info);

    assert!(!selection_kept);
    let CurrentSelectionState::Selected(next) = next else {
        panic!("the first target of the new object must be selected");
    };
    assert_eq!(next.track_name, ["First"]);
}

// Selections.

fn refreshed(
    current: &CurrentSelectionState,
    effects: Vec<EffectTracksInfo>,
) -> (CurrentSelectionState, bool) {
    let object = object_handle(7);
    let info = ObjectEffectsInfo {
        handle: object,
        effects,
    };
    TimeControlEditorApp::selection_state_for_info(current, Some(object), &info)
}

#[test]
fn objects_shown_anew_select_their_first_curve() {
    let effects = || {
        vec![
            effect_info(effect_handle(1), vec![]),
            effect_info(effect_handle(2), vec![(vec!["A"], None)]),
            effect_info(
                effect_handle(3),
                vec![(vec!["B"], None), (vec!["C"], Some(default_curve()))],
            ),
            effect_info(effect_handle(4), vec![(vec!["D"], Some(default_curve()))]),
        ]
    };
    let (next, kept) = refreshed(&CurrentSelectionState::NoObject, effects());
    assert!(!kept);
    assert!(matches!(
        &next,
        CurrentSelectionState::Selected(state)
            if state.effect_handle == effect_handle(3) && state.track_name == ["C"]
    ));
    let (again, kept) = refreshed(&next, effects());
    assert!(kept);
    assert!(matches!(
        again,
        CurrentSelectionState::Selected(state)
            if state.effect_handle == effect_handle(3) && state.track_name == ["C"]
    ));
}

#[test]
fn objects_without_curves_say_whether_they_have_tracks() {
    let bare = || vec![effect_info(effect_handle(1), vec![])];
    let tracks = || vec![effect_info(effect_handle(1), vec![(vec!["A"], None)])];
    let start = CurrentSelectionState::NoObject;
    assert!(matches!(
        refreshed(&start, bare()),
        (CurrentSelectionState::NoTracks, false)
    ));
    assert!(matches!(
        refreshed(&start, vec![]),
        (CurrentSelectionState::NoTracks, false)
    ));
    assert!(matches!(
        refreshed(&start, tracks()),
        (CurrentSelectionState::NotSelected, false)
    ));
    assert!(matches!(
        refreshed(&CurrentSelectionState::NoTracks, bare()),
        (CurrentSelectionState::NoTracks, true)
    ));
    assert!(matches!(
        refreshed(&CurrentSelectionState::NoTracks, tracks()),
        (CurrentSelectionState::NotSelected, false)
    ));
    assert!(matches!(
        refreshed(&CurrentSelectionState::NotSelected, tracks()),
        (CurrentSelectionState::NotSelected, true)
    ));
    assert!(matches!(
        refreshed(&CurrentSelectionState::NotSelected, bare()),
        (CurrentSelectionState::NoTracks, false)
    ));
    // A selection of none stays as it is, even when a curve appears.
    let drawn = vec![effect_info(
        effect_handle(1),
        vec![(vec!["A"], Some(default_curve()))],
    )];
    assert!(matches!(
        refreshed(&CurrentSelectionState::NotSelected, drawn),
        (CurrentSelectionState::NotSelected, true)
    ));
}

fn moved_view(app: &mut TimeControlEditorApp) {
    let bounds = TimeControlVerticalBounds {
        min_y: double(0.0),
        max_y: double(1.0),
    };
    app.selected_point = 3;
    app.context_menu_position = Some(position(0.5, 0.5));
    app.visible_y_bounds = Some(bounds);
    app.drag_scroll_y_bounds = Some(bounds);
}

fn is_view_reset(app: &TimeControlEditorApp) -> bool {
    app.selected_point == 0
        && app.context_menu_position.is_none()
        && app.visible_y_bounds.is_none()
        && app.drag_scroll_y_bounds.is_none()
}

fn object_info(handle: usize, tracks: Vec<(Vec<&str>, Option<TimeControl>)>) -> ObjectEffectsInfo {
    ObjectEffectsInfo {
        handle: object_handle(handle),
        effects: vec![effect_info(effect_handle(1), tracks)],
    }
}

#[test]
fn editor_takes_what_the_watcher_sends() {
    let mut app = TimeControlEditorApp::new(true);
    assert!(app.timecontrol_auto_scroll);
    assert!(app.timecontrol_clipboard.is_none());
    assert!(is_view_reset(&app));
    assert_eq!(app.ui(), (false, EditorContent::SelectObject));
    assert_eq!(app.ui().1.text(), Some("オブジェクトを選択してください"));
    assert_eq!(app.target_label(), None);

    app.logic(Some(Some(object_info(
        1,
        vec![(vec!["A"], Some(default_curve()))],
    ))));
    assert_eq!(app.ui(), (true, EditorContent::Curve));
    assert_eq!(app.ui().1.text(), None);
    assert_eq!(app.target_label(), Some("Effect 1 / A".to_string()));

    moved_view(&mut app);
    app.logic(None);
    assert!(!is_view_reset(&app));
    app.logic(Some(Some(object_info(1, vec![(vec!["A"], None)]))));
    assert!(!is_view_reset(&app));
    assert_eq!(app.ui(), (true, EditorContent::Curve));

    app.logic(Some(Some(object_info(1, vec![]))));
    assert!(is_view_reset(&app));
    assert_eq!(app.ui(), (false, EditorContent::NoTracks));
    assert_eq!(
        app.ui().1.text(),
        Some("オブジェクトに時間制御があるトラックが存在しません")
    );

    app.logic(Some(Some(object_info(2, vec![(vec!["A"], None)]))));
    assert_eq!(app.ui(), (true, EditorContent::SelectTrack));
    assert_eq!(
        app.ui().1.text(),
        Some("編集するトラックを選択してください")
    );
    assert_eq!(app.target_label(), Some("Select a track".to_string()));

    moved_view(&mut app);
    app.logic(Some(None));
    assert!(is_view_reset(&app));
    assert_eq!(app.ui(), (false, EditorContent::SelectObject));
    assert!(app.object_effects_info.is_some());
}

#[test]
fn chosen_tracks_keep_their_curve_or_get_the_default() {
    let mut app = TimeControlEditorApp::new(false);
    app.logic(Some(Some(object_info(
        1,
        vec![
            (vec!["A"], None),
            (
                vec!["B", "C"],
                Some(default_for_mode(TimeControlMode::Elastic)),
            ),
        ],
    ))));
    moved_view(&mut app);
    assert!(app.select_track(effect_handle(1), names(&["A"]), default_curve()));
    assert!(matches!(
        &app.timecontrol,
        CurrentSelectionState::Selected(state)
            if state.track_name == ["A"] && mode(&state.time_control) == TimeControlMode::Bezier
    ));
    assert!(!app.select_track(effect_handle(1), names(&["B", "C"]), default_curve()));
    assert_eq!(app.target_label(), Some("Effect 1 / B, C".to_string()));
    assert!(matches!(
        &app.timecontrol,
        CurrentSelectionState::Selected(state)
            if mode(&state.time_control) == TimeControlMode::Elastic
    ));
    assert!(!is_view_reset(&app));
    assert!(app.select_track(effect_handle(9), names(&["B"]), default_curve()));
    assert_eq!(app.target_label(), Some("Unknown Effect / B".to_string()));

    app.apply_preset(default_for_mode(TimeControlMode::Bounce));
    assert!(is_view_reset(&app));
    assert!(matches!(
        &app.timecontrol,
        CurrentSelectionState::Selected(state)
            if state.track_name == ["B"] && mode(&state.time_control) == TimeControlMode::Bounce
    ));
}

#[test]
fn tracks_say_whether_they_have_a_curve() {
    let track = |curve| TrackInfo {
        track_name: names(&["A"]),
        curve,
    };
    assert_eq!(
        track_hint(&track(Some(default_curve()))),
        "時間制御トラックを編集する"
    );
    assert_eq!(track_hint(&track(None)), "時間制御トラックが存在しません");
    assert_eq!(TimeControlHandleKind::In.id(), "in");
    assert_eq!(TimeControlHandleKind::Out.id(), "out");
}

// Tracks.

#[test]
fn tracks_are_read_in_groups() {
    assert_eq!(
        track_group("X".to_string(), Some(names(&["X", "Y"])), Some(2)),
        ["X", "Y"]
    );
    assert_eq!(
        track_group("X".to_string(), Some(names(&["X", "Y"])), None),
        ["X", "Y"]
    );
    assert_eq!(
        track_group("X".to_string(), Some(names(&["X", "Y"])), Some(1)),
        ["X"]
    );
    assert_eq!(track_group("X".to_string(), None, Some(2)), ["X"]);
    assert_eq!(track_group("X".to_string(), None, None), ["X"]);
}

fn plain_point(x: f64) -> ControlPoint {
    ControlPoint {
        coordinate: position(x, x),
        handle_offset: position(0.1, 0.1),
    }
}

#[test]
fn effects_are_scanned_track_by_track() {
    let mut scan = EffectScan::new("Effect".to_string(), effect_handle(4));
    assert!(scan.is_new(&"X".to_string()));
    let points = vec![plain_point(0.0), plain_point(1.0)];
    assert_eq!(scan.add(names(&["X", "Y"]), Some(points)), None);
    assert!(!scan.is_new(&"X".to_string()));
    assert!(!scan.is_new(&"Y".to_string()));
    assert!(scan.is_new(&"Z".to_string()));
    assert_eq!(scan.add(names(&["Z"]), None), None);
    let failure = scan.add(names(&["W"]), Some(vec![plain_point(0.0)]));
    assert_eq!(failure, Some(CurveError::RegularTooShort));
    assert!(!scan.is_new(&"W".to_string()));
    let effect = scan.finish();
    assert_eq!(effect.name, "Effect");
    assert_eq!(effect.handle, effect_handle(4));
    assert_eq!(effect.tracks.len(), 3);
    assert_eq!(effect.tracks[0].track_name, ["X", "Y"]);
    assert_eq!(
        effect.tracks[0].curve.as_ref().map(|curve| curve.points.len()),
        Some(2)
    );
    assert!(effect.tracks[1].curve.is_none());
    assert!(effect.tracks[2].curve.is_none());
}

fn control(
    flag: u8,
    movement: Option<&str>,
    points: Option<Vec<ControlPoint>>,
) -> TrackControl<u8, String> {
    TrackControl {
        flag,
        movement: movement.map(str::to_string),
        time_control_points: points,
    }
}

#[test]
fn curves_are_written_to_the_first_track_and_copied() {
    let curve = default_curve();
    let sampled = vec![Ok(vec![])];
    let stored = serialize_curve_to_points(&curve, &sampled).expect("stored");
    let start = || {
        write_curve_to_track::<u8, String>(
            names(&["X", "Y", "Z"]),
            &curve,
            &sampled,
            "Default".to_string(),
        )
        .expect("the curve is stored")
    };

    // A first track without control points gets the default movement.
    let mut writer = start();
    assert_eq!(writer.next_track(), Some("X".to_string()));
    let written = writer.write(control(5, Some("Own"), None));
    assert_eq!(written.flag, 5);
    assert_eq!(written.movement, Some("Default".to_string()));
    assert_eq!(written.time_control_points, Some(stored.clone()));

    // One with control points keeps its own, and the others follow it.
    let mut writer = start();
    let written = writer.write(control(6, Some("Own"), Some(vec![])));
    assert_eq!(written.flag, 6);
    assert_eq!(written.movement, Some("Own".to_string()));
    assert_eq!(written.time_control_points, Some(stored.clone()));
    for name in ["Y", "Z"] {
        assert_eq!(writer.next_track(), Some(name.to_string()));
        let written = writer.write(control(0, None, None));
        assert_eq!(written.flag, 6);
        assert_eq!(written.movement, Some("Own".to_string()));
        assert_eq!(written.time_control_points, Some(stored.clone()));
    }
    assert_eq!(writer.next_track(), None);

    let nothing = TimeControl {
        points: vec![],
        segments: vec![],
    };
    let refused =
        write_curve_to_track::<u8, String>(names(&["X"]), &nothing, &vec![], String::new());
    assert_eq!(refused.err(), Some(CurveError::NothingToStore));
}

fn host_answer(question: HostQuestion) -> HostAnswer {
    match question {
        HostQuestion::Effects(object) => {
            assert_eq!(object, object_handle(1));
            HostAnswer::Effects(vec![effect_handle(10), effect_handle(20)])
        }
        HostQuestion::Name(effect) => HostAnswer::Name(format!("Effect {}", effect.address)),
        HostQuestion::Items(name) => HostAnswer::Items(if name == "Effect 10" {
            names(&["X", "Button", "Y", "Alone", "Single"])
        } else {
            vec![]
        }),
        HostQuestion::TrackInfo(effect, item) => {
            assert_eq!(effect, effect_handle(10));
            assert!(item != "Y");
            HostAnswer::TrackInfo(match item.as_str() {
                "Button" => None,
                "Single" => Some(Some(1)),
                _ => Some(None),
            })
        }
        HostQuestion::Group(name, item) => {
            assert_eq!(name, "Effect 10");
            HostAnswer::Group(match item.as_str() {
                "X" => Some(names(&["X", "Y"])),
                "Single" => Some(names(&["Other", "Single"])),
                _ => None,
            })
        }
        HostQuestion::Points(effect, item) => {
            assert_eq!(effect, effect_handle(10));
            HostAnswer::Points(match item.as_str() {
                "X" => Some(vec![plain_point(0.0), plain_point(1.0)]),
                "Single" => Some(vec![plain_point(0.0)]),
                _ => None,
            })
        }
    }
}

#[test]
fn objects_are_read_group_by_group() {
    let mut reader = ObjectReader::new(object_handle(1));
    let mut failures = vec![];
    while let Some(question) = reader.question() {
        if let Some(failure) = reader.answer(host_answer(question)) {
            failures.push(failure);
        }
    }
    assert_eq!(failures, [CurveError::RegularTooShort]);
    let object = reader.finish().expect("all questions were answered");
    assert_eq!(object.handle, object_handle(1));
    assert_eq!(object.effects.len(), 2);
    assert_eq!(object.effects[0].name, "Effect 10");
    assert_eq!(object.effects[0].handle, effect_handle(10));
    let tracks: Vec<(Vec<String>, bool)> = object.effects[0]
        .tracks
        .iter()
        .map(|track| (track.track_name.clone(), track.curve.is_some()))
        .collect();
    assert_eq!(
        tracks,
        [
            (names(&["X", "Y"]), true),
            (names(&["Alone"]), false),
            (names(&["Single"]), false),
        ]
    );
    assert_eq!(object.effects[1].name, "Effect 20");
    assert_eq!(object.effects[1].tracks.len(), 0);
}

#[test]
fn readers_take_one_answer_after_the_other() {
    let mut reader = ObjectReader::new(object_handle(1));
    reader.answer(HostAnswer::Effects(vec![effect_handle(10)]));
    assert!(matches!(
        reader.question(),
        Some(HostQuestion::Name(effect)) if effect == effect_handle(10)
    ));
    reader.answer(HostAnswer::Name("Effect".to_string()));
    assert!(matches!(
        reader.question(),
        Some(HostQuestion::Items(name)) if name == "Effect"
    ));
    reader.answer(HostAnswer::Items(names(&["X", "Y", "Z"])));
    assert_eq!(reader.items, ["X", "Y", "Z"]);
    reader.answer(HostAnswer::TrackInfo(Some(None)));
    assert_eq!(reader.stage, ReaderStage::Group { group_num: None });
    assert!(matches!(
        reader.question(),
        Some(HostQuestion::Group(name, item)) if name == "Effect" && item == "X"
    ));
    reader.answer(HostAnswer::Group(Some(names(&["X", "Y"]))));
    assert_eq!(reader.names, ["X", "Y"]);
    reader.answer(HostAnswer::Points(None));
    // The second item is in the group that was read.
    assert_eq!(reader.at, 2);
    assert!(matches!(
        reader.question(),
        Some(HostQuestion::TrackInfo(effect, item)) if effect == effect_handle(10) && item == "Z"
    ));
    reader.answer(HostAnswer::TrackInfo(Some(Some(3))));
    reader.answer(HostAnswer::Group(None));
    assert_eq!(reader.names, ["Z"]);
    reader.answer(HostAnswer::Points(None));
    assert_eq!(reader.stage, ReaderStage::Done);
    let object = reader.finish().expect("all questions were answered");
    assert_eq!(object.effects[0].tracks.len(), 2);
    for track in &object.effects[0].tracks {
        assert!(!track.track_name.is_empty());
    }
}

#[test]
fn objects_are_not_read_where_the_host_fails() {
    for failing in 0..8 {
        let mut reader = ObjectReader::new(object_handle(1));
        for _ in 0..failing {
            let question = reader.question().expect("more is asked");
            assert_eq!(reader.answer(host_answer(question)), None);
        }
        assert!(reader.question().is_some());
        assert_eq!(reader.answer(HostAnswer::Failed), None);
        assert!(reader.question().is_none());
        assert!(reader.finish().is_none());
    }
    let mut reader = ObjectReader::new(object_handle(3));
    reader.answer(HostAnswer::Effects(vec![]));
    let object = reader.finish().expect("there is nothing to ask");
    assert_eq!(object.handle, object_handle(3));
    assert_eq!(object.effects.len(), 0);
}

#[test]
fn default_script_is_the_one_that_is_loaded() {
    assert_eq!(default_curve_script(&vec![]), "直線移動(時間制御)");
    assert_eq!(
        default_curve_script(&names(&["Other", "区間ごとに時間制御@Basic_S"])),
        "区間ごとに時間制御@Basic_S"
    );
    assert_eq!(
        default_curve_script(&names(&["区間ごとに時間制御"])),
        "直線移動(時間制御)"
    );
}

// The watcher and the plugin.

#[test]
fn watcher_reads_on_messages_and_stops_when_told() {
    let mut watcher = WatcherThreadInternal::new();
    for message in [WatcherMessage::ObjectChanged, WatcherMessage::ObjectSelected] {
        assert!(matches!(
            watcher.run(WatcherEvent::Received(message)),
            WatcherAction::ReadFocus
        ));
    }
    assert!(matches!(
        watcher.run(WatcherEvent::NoFocus),
        WatcherAction::Publish(None)
    ));
    assert!(matches!(
        watcher.run(WatcherEvent::Read(object_info(3, vec![]))),
        WatcherAction::Publish(Some(info)) if info.handle == object_handle(3)
    ));
    assert!(matches!(
        watcher.run(WatcherEvent::ReadFailed),
        WatcherAction::Wait
    ));
    assert!(watcher.running);
    assert!(matches!(
        watcher.run(WatcherEvent::Received(WatcherMessage::Shutdown)),
        WatcherAction::Stop
    ));
    assert!(!watcher.running);
    assert!(matches!(
        watcher.run(WatcherEvent::Received(WatcherMessage::ObjectChanged)),
        WatcherAction::Stop
    ));
    let mut watcher = WatcherThreadInternal::new();
    assert!(matches!(
        watcher.run(WatcherEvent::Disconnected),
        WatcherAction::Stop
    ));
}

#[test]
fn watcher_reads_once_for_each_message_until_its_end() {
    let changed = WatcherMessage::ObjectChanged;
    let selected = WatcherMessage::ObjectSelected;
    for shutdown in [true, false] {
        let mut queue = vec![changed, selected, selected, changed, selected];
        let count = queue.len();
        if shutdown {
            queue.push(WatcherMessage::Shutdown);
            queue.push(changed);
            queue.push(selected);
        }
        let mut queue = queue.into_iter();
        let mut watcher = WatcherThreadInternal::new();
        let mut action = WatcherAction::Wait;
        let mut reads = 0;
        let mut published = vec![];
        loop {
            let event = match action {
                WatcherAction::Stop => break,
                WatcherAction::ReadFocus => {
                    reads += 1;
                    match reads {
                        2 => WatcherEvent::ReadFailed,
                        4 => WatcherEvent::NoFocus,
                        _ => WatcherEvent::Read(object_info(reads, vec![])),
                    }
                }
                WatcherAction::Publish(info) => {
                    published.push(info.map(|info| info.handle));
                    queue
                        .next()
                        .map_or(WatcherEvent::Disconnected, WatcherEvent::Received)
                }
                WatcherAction::Wait => queue
                    .next()
                    .map_or(WatcherEvent::Disconnected, WatcherEvent::Received),
            };
            action = watcher.run(event);
        }
        assert_eq!(reads, count);
        assert_eq!(
            published,
            [
                Some(object_handle(1)),
                Some(object_handle(3)),
                None,
                Some(object_handle(5)),
            ]
        );
        assert_eq!(queue.count(), if shutdown { 2 } else { 0 });
        assert!(!watcher.running);
    }
}

#[test]
fn plugin_describes_itself() {
    assert_eq!(plugin_name(), "anarchy_time_control_editor.aux2");
    assert_eq!(
        plugin_information("1.2.3"),
        "Anarchy Time Control Editor / v1.2.3 / https://github.com/sevenc-nanashi/anarchy_time_control_editor.aux2"
    );
}
