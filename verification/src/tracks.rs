//! The tracks of an object's effects, and what is written to them.
use crate::curve::{Curve, TimeControl};
use crate::curve_io::{
    parse_curve_from_track, read_curve, sampled_view, serialize_curve_to_points,
    store_curve,
};
use crate::error::CurveError;
use crate::quantization::points_hash;
use crate::spans::{ControlPoint, CubicBezierSpan};
use vstd::prelude::*;

verus! {

/// The host's handle of an object.
#[derive(Clone, Copy, Debug, PartialEq, Eq, Structural)]
pub struct ObjectHandle {
    pub address: usize,
}

/// The host's handle of an effect.
#[derive(Clone, Copy, Debug, PartialEq, Eq, Structural)]
pub struct EffectHandle {
    pub address: usize,
}

/// The texts in a row of strings.
pub open spec fn texts(names: Seq<String>) -> Seq<Seq<char>> {
    names.map_values(|name: String| name@)
}

/// A group of tracks that share a curve.
#[derive(Debug)]
pub struct TrackInfo {
    pub track_name: Vec<String>,
    pub curve: Option<TimeControl>,
}

/// The contents of a [`TrackInfo`].
pub struct Track {
    pub names: Seq<Seq<char>>,
    pub curve: Option<Curve>,
}

/// The contents of a curve that may be missing.
pub open spec fn curve_view(curve: Option<TimeControl>) -> Option<Curve> {
    match curve {
        Some(curve) => Some(curve@),
        None => None,
    }
}

impl View for TrackInfo {
    type V = Track;

    open spec fn view(&self) -> Track {
        Track { names: texts(self.track_name@), curve: curve_view(self.curve) }
    }
}

/// An effect with its tracks.
#[derive(Debug)]
pub struct EffectTracksInfo {
    pub name: String,
    pub handle: EffectHandle,
    pub tracks: Vec<TrackInfo>,
}

/// The contents of an [`EffectTracksInfo`].
pub struct Effect {
    pub name: Seq<char>,
    pub handle: EffectHandle,
    pub tracks: Seq<Track>,
}

/// The contents of a row of tracks.
pub open spec fn tracks_view(tracks: Seq<TrackInfo>) -> Seq<Track> {
    tracks.map_values(|track: TrackInfo| track@)
}

impl View for EffectTracksInfo {
    type V = Effect;

    open spec fn view(&self) -> Effect {
        Effect { name: self.name@, handle: self.handle, tracks: tracks_view(self.tracks@) }
    }
}

/// An object with its effects.
#[derive(Debug)]
pub struct ObjectEffectsInfo {
    pub handle: ObjectHandle,
    pub effects: Vec<EffectTracksInfo>,
}

/// The contents of an [`ObjectEffectsInfo`].
pub struct Object {
    pub handle: ObjectHandle,
    pub effects: Seq<Effect>,
}

/// The contents of a row of effects.
pub open spec fn effects_view(effects: Seq<EffectTracksInfo>) -> Seq<Effect> {
    effects.map_values(|effect: EffectTracksInfo| effect@)
}

impl View for ObjectEffectsInfo {
    type V = Object;

    open spec fn view(&self) -> Object {
        Object { handle: self.handle, effects: effects_view(self.effects@) }
    }
}

/// A track of an effect.
#[derive(Debug)]
pub struct TimeControlTarget {
    pub effect_handle: EffectHandle,
    pub track_name: String,
}

/// Whether two rows of names are equal.
pub fn same_names(a: &Vec<String>, b: &Vec<String>) -> (r: bool)
    ensures
        r == (texts(a@) == texts(b@)),
{
    if a.len() != b.len() {
        assert(texts(a@).len() != texts(b@).len());
        return false;
    }
    let mut i: usize = 0;
    while i < a.len()
        invariant
            i <= a.len(),
            a.len() == b.len(),
            forall|j: int| 0 <= j < i ==> a@[j]@ == b@[j]@,
        decreases a.len() - i,
    {
        if a[i] != b[i] {
            assert(texts(a@)[i as int] != texts(b@)[i as int]);
            return false;
        }
        i = i + 1;
    }
    assert(texts(a@) =~= texts(b@));
    true
}

/// A copy of a row of names.
pub fn copy_names(names: &Vec<String>) -> (r: Vec<String>)
    ensures
        texts(r@) == texts(names@),
{
    let mut r: Vec<String> = Vec::new();
    let mut i: usize = 0;
    while i < names.len()
        invariant
            i <= names.len(),
            r@.len() == i,
            forall|j: int| 0 <= j < i ==> r@[j]@ == names@[j]@,
        decreases names.len() - i,
    {
        r.push(names[i].clone());
        i = i + 1;
    }
    assert(texts(r@) =~= texts(names@));
    r
}

// Reading the tracks of an effect.

/// The group that a track belongs to: the host's group where the track says that
/// there is one, or says nothing, and else the track by itself.
pub open spec fn group_of(
    name: Seq<char>,
    group: Option<Seq<Seq<char>>>,
    group_num: Option<usize>,
) -> Seq<Seq<char>> {
    match group {
        Some(names) if (match group_num {
            Some(n) => n > 1,
            None => true,
        }) => names,
        _ => seq![name],
    }
}

/// The texts in a row of strings that may be missing.
pub open spec fn optional_texts(names: Option<Vec<String>>) -> Option<Seq<Seq<char>>> {
    match names {
        Some(names) => Some(texts(names@)),
        None => None,
    }
}

/// The names of a track's group. `group` is the group that the host knows the
/// track in, `group_num` the number of tracks that the track says are in it.
pub fn track_group(name: String, group: Option<Vec<String>>, group_num: Option<usize>) -> (r: Vec<
    String,
>)
    ensures
        texts(r@) == group_of(name@, optional_texts(group), group_num),
{
    let grouped: bool = match group_num {
        Some(n) => n > 1,
        None => true,
    };
    match group {
        Some(names) => {
            if grouped {
                return names;
            }
        },
        None => {},
    }
    let mut r: Vec<String> = Vec::new();
    r.push(name);
    assert(texts(r@) =~= seq![name@]);
    r
}

/// The curve of a track with the given control points, if it has any that can be
/// read.
pub open spec fn track_curve(points: Option<Seq<ControlPoint>>) -> Option<Curve> {
    match points {
        None => None,
        Some(points) => match read_curve(points, points_hash(points.skip(3))) {
            Ok(curve) => Some(curve),
            Err(_) => None,
        },
    }
}

/// Why a track with the given control points has no curve, if it has points that
/// cannot be read.
pub open spec fn track_failure(points: Option<Seq<ControlPoint>>) -> Option<CurveError> {
    match points {
        None => None,
        Some(points) => match read_curve(points, points_hash(points.skip(3))) {
            Ok(_) => None,
            Err(e) => Some(e),
        },
    }
}

/// Whether no group of tracks is empty.
pub open spec fn has_full_groups(effects: Seq<Effect>) -> bool {
    forall|i: int, j: int|
        0 <= i < effects.len() && 0 <= j < effects[i].tracks.len() ==> (
        #[trigger] effects[i].tracks[j]).names.len() > 0
}

/// The effect whose tracks are being read.
#[derive(Debug)]
pub struct EffectScan {
    pub info: EffectTracksInfo,
    /// The names of all tracks in the groups read so far.
    pub registered: Vec<String>,
}

/// The control points of a track, if it has any.
pub open spec fn optional_points(points: Option<Vec<ControlPoint>>) -> Option<Seq<ControlPoint>> {
    match points {
        Some(points) => Some(points@),
        None => None,
    }
}

/// The names in all groups of tracks.
pub open spec fn all_names(tracks: Seq<Track>) -> Seq<Seq<char>>
    decreases tracks.len(),
{
    if tracks.len() == 0 {
        Seq::empty()
    } else {
        all_names(tracks.drop_last()) + tracks.last().names
    }
}

impl EffectScan {
    /// Whether exactly the names of the groups read so far are registered, and no
    /// group is empty.
    pub open spec fn well_formed(self) -> bool {
        &&& texts(self.registered@) == all_names(self.info@.tracks)
        &&& forall|i: int|
            0 <= i < self.info@.tracks.len() ==> (#[trigger] self.info@.tracks[i]).names.len() > 0
    }

    pub fn new(name: String, handle: EffectHandle) -> (r: EffectScan)
        ensures
            r.well_formed(),
            r.info@.name == name@,
            r.info@.handle == handle,
            r.info@.tracks == Seq::<Track>::empty(),
    {
        let r = EffectScan {
            info: EffectTracksInfo { name, handle, tracks: Vec::new() },
            registered: Vec::new(),
        };
        assert(texts(r.registered@) =~= Seq::<Seq<char>>::empty());
        assert(r.info@.tracks =~= Seq::<Track>::empty());
        r
    }

    /// Whether a track is in none of the groups read so far.
    pub fn is_new(&self, name: &String) -> (r: bool)
        requires
            self.well_formed(),
        ensures
            r == !all_names(self.info@.tracks).contains(name@),
    {
        let mut i: usize = 0;
        while i < self.registered.len()
            invariant
                i <= self.registered.len(),
                self.well_formed(),
                forall|j: int| 0 <= j < i ==> self.registered@[j]@ != name@,
            decreases self.registered.len() - i,
        {
            if self.registered[i] == *name {
                assert(texts(self.registered@)[i as int] == name@);
                return false;
            }
            i = i + 1;
        }
        assert forall|j: int| 0 <= j < texts(self.registered@).len() implies texts(
            self.registered@,
        )[j] != name@ by {}
        true
    }

    /// Adds a group of tracks that has the given control points. The result says
    /// why they could not be read, if so; the group is then added without a
    /// curve.
    pub fn add(&mut self, names: Vec<String>, points: Option<Vec<ControlPoint>>) -> (r: Option<
        CurveError,
    >)
        requires
            old(self).well_formed(),
            names.len() > 0,
        ensures
            final(self).well_formed(),
            final(self).info@.name == old(self).info@.name,
            final(self).info@.handle == old(self).info@.handle,
            final(self).info@.tracks == old(self).info@.tracks.push(
                Track { names: texts(names@), curve: track_curve(optional_points(points)) },
            ),
            r == track_failure(optional_points(points)),
    {
        let mut failure: Option<CurveError> = None;
        let curve: Option<TimeControl> = match &points {
            Some(points) => match parse_curve_from_track(points.as_slice()) {
                Ok(curve) => Some(curve),
                Err(e) => {
                    failure = Some(e);
                    None
                },
            },
            None => None,
        };
        let ghost before = self.info@.tracks;
        let ghost registered = self.registered@;
        let mut copies = copy_names(&names);
        let ghost added = copies@;
        self.registered.append(&mut copies);
        self.info.tracks.push(TrackInfo { track_name: names, curve });
        proof {
            let after = self.info@.tracks;
            assert(after =~= before.push(
                Track { names: texts(names@), curve: track_curve(optional_points(points)) },
            ));
            assert(after.drop_last() =~= before);
            assert(texts(self.registered@) =~= texts(registered) + texts(added));
        }
        failure
    }

    /// The effect with the tracks read.
    pub fn finish(self) -> (r: EffectTracksInfo)
        ensures
            r@ == self.info@,
    {
        self.info
    }
}

/// Once a group of tracks was added, exactly its tracks and those known before are
/// not new any more.
pub proof fn law_added_tracks_are_known(tracks: Seq<Track>, track: Track, name: Seq<char>)
    ensures
        all_names(tracks.push(track)).contains(name) <==> all_names(tracks).contains(name)
            || track.names.contains(name),
{
    let before = all_names(tracks);
    let after = all_names(tracks.push(track));
    assert(tracks.push(track).drop_last() =~= tracks);
    assert(after == before + track.names);
    if before.contains(name) {
        let i = choose|i: int| 0 <= i < before.len() && before[i] == name;
        assert(after[i] == name);
    }
    if track.names.contains(name) {
        let i = choose|i: int| 0 <= i < track.names.len() && track.names[i] == name;
        assert(after[before.len() + i] == name);
    }
}

// Writing a curve to a group of tracks.

/// The part of a track's value that a curve is written to. `F` is the type of
/// the host's flags, `M` that of its movement scripts.
#[derive(Debug)]
pub struct TrackControl<F, M> {
    pub flag: F,
    pub movement: Option<M>,
    pub time_control_points: Option<Vec<ControlPoint>>,
}

/// Whether one movement is a copy of another.
pub open spec fn movement_copied<M: Clone>(from: Option<M>, to: Option<M>) -> bool {
    match (from, to) {
        (Some(from), Some(to)) => cloned(from, to),
        (None, None) => true,
        _ => false,
    }
}

/// Whether one track is moved as another.
pub open spec fn is_moved_as<F, M: Clone>(
    track: TrackControl<F, M>,
    primary: TrackControl<F, M>,
) -> bool {
    &&& track.flag == primary.flag
    &&& movement_copied(primary.movement, track.movement)
    &&& optional_points(track.time_control_points) == optional_points(primary.time_control_points)
}

/// A copy of a track.
fn copy_track<F: Copy, M: Clone>(track: &TrackControl<F, M>) -> (r: TrackControl<F, M>)
    ensures
        is_moved_as(r, *track),
{
    let movement = match &track.movement {
        Some(movement) => Some(movement.clone()),
        None => None,
    };
    let time_control_points = match &track.time_control_points {
        Some(points) => Some(points.clone()),
        None => None,
    };
    TrackControl { flag: track.flag, movement, time_control_points }
}

/// A curve being written to a group of tracks.
#[derive(Debug)]
pub struct TrackWriter<F, M> {
    /// The tracks of the group.
    pub names: Vec<String>,
    /// How many of them are written.
    pub at: usize,
    /// The control points that hold the curve.
    pub points: Vec<ControlPoint>,
    /// The movement of a first track that has no control points.
    pub default_movement: Option<M>,
    /// The first track, once it is written.
    pub primary: Option<TrackControl<F, M>>,
}

/// Begins to write a curve to a group of tracks. Nothing is written where the
/// curve cannot be stored.
pub fn write_curve_to_track<F: Copy, M: Clone>(
    track_names: Vec<String>,
    curve: &TimeControl,
    sampled: &Vec<Result<Vec<CubicBezierSpan>, CurveError>>,
    default_movement: M,
) -> (r: Result<TrackWriter<F, M>, CurveError>)
    requires
        track_names.len() > 0 || store_curve(curve@, sampled_view(sampled@)) is Err,
        sampled.len() == curve.segments.len(),
    ensures
        match store_curve(curve@, sampled_view(sampled@)) {
            Err(e) => r == Err::<TrackWriter<F, M>, CurveError>(e),
            Ok(points) => {
                &&& r is Ok
                &&& r->Ok_0.well_formed()
                &&& r->Ok_0.names == track_names
                &&& r->Ok_0.at == 0
                &&& r->Ok_0.points@ == points
                &&& r->Ok_0.default_movement == Some(default_movement)
            },
        },
{
    let points = match serialize_curve_to_points(curve, sampled) {
        Ok(points) => points,
        Err(e) => {
            return Err(e);
        },
    };
    Ok(
        TrackWriter {
            names: track_names,
            at: 0,
            points,
            default_movement: Some(default_movement),
            primary: None,
        },
    )
}

impl<F: Copy, M: Clone> TrackWriter<F, M> {
    pub open spec fn well_formed(self) -> bool {
        &&& self.at <= self.names.len()
        &&& self.at == 0 ==> self.default_movement is Some
        &&& self.at > 0 ==> self.primary is Some && optional_points(
            self.primary->0.time_control_points,
        ) == Some(self.points@)
    }

    /// The first track as it is written: with the curve's control points, and with
    /// the default movement where it had no control points before.
    pub open spec fn is_primary_of(
        self,
        track: TrackControl<F, M>,
        written: TrackControl<F, M>,
    ) -> bool {
        &&& written.flag == track.flag
        &&& written.movement == if track.time_control_points is None {
            self.default_movement
        } else {
            track.movement
        }
        &&& optional_points(written.time_control_points) == Some(self.points@)
    }

    /// The track that is to be read and written next, if any is left.
    pub fn next_track(&self) -> (r: Option<String>)
        requires
            self.well_formed(),
        ensures
            match r {
                Some(name) => self.at < self.names.len() && name@ == self.names@[self.at as int]@,
                None => self.at == self.names.len(),
            },
    {
        if self.at < self.names.len() {
            Some(self.names[self.at].clone())
        } else {
            None
        }
    }

    /// Takes the track that is next as it was read, and gives it as it is to be
    /// written. The first track gets the curve; the others are moved as the first.
    pub fn write(&mut self, track: TrackControl<F, M>) -> (r: TrackControl<F, M>)
        requires
            old(self).well_formed(),
            old(self).at < old(self).names.len(),
        ensures
            final(self).well_formed(),
            final(self).names == old(self).names,
            final(self).points@ == old(self).points@,
            final(self).at == old(self).at + 1,
            old(self).at == 0 ==> old(self).is_primary_of(track, final(self).primary->0),
            old(self).at > 0 ==> final(self).primary == old(self).primary,
            is_moved_as(r, final(self).primary->0),
            old(self).at == 0 && track.time_control_points is Some
                ==> final(self).primary->0.movement == track.movement,
            old(self).at == 0 && track.time_control_points is None
                ==> final(self).primary->0.movement == old(self).default_movement,
            r.time_control_points is Some && r.time_control_points->0@ == old(self).points@,
    {
        if self.at == 0 {
            let mut default_movement: Option<M> = None;
            std::mem::swap(&mut self.default_movement, &mut default_movement);
            let movement = match track.time_control_points {
                None => default_movement,
                Some(_) => track.movement,
            };
            let primary = TrackControl {
                flag: track.flag,
                movement,
                time_control_points: Some(self.points.clone()),
            };
            let written = copy_track(&primary);
            self.primary = Some(primary);
            self.at = 1;
            return written;
        }
        self.at = self.at + 1;
        match &self.primary {
            Some(primary) => copy_track(primary),
            None => track,
        }
    }
}

/// The first track of a group gets the control points that hold the curve, and keeps its
/// flag. Where it had control points before, however many, it keeps its movement too;
/// only where it had none, it gets the default one.
pub proof fn law_first_track_keeps_its_movement<F: Copy, M: Clone>(
    writer: TrackWriter<F, M>,
    track: TrackControl<F, M>,
    written: TrackControl<F, M>,
)
    requires
        writer.is_primary_of(track, written),
    ensures
        track.time_control_points is Some ==> written.movement == track.movement,
        track.time_control_points is None ==> written.movement == writer.default_movement,
        written.flag == track.flag,
        written.time_control_points is Some,
        written.time_control_points->0@ == writer.points@,
{
}

/// A track that is moved as another has its flag, its control points, and a copy of its
/// movement, or none where the other has none.
pub proof fn law_other_tracks_follow_the_first<F, M: Clone>(
    track: TrackControl<F, M>,
    primary: TrackControl<F, M>,
)
    requires
        is_moved_as(track, primary),
    ensures
        track.flag == primary.flag,
        track.movement is Some <==> primary.movement is Some,
        track.movement is Some ==> cloned(primary.movement->0, track.movement->0),
        track.time_control_points is Some <==> primary.time_control_points is Some,
        track.time_control_points is Some ==> track.time_control_points->0@
            == primary.time_control_points->0@,
{
}

/// A track is alone where the host knows no group of it, or where it says itself that
/// there is at most one track in its group. Else it is in the host's group.
pub proof fn law_track_is_alone_or_in_the_group(
    name: Seq<char>,
    group: Option<Seq<Seq<char>>>,
    group_num: Option<usize>,
)
    ensures
        ({
            let names = group_of(name, group, group_num);
            let alone = group is None || (group_num is Some && group_num->0 <= 1);
            &&& alone ==> names.len() == 1 && names[0] == name
            &&& !alone ==> names == group->0
        }),
{
}

/// A track without control points has no curve, and nothing failed. Of one with control
/// points either a curve is read, and then it is that one, or it is known why not.
pub proof fn law_track_has_a_curve_or_a_failure(points: Option<Seq<ControlPoint>>)
    ensures
        points is None ==> track_curve(points) is None && track_failure(points) is None,
        points is Some ==> {
            let read = read_curve(points->0, points_hash(points->0.skip(3)));
            &&& track_curve(points) is Some <==> read is Ok
            &&& read is Ok ==> track_curve(points)->0 == read->Ok_0 && track_failure(points) is None
            &&& read is Err ==> track_failure(points) == Some(read->Err_0)
        },
{
}

/// The script that moves a track in each section on its own.
pub open spec fn section_script() -> Seq<char> {
    "区間ごとに時間制御@Basic_S"@
}

/// The script that moves a track in a straight line.
pub open spec fn straight_script() -> Seq<char> {
    "直線移動(時間制御)"@
}

/// The script for tracks that have none, given the names of the modules that the
/// host has loaded.
pub fn default_curve_script(modules: &Vec<String>) -> (r: String)
    ensures
        r@ == if texts(modules@).contains(section_script()) {
            section_script()
        } else {
            straight_script()
        },
{
    let section = "区間ごとに時間制御@Basic_S".to_owned();
    let mut i: usize = 0;
    while i < modules.len()
        invariant
            i <= modules.len(),
            section@ == section_script(),
            forall|j: int| 0 <= j < i ==> modules@[j]@ != section_script(),
        decreases modules.len() - i,
    {
        if modules[i] == section {
            assert(texts(modules@)[i as int] == section_script());
            return section;
        }
        i = i + 1;
    }
    assert forall|j: int| 0 <= j < texts(modules@).len() implies texts(modules@)[j]
        != section_script() by {}
    "直線移動(時間制御)".to_owned()
}

} // verus!
