//! Reading the tracks of an object.
//!
//! The reader asks the host one question after the other: for the object's
//! effects, for the items of each effect, and for the tracks among them. Tracks
//! that share a curve are read as one group, by the first track of the group.
use crate::error::CurveError;
use crate::spans::ControlPoint;
use crate::tracks::{
    all_names, effects_view, group_of, has_full_groups, optional_points, optional_texts, texts,
    track_curve, track_failure, track_group, Effect, EffectHandle, EffectScan, EffectTracksInfo,
    Object, ObjectEffectsInfo, ObjectHandle, Track,
};
use vstd::prelude::*;

verus! {

// What the reader finds when the host's answers are given by functions.

/// What the host knows of an object.
pub struct Host {
    /// The effects of the object.
    pub effects: Seq<EffectHandle>,
    /// The name of an effect.
    pub name: spec_fn(EffectHandle) -> Seq<char>,
    /// The items of the effects of a name.
    pub items: spec_fn(Seq<char>) -> Seq<Seq<char>>,
    /// How many tracks an item of an effect says are in its group, if it says so;
    /// `None` where the item is not a track.
    pub group_num: spec_fn(EffectHandle, Seq<char>) -> Option<Option<usize>>,
    /// The group of an item in the effects of a name.
    pub group: spec_fn(Seq<char>, Seq<char>) -> Option<Seq<Seq<char>>>,
    /// The control points of a track of an effect.
    pub points: spec_fn(EffectHandle, Seq<char>) -> Option<Seq<ControlPoint>>,
}

impl Host {
    /// The groups of tracks among the first `n` items of an effect. An item that
    /// is in a group already, or is not a track, adds none.
    pub open spec fn tracks(self, handle: EffectHandle, n: nat) -> Seq<Track>
        decreases n,
    {
        if n == 0 {
            Seq::empty()
        } else {
            let name = (self.name)(handle);
            let item = (self.items)(name)[n - 1];
            let before = self.tracks(handle, (n - 1) as nat);
            if all_names(before).contains(item) {
                before
            } else {
                match (self.group_num)(handle, item) {
                    None => before,
                    Some(group_num) => {
                        let names = group_of(item, (self.group)(name, item), group_num);
                        before.push(
                            Track { names, curve: track_curve((self.points)(handle, names[0])) },
                        )
                    },
                }
            }
        }
    }

    /// An effect with all its tracks.
    pub open spec fn effect(self, handle: EffectHandle) -> Effect {
        let name = (self.name)(handle);
        Effect { name, handle, tracks: self.tracks(handle, (self.items)(name).len()) }
    }

    /// The first `n` effects of the object.
    pub open spec fn first_effects(self, n: nat) -> Seq<Effect> {
        Seq::new(n, |i: int| self.effect(self.effects[i]))
    }

    /// The object with all its effects.
    pub open spec fn object(self, handle: ObjectHandle) -> Object {
        Object { handle, effects: self.first_effects(self.effects.len()) }
    }
}

// The reader.

/// What the reader asks the host.
#[derive(Debug)]
pub enum HostQuestion {
    /// The effects of the object.
    Effects(ObjectHandle),
    /// The name of an effect.
    Name(EffectHandle),
    /// The items of the effects of a name.
    Items(String),
    /// Whether an item of an effect is a track, and of how many in its group.
    TrackInfo(EffectHandle, String),
    /// The group of an item in the effects of a name.
    Group(String, String),
    /// The control points of a track of an effect.
    Points(EffectHandle, String),
}

/// What the host answers.
#[derive(Debug)]
pub enum HostAnswer {
    Effects(Vec<EffectHandle>),
    Name(String),
    Items(Vec<String>),
    TrackInfo(Option<Option<usize>>),
    Group(Option<Vec<String>>),
    Points(Option<Vec<ControlPoint>>),
    /// The host could not answer.
    Failed,
}

/// How far a reader has come.
#[derive(Clone, Copy, Debug, PartialEq, Eq, Structural)]
pub enum ReaderStage {
    Effects,
    Name,
    Items,
    TrackInfo,
    Group { group_num: Option<usize> },
    Points,
    Done,
    Failed,
}

/// An object being read.
#[derive(Debug)]
pub struct ObjectReader {
    pub object: ObjectHandle,
    pub stage: ReaderStage,
    /// The effects of the object.
    pub effects: Vec<EffectHandle>,
    /// The first of them, with their tracks.
    pub done: Vec<EffectTracksInfo>,
    /// The effect that is being read.
    pub scan: EffectScan,
    /// The items of that effect.
    pub items: Vec<String>,
    /// The item that is being read.
    pub at: usize,
    /// The names in its group.
    pub names: Vec<String>,
}

/// What a reader knows.
#[verifier::ext_equal]
pub struct Reading {
    pub stage: ReaderStage,
    pub effects: Seq<EffectHandle>,
    pub done: Seq<Effect>,
    pub effect: Effect,
    pub items: Seq<Seq<char>>,
    pub at: nat,
    pub names: Seq<Seq<char>>,
}

impl View for ObjectReader {
    type V = Reading;

    open spec fn view(&self) -> Reading {
        Reading {
            stage: self.stage,
            effects: self.effects@,
            done: effects_view(self.done@),
            effect: self.scan.info@,
            items: texts(self.items@),
            at: self.at as nat,
            names: texts(self.names@),
        }
    }
}

/// The first item from `at` on that is in none of the groups, or the end of the
/// items.
pub open spec fn next_new(items: Seq<Seq<char>>, tracks: Seq<Track>, at: nat) -> nat
    decreases items.len() - at,
{
    if at < items.len() && all_names(tracks).contains(items[at as int]) {
        next_new(items, tracks, at + 1)
    } else {
        at
    }
}

/// An effect of which nothing is known.
pub open spec fn no_effect() -> Effect {
    Effect {
        name: Seq::empty(),
        handle: EffectHandle { address: 0 },
        tracks: Seq::empty(),
    }
}

impl Reading {
    /// The next effect is begun, or the reading ends.
    pub open spec fn with_next_effect(self) -> Reading {
        Reading {
            stage: if self.done.len() < self.effects.len() {
                ReaderStage::Name
            } else {
                ReaderStage::Done
            },
            ..self
        }
    }

    /// The first item from `at` on that is in no group yet is begun, or the effect
    /// is ended.
    pub open spec fn with_item(self, at: nat) -> Reading {
        let next = next_new(self.items, self.effect.tracks, at);
        if next < self.items.len() {
            Reading { stage: ReaderStage::TrackInfo, at: next, ..self }
        } else {
            Reading {
                done: self.done.push(self.effect),
                effect: no_effect(),
                ..self
            }.with_next_effect()
        }
    }

    /// What the reader knows after an answer.
    pub open spec fn after(self, answer: HostAnswer) -> Reading {
        match answer {
            HostAnswer::Effects(effects) => Reading {
                effects: effects@,
                ..self
            }.with_next_effect(),
            HostAnswer::Name(name) => Reading {
                stage: ReaderStage::Items,
                effect: Effect {
                    name: name@,
                    handle: self.effects[self.done.len() as int],
                    tracks: Seq::empty(),
                },
                ..self
            },
            HostAnswer::Items(items) => Reading { items: texts(items@), ..self }.with_item(0),
            HostAnswer::TrackInfo(found) => match found {
                Some(group_num) => Reading { stage: ReaderStage::Group { group_num }, ..self },
                None => self.with_item(self.at + 1),
            },
            HostAnswer::Group(group) => Reading {
                stage: ReaderStage::Points,
                names: group_of(
                    self.items[self.at as int],
                    optional_texts(group),
                    self.stage->group_num,
                ),
                ..self
            },
            HostAnswer::Points(points) => Reading {
                effect: Effect {
                    tracks: self.effect.tracks.push(
                        Track {
                            names: self.names,
                            curve: track_curve(optional_points(points)),
                        },
                    ),
                    ..self.effect
                },
                names: Seq::empty(),
                ..self
            }.with_item(self.at + 1),
            HostAnswer::Failed => Reading { stage: ReaderStage::Failed, ..self },
        }
    }
}

impl ObjectReader {
    /// The effect that is being read.
    pub open spec fn handle(self) -> EffectHandle {
        self.effects@[self.done.len() as int]
    }

    /// Whether an effect is being read.
    pub open spec fn in_effect(self) -> bool {
        !(self.stage is Effects || self.stage is Done || self.stage is Failed)
    }

    /// Whether an item is being read.
    pub open spec fn in_item(self) -> bool {
        self.stage is TrackInfo || self.stage is Group || self.stage is Points
    }

    pub open spec fn well_formed(self) -> bool {
        &&& self.scan.well_formed()
        &&& has_full_groups(self@.done)
        &&& self.stage is Effects ==> self.done.len() == 0
        &&& self.in_effect() ==> self.done.len() < self.effects.len()
        &&& (self.stage is Items || self.in_item()) ==> self.scan.info.handle == self.handle()
        &&& self.stage is Items ==> self.scan.info@.tracks == Seq::<Track>::empty()
        &&& self.in_item() ==> self.at < self.items.len() && !all_names(
            self.scan.info@.tracks,
        ).contains(self.items@[self.at as int]@)
        &&& self.stage is Points ==> self.names.len() > 0
    }

    /// Whether all that the reader knows is what the host answers.
    pub open spec fn follows(self, host: Host) -> bool {
        let handle = self.handle();
        let name = (host.name)(handle);
        &&& !(self.stage is Effects || self.stage is Failed) ==> {
            &&& self.effects@ == host.effects
            &&& effects_view(self.done@) == host.first_effects(self.done.len() as nat)
        }
        &&& (self.stage is Items || self.in_item()) ==> self.scan.info@.name == name
        &&& self.in_item() ==> {
            &&& texts(self.items@) == (host.items)(name)
            &&& self.scan.info@.tracks == host.tracks(handle, self.at as nat)
        }
        &&& self.stage matches ReaderStage::Group { group_num } ==> (host.group_num)(
            handle,
            self.items@[self.at as int]@,
        ) == Some(group_num)
        &&& self.stage is Points ==> {
            let item = self.items@[self.at as int]@;
            &&& (host.group_num)(handle, item) is Some
            &&& texts(self.names@) == group_of(
                item,
                (host.group)(name, item),
                (host.group_num)(handle, item)->0,
            )
        }
        &&& self.stage is Done ==> self.done.len() == self.effects.len()
    }

    /// Whether an answer is one to the question that was asked, and what the host
    /// says.
    pub open spec fn is_answered(self, answer: HostAnswer, host: Host) -> bool {
        let name = self.scan.info@.name;
        let item = self.items@[self.at as int]@;
        match answer {
            HostAnswer::Effects(effects) => effects@ == host.effects,
            HostAnswer::Name(found) => found@ == (host.name)(self.handle()),
            HostAnswer::Items(items) => texts(items@) == (host.items)(name),
            HostAnswer::TrackInfo(found) => found == (host.group_num)(self.handle(), item),
            HostAnswer::Group(group) => optional_texts(group) == (host.group)(name, item),
            HostAnswer::Points(points) => optional_points(points) == (host.points)(
                self.handle(),
                self.names@[0]@,
            ),
            HostAnswer::Failed => true,
        }
    }

    /// Whether an answer is one to the question that was asked. A group that the
    /// track belongs to is not empty.
    pub open spec fn fits(self, answer: HostAnswer) -> bool {
        match answer {
            HostAnswer::Effects(_) => self.stage is Effects,
            HostAnswer::Name(_) => self.stage is Name,
            HostAnswer::Items(_) => self.stage is Items,
            HostAnswer::TrackInfo(_) => self.stage is TrackInfo,
            HostAnswer::Group(group) => self.stage matches ReaderStage::Group { group_num }
                && group_of(
                self.items@[self.at as int]@,
                optional_texts(group),
                group_num,
            ).len() > 0,
            HostAnswer::Points(_) => self.stage is Points,
            HostAnswer::Failed => !(self.stage is Done || self.stage is Failed),
        }
    }

    /// What is left to read: the list of effects, the effects themselves, what is
    /// to be known of the effect before its items, the items, and what is to be
    /// known of the item.
    pub open spec fn left(self) -> (int, int, int, int, int) {
        let effects = self.effects.len() - self.done.len();
        let items = self.items.len() - self.at;
        match self.stage {
            ReaderStage::Effects => (1, 0, 0, 0, 0),
            ReaderStage::Name => (0, effects, 2, 0, 0),
            ReaderStage::Items => (0, effects, 1, 0, 0),
            ReaderStage::TrackInfo => (0, effects, 0, items, 2),
            ReaderStage::Group { .. } => (0, effects, 0, items, 1),
            ReaderStage::Points => (0, effects, 0, items, 0),
            ReaderStage::Done | ReaderStage::Failed => (0, 0, 0, 0, 0),
        }
    }

    /// Whether less is left to read than in an earlier state.
    pub open spec fn is_further(self, before: Self) -> bool {
        let a = before.left();
        let b = self.left();
        decreases_to!(a.0, a.1, a.2, a.3, a.4 => b.0, b.1, b.2, b.3, b.4)
    }

    /// A reader of an object.
    pub fn new(object: ObjectHandle) -> (r: ObjectReader)
        ensures
            r.well_formed(),
            r.object == object,
            r.stage is Effects,
            r@.done == Seq::<Effect>::empty(),
            forall|host: Host| #[trigger] r.follows(host),
    {
        ObjectReader {
            object,
            stage: ReaderStage::Effects,
            effects: Vec::new(),
            done: Vec::new(),
            scan: EffectScan::new(String::new(), EffectHandle { address: 0 }),
            items: Vec::new(),
            at: 0,
            names: Vec::new(),
        }
    }

    /// What the host is to be asked next, if anything is left to ask.
    pub fn question(&self) -> (r: Option<HostQuestion>)
        requires
            self.well_formed(),
        ensures
            match self.stage {
                ReaderStage::Effects => r == Some(HostQuestion::Effects(self.object)),
                ReaderStage::Name => r == Some(HostQuestion::Name(self.handle())),
                ReaderStage::Items => r matches Some(HostQuestion::Items(name)) && name@
                    == self.scan.info@.name,
                ReaderStage::TrackInfo => r matches Some(HostQuestion::TrackInfo(handle, item))
                    && handle == self.handle() && item@ == self.items@[self.at as int]@,
                ReaderStage::Group { .. } => r matches Some(HostQuestion::Group(name, item))
                    && name@ == self.scan.info@.name && item@ == self.items@[self.at as int]@,
                ReaderStage::Points => r matches Some(HostQuestion::Points(handle, item)) && handle
                    == self.handle() && item@ == self.names@[0]@,
                ReaderStage::Done | ReaderStage::Failed => r is None,
            },
    {
        match self.stage {
            ReaderStage::Effects => Some(HostQuestion::Effects(self.object)),
            ReaderStage::Name => Some(HostQuestion::Name(self.effects[self.done.len()])),
            ReaderStage::Items => Some(HostQuestion::Items(self.scan.info.name.clone())),
            ReaderStage::TrackInfo => Some(
                HostQuestion::TrackInfo(self.scan.info.handle, self.items[self.at].clone()),
            ),
            ReaderStage::Group { .. } => Some(
                HostQuestion::Group(self.scan.info.name.clone(), self.items[self.at].clone()),
            ),
            ReaderStage::Points => Some(
                HostQuestion::Points(self.scan.info.handle, self.names[0].clone()),
            ),
            ReaderStage::Done | ReaderStage::Failed => None,
        }
    }

    /// Whether the reader is at an item of an effect, before it is known whether
    /// that one has been read already.
    pub open spec fn is_at(self, host: Host, at: nat) -> bool {
        let name = (host.name)(self.handle());
        &&& self.effects@ == host.effects
        &&& effects_view(self.done@) == host.first_effects(self.done.len() as nat)
        &&& self.scan.info@.name == name
        &&& texts(self.items@) == (host.items)(name)
        &&& self.scan.info@.tracks == host.tracks(self.handle(), at)
    }

    /// Goes on to the next effect, or ends.
    fn next_effect(&mut self)
        requires
            old(self).scan.well_formed(),
            has_full_groups(old(self)@.done),
            old(self).done.len() <= old(self).effects.len(),
        ensures
            final(self).well_formed(),
            final(self)@ == old(self)@.with_next_effect(),
            final(self).object == old(self).object,
            final(self).effects == old(self).effects,
            final(self).done == old(self).done,
            final(self).stage is Name || final(self).stage is Done,
            forall|host: Host| #[trigger]
                final(self).follows(host) <== {
                    &&& old(self).effects@ == host.effects
                    &&& effects_view(old(self).done@) == host.first_effects(
                        old(self).done.len() as nat,
                    )
                },
    {
        self.stage =
        if self.done.len() < self.effects.len() {
            ReaderStage::Name
        } else {
            ReaderStage::Done
        };
    }

    /// Ends the effect, all of whose items were read, and goes on to the next one.
    fn end_effect(&mut self)
        requires
            old(self).scan.well_formed(),
            old(self).done.len() < old(self).effects.len(),
            old(self).scan.info.handle == old(self).handle(),
            has_full_groups(old(self)@.done),
        ensures
            final(self).well_formed(),
            final(self)@ == (Reading {
                done: old(self)@.done.push(old(self)@.effect),
                effect: no_effect(),
                ..old(self)@
            }).with_next_effect(),
            final(self).object == old(self).object,
            final(self).effects == old(self).effects,
            final(self).done.len() == old(self).done.len() + 1,
            final(self).stage is Name || final(self).stage is Done,
            forall|host: Host|
                #[trigger] old(self).is_at(host, old(self).items.len() as nat)
                    ==> final(self).follows(host),
    {
        let mut scan = EffectScan::new(String::new(), EffectHandle { address: 0 });
        std::mem::swap(&mut self.scan, &mut scan);
        let info = scan.finish();
        let ghost effect = info@;
        self.done.push(info);
        proof {
            let done = old(self)@.done;
            assert(self@.done =~= done.push(effect));
            assert forall|i: int, j: int|
                0 <= i < self@.done.len() && 0 <= j < self@.done[i].tracks.len() implies (
            #[trigger] self@.done[i].tracks[j]).names.len() > 0 by {
                if i < done.len() {
                    assert(done[i].tracks[j].names.len() > 0);
                } else {
                    assert(effect.tracks[j].names.len() > 0);
                }
            }
        }
        let ghost before = *self;
        self.next_effect();
        assert(before@ =~= Reading {
            done: old(self)@.done.push(old(self)@.effect),
            effect: no_effect(),
            ..old(self)@
        });
        assert forall|host: Host| #[trigger]
            old(self).is_at(host, old(self).items.len() as nat) implies self.follows(host) by {
            let n = old(self).done.len() as nat;
            assert(texts(old(self).items@).len() == old(self).items.len());
            assert(effect == host.effect(old(self).handle()));
            assert(effects_view(self.done@) =~= effects_view(old(self).done@).push(effect));
            assert(effects_view(self.done@) =~= host.first_effects(n + 1));
        }
    }

    /// Goes on to the first item from `at` on that is in no group yet.
    fn next_item(&mut self, at: usize)
        requires
            old(self).scan.well_formed(),
            old(self).done.len() < old(self).effects.len(),
            old(self).scan.info.handle == old(self).handle(),
            has_full_groups(old(self)@.done),
            at <= old(self).items.len(),
        ensures
            final(self).well_formed(),
            final(self)@ == old(self)@.with_item(at as nat),
            final(self).object == old(self).object,
            final(self).effects == old(self).effects,
            final(self).stage is TrackInfo ==> final(self).done == old(self).done
                && final(self).items == old(self).items && at <= final(self).at,
            !(final(self).stage is TrackInfo) ==> final(self).done.len() == old(self).done.len() + 1
                && (final(self).stage is Name || final(self).stage is Done),
            forall|host: Host|
                #[trigger] old(self).is_at(host, at as nat) ==> final(self).follows(host),
    {
        let mut next: usize = at;
        while next < self.items.len() && !self.scan.is_new(&self.items[next])
            invariant
                *self == *old(self),
                self.scan.well_formed(),
                at <= next <= self.items.len(),
                next_new(self@.items, self@.effect.tracks, at as nat) == next_new(
                    self@.items,
                    self@.effect.tracks,
                    next as nat,
                ),
                forall|host: Host|
                    #[trigger] self.is_at(host, at as nat) ==> self.is_at(host, next as nat),
            decreases self.items.len() - next,
        {
            assert forall|host: Host| #[trigger] self.is_at(host, at as nat) implies self.is_at(
                host,
                (next + 1) as nat,
            ) by {
                assert(self.is_at(host, next as nat));
                assert(texts(self.items@)[next as int] == self.items@[next as int]@);
            }
            assert(self@.items[next as int] == self.items@[next as int]@);
            next = next + 1;
        }
        if next < self.items.len() {
            assert(self@.items[next as int] == self.items@[next as int]@);
            self.at = next;
            self.stage = ReaderStage::TrackInfo;
            assert forall|host: Host| #[trigger] old(self).is_at(
                host,
                at as nat,
            ) implies self.follows(host) by {
                assert(old(self).is_at(host, next as nat));
            }
        } else {
            self.end_effect();
            assert forall|host: Host| #[trigger] old(self).is_at(
                host,
                at as nat,
            ) implies self.follows(host) by {
                assert(old(self).is_at(host, next as nat));
            }
        }
    }

    /// Takes the effects of the object.
    fn take_effects(&mut self, effects: Vec<EffectHandle>)
        requires
            old(self).well_formed(),
            old(self).stage is Effects,
        ensures
            final(self).well_formed(),
            final(self).object == old(self).object,
            !(final(self).stage is Failed),
            final(self)@ == old(self)@.after(HostAnswer::Effects(effects)),
            final(self).is_further(*old(self)),
            forall|host: Host|
                old(self).follows(host) && old(self).is_answered(HostAnswer::Effects(effects), host)
                    ==> #[trigger] final(self).follows(host),
    {
        self.effects = effects;
        assert forall|host: Host| effects_view(self.done@) == #[trigger] host.first_effects(0) by {
            assert(effects_view(self.done@) =~= host.first_effects(0));
        }
        self.next_effect();
    }

    /// Takes the name of the effect.
    fn take_name(&mut self, name: String)
        requires
            old(self).well_formed(),
            old(self).stage is Name,
        ensures
            final(self).well_formed(),
            final(self).object == old(self).object,
            !(final(self).stage is Failed),
            final(self)@ == old(self)@.after(HostAnswer::Name(name)),
            final(self).is_further(*old(self)),
            forall|host: Host|
                old(self).follows(host) && old(self).is_answered(HostAnswer::Name(name), host)
                    ==> #[trigger] final(self).follows(host),
    {
        let handle = self.effects[self.done.len()];
        self.scan = EffectScan::new(name, handle);
        self.stage = ReaderStage::Items;
    }

    /// Takes the items of the effect.
    fn take_items(&mut self, items: Vec<String>)
        requires
            old(self).well_formed(),
            old(self).stage is Items,
        ensures
            final(self).well_formed(),
            final(self).object == old(self).object,
            !(final(self).stage is Failed),
            final(self)@ == old(self)@.after(HostAnswer::Items(items)),
            final(self).is_further(*old(self)),
            forall|host: Host|
                old(self).follows(host) && old(self).is_answered(HostAnswer::Items(items), host)
                    ==> #[trigger] final(self).follows(host),
    {
        self.items = items;
        let ghost before = *self;
        self.next_item(0);
        assert forall|host: Host|
            old(self).follows(host) && old(self).is_answered(
                HostAnswer::Items(items),
                host,
            ) implies #[trigger] self.follows(host) by {
            assert(before.is_at(host, 0));
        }
    }

    /// Takes whether the item is a track.
    fn take_track_info(&mut self, found: Option<Option<usize>>)
        requires
            old(self).well_formed(),
            old(self).stage is TrackInfo,
        ensures
            final(self).well_formed(),
            final(self).object == old(self).object,
            !(final(self).stage is Failed),
            final(self)@ == old(self)@.after(HostAnswer::TrackInfo(found)),
            final(self).is_further(*old(self)),
            forall|host: Host|
                old(self).follows(host) && old(self).is_answered(
                    HostAnswer::TrackInfo(found),
                    host,
                ) ==> #[trigger] final(self).follows(host),
    {
        match found {
            Some(group_num) => {
                self.stage = ReaderStage::Group { group_num };
            },
            None => {
                let at = self.at;
                let ghost before = *self;
                self.next_item(at + 1);
                assert forall|host: Host|
                    before.follows(host) && before.is_answered(
                        HostAnswer::TrackInfo(found),
                        host,
                    ) implies #[trigger] self.follows(host) by {
                    assert(texts(before.items@)[at as int] == before.items@[at as int]@);
                    assert(before.is_at(host, (at + 1) as nat));
                }
            },
        }
    }

    /// Takes the group of the track.
    fn take_group(&mut self, group_num: Option<usize>, group: Option<Vec<String>>)
        requires
            old(self).well_formed(),
            old(self).stage == (ReaderStage::Group { group_num }),
            old(self).fits(HostAnswer::Group(group)),
        ensures
            final(self).well_formed(),
            final(self).object == old(self).object,
            !(final(self).stage is Failed),
            final(self)@ == old(self)@.after(HostAnswer::Group(group)),
            final(self).is_further(*old(self)),
            forall|host: Host|
                old(self).follows(host) && old(self).is_answered(HostAnswer::Group(group), host)
                    ==> #[trigger] final(self).follows(host),
    {
        let item = self.items[self.at].clone();
        self.names = track_group(item, group, group_num);
        assert(texts(self.names@).len() == self.names.len());
        self.stage = ReaderStage::Points;
    }

    /// Takes the control points of the group. The result says why they could not
    /// be read as a curve, if so.
    fn take_points(&mut self, points: Option<Vec<ControlPoint>>) -> (r: Option<CurveError>)
        requires
            old(self).well_formed(),
            old(self).stage is Points,
        ensures
            final(self).well_formed(),
            final(self).object == old(self).object,
            !(final(self).stage is Failed),
            final(self)@ == old(self)@.after(HostAnswer::Points(points)),
            final(self).is_further(*old(self)),
            r == track_failure(optional_points(points)),
            forall|host: Host|
                old(self).follows(host) && old(self).is_answered(HostAnswer::Points(points), host)
                    ==> #[trigger] final(self).follows(host),
    {
        let at = self.at;
        let mut names: Vec<String> = Vec::new();
        std::mem::swap(&mut self.names, &mut names);
        let ghost group = texts(names@);
        let ghost curve = track_curve(optional_points(points));
        let failure = self.scan.add(names, points);
        let ghost before = *self;
        self.next_item(at + 1);
        assert forall|host: Host|
            old(self).follows(host) && old(self).is_answered(
                HostAnswer::Points(points),
                host,
            ) implies #[trigger] self.follows(host) by {
            assert(texts(before.items@)[at as int] == before.items@[at as int]@);
            assert(group[0] == old(self).names@[0]@);
            assert(before.is_at(host, (at + 1) as nat));
        }
        failure
    }

    /// Takes the answer to the question that was asked. The result says why the
    /// control points could not be read as a curve, if so; the group is then read
    /// without a curve.
    pub fn answer(&mut self, answer: HostAnswer) -> (r: Option<CurveError>)
        requires
            old(self).well_formed(),
            old(self).fits(answer),
        ensures
            final(self).well_formed(),
            final(self).object == old(self).object,
            final(self)@ == old(self)@.after(answer),
            final(self).stage is Failed <==> answer is Failed,
            final(self).is_further(*old(self)),
            r == match answer {
                HostAnswer::Points(points) => track_failure(
                    optional_points(points),
                ),
                _ => None,
            },
            forall|host: Host|
                old(self).follows(host) && old(self).is_answered(answer, host)
                    ==> #[trigger] final(self).follows(host),
    {
        match answer {
            HostAnswer::Effects(effects) => {
                self.take_effects(effects);
                None
            },
            HostAnswer::Name(name) => {
                self.take_name(name);
                None
            },
            HostAnswer::Items(items) => {
                self.take_items(items);
                None
            },
            HostAnswer::TrackInfo(found) => {
                self.take_track_info(found);
                None
            },
            HostAnswer::Group(group) => {
                if let ReaderStage::Group { group_num } = self.stage {
                    self.take_group(group_num, group);
                }
                None
            },
            HostAnswer::Points(points) => self.take_points(points),
            HostAnswer::Failed => {
                self.stage = ReaderStage::Failed;
                None
            },
        }
    }

    /// The object with all its tracks, if all questions were answered.
    pub fn finish(self) -> (r: Option<ObjectEffectsInfo>)
        requires
            self.well_formed(),
        ensures
            r is Some <==> self.stage is Done,
            r matches Some(info) ==> info@ == (Object {
                handle: self.object,
                effects: self@.done,
            }) && has_full_groups(info@.effects),
            forall|host: Host|
                #[trigger] self.follows(host) && self.stage is Done ==> r->0@ == host.object(
                    self.object,
                ),
    {
        if let ReaderStage::Done = self.stage {
            let r = ObjectEffectsInfo { handle: self.object, effects: self.done };
            assert(r@.effects == effects_view(self.done@));
            Some(r)
        } else {
            None
        }
    }
}

} // verus!
