//! What the watcher does when the host reports a change.
use crate::tracks::ObjectEffectsInfo;
use vstd::prelude::*;

verus! {

/// What the watcher is told.
#[derive(Clone, Copy, Debug, PartialEq, Eq, Structural)]
pub enum WatcherMessage {
    ObjectChanged,
    ObjectSelected,
    Shutdown,
}

/// What happens to the watcher.
#[derive(Debug)]
pub enum WatcherEvent {
    /// A message came.
    Received(WatcherMessage),
    /// No message can come any more.
    Disconnected,
    /// No object has the focus.
    NoFocus,
    /// The object that has the focus was read.
    Read(ObjectEffectsInfo),
    /// The object that has the focus could not be read.
    ReadFailed,
}

/// What the watcher does next.
#[derive(Debug)]
pub enum WatcherAction {
    /// Wait for the next message.
    Wait,
    /// Read the object that has the focus.
    ReadFocus,
    /// Hand the object, or that there is none, to the editor, and wait.
    Publish(Option<ObjectEffectsInfo>),
    /// End.
    Stop,
}

/// What a watcher does after an event, given whether it is running.
pub open spec fn turn(running: bool, event: WatcherEvent) -> WatcherAction {
    if !running {
        WatcherAction::Stop
    } else {
        match event {
            WatcherEvent::Received(WatcherMessage::ObjectChanged) => WatcherAction::ReadFocus,
            WatcherEvent::Received(WatcherMessage::ObjectSelected) => WatcherAction::ReadFocus,
            WatcherEvent::Received(WatcherMessage::Shutdown) => WatcherAction::Stop,
            WatcherEvent::Disconnected => WatcherAction::Stop,
            WatcherEvent::NoFocus => WatcherAction::Publish(None),
            WatcherEvent::Read(info) => WatcherAction::Publish(Some(info)),
            WatcherEvent::ReadFailed => WatcherAction::Wait,
        }
    }
}

/// The watcher, which ends when it is told to or when it is left alone.
#[derive(Debug)]
pub struct WatcherThreadInternal {
    pub running: bool,
}

impl WatcherThreadInternal {
    pub fn new() -> (r: WatcherThreadInternal)
        ensures
            r.running,
    {
        WatcherThreadInternal { running: true }
    }

    /// One turn of the watcher.
    pub fn run(&mut self, event: WatcherEvent) -> (action: WatcherAction)
        ensures
            action == turn(old(self).running, event),
            final(self).running == !(action is Stop),
    {
        if !self.running {
            return WatcherAction::Stop;
        }
        match event {
            WatcherEvent::Received(message) => match message {
                WatcherMessage::ObjectChanged | WatcherMessage::ObjectSelected => {
                    WatcherAction::ReadFocus
                },
                WatcherMessage::Shutdown => {
                    self.running = false;
                    WatcherAction::Stop
                },
            },
            WatcherEvent::Disconnected => {
                self.running = false;
                WatcherAction::Stop
            },
            WatcherEvent::NoFocus => WatcherAction::Publish(None),
            WatcherEvent::Read(info) => WatcherAction::Publish(Some(info)),
            WatcherEvent::ReadFailed => WatcherAction::Wait,
        }
    }
}

// Whole rows of events.

/// Whether a watcher is still running after a row of events.
pub open spec fn is_running_after(events: Seq<WatcherEvent>) -> bool
    decreases events.len(),
{
    events.len() == 0 || !(turn(is_running_after(events.drop_last()), events.last()) is Stop)
}

/// What a new watcher does, event by event.
pub open spec fn actions(events: Seq<WatcherEvent>) -> Seq<WatcherAction> {
    Seq::new(events.len(), |i: int| turn(is_running_after(events.take(i)), events[i]))
}

/// How often the focus is read in a row of actions.
pub open spec fn read_count(actions: Seq<WatcherAction>) -> nat
    decreases actions.len(),
{
    if actions.len() == 0 {
        0
    } else {
        read_count(actions.drop_last()) + if actions.last() is ReadFocus {
            1nat
        } else {
            0nat
        }
    }
}

/// Whether a watcher ends at an event.
pub open spec fn is_end(event: WatcherEvent) -> bool {
    event is Disconnected || event == WatcherEvent::Received(WatcherMessage::Shutdown)
}

/// Whether an event is what came of reading the focus.
pub open spec fn is_outcome(event: WatcherEvent) -> bool {
    event is NoFocus || event is Read || event is ReadFailed
}

/// The events of a watcher that is sent messages, each of which makes it read the
/// focus, and is then ended. More may be sent after that.
pub open spec fn watched(
    messages: Seq<WatcherMessage>,
    outcomes: Seq<WatcherEvent>,
    end: WatcherEvent,
    more: Seq<WatcherEvent>,
) -> Seq<WatcherEvent> {
    Seq::new(
        2 * messages.len() + 1,
        |i: int|
            if i == 2 * messages.len() {
                end
            } else if i % 2 == 0 {
                WatcherEvent::Received(messages[i / 2])
            } else {
                outcomes[i / 2]
            },
    ) + more
}

/// A watcher is running exactly as long as nothing has ended it.
proof fn lemma_running(events: Seq<WatcherEvent>)
    ensures
        is_running_after(events) <==> forall|i: int|
            0 <= i < events.len() ==> !is_end(#[trigger] events[i]),
    decreases events.len(),
{
    if events.len() > 0 {
        let n = events.len() - 1;
        let before = events.drop_last();
        lemma_running(before);
        assert forall|i: int| 0 <= i < n implies before[i] == events[i] by {}
        if is_running_after(events) {
            assert forall|i: int| 0 <= i < events.len() implies !is_end(#[trigger] events[i]) by {
                if i < n {
                    assert(!is_end(before[i]));
                }
            }
        } else if is_running_after(before) {
            assert(is_end(events[n]));
        } else {
            let i = choose|i: int| 0 <= i < n && is_end(#[trigger] before[i]);
            assert(is_end(events[i]));
        }
    }
}

/// A watcher stops at the first event that ends it and does nothing more after it.
/// It does not stop before, and never where no event ends it.
pub proof fn law_watcher_stops_when_it_is_ended(events: Seq<WatcherEvent>, at: int)
    requires
        0 <= at < events.len(),
    ensures
        actions(events)[at] is Stop <==> exists|i: int|
            0 <= i <= at && is_end(#[trigger] events[i]),
{
    let before = events.take(at);
    lemma_running(before);
    if is_running_after(before) {
        if exists|i: int| 0 <= i <= at && is_end(#[trigger] events[i]) {
            let i = choose|i: int| 0 <= i <= at && is_end(#[trigger] events[i]);
            if i < at {
                assert(is_end(before[i]));
            }
        } else {
            assert(!is_end(events[at]));
        }
    } else {
        let i = choose|i: int| 0 <= i < at && is_end(#[trigger] before[i]);
        assert(is_end(events[i]));
    }
}

/// Where the focus is read after every other action, and nowhere else, it is read
/// half as often as there are actions.
proof fn lemma_read_count(actions: Seq<WatcherAction>, n: nat)
    requires
        forall|i: int|
            0 <= i < actions.len() ==> ((#[trigger] actions[i]) is ReadFocus <==> i < 2 * n && i % 2
                == 0),
    ensures
        2 * n <= actions.len() ==> read_count(actions) == n,
        actions.len() < 2 * n ==> read_count(actions) == (actions.len() + 1) / 2,
    decreases actions.len(),
{
    if actions.len() > 0 {
        let k = actions.len() - 1;
        let before = actions.drop_last();
        assert forall|i: int| 0 <= i < before.len() implies ((#[trigger] before[i]) is ReadFocus
            <==> i < 2 * n && i % 2 == 0) by {
            assert(before[i] == actions[i]);
        }
        lemma_read_count(before, n);
        assert(actions[k] is ReadFocus <==> k < 2 * n && k % 2 == 0);
    }
}

/// A watcher that is sent messages before it is ended reads the focus once for each
/// message, in order, whatever the kinds of the messages are. It publishes what each
/// read gives before the next one, and does nothing for what is sent after its end.
pub proof fn law_each_message_is_read_once(
    messages: Seq<WatcherMessage>,
    outcomes: Seq<WatcherEvent>,
    end: WatcherEvent,
    more: Seq<WatcherEvent>,
)
    requires
        outcomes.len() == messages.len(),
        forall|i: int| 0 <= i < messages.len() ==> !((#[trigger] messages[i]) is Shutdown),
        forall|i: int| 0 <= i < outcomes.len() ==> is_outcome(#[trigger] outcomes[i]),
        is_end(end),
    ensures
        ({
            let done = actions(watched(messages, outcomes, end, more));
            let n = messages.len();
            &&& done.len() == 2 * n + 1 + more.len()
            &&& read_count(done) == n
            &&& forall|i: int| 0 <= i < n ==> (#[trigger] done[2 * i]) is ReadFocus
            &&& forall|i: int|
                0 <= i < n ==> #[trigger] done[2 * i + 1] == match outcomes[i] {
                    WatcherEvent::NoFocus => WatcherAction::Publish(None),
                    WatcherEvent::Read(info) => WatcherAction::Publish(Some(info)),
                    _ => WatcherAction::Wait,
                }
            &&& forall|j: int| 2 * n <= j < done.len() ==> (#[trigger] done[j]) is Stop
        }),
{
    let events = watched(messages, outcomes, end, more);
    let done = actions(events);
    let n = messages.len() as int;
    assert forall|j: int| 0 <= j < 2 * n implies !is_end(#[trigger] events[j]) by {
        assert(0 <= j / 2 < n);
        if j % 2 == 0 {
            assert(!(messages[j / 2] is Shutdown));
        } else {
            assert(is_outcome(outcomes[j / 2]));
        }
    }
    assert forall|j: int| 0 <= j < 2 * n implies #[trigger] done[j] == turn(true, events[j]) by {
        let before = events.take(j);
        assert forall|i: int| 0 <= i < before.len() implies !is_end(#[trigger] before[i]) by {
            assert(before[i] == events[i]);
        }
        lemma_running(before);
    }
    assert forall|i: int| 0 <= i < n implies (#[trigger] done[2 * i]) is ReadFocus by {
        assert((2 * i) / 2 == i && (2 * i) % 2 == 0);
        assert(events[2 * i] == WatcherEvent::Received(messages[i]));
        assert(!(messages[i] is Shutdown));
    }
    assert forall|i: int| 0 <= i < n implies #[trigger] done[2 * i + 1] == match outcomes[i] {
        WatcherEvent::NoFocus => WatcherAction::Publish(None),
        WatcherEvent::Read(info) => WatcherAction::Publish(Some(info)),
        _ => WatcherAction::Wait,
    } by {
        assert((2 * i + 1) / 2 == i && (2 * i + 1) % 2 == 1);
        assert(events[2 * i + 1] == outcomes[i]);
        assert(is_outcome(outcomes[i]));
    }
    assert(is_end(events[2 * n]));
    assert forall|j: int| 2 * n <= j < done.len() implies (#[trigger] done[j]) is Stop by {
        law_watcher_stops_when_it_is_ended(events, j);
    }
    assert forall|j: int| 0 <= j < done.len() implies ((#[trigger] done[j]) is ReadFocus <==> j < 2
        * n && j % 2 == 0) by {
        if j < 2 * n {
            let i = j / 2;
            if j % 2 == 0 {
                assert(done[2 * i] is ReadFocus);
            } else {
                assert(done[2 * i + 1] == done[j]);
            }
        }
    }
    lemma_read_count(done, messages.len());
}

} // verus!
