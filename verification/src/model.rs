//! The mathematical model of a reactive context.
//!
//! A context is described by the cells it holds, the effects registered with
//! it, the effect that is reading right now, and the history of everything
//! that was done to it. The cells are always the result of replaying the
//! history, so every question about who reads what, and what was written
//! last, has an answer in the history.
use vstd::prelude::*;

verus! {

/// One thing done to a context.
pub enum Action<T> {
    /// A signal was created with `value` in it.
    Create { value: T },
    /// `signal` was read while `observer` was the active observer.
    Read { signal: usize, observer: Option<usize> },
    /// `value` was stored in `signal`.
    Write { signal: usize, value: T },
    /// The body of `effect` was started.
    Run { effect: usize },
}

impl<T> Action<T> {
    /// Whether the action stores a value in `signal`.
    pub open spec fn writes(self, signal: usize) -> bool {
        self matches Action::Write { signal: target, .. } && target == signal
    }
}

/// An action together with the nesting depth at which it was taken: 0 for
/// what the host does, one more inside each effect body that is running.
pub struct Event<T> {
    pub depth: nat,
    pub action: Action<T>,
}

/// The signals of a context: the value of each and, for each, the effects
/// subscribed to it, in the order in which they subscribed. An effect that
/// subscribed twice stands there twice.
pub struct Cells<T> {
    pub values: Seq<T>,
    pub subscribers: Seq<Seq<usize>>,
}

impl<T> Cells<T> {
    /// No signal at all.
    pub open spec fn empty() -> Self {
        Cells { values: Seq::empty(), subscribers: Seq::empty() }
    }

    /// The cells after `action` was taken on `self`.
    ///
    /// A read by an active observer subscribes it, once more each time. A
    /// read without one, and the start of an effect, leave the cells as they
    /// are, and so does an action on a signal that is not there.
    pub open spec fn apply(self, action: Action<T>) -> Self {
        match action {
            Action::Create { value } => Cells {
                values: self.values.push(value),
                subscribers: self.subscribers.push(Seq::empty()),
            },
            Action::Read { signal, observer: Some(observer) } => {
                if signal < self.subscribers.len() {
                    let subscribed = self.subscribers[signal as int].push(observer);
                    Cells {
                        values: self.values,
                        subscribers: self.subscribers.update(signal as int, subscribed),
                    }
                } else {
                    self
                }
            },
            Action::Write { signal, value } => {
                if signal < self.values.len() {
                    Cells {
                        values: self.values.update(signal as int, value),
                        subscribers: self.subscribers,
                    }
                } else {
                    self
                }
            },
            _ => self,
        }
    }
}

/// The cells that a history leaves behind, starting from no signal.
pub open spec fn replay<T>(history: Seq<Event<T>>) -> Cells<T>
    decreases history.len(),
{
    if history.len() == 0 {
        Cells::empty()
    } else {
        replay(history.drop_last()).apply(history.last().action)
    }
}

/// The actions of `events` that were taken at exactly `depth`, in order.
pub open spec fn own_actions<T>(events: Seq<Event<T>>, depth: nat) -> Seq<Action<T>>
    decreases events.len(),
{
    if events.len() == 0 {
        Seq::empty()
    } else if events.last().depth == depth {
        own_actions(events.drop_last(), depth).push(events.last().action)
    } else {
        own_actions(events.drop_last(), depth)
    }
}

/// One start for each of `effects`, in order.
pub open spec fn runs<T>(effects: Seq<usize>) -> Seq<Action<T>> {
    Seq::new(effects.len(), |k: int| Action::Run { effect: effects[k] })
}

/// The state of a context.
pub struct ContextView<T, F> {
    /// The signals.
    pub cells: Cells<T>,
    /// The bodies of the registered effects; an effect is known by its place.
    pub effects: Seq<F>,
    /// The effect that a read subscribes, if any.
    pub active: Option<usize>,
    /// How many effect bodies are running, one inside the other.
    pub depth: nat,
    /// Everything done so far, oldest first.
    pub history: Seq<Event<T>>,
}

impl<T, F> ContextView<T, F> {
    /// A context with no signal and no effect, on which nothing was done.
    pub open spec fn empty() -> Self {
        ContextView {
            cells: Cells::empty(),
            effects: Seq::empty(),
            active: None,
            depth: 0,
            history: Seq::empty(),
        }
    }

    /// What must hold of every context: the cells are what the history
    /// leaves behind, and the active observer, every subscriber and every
    /// effect that was ever started are registered effects.
    pub open spec fn inv(self) -> bool {
        &&& self.cells == replay(self.history)
        &&& self.cells.values.len() == self.cells.subscribers.len()
        &&& self.active matches Some(observer) ==> observer < self.effects.len()
        &&& forall|s: int, k: int|
            0 <= s < self.cells.subscribers.len() && 0 <= k < self.cells.subscribers[s].len()
                ==> #[trigger] self.cells.subscribers[s][k] < self.effects.len()
        &&& forall|k: int|
            0 <= k < self.history.len() ==> ((#[trigger] self.history[k]).action matches Action::Run {
                effect,
            } ==> effect < self.effects.len())
    }

    /// Whether `signal` is one of this context's signals.
    pub open spec fn owns(self, signal: usize) -> bool {
        signal < self.cells.values.len()
    }

    /// The current value of `signal`.
    pub open spec fn value(self, signal: usize) -> T
        recommends
            self.owns(signal),
    {
        self.cells.values[signal as int]
    }

    /// The effects subscribed to `signal`, in subscription order.
    pub open spec fn subscribers(self, signal: usize) -> Seq<usize>
        recommends
            self.owns(signal),
    {
        self.cells.subscribers[signal as int]
    }

    /// The events recorded after the first `start` ones.
    pub open spec fn since(self, start: nat) -> Seq<Event<T>> {
        self.history.skip(start as int)
    }

    /// `self` after `action` was taken and recorded at the current depth.
    pub open spec fn record(self, action: Action<T>) -> Self {
        ContextView {
            cells: self.cells.apply(action),
            history: self.history.push(Event { depth: self.depth, action }),
            ..self
        }
    }

    /// `self` with a new signal that holds `value`.
    pub open spec fn create(self, value: T) -> Self {
        self.record(Action::Create { value })
    }

    /// `self` after `signal` was read: the active observer, if there is one,
    /// is subscribed to it.
    pub open spec fn read(self, signal: usize) -> Self {
        self.record(Action::Read { signal, observer: self.active })
    }

    /// `self` after `value` was stored in `signal`, before anyone is told.
    pub open spec fn write(self, signal: usize, value: T) -> Self {
        self.record(Action::Write { signal, value })
    }

    /// `self` with `body` registered as the next effect.
    pub open spec fn register(self, body: F) -> Self {
        ContextView { effects: self.effects.push(body), ..self }
    }

    /// `self` with `observer` in the active slot.
    pub open spec fn observe(self, observer: usize) -> Self {
        ContextView { active: Some(observer), ..self }
    }

    /// `self` with the active slot empty.
    pub open spec fn unobserve(self) -> Self {
        ContextView { active: None, ..self }
    }

    /// `self` at the moment the body of `effect` starts: the start is
    /// recorded, the effect is the active observer, and the body runs one
    /// level deeper.
    pub open spec fn enter(self, effect: usize) -> Self {
        ContextView { depth: self.depth + 1, ..self.record(Action::Run { effect }).observe(effect) }
    }

    /// `self` at the moment an effect body has returned: the active slot is
    /// emptied, whoever was in it, and the depth is what it was before the
    /// body started.
    pub open spec fn leave(self) -> Self
        recommends
            self.depth > 0,
    {
        ContextView { depth: (self.depth - 1) as nat, ..self.unobserve() }
    }

    /// Whether `post` can come after `self` in the life of one context:
    /// nothing recorded or registered is lost.
    pub open spec fn precedes(self, post: Self) -> bool {
        &&& self.effects.is_prefix_of(post.effects)
        &&& self.history.is_prefix_of(post.history)
    }

    /// Whether `post` can come after `self` at the same depth: `self`
    /// precedes it, and what was recorded since was done at this depth or
    /// deeper.
    pub open spec fn evolves(self, post: Self) -> bool {
        &&& self.precedes(post)
        &&& post.depth == self.depth
        &&& forall|k: int|
            self.history.len() <= k < post.history.len() ==> (#[trigger] post.history[k]).depth
                >= self.depth
    }
}

/// Replaying one more event applies its action to what the others left.
pub proof fn lemma_replay_push<T>(history: Seq<Event<T>>, event: Event<T>)
    ensures
        replay(history.push(event)) == replay(history).apply(event.action),
{
    assert(history.push(event).drop_last() =~= history);
}

/// A longer history keeps every signal of a shorter one, and every
/// subscription in its place: signals are never removed, and each list of
/// subscribers only grows at its end.
pub proof fn lemma_replay_grows<T>(early: Seq<Event<T>>, late: Seq<Event<T>>)
    requires
        early.is_prefix_of(late),
    ensures
        replay(early).subscribers.len() <= replay(late).subscribers.len(),
        forall|s: int|
            0 <= s < replay(early).subscribers.len() ==> (#[trigger] replay(
                early,
            ).subscribers[s]).is_prefix_of(replay(late).subscribers[s]),
    decreases late.len(),
{
    if early.len() == late.len() {
        assert(early =~= late);
    } else {
        // The last event keeps each list or adds to its end.
        lemma_replay_grows(early, late.drop_last());
    }
}

/// Every subscription comes from a read: if `observer` is subscribed to
/// `signal`, the history holds a read of `signal` made while `observer` was
/// the active observer.
pub proof fn lemma_replay_origin<T>(history: Seq<Event<T>>, signal: usize, observer: usize)
    requires
        signal < replay(history).subscribers.len(),
        replay(history).subscribers[signal as int].contains(observer),
    ensures
        exists|k: int|
            0 <= k < history.len() && (#[trigger] history[k]).action == (Action::Read::<T> {
                signal,
                observer: Some(observer),
            }),
    decreases history.len(),
{
    let wanted = Action::Read::<T> { signal, observer: Some(observer) };
    if history.len() > 0 && history.last().action != wanted {
        // Any other event leaves the observer where it was: among the
        // subscribers that the earlier events left.
        let before = history.drop_last();
        assert(signal < replay(before).subscribers.len() && replay(
            before,
        ).subscribers[signal as int].contains(observer)) by {
            let subscribed = replay(history).subscribers[signal as int];
            let k = choose|k: int| 0 <= k < subscribed.len() && subscribed[k] == observer;
            assert(subscribed[k] == observer);
        }
        lemma_replay_origin(before, signal, observer);
        let k = choose|k: int| 0 <= k < before.len() && (#[trigger] before[k]).action == wanted;
        assert(history[k].action == wanted);
    }
}

/// A value stays until it is written: if a longer history holds no write to
/// `signal` after the shorter one ends, the signal holds what it held.
pub proof fn lemma_replay_keeps<T>(early: Seq<Event<T>>, late: Seq<Event<T>>, signal: usize)
    requires
        early.is_prefix_of(late),
        signal < replay(early).values.len(),
        forall|k: int| early.len() <= k < late.len() ==> !(#[trigger] late[k]).action.writes(signal),
    ensures
        signal < replay(late).values.len(),
        replay(late).values[signal as int] == replay(early).values[signal as int],
    decreases late.len(),
{
    if early.len() == late.len() {
        assert(early =~= late);
    } else {
        lemma_replay_keeps(early, late.drop_last(), signal);
    }
}

/// The own actions of a sequence with one more event.
pub proof fn lemma_own_actions_push<T>(events: Seq<Event<T>>, event: Event<T>, depth: nat)
    ensures
        own_actions(events.push(event), depth) == if event.depth == depth {
            own_actions(events, depth).push(event.action)
        } else {
            own_actions(events, depth)
        },
{
    assert(events.push(event).drop_last() =~= events);
}

/// Events that were all recorded deeper than `depth` hold no action of
/// `depth`.
pub proof fn lemma_own_actions_deeper<T>(events: Seq<Event<T>>, depth: nat)
    requires
        forall|k: int| 0 <= k < events.len() ==> (#[trigger] events[k]).depth > depth,
    ensures
        own_actions(events, depth) == Seq::<Action<T>>::empty(),
    decreases events.len(),
{
    if events.len() > 0 {
        lemma_own_actions_deeper(events.drop_last(), depth);
    }
}

/// The own actions of two sequences, one after the other, are those of the
/// first followed by those of the second.
pub proof fn lemma_own_actions_concat<T>(first: Seq<Event<T>>, second: Seq<Event<T>>, depth: nat)
    ensures
        own_actions(first + second, depth) == own_actions(first, depth) + own_actions(
            second,
            depth,
        ),
    decreases second.len(),
{
    if second.len() > 0 {
        let shorter = second.drop_last();
        assert((first + second).drop_last() =~= first + shorter);
        lemma_own_actions_concat(first, shorter, depth);
    }
}

} // verus!
