//! What holds of every context, proved from the contracts of the runtime.
//!
//! Each statement is about states of one context, named in the order in
//! which they occur, and about what the history holds between two of them.
use crate::model::{
    lemma_own_actions_concat, lemma_own_actions_deeper, lemma_own_actions_push,
    lemma_replay_grows, lemma_replay_keeps, lemma_replay_origin, lemma_replay_push,
    own_actions, runs, Action, ContextView, Event,
};
use crate::signals::{executed, notified, Effect};
use vstd::prelude::*;

verus! {

/// Coming after, at the same depth, is transitive.
pub proof fn lemma_evolves_transitive<T, F>(
    first: ContextView<T, F>,
    second: ContextView<T, F>,
    third: ContextView<T, F>,
)
    requires
        first.evolves(second),
        second.evolves(third),
    ensures
        first.evolves(third),
{
    assert forall|k: int| first.history.len() <= k < third.history.len() implies (
    #[trigger] third.history[k]).depth >= first.depth by {
        if k < second.history.len() {
            assert(third.history[k] == second.history[k]);
        }
    }
}

/// Signals and subscriptions are never removed: in every later state of a
/// context each signal is still there, and each list of subscribers has
/// only grown at its end.
pub proof fn lemma_subscribers_only_grow<T, F>(early: ContextView<T, F>, late: ContextView<T, F>)
    requires
        early.inv(),
        late.inv(),
        early.precedes(late),
    ensures
        forall|signal: usize| early.owns(signal) ==> late.owns(signal),
        forall|signal: usize| #[trigger]
            early.owns(signal) ==> early.subscribers(signal).is_prefix_of(
                late.subscribers(signal),
            ),
{
    lemma_replay_grows(early.history, late.history);
}

/// One execution of an effect is one start at the depth of whoever asked
/// for it: the history gains that start, followed only by what the body did
/// one level deeper or more, and the active slot is empty afterwards.
pub proof fn lemma_executed_once<T, F: Effect<T>>(
    pre: ContextView<T, F>,
    effect: usize,
    post: ContextView<T, F>,
)
    requires
        executed(pre, effect, post),
    ensures
        post.inv(),
        pre.evolves(post),
        post.active is None,
        post.history[pre.history.len() as int] == (Event::<T> {
            depth: pre.depth,
            action: Action::Run { effect },
        }),
        own_actions(post.since(pre.history.len()), pre.depth) == seq![
            Action::<T>::Run { effect },
        ],
{
    let inner = choose|inner: ContextView<T, F>|
        {
            &&& #[trigger] pre.effects[effect as int].outcome(pre.enter(effect), inner)
            &&& pre.enter(effect).evolves(inner)
            &&& inner.inv()
            &&& post == inner.leave()
        };
    let start = Event { depth: pre.depth, action: Action::<T>::Run { effect } };
    let n = pre.history.len();
    // The history of `post` is that of `inner`: the start, then what the
    // body recorded, all of it deeper than `pre`.
    assert(post.history[n as int] == pre.enter(effect).history[n as int]);
    let body_part = post.since(n + 1);
    assert(post.since(n) =~= seq![start] + body_part);
    lemma_own_actions_deeper(body_part, pre.depth);
    lemma_own_actions_concat(seq![start], body_part, pre.depth);
    lemma_own_actions_push(Seq::empty(), start, pre.depth);
}

/// Telling a list of effects is starting each of them once, in the order
/// of the list, and nothing else at the depth of whoever tells: the history
/// gains exactly these starts at that depth, whatever the bodies did deeper.
/// The context is well formed afterwards, and nothing recorded or registered
/// before is lost.
pub proof fn lemma_notified_in_order<T, F: Effect<T>>(
    pre: ContextView<T, F>,
    effects: Seq<usize>,
    post: ContextView<T, F>,
)
    requires
        pre.inv(),
        notified(pre, effects, post),
    ensures
        post.inv(),
        pre.evolves(post),
        post.active == if effects.len() == 0 {
            pre.active
        } else {
            None
        },
        own_actions(post.since(pre.history.len()), pre.depth) == runs::<T>(effects),
    decreases effects.len(),
{
    let n = pre.history.len();
    if effects.len() > 0 {
        let mid = choose|mid: ContextView<T, F>|
            notified(pre, effects.drop_last(), mid) && #[trigger] executed(
                mid,
                effects.last(),
                post,
            );
        lemma_notified_in_order(pre, effects.drop_last(), mid);
        lemma_executed_once(mid, effects.last(), post);
        lemma_evolves_transitive(pre, mid, post);
        let m = mid.history.len();
        assert(post.since(n) =~= mid.since(n) + post.since(m));
        lemma_own_actions_concat(mid.since(n), post.since(m), pre.depth);
    }
}

/// Creating an effect executes it once before it returns: the new effect
/// is registered under the next free number with the body that was given,
/// it was never started before, and the history gains exactly one start at
/// the caller's depth, the start of that effect.
pub proof fn lemma_initial_run<T, F: Effect<T>>(
    pre: ContextView<T, F>,
    body: F,
    effect: usize,
    post: ContextView<T, F>,
)
    requires
        pre.inv(),
        effect == pre.effects.len(),
        executed(pre.register(body), effect, post),
    ensures
        post.inv(),
        effect < post.effects.len(),
        post.effects[effect as int] == body,
        pre.effects.is_prefix_of(post.effects),
        pre.history.is_prefix_of(post.history),
        forall|k: int|
            0 <= k < pre.history.len() ==> (#[trigger] post.history[k]).action != (
            Action::<T>::Run { effect }),
        own_actions(post.since(pre.history.len()), pre.depth) == seq![
            Action::<T>::Run { effect },
        ],
{
    lemma_executed_once(pre.register(body), effect, post);
    assert forall|k: int| 0 <= k < pre.history.len() implies (#[trigger] post.history[k]).action
        != (Action::<T>::Run { effect }) by {
        assert(post.history[k] == pre.history[k]);
    }
}

/// Creating a signal in a well-formed context leaves a well-formed context
/// with one more signal, which holds the value given and has no subscriber;
/// the signals that were there are as they were.
pub proof fn lemma_create_adds<T, F>(pre: ContextView<T, F>, value: T)
    requires
        pre.inv(),
    ensures
        pre.create(value).inv(),
        pre.create(value).cells.values == pre.cells.values.push(value),
        pre.create(value).cells.subscribers == pre.cells.subscribers.push(Seq::empty()),
        pre.evolves(pre.create(value)),
{
    let event = Event { depth: pre.depth, action: Action::Create { value } };
    lemma_replay_push(pre.history, event);
}

/// A write to a signal in a well-formed context leaves a well-formed
/// context in which the signal holds the value written.
pub proof fn lemma_write_stores<T, F>(pre: ContextView<T, F>, signal: usize, value: T)
    requires
        pre.inv(),
        pre.owns(signal),
    ensures
        pre.write(signal, value).inv(),
        pre.write(signal, value).value(signal) == value,
        pre.write(signal, value).cells.subscribers == pre.cells.subscribers,
        pre.evolves(pre.write(signal, value)),
{
    let event = Event { depth: pre.depth, action: Action::Write { signal, value } };
    lemma_replay_push(pre.history, event);
}

/// A read in a well-formed context leaves a well-formed context with the
/// same values, in which the active observer, if there is one, is the last
/// subscriber of the signal.
pub proof fn lemma_read_subscribes<T, F>(pre: ContextView<T, F>, signal: usize)
    requires
        pre.inv(),
        pre.owns(signal),
    ensures
        pre.read(signal).inv(),
        pre.read(signal).cells.values == pre.cells.values,
        pre.read(signal).subscribers(signal) == match pre.active {
            Some(observer) => pre.subscribers(signal).push(observer),
            None => pre.subscribers(signal),
        },
        pre.evolves(pre.read(signal)),
{
    let event = Event { depth: pre.depth, action: Action::Read { signal, observer: pre.active } };
    lemma_replay_push(pre.history, event);
}

/// What a write does at its own depth is to store the value and then to
/// start each subscriber that it found, in subscription order, once for
/// each subscription, and nothing else. This holds whatever the bodies do
/// meanwhile, one level deeper: they may read and write this signal or
/// another and register effects, and the write still ends in a well-formed
/// context in which the subscribers it found come first.
pub proof fn lemma_write_tells_in_order<T, F: Effect<T>>(
    writing: ContextView<T, F>,
    signal: usize,
    value: T,
    post: ContextView<T, F>,
)
    requires
        writing.inv(),
        writing.owns(signal),
        notified(writing.write(signal, value), writing.subscribers(signal), post),
    ensures
        post.inv(),
        writing.evolves(post),
        post.owns(signal),
        writing.subscribers(signal).is_prefix_of(post.subscribers(signal)),
        own_actions(post.since(writing.history.len()), writing.depth) == seq![
            Action::Write { signal, value },
        ] + runs::<T>(writing.subscribers(signal)),
        writing.subscribers(signal).len() == 0 ==> post == writing.write(signal, value),
{
    let n = writing.history.len();
    let stored = Event { depth: writing.depth, action: Action::Write { signal, value } };
    lemma_write_stores(writing, signal, value);
    lemma_notified_in_order(writing.write(signal, value), writing.subscribers(signal), post);
    lemma_subscribers_only_grow(writing, post);
    assert(post.since(n) =~= seq![stored] + post.since(n + 1));
    lemma_own_actions_concat(seq![stored], post.since(n + 1), writing.depth);
    lemma_own_actions_push(Seq::empty(), stored, writing.depth);
}

/// An effect that read a signal while it was the active observer is
/// executed by every later write to that signal, before the write returns:
/// it is among the subscribers that the write finds, and the write starts it.
pub proof fn lemma_reactivity<T, F: Effect<T>>(
    reading: ContextView<T, F>,
    signal: usize,
    observer: usize,
    writing: ContextView<T, F>,
    value: T,
    post: ContextView<T, F>,
)
    requires
        reading.inv(),
        reading.owns(signal),
        reading.active == Some(observer),
        reading.read(signal).precedes(writing),
        writing.inv(),
        notified(writing.write(signal, value), writing.subscribers(signal), post),
    ensures
        writing.owns(signal),
        writing.subscribers(signal).contains(observer),
        own_actions(post.since(writing.history.len() + 1), writing.depth).contains(
            Action::Run { effect: observer },
        ),
{
    let read = reading.read(signal);
    lemma_read_subscribes(reading, signal);
    lemma_replay_grows(read.history, writing.history);
    let before = read.subscribers(signal);
    let now = writing.subscribers(signal);
    // The read put the observer last; the list has only grown since.
    let at = before.len() - 1;
    assert(before[at] == observer);
    lemma_write_stores(writing, signal, value);
    lemma_notified_in_order(writing.write(signal, value), now, post);
    assert(runs::<T>(now)[at] == Action::<T>::Run { effect: observer });
}

/// An effect that never read a signal as the active observer is not
/// subscribed to it, and a write to the signal does not start it. (An
/// effect that the write does start may still start it in turn, one level
/// deeper, by a write of its own.)
pub proof fn lemma_no_read_no_notify<T, F: Effect<T>>(
    writing: ContextView<T, F>,
    signal: usize,
    effect: usize,
    value: T,
    post: ContextView<T, F>,
)
    requires
        writing.inv(),
        writing.owns(signal),
        forall|k: int|
            0 <= k < writing.history.len() ==> (#[trigger] writing.history[k]).action != (
            Action::Read::<T> { signal, observer: Some(effect) }),
        notified(writing.write(signal, value), writing.subscribers(signal), post),
    ensures
        !writing.subscribers(signal).contains(effect),
        !own_actions(post.since(writing.history.len() + 1), writing.depth).contains(
            Action::Run { effect },
        ),
{
    let found = writing.subscribers(signal);
    if found.contains(effect) {
        lemma_replay_origin(writing.history, signal, effect);
    }
    lemma_write_stores(writing, signal, value);
    lemma_notified_in_order(writing.write(signal, value), found, post);
}

/// A signal holds the value last written to it: in every later state of
/// the context, for as long as the history holds no further write to the
/// signal, the signal holds the value of this write, and a read, by the
/// host or inside an effect, does not change it.
pub proof fn lemma_read_returns_latest<T, F>(
    writing: ContextView<T, F>,
    signal: usize,
    value: T,
    reading: ContextView<T, F>,
)
    requires
        writing.inv(),
        writing.owns(signal),
        writing.write(signal, value).precedes(reading),
        reading.inv(),
        forall|k: int|
            writing.history.len() < k < reading.history.len() ==> !(
            #[trigger] reading.history[k]).action.writes(signal),
    ensures
        reading.owns(signal),
        reading.value(signal) == value,
        reading.read(signal).value(signal) == value,
{
    lemma_write_stores(writing, signal, value);
    lemma_replay_keeps(writing.write(signal, value).history, reading.history, signal);
}

} // verus!
