//! The runtime: a context that owns every signal and every effect, handles
//! that name a signal, and the trait of an effect body.
//!
//! The context is the single owner of all state. A [`Signal`] is an index
//! into it, and an effect body is handed the context each time it runs, so
//! a body can read and write signals, and register further effects, while a
//! write is still telling its subscribers.
//!
//! A context holds values of one type and bodies of one type. Where signals
//! of several types or effects of several kinds are wanted, both are enums,
//! or the body type wraps a boxed closure.
//!
//! Everything is synchronous: a write returns when every effect it started,
//! and every effect those started in turn, has returned. Nothing bounds
//! that: an effect that keeps writing a signal it is subscribed to never
//! returns.
use crate::laws::{
    lemma_evolves_transitive, lemma_executed_once, lemma_notified_in_order,
    lemma_subscribers_only_grow, lemma_write_stores,
};
use crate::model::{Action, Cells, ContextView, Event};
use std::rc::Rc;
use vstd::prelude::*;

verus! {

/// The body of an effect: a computation that the context runs once when it
/// is registered and once more for each subscription each time a signal it
/// is subscribed to is written.
///
/// The context cannot look into a body. What it relies on is the contract of
/// [`Effect::run`], and nothing is proved here of a body that does not keep
/// it. Every body that touches the context only through the functions of
/// this module keeps it, since each of them keeps it. A body that puts
/// another context in the place of the one it was handed does not.
pub trait Effect<T>: Sized {
    /// What one execution of this body may do: whether the body, started in
    /// `pre`, can return in `post`. The context does not interpret it; it
    /// only reports that each execution was one of these. A body that says
    /// nothing of itself allows every outcome.
    open spec fn outcome(&self, pre: ContextView<T, Self>, post: ContextView<T, Self>) -> bool {
        true
    }

    /// Runs the body once on `ctx`.
    ///
    /// The body is handed a well-formed context and hands one back in which
    /// nothing recorded or registered before is lost, at the depth at which
    /// it started.
    fn run(&self, ctx: &mut SignalContext<T, Self>)
        requires
            old(ctx).wf(),
        ensures
            final(ctx).wf(),
            old(ctx)@.evolves(final(ctx)@),
            self.outcome(old(ctx)@, final(ctx)@),
    ;
}

/// Whether one execution of the effect numbered `effect`, started in `pre`,
/// can end in `post`.
///
/// The body is started in exactly `pre.enter(effect)`; it returns in some
/// state `inner` that its contract allows; and `post` is that state after
/// `leave`.
pub open spec fn executed<T, F: Effect<T>>(
    pre: ContextView<T, F>,
    effect: usize,
    post: ContextView<T, F>,
) -> bool {
    exists|inner: ContextView<T, F>|
        {
            &&& #[trigger] pre.effects[effect as int].outcome(pre.enter(effect), inner)
            &&& pre.enter(effect).evolves(inner)
            &&& inner.inv()
            &&& post == inner.leave()
        }
}

/// Whether executing the effects numbered `effects`, one after the other in
/// that order and each to its end, can lead from `pre` to `post`.
pub open spec fn notified<T, F: Effect<T>>(
    pre: ContextView<T, F>,
    effects: Seq<usize>,
    post: ContextView<T, F>,
) -> bool
    decreases effects.len(),
{
    if effects.len() == 0 {
        post == pre
    } else {
        exists|mid: ContextView<T, F>|
            notified(pre, effects.drop_last(), mid) && #[trigger] executed(
                mid,
                effects.last(),
                post,
            )
    }
}

/// Owner of the signals and of the effects, and of the one slot that says
/// which effect is reading right now.
pub struct SignalContext<T, F> {
    values: Vec<T>,
    subscribers: Vec<Vec<usize>>,
    observers: Vec<Rc<F>>,
    current_observer: Option<usize>,
    depth: Ghost<nat>,
    history: Ghost<Seq<Event<T>>>,
}

/// The name of one signal of a context.
///
/// A handle is the place of its signal among the signals of the context
/// that made it, and nothing more: it can be copied freely, and every copy
/// names the same signal. It must be used with the context that made it;
/// in another context it names whatever signal stands at that place, if
/// there is one ([`SignalContext::owns`]).
#[derive(Clone, Copy)]
pub struct Signal {
    index: usize,
}

impl View for Signal {
    type V = usize;

    /// The place of the signal among the signals of its context.
    closed spec fn view(&self) -> usize {
        self.index
    }
}

impl<T, F> View for SignalContext<T, F> {
    type V = ContextView<T, F>;

    closed spec fn view(&self) -> ContextView<T, F> {
        ContextView {
            cells: Cells {
                values: self.values@,
                subscribers: Seq::new(
                    self.subscribers.len() as nat,
                    |s: int| self.subscribers[s]@,
                ),
            },
            effects: Seq::new(self.observers.len() as nat, |e: int| *self.observers[e]),
            active: self.current_observer,
            depth: self.depth@,
            history: self.history@,
        }
    }
}

impl<T, F> SignalContext<T, F> {
    /// Well-formedness: the state of the context meets [`ContextView::inv`].
    pub open spec fn wf(&self) -> bool {
        self@.inv()
    }

    /// Creates a context with no signal and no effect.
    pub fn new() -> (ctx: Self)
        ensures
            ctx.wf(),
            ctx@ == ContextView::<T, F>::empty(),
    {
        let ctx = SignalContext {
            values: Vec::new(),
            subscribers: Vec::new(),
            observers: Vec::new(),
            current_observer: None,
            depth: Ghost(0),
            history: Ghost(Seq::empty()),
        };
        assert(ctx@.cells.subscribers =~= Seq::empty());
        assert(ctx@.effects =~= Seq::empty());
        ctx
    }

    /// Whether `signal` names one of the signals of this context.
    pub fn owns(&self, signal: Signal) -> (found: bool)
        ensures
            found == self@.owns(signal@),
    {
        signal.index < self.values.len()
    }

    /// Creates a signal that holds `value` and has no subscriber.
    pub fn create_signal(&mut self, value: T) -> (signal: Signal)
        requires
            old(self).wf(),
        ensures
            final(self).wf(),
            final(self)@ == old(self)@.create(value),
            signal@ == old(self)@.cells.values.len(),
    {
        let ghost action = Action::Create { value };
        let index = self.values.len();
        self.values.push(value);
        self.subscribers.push(Vec::new());
        self.history = Ghost(self.history@.push(Event { depth: self.depth@, action }));
        proof {
            assert(self.history@.drop_last() =~= old(self).history@);
            assert(self@.cells.subscribers =~= old(self)@.cells.subscribers.push(Seq::empty()));
        }
        Signal { index }
    }

    /// Puts `observer` in the active slot.
    fn set_current_observer(&mut self, observer: usize)
        requires
            old(self).wf(),
            observer < old(self)@.effects.len(),
        ensures
            final(self).wf(),
            final(self)@ == old(self)@.observe(observer),
    {
        self.current_observer = Some(observer);
    }

    /// Empties the active slot.
    fn remove_current_observer(&mut self)
        requires
            old(self).wf(),
        ensures
            final(self).wf(),
            final(self)@ == old(self)@.unobserve(),
    {
        self.current_observer = None;
    }
}

impl<T, F: Effect<T>> SignalContext<T, F> {
    /// Executes the effect numbered `effect` once: it becomes the active
    /// observer, its body runs to its end, and the active slot is emptied.
    fn run_observer(&mut self, effect: usize)
        requires
            old(self).wf(),
            effect < old(self)@.effects.len(),
        ensures
            final(self).wf(),
            executed(old(self)@, effect, final(self)@),
    {
        let body = share(&self.observers[effect]);
        self.set_current_observer(effect);
        self.history = Ghost(
            self.history@.push(Event { depth: self.depth@, action: Action::Run { effect } }),
        );
        self.depth = Ghost(self.depth@ + 1);
        proof {
            assert(self.history@.drop_last() =~= old(self).history@);
        }
        body.run(self);
        let ghost inner = self@;
        self.remove_current_observer();
        self.depth = Ghost((self.depth@ - 1) as nat);
        proof {
            assert(old(self)@.effects[effect as int].outcome(old(self)@.enter(effect), inner));
        }
    }

    /// Registers `effect` as the next effect and executes it once, before
    /// returning. Whatever the body reads while it is the active observer
    /// subscribes the new effect.
    pub fn create_effect(&mut self, effect: F)
        requires
            old(self).wf(),
        ensures
            final(self).wf(),
            executed(
                old(self)@.register(effect),
                old(self)@.effects.len() as usize,
                final(self)@,
            ),
            old(self)@.evolves(final(self)@),
            forall|signal: usize| old(self)@.owns(signal) ==> final(self)@.owns(signal),
    {
        let index = self.observers.len();
        self.observers.push(Rc::new(effect));
        proof {
            assert(self@.effects =~= old(self)@.effects.push(effect));
        }
        self.run_observer(index);
        proof {
            lemma_executed_once(old(self)@.register(effect), index, self@);
            lemma_subscribers_only_grow(old(self)@, self@);
        }
    }
}

/// Another handle on the body that `body` points to.
///
/// Calls `Rc::clone`, which makes a second pointer to the same allocation
/// and copies nothing: the contract says that both point to one value.
#[verifier::external_body]
fn share<F>(body: &Rc<F>) -> (shared: Rc<F>)
    ensures
        shared == *body,
{
    Rc::clone(body)
}

impl Signal {
    /// Reads the signal: returns a clone of its current value and, if an
    /// effect is the active observer, subscribes that effect to the signal,
    /// whether or not it is subscribed already.
    pub fn get<T: Clone, F>(&self, ctx: &mut SignalContext<T, F>) -> (value: T)
        requires
            old(ctx).wf(),
            old(ctx)@.owns(self@),
        ensures
            final(ctx).wf(),
            final(ctx)@ == old(ctx)@.read(self@),
            cloned(old(ctx)@.value(self@), value),
    {
        let ghost action = Action::Read::<T> { signal: self.index, observer: ctx.current_observer };
        if let Some(observer) = ctx.current_observer {
            ctx.subscribers[self.index].push(observer);
        }
        ctx.history = Ghost(ctx.history@.push(Event { depth: ctx.depth@, action }));
        proof {
            assert(ctx.history@.drop_last() =~= old(ctx).history@);
            assert(ctx@.cells.subscribers =~= old(ctx)@.cells.apply(action).subscribers);
        }
        ctx.values[self.index].clone()
    }

    /// Writes the signal: stores `value`, then executes every effect that
    /// was subscribed at that moment, in subscription order, once for each
    /// of its subscriptions. No comparison is made with the value that was
    /// there before.
    ///
    /// The subscribers are taken down before the first effect is executed:
    /// what the bodies subscribe meanwhile, to this signal or another, is
    /// told by the next write only.
    pub fn set<T, F: Effect<T>>(&self, ctx: &mut SignalContext<T, F>, value: T)
        requires
            old(ctx).wf(),
            old(ctx)@.owns(self@),
        ensures
            final(ctx).wf(),
            notified(
                old(ctx)@.write(self@, value),
                old(ctx)@.subscribers(self@),
                final(ctx)@,
            ),
            old(ctx)@.evolves(final(ctx)@),
            forall|signal: usize| old(ctx)@.owns(signal) ==> final(ctx)@.owns(signal),
    {
        let ghost action = Action::Write { signal: self.index, value };
        ctx.values[self.index] = value;
        ctx.history = Ghost(ctx.history@.push(Event { depth: ctx.depth@, action }));
        let snapshot = ctx.subscribers[self.index].clone();
        let ghost start = ctx@;
        proof {
            assert(ctx.history@.drop_last() =~= old(ctx).history@);
            assert(snapshot@ =~= old(ctx)@.subscribers(self@));
        }
        let mut next: usize = 0;
        while next < snapshot.len()
            invariant
                next <= snapshot.len(),
                ctx.wf(),
                start.effects.len() <= ctx@.effects.len(),
                forall|k: int| 0 <= k < snapshot.len() ==> snapshot[k] < start.effects.len(),
                notified(start, snapshot@.take(next as int), ctx@),
            decreases snapshot.len() - next,
        {
            ctx.run_observer(snapshot[next]);
            proof {
                // One more effect was told, after those told before.
                let told = snapshot@.take(next + 1);
                assert(told.drop_last() =~= snapshot@.take(next as int));
                assert(told.last() == snapshot[next as int]);
            }
            next += 1;
        }
        proof {
            assert(snapshot@.take(next as int) =~= snapshot@);
            lemma_notified_in_order(start, snapshot@, ctx@);
            lemma_subscribers_only_grow(old(ctx)@, ctx@);
        }
    }
}

} // verus!
