use reactive_signals::signals::{Effect, SignalContext};
use std::cell::{Cell, RefCell};
use std::rc::Rc;

struct Body(Box<dyn Fn(&mut SignalContext<i32, Body>)>);

impl Effect<i32> for Body {
    fn run(&self, ctx: &mut SignalContext<i32, Body>) {
        (self.0)(ctx)
    }
}

type Trace = Rc<RefCell<Vec<(&'static str, i32)>>>;

fn trace() -> Trace {
    Rc::new(RefCell::new(Vec::new()))
}

#[test]
fn write_inside_an_effect_tells_depth_first() {
    let mut ctx: SignalContext<i32, Body> = SignalContext::new();
    let s = ctx.create_signal(1);
    let t = ctx.create_signal(0);
    let steps = trace();
    let out = Rc::clone(&steps);
    ctx.create_effect(Body(Box::new(move |ctx| {
        let seen = t.get(ctx);
        out.borrow_mut().push(("b", seen));
    })));
    let out = Rc::clone(&steps);
    ctx.create_effect(Body(Box::new(move |ctx| {
        let seen = s.get(ctx);
        out.borrow_mut().push(("a", seen));
        t.set(ctx, seen * 10);
        out.borrow_mut().push(("a done", seen));
    })));
    assert_eq!(*steps.borrow(), vec![("b", 0), ("a", 1), ("b", 10), ("a done", 1)]);
    steps.borrow_mut().clear();
    s.set(&mut ctx, 2);
    assert_eq!(*steps.borrow(), vec![("a", 2), ("b", 20), ("b", 20), ("a done", 2)]);
    assert_eq!(t.get(&mut ctx), 20);
    assert_eq!(s.get(&mut ctx), 2);
}

#[test]
fn effect_reading_the_signal_being_written_does_not_disturb_the_write() {
    let mut ctx: SignalContext<i32, Body> = SignalContext::new();
    let s = ctx.create_signal(0);
    let runs = Rc::new(Cell::new(0));
    let counter = Rc::clone(&runs);
    // Every run subscribes again while the write is going through the
    // subscribers it found.
    ctx.create_effect(Body(Box::new(move |ctx| {
        s.get(ctx);
        s.get(ctx);
        s.get(ctx);
        counter.set(counter.get() + 1);
    })));
    assert_eq!(runs.get(), 1);
    s.set(&mut ctx, 1);
    assert_eq!(runs.get(), 1 + 3);
    s.set(&mut ctx, 2);
    assert_eq!(runs.get(), 1 + 3 + 12);
}

#[test]
fn effect_may_write_the_signal_it_reads() {
    let mut ctx: SignalContext<i32, Body> = SignalContext::new();
    let s = ctx.create_signal(0);
    let runs = Rc::new(Cell::new(0));
    let counter = Rc::clone(&runs);
    ctx.create_effect(Body(Box::new(move |ctx| {
        counter.set(counter.get() + 1);
        let seen = s.get(ctx);
        if seen < 3 {
            s.set(ctx, seen + 1);
        }
    })));
    assert_eq!(s.get(&mut ctx), 3);
    assert_eq!(runs.get(), 7);
}

#[test]
fn effect_registered_inside_an_effect_runs_at_once() {
    let mut ctx: SignalContext<i32, Body> = SignalContext::new();
    let s = ctx.create_signal(5);
    let steps = trace();
    let out = Rc::clone(&steps);
    ctx.create_effect(Body(Box::new(move |ctx| {
        out.borrow_mut().push(("outer", 0));
        let inner_out = Rc::clone(&out);
        ctx.create_effect(Body(Box::new(move |ctx| {
            let seen = s.get(ctx);
            inner_out.borrow_mut().push(("inner", seen));
        })));
        out.borrow_mut().push(("outer done", 0));
    })));
    assert_eq!(*steps.borrow(), vec![("outer", 0), ("inner", 5), ("outer done", 0)]);
    steps.borrow_mut().clear();
    s.set(&mut ctx, 6);
    assert_eq!(*steps.borrow(), vec![("inner", 6)]);
}

#[test]
fn effect_registered_during_a_write_is_not_told_by_that_write() {
    let mut ctx: SignalContext<i32, Body> = SignalContext::new();
    let s = ctx.create_signal(0);
    let steps = trace();
    let out = Rc::clone(&steps);
    ctx.create_effect(Body(Box::new(move |ctx| {
        let seen = s.get(ctx);
        out.borrow_mut().push(("first", seen));
        if seen == 1 {
            let late_out = Rc::clone(&out);
            ctx.create_effect(Body(Box::new(move |ctx| {
                let seen = s.get(ctx);
                late_out.borrow_mut().push(("late", seen));
            })));
        }
    })));
    steps.borrow_mut().clear();
    s.set(&mut ctx, 1);
    // The late effect runs once, because it was created, not because of
    // the write.
    assert_eq!(*steps.borrow(), vec![("first", 1), ("late", 1)]);
    steps.borrow_mut().clear();
    s.set(&mut ctx, 2);
    assert_eq!(*steps.borrow(), vec![("first", 2), ("first", 2), ("late", 2)]);
}

#[test]
fn inner_run_empties_the_active_slot_of_the_outer_one() {
    let mut ctx: SignalContext<i32, Body> = SignalContext::new();
    let s = ctx.create_signal(0);
    let seen: Rc<RefCell<Vec<i32>>> = Rc::new(RefCell::new(Vec::new()));
    let out = Rc::clone(&seen);
    ctx.create_effect(Body(Box::new(move |ctx| {
        ctx.create_effect(Body(Box::new(|_ctx| {})));
        // Read after the inner effect returned: nobody is active any more.
        let now = s.get(ctx);
        out.borrow_mut().push(now);
    })));
    assert_eq!(*seen.borrow(), vec![0]);
    s.set(&mut ctx, 1);
    assert_eq!(*seen.borrow(), vec![0]);
    assert_eq!(s.get(&mut ctx), 1);
}

#[test]
fn read_before_the_inner_run_still_subscribes() {
    let mut ctx: SignalContext<i32, Body> = SignalContext::new();
    let s = ctx.create_signal(0);
    let gate = ctx.create_signal(1);
    let seen: Rc<RefCell<Vec<i32>>> = Rc::new(RefCell::new(Vec::new()));
    let out = Rc::clone(&seen);
    ctx.create_effect(Body(Box::new(move |ctx| {
        let now = s.get(ctx);
        out.borrow_mut().push(now);
        if now == 0 {
            ctx.create_effect(Body(Box::new(|_ctx| {})));
        }
        // Subscribes only in the runs that did not register an effect.
        gate.get(ctx);
    })));
    s.set(&mut ctx, 1);
    assert_eq!(*seen.borrow(), vec![0, 1]);
    seen.borrow_mut().clear();
    gate.set(&mut ctx, 2);
    assert_eq!(*seen.borrow(), vec![1]);
}

#[test]
fn slot_is_empty_after_an_effect_was_created() {
    let mut ctx: SignalContext<i32, Body> = SignalContext::new();
    let s = ctx.create_signal(0);
    let runs = Rc::new(Cell::new(0));
    let counter = Rc::clone(&runs);
    ctx.create_effect(Body(Box::new(move |_ctx| {
        counter.set(counter.get() + 1);
    })));
    // A read by the host right after must not subscribe the effect.
    s.get(&mut ctx);
    s.set(&mut ctx, 1);
    assert_eq!(runs.get(), 1);
}
