use panoloom::progress::Hook;
use std::cell::RefCell;
use std::rc::Rc;

type Reporter = Box<dyn Fn(&str)>;

fn stage(hook: &Hook<Reporter>, label: &str) {
    if let Some(f) = hook.stage() {
        f(label);
    }
}

#[test]
fn reports_only_while_a_guard_is_alive() {
    let mut hook: Hook<Reporter> = Hook::new();
    // No reporter installed: must be a silent no-op, not a panic.
    stage(&hook, "before");

    let seen: Rc<RefCell<Vec<String>>> = Rc::new(RefCell::new(Vec::new()));
    {
        let sink = Rc::clone(&seen);
        let g = hook.scoped(Box::new(move |s| sink.borrow_mut().push(s.to_string())));
        stage(&hook, "orb-detect");
        stage(&hook, "match-pairs");
        hook.restore(g);
    }
    stage(&hook, "after-drop");
    assert_eq!(*seen.borrow(), ["orb-detect", "match-pairs"]);
}

#[test]
fn nested_guards_restore_the_outer_reporter() {
    let mut hook: Hook<Reporter> = Hook::new();
    let outer: Rc<RefCell<Vec<String>>> = Rc::new(RefCell::new(Vec::new()));
    let inner: Rc<RefCell<Vec<String>>> = Rc::new(RefCell::new(Vec::new()));
    let o = Rc::clone(&outer);
    let _g = hook.scoped(Box::new(move |s| o.borrow_mut().push(s.to_string())));
    stage(&hook, "a");
    {
        let i = Rc::clone(&inner);
        let g2 = hook.scoped(Box::new(move |s| i.borrow_mut().push(s.to_string())));
        stage(&hook, "b");
        hook.restore(g2);
    }
    stage(&hook, "c");
    assert_eq!(*outer.borrow(), ["a", "c"]);
    assert_eq!(*inner.borrow(), ["b"]);
}
