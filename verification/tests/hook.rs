use kombox::hook::{HookContext, HookRegistry};
use std::cell::RefCell;
use std::rc::Rc;

#[test]
fn register_and_fire() {
    let mut registry: HookRegistry<Box<dyn Fn(&HookContext)>> = HookRegistry::new();
    registry.register(":entity.death", Box::new(|ctx| {
        assert_eq!(ctx.get("entity_id").map(|s| s.as_str()), Some("42"));
    }));
    registry.fire(":entity.death", &HookContext::new().with("entity_id", "42"));
}

#[test]
fn fire_runs_callbacks_in_registration_order() {
    let log: Rc<RefCell<Vec<u32>>> = Rc::new(RefCell::new(Vec::new()));
    let mut registry: HookRegistry<Box<dyn Fn(&HookContext)>> = HookRegistry::new();
    let l1 = log.clone();
    registry.register(":tick", Box::new(move |_| l1.borrow_mut().push(1)));
    let l2 = log.clone();
    registry.register("Mod.x:other", Box::new(move |_| l2.borrow_mut().push(99)));
    let l3 = log.clone();
    registry.register(":tick", Box::new(move |_| l3.borrow_mut().push(2)));
    registry.fire(":tick", &HookContext::new());
    assert_eq!(*log.borrow(), vec![1, 2]);
    registry.fire("Mod.x:other", &HookContext::new());
    assert_eq!(*log.borrow(), vec![1, 2, 99]);
}

#[test]
fn fire_unknown_name_calls_nothing() {
    let log: Rc<RefCell<Vec<u32>>> = Rc::new(RefCell::new(Vec::new()));
    let mut registry: HookRegistry<Box<dyn Fn(&HookContext)>> = HookRegistry::new();
    let l1 = log.clone();
    registry.register(":entity.death", Box::new(move |_| l1.borrow_mut().push(1)));
    registry.fire(":entity.spawn", &HookContext::new());
    assert!(log.borrow().is_empty());
}

#[test]
fn context_with_replaces_earlier_value() {
    let ctx = HookContext::new().with("a", "1").with("b", "2").with("a", "3");
    assert_eq!(ctx.get("a").map(|s| s.as_str()), Some("3"));
    assert_eq!(ctx.get("b").map(|s| s.as_str()), Some("2"));
    assert_eq!(ctx.get("c"), None);
    let copy = ctx.clone();
    assert_eq!(copy.get("a").map(|s| s.as_str()), Some("3"));
    let empty = HookContext::default();
    assert_eq!(empty.get("a"), None);
}

#[test]
fn context_length_and_entries() {
    let ctx = HookContext::new();
    assert_eq!(ctx.len(), 0);
    let ctx = ctx.with("a", "1").with("b", "2");
    assert_eq!(ctx.len(), 2);
    let ctx = ctx.with("a", "3");
    assert_eq!(ctx.len(), 2);
    let mut entries: Vec<(String, String)> = ctx.entries().clone();
    entries.sort();
    assert_eq!(entries, vec![("a".to_string(), "3".to_string()), ("b".to_string(), "2".to_string())]);
}
