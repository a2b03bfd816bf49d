use revent::context::{AccessError, Context};
use revent::node::Node;
use revent::slot::Slot;
use std::{cell::RefCell, rc::Rc};

#[test]
fn slot_tracing() {
    let out = Rc::new(RefCell::new(None));

    let mut ctx = Context::new();
    let capture = out.clone();
    let mut slot = Slot::new_with_trace(move |indent| {
        assert!(matches!(*capture.borrow(), None));
        *capture.borrow_mut() = Some(indent);
    });

    let capture = out.clone();
    slot.insert(Node::new_with_trace(&mut ctx, (), move |indent| {
        assert!(matches!(*capture.borrow(), Some(0)));
        *capture.borrow_mut() = Some(indent);
    }));

    slot.emit(&mut ctx, |_, _| {}).unwrap();

    assert!(matches!(*out.borrow(), Some(1)));
}

#[test]
fn emit_on_empty_slot_is_an_error() {
    let mut ctx: Context<()> = Context::new();
    let slot = Slot::new();
    assert_eq!(
        slot.emit(&mut ctx, |_, _| {}),
        Err(AccessError::EmptyRequiredSlot)
    );
}
