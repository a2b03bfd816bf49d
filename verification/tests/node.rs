use revent::context::{Access, AccessError, Context};
use revent::node::{Node, Suspend};
use revent::trace::Trace;
use std::{cell::RefCell, rc::Rc};

#[test]
fn emit_works() {
    let mut ctx = Context::new();
    let node = Node::new(&mut ctx, 123);
    node.emit(&mut ctx, |ctx, me| {
        let x = ctx.get_mut(&me).unwrap();
        assert_eq!(*x, 123);
        *x = 1;
    })
    .unwrap();
    node.emit(&mut ctx, |ctx, me| {
        let x = ctx.get_mut(&me).unwrap();
        assert_eq!(*x, 1);
    })
    .unwrap();
}

#[test]
fn node_tracing() {
    let out = Rc::new(RefCell::new(None));

    let capture = out.clone();
    let mut ctx = Context::new();
    let node = Node::new_with_trace(&mut ctx, (), move |indent| {
        *capture.borrow_mut() = Some(indent);
    });

    node.emit(&mut ctx, |_, _| {}).unwrap();

    assert!(matches!(*out.borrow(), Some(0)));
}

#[test]
fn suspend() {
    let mut ctx = Context::new();
    let x = Node::new(&mut ctx, ());
    x.emit(&mut ctx, |ctx, mut y| {
        y.suspend(ctx, |_| {}).unwrap();
    })
    .unwrap();
}

#[test]
fn emit_on_held_node_is_refused() {
    let mut ctx = Context::new();
    let node = Node::new(&mut ctx, 123);
    let inner = node
        .emit(&mut ctx, |ctx, _| {
            assert_eq!(ctx.access(node.index()), Some(Access::Exclusive));
            node.emit(ctx, |_, _| {})
        })
        .unwrap();
    assert_eq!(inner, Err(AccessError::AlreadyBorrowed));
    assert_eq!(ctx.access(node.index()), Some(Access::Free));
}

#[test]
fn suspended_node_can_be_reached_again() {
    let mut ctx = Context::new();
    let node = Node::new(&mut ctx, 0);
    let inner = node
        .emit(&mut ctx, |ctx, mut me| {
            *ctx.get_mut(&me).unwrap() += 1;
            let inner = me
                .suspend(ctx, |ctx| {
                    assert_eq!(ctx.access(node.index()), Some(Access::Free));
                    node.emit(ctx, |ctx, again| {
                        *ctx.get_mut(&again).unwrap() += 10;
                    })
                })
                .unwrap();
            assert_eq!(ctx.access(node.index()), Some(Access::Exclusive));
            *ctx.get_mut(&me).unwrap() += 100;
            inner
        })
        .unwrap();
    assert_eq!(inner, Ok(()));
    let value = node.inspect(&mut ctx, |ctx, me| *ctx.get(&me).unwrap());
    assert_eq!(value, Ok(111));
}

#[test]
fn suspending_on_empty_stack_is_refused() {
    let mut ctx = Context::new();
    let node = Node::new(&mut ctx, ());
    let mut kept = None;
    node.emit(&mut ctx, |_, me| kept = Some(me)).unwrap();
    let mut stale = kept.unwrap();
    assert_eq!(
        stale.suspend(&mut ctx, |_| {}),
        Err(AccessError::NotInContext)
    );
}

#[test]
fn suspend_not_top_is_refused() {
    let mut ctx = Context::new();
    let x = Node::new(&mut ctx, ());
    let y = Node::new(&mut ctx, ());
    let inner = x
        .emit(&mut ctx, |ctx, mut x1| {
            y.emit(ctx, |ctx, _| x1.suspend(ctx, |_| {})).unwrap()
        })
        .unwrap();
    assert_eq!(inner, Err(AccessError::UnexpectedItem));
    assert_eq!(ctx.access(x.index()), Some(Access::Free));
    assert_eq!(ctx.access(y.index()), Some(Access::Free));
}

#[test]
fn shared_holds_overlap_and_keep_exclusive_ones_out() {
    let mut ctx = Context::new();
    let node = Node::new(&mut ctx, 7);
    let inner = node
        .inspect(&mut ctx, |ctx, first| {
            assert_eq!(ctx.access(node.index()), Some(Access::Shared(1)));
            let sum = node
                .inspect(ctx, |ctx, second| {
                    assert_eq!(ctx.access(node.index()), Some(Access::Shared(2)));
                    *ctx.get(&first).unwrap() + *ctx.get(&second).unwrap()
                })
                .unwrap();
            assert_eq!(
                ctx.get_mut(&first).err(),
                Some(AccessError::AlreadyBorrowed)
            );
            (sum, node.emit(ctx, |_, _| {}))
        })
        .unwrap();
    assert_eq!(inner, (14, Err(AccessError::AlreadyBorrowed)));
    assert_eq!(ctx.access(node.index()), Some(Access::Free));
}

#[test]
fn node_of_another_context_is_unexpected() {
    let mut one = Context::new();
    let mut other: Context<u8> = Context::new();
    let node = Node::new(&mut one, 1u8);
    assert_eq!(
        node.emit(&mut other, |_, _| {}),
        Err(AccessError::UnexpectedItem)
    );
    assert!(Node::ptr_eq(&node, &node.clone()));
    let second = Node::new(&mut one, 2u8);
    assert!(!Node::ptr_eq(&node, &second));
}

#[test]
fn indentation_counts_dispatches_and_emitting_containers() {
    let mut ctx = Context::new();
    let node = Node::new(&mut ctx, ());
    assert_eq!(ctx.indentation(), 0);
    Trace::indent(&mut ctx);
    assert_eq!(ctx.indentation(), 1);
    node.emit(&mut ctx, |ctx, _| assert_eq!(ctx.indentation(), 2))
        .unwrap();
    Trace::dedent(&mut ctx);
    Trace::dedent(&mut ctx);
    assert_eq!(ctx.indentation(), usize::MAX);
    Trace::indent(&mut ctx);
    assert_eq!(ctx.indentation(), 0);
}

#[test]
fn access_states_are_taken_and_given_back() {
    let mut state = Access::Free;
    assert!(!revent::context::is_borrowed(&state));
    revent::context::borrow_mut(&mut state);
    assert_eq!(state, Access::Exclusive);
    assert!(revent::context::is_borrowed(&state));
    revent::context::unborrow_mut(&mut state);
    assert_eq!(state, Access::Free);
    revent::context::borrow(&mut state);
    revent::context::borrow(&mut state);
    assert_eq!(state, Access::Shared(2));
    revent::context::unborrow(&mut state);
    assert_eq!(state, Access::Shared(1));
    revent::context::unborrow(&mut state);
    assert_eq!(state, Access::Free);
}
