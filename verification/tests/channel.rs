use revent::channel::Channel;
use revent::context::{Access, AccessError, Context, Hold};
use revent::node::{Node, Suspend};
use std::{cell::RefCell, rc::Rc};

#[test]
fn removing_considers_order() {
    let mut ctx = Context::new();
    let mut channel = Channel::new();
    let node = Node::new(&mut ctx, ());
    channel.insert(0, node.clone());
    channel.remove(&node);

    channel.insert(1, Node::new(&mut ctx, ()));
}

#[test]
fn basic() {
    let mut ctx = Context::new();
    let mut channel = Channel::new();

    let node = Node::new(&mut ctx, 0);
    channel.insert(0, node.clone());
    channel.insert(1, Node::new(&mut ctx, 1));

    let mut number = 0;
    channel
        .emit(&mut ctx, |ctx, x| {
            assert_eq!(*ctx.get(&x).unwrap(), number);
            number += 1;
        })
        .unwrap();
    assert_eq!(number, 2);

    channel.remove(&node);

    let mut number = 1;
    channel
        .emit(&mut ctx, |ctx, x| {
            assert_eq!(*ctx.get(&x).unwrap(), number);
            number += 1;
        })
        .unwrap();
    assert_eq!(number, 2);
}

#[test]
fn haystack() {
    let mut ctx = Context::new();
    let mut channel = Channel::new();

    let node = Node::new(&mut ctx, 0);
    for _ in 0..10 {
        channel.insert(0, node.clone());
    }
    for _ in 0..10 {
        channel.insert(2, node.clone());
    }

    channel.insert(1, Node::new(&mut ctx, 1));

    channel.remove(&node);

    let mut count = 0;
    channel
        .emit(&mut ctx, |ctx, x| {
            assert_eq!(*ctx.get(&x).unwrap(), 1);
            count += 1;
        })
        .unwrap();
    assert_eq!(count, 1);
}

#[test]
fn channel_tracing() {
    let out = Rc::new(RefCell::new(None));

    let mut ctx = Context::new();
    let capture = out.clone();
    let mut channel = Channel::new_with_trace(move |indent| {
        assert!(matches!(*capture.borrow(), None));
        *capture.borrow_mut() = Some(indent);
    });

    let capture = out.clone();
    channel.insert(
        0,
        Node::new_with_trace(&mut ctx, (), move |indent| {
            assert!(matches!(*capture.borrow(), Some(0)));
            *capture.borrow_mut() = Some(indent);
        }),
    );

    channel.emit(&mut ctx, |_, _| {}).unwrap();

    assert!(matches!(*out.borrow(), Some(1)));
}

struct My {
    value: usize,
}

fn function(ctx: &mut Context<My>, mut me: Hold, channel: &Channel) {
    let my = ctx.get_mut(&me).unwrap();
    if my.value == 0 {
        return;
    }

    my.value -= 1;

    me.suspend(ctx, |ctx| {
        channel
            .emit(ctx, |ctx, item| {
                function(ctx, item, channel);
            })
            .unwrap();
    })
    .unwrap();
}

#[test]
fn recursion() {
    let mut ctx = Context::new();
    let mut channel = Channel::new();

    let node = Node::new(&mut ctx, My { value: 12 });
    channel.insert(0, node);

    channel
        .emit(&mut ctx, |ctx, x| {
            function(ctx, x, &channel);
        })
        .unwrap();

    let left = node.inspect(&mut ctx, |ctx, me| ctx.get(&me).unwrap().value);
    assert_eq!(left, Ok(0));
    assert_eq!(ctx.depth(), 0);
}

fn order_of(channel: &Channel) -> Vec<usize> {
    channel.members().iter().map(|n| n.index()).collect()
}

#[test]
fn equal_keys_append_when_not_negative_and_prepend_when_negative() {
    let mut ctx = Context::new();
    let nodes: Vec<Node> = (0..6).map(|i| Node::new(&mut ctx, i)).collect();

    let mut appended = Channel::new();
    for node in &nodes {
        appended.insert(3, *node);
    }
    assert_eq!(order_of(&appended), vec![0, 1, 2, 3, 4, 5]);

    let mut prepended = Channel::new();
    for node in &nodes {
        prepended.insert(-3, *node);
    }
    assert_eq!(order_of(&prepended), vec![5, 4, 3, 2, 1, 0]);

    let mut mixed = Channel::new();
    mixed.insert(0, nodes[0]);
    mixed.insert(-1, nodes[1]);
    mixed.insert(1, nodes[2]);
    mixed.insert(0, nodes[3]);
    mixed.insert(-1, nodes[4]);
    mixed.insert(isize::MIN, nodes[5]);
    assert_eq!(order_of(&mixed), vec![5, 4, 1, 0, 3, 2]);
}

#[test]
fn emit_visits_members_in_list_order() {
    let mut ctx = Context::new();
    let mut channel = Channel::new();
    for (key, value) in [(5, 'e'), (-2, 'b'), (0, 'c'), (-7, 'a'), (0, 'd')] {
        let node = Node::new(&mut ctx, value);
        channel.insert(key, node);
    }
    let mut seen = String::new();
    channel
        .emit(&mut ctx, |ctx, x| seen.push(*ctx.get(&x).unwrap()))
        .unwrap();
    assert_eq!(seen, "abcde");
}

#[test]
fn remove_if_keeps_the_order_of_the_others() {
    let mut ctx = Context::new();
    let mut channel = Channel::new();
    for value in 0..10 {
        let node = Node::new(&mut ctx, value);
        channel.insert(0, node);
    }
    channel
        .remove_if(&mut ctx, |ctx, x| *ctx.get(&x).unwrap() % 3 == 0)
        .unwrap();
    let mut seen = Vec::new();
    channel
        .emit(&mut ctx, |ctx, x| seen.push(*ctx.get(&x).unwrap()))
        .unwrap();
    assert_eq!(seen, vec![1, 2, 4, 5, 7, 8]);
}

#[test]
fn one_remove_takes_out_every_entry_of_the_node() {
    let mut ctx = Context::new();
    let mut channel = Channel::new();
    let node = Node::new(&mut ctx, ());
    channel.insert(4, node);
    channel.insert(4, node);
    channel.insert(4, node);
    assert_eq!(channel.members().len(), 3);

    channel.remove(&node);

    let mut calls = 0;
    channel.emit(&mut ctx, |_, _| calls += 1).unwrap();
    assert_eq!(calls, 0);
    assert!(channel.members().is_empty());
}

#[test]
fn held_node_is_refused_through_another_channel() {
    let mut ctx = Context::new();
    let mut one = Channel::new();
    let mut two = Channel::new();
    let node = Node::new(&mut ctx, 0);
    one.insert(0, node);
    two.insert(0, node);

    let mut inner = None;
    one.emit(&mut ctx, |ctx, _| {
        inner = Some(two.emit(ctx, |ctx, again| {
            *ctx.get_mut(&again).unwrap() += 1;
        }));
    })
    .unwrap();

    assert_eq!(inner, Some(Err(AccessError::AlreadyBorrowed)));
    assert_eq!(node.inspect(&mut ctx, |ctx, me| *ctx.get(&me).unwrap()), Ok(0));
}

#[test]
fn suspended_node_is_called_once_more_through_another_channel() {
    let mut ctx = Context::new();
    let mut one = Channel::new();
    let mut two = Channel::new();
    let node = Node::new(&mut ctx, 0);
    one.insert(0, node);
    two.insert(0, node);

    let mut inner_calls = 0;
    let mut inner = None;
    one.emit(&mut ctx, |ctx, mut me| {
        inner = Some(
            me.suspend(ctx, |ctx| {
                two.emit(ctx, |ctx, again| {
                    inner_calls += 1;
                    assert_eq!(ctx.access(node.index()), Some(Access::Exclusive));
                    *ctx.get_mut(&again).unwrap() += 1;
                })
            })
            .unwrap(),
        );
    })
    .unwrap();

    assert_eq!(inner, Some(Ok(())));
    assert_eq!(inner_calls, 1);
    assert_eq!(node.inspect(&mut ctx, |ctx, me| *ctx.get(&me).unwrap()), Ok(1));
}

#[test]
fn a_subscribed_handler_is_called_once_per_emit() {
    use_manager_and_channel();
}

fn use_manager_and_channel() {
    let mut mng = revent::Manager::new();
    mng.ensure_new("a", revent::ChannelType::Direct).unwrap();
    mng.ensure_new("b", revent::ChannelType::Direct).unwrap();
    let mut ctx = Context::new();
    let mut a = Channel::new();

    assert_eq!(mng.subscribe("X", &["a"], &["b"]), Ok(()));
    let x = Node::new(&mut ctx, 0);
    a.insert(0, x);

    let mut calls = 0;
    a.emit(&mut ctx, |ctx, me| {
        calls += 1;
        *ctx.get_mut(&me).unwrap() += 1;
    })
    .unwrap();
    assert_eq!(calls, 1);
    assert_eq!(x.inspect(&mut ctx, |ctx, me| *ctx.get(&me).unwrap()), Ok(1));
}
