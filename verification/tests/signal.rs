use revent::context::{AccessError, Context};
use revent::mng::{Manager, SubscribeError};
use revent::node::Node;
use revent::signal::Signal;
use revent::single::{Mode, Single};

#[test]
fn double_subscription_is_refused() {
    let mut mng = Manager::new();

    assert!(Single::new("signal", &mut mng).is_ok());
    assert_eq!(
        Single::new("signal", &mut mng).err(),
        Some(SubscribeError::DuplicateChannelName)
    );
}

#[test]
fn emit_on_empty_single_is_an_error() {
    let mut mng = Manager::new();
    let mut ctx: Context<()> = Context::new();
    let mut signal_a = Single::new("signal_a", &mut mng).unwrap();
    assert_eq!(
        signal_a.emit(&mut ctx, |_, _| {}),
        Err(AccessError::EmptyRequiredSlot)
    );
}

#[test]
fn single_holds_the_node_that_registered_until_it_leaves() {
    let mut mng = Manager::new();
    let mut ctx = Context::new();
    let mut single = Single::new("signal_a", &mut mng).unwrap();
    let node = Node::new(&mut ctx, 5);

    mng.prepare_construction("MyNode");
    assert_eq!(single.register(&mut mng, Mode::Adding, node), Ok(()));
    assert_eq!(single.activate(&mut mng), Ok(()));
    assert_eq!(mng.finish_construction().unwrap_err().message(),
        "revent: found a recursion during subscription: [MyNode]signal_a -> signal_a");

    let seen = single.emit(&mut ctx, |ctx, me| *ctx.get(&me).unwrap());
    assert_eq!(seen, Ok(5));

    assert_eq!(single.register(&mut mng, Mode::Removing, node), Ok(()));
    assert_eq!(
        single.emit(&mut ctx, |_, _| {}),
        Err(AccessError::EmptyRequiredSlot)
    );
}

fn filled(mng: &mut Manager, ctx: &mut Context<i32>, values: &[i32]) -> Signal {
    let mut signal = Signal::new("numbers", mng).unwrap();
    for (i, value) in values.iter().enumerate() {
        let names = ["h0", "h1", "h2", "h3", "h4", "h5", "h6", "h7"];
        mng.prepare_construction(names[i]);
        let node = Node::new(ctx, *value);
        signal.insert(mng, node).unwrap();
        mng.finish_construction().unwrap();
    }
    signal
}

fn values_of(signal: &mut Signal, ctx: &mut Context<i32>) -> Vec<i32> {
    let mut seen = Vec::new();
    signal
        .emit(ctx, |ctx, x| seen.push(*ctx.get(&x).unwrap()))
        .unwrap();
    seen
}

#[test]
fn signal_calls_in_the_order_of_subscription() {
    let mut mng = Manager::new();
    let mut ctx = Context::new();
    let mut signal = filled(&mut mng, &mut ctx, &[3, 1, 2]);
    assert_eq!(values_of(&mut signal, &mut ctx), vec![3, 1, 2]);

    mng.prepare_construction("emitter");
    assert_eq!(signal.internal_clone(&mut mng), Ok(()));
    assert_eq!(
        signal.internal_clone(&mut mng),
        Err(SubscribeError::DuplicateDeclaration)
    );
    mng.finish_construction().unwrap();
}

#[test]
fn signal_remove_keeps_the_order_of_the_others() {
    let mut mng = Manager::new();
    let mut ctx = Context::new();
    let mut signal = filled(&mut mng, &mut ctx, &[5, 2, 8, 4, 7, 6]);
    signal
        .remove(&mut ctx, |ctx, x| *ctx.get(&x).unwrap() % 2 == 0)
        .unwrap();
    assert_eq!(values_of(&mut signal, &mut ctx), vec![5, 7]);
}

#[test]
fn sort_by_orders_and_keeps_equal_ones_in_place() {
    let mut mng = Manager::new();
    let mut ctx = Context::new();
    let mut signal = filled(&mut mng, &mut ctx, &[31, 12, 22, 11, 32, 21]);
    signal
        .sort_by(&ctx, |a: &i32, b: &i32| (a / 10).cmp(&(b / 10)))
        .unwrap();
    assert_eq!(
        values_of(&mut signal, &mut ctx),
        vec![12, 11, 22, 21, 31, 32]
    );
    signal.sort_by(&ctx, |a: &i32, b: &i32| b.cmp(a)).unwrap();
    assert_eq!(
        values_of(&mut signal, &mut ctx),
        vec![32, 31, 22, 21, 12, 11]
    );
}

#[test]
fn sort_by_is_refused_while_a_subscriber_is_held() {
    let mut mng = Manager::new();
    let mut ctx = Context::new();
    let mut signal = filled(&mut mng, &mut ctx, &[2, 1]);
    let first = Node::new(&mut ctx, 0);
    let mut inner = None;
    let mut held = Signal::new("held", &mut mng).unwrap();
    mng.prepare_construction("x");
    held.insert(&mut mng, first).unwrap();
    mng.finish_construction().unwrap();
    let mut both = Signal::new("both", &mut mng).unwrap();
    mng.prepare_construction("y");
    both.insert(&mut mng, first).unwrap();
    mng.finish_construction().unwrap();
    held.emit(&mut ctx, |ctx, _| {
        inner = Some(both.sort_by(ctx, |a: &i32, b: &i32| a.cmp(b)));
    })
    .unwrap();
    assert_eq!(inner, Some(Err(AccessError::AlreadyBorrowed)));
    signal.sort_by(&ctx, |a: &i32, b: &i32| a.cmp(b)).unwrap();
    assert_eq!(values_of(&mut signal, &mut ctx), vec![1, 2]);
}
