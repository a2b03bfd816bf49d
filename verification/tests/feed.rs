use revent::feed::Feed;
use revent::mng::{ChannelType, Manager, SubscribeError};
use revent::queue::Receiver;

#[test]
fn feed_double_receiver_is_refused() {
    let mut mng = Manager::new();

    assert!(Feed::<()>::new("feed", &mut mng, 1).is_ok());
    assert_eq!(
        Feed::<()>::new("feed", &mut mng, 1).err(),
        Some(SubscribeError::DuplicateChannelName)
    );
}

#[test]
fn queue_double_receiver_is_refused() {
    let mut mng = Manager::new();

    assert!(Receiver::<()>::new("receiver", &mut mng).is_ok());
    assert_eq!(
        Receiver::<()>::new("receiver", &mut mng).err(),
        Some(SubscribeError::DuplicateChannelName)
    );
}

#[test]
fn every_enabled_feedee_gets_each_item_in_order() {
    let mut mng = Manager::new();
    let mut feed = Feed::<usize>::new("feedback", &mut mng, 3).unwrap();

    mng.prepare_construction("A");
    let mut a = feed.feedee(&mut mng).unwrap();
    assert_eq!(
        feed.feedee(&mut mng).err(),
        Some(SubscribeError::DuplicateDeclaration)
    );
    mng.finish_construction().unwrap();

    mng.prepare_construction("B");
    let mut b = feed.feedee(&mut mng).unwrap();
    mng.finish_construction().unwrap();

    mng.prepare_construction("C");
    let feeder = feed.feeder(&mut mng).unwrap();
    assert_eq!(
        feed.feeder(&mut mng).err(),
        Some(SubscribeError::DuplicateDeclaration)
    );
    mng.finish_construction().unwrap();

    feeder.feed(&mut feed, 123);
    feeder.feed(&mut feed, 456);

    assert_eq!(a.pop(&mut feed), Some(123));
    assert_eq!(b.pop(&mut feed), Some(123));
    assert_eq!(b.pop(&mut feed), Some(456));
    assert_eq!(b.pop(&mut feed), None);

    assert!(b.disable(&mut feed));
    assert!(!b.disable(&mut feed));
    feeder.feed(&mut feed, 789);
    assert_eq!(b.pop(&mut feed), None);
    assert_eq!(a.pop(&mut feed), Some(456));
    assert_eq!(a.pop(&mut feed), Some(789));
    assert_eq!(a.pop(&mut feed), None);

    assert!(b.enable(&mut feed));
    assert!(!b.enable(&mut feed));
    assert!(!a.enable(&mut feed));
    feeder.feed(&mut feed, 1);
    assert_eq!(a.pop(&mut feed), Some(1));
    assert_eq!(b.pop(&mut feed), Some(1));
}

#[test]
fn a_feed_between_two_handlers_closes_no_cycle() {
    let mut mng = Manager::new();
    mng.ensure_new("calls", ChannelType::Direct).unwrap();
    let mut feed = Feed::<u8>::new("answers", &mut mng, 1).unwrap();

    mng.prepare_construction("Asker");
    mng.register_emit("calls").unwrap();
    let _answers = feed.feedee(&mut mng).unwrap();
    assert_eq!(mng.finish_construction(), Ok(()));

    mng.prepare_construction("Answerer");
    mng.register_listen("calls").unwrap();
    let _feeder = feed.feeder(&mut mng).unwrap();
    assert_eq!(mng.finish_construction(), Ok(()));
}

#[test]
fn receiver_hands_out_what_was_pushed_in_order() {
    let mut mng = Manager::new();
    let mut receiver = Receiver::<u32>::new("receiver", &mut mng).unwrap();
    mng.prepare_construction("S");
    let mut sender = receiver.sender(&mng);
    mng.finish_construction().unwrap();

    sender.push(&mut receiver, 1);
    sender.push(&mut receiver, 2);
    let got = receiver.exchange(vec![9]);
    assert_eq!(got, vec![1, 2]);
    sender.push(&mut receiver, 3);
    assert_eq!(receiver.exchange(Vec::new()), vec![9, 3]);
}
