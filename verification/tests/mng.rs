use revent::graph::Grapher;
use revent::mng::{ChannelType, Manager, SubscribeError};

#[test]
fn two_handlers_that_call_each_other_are_refused() {
    let mut mng = Manager::new();
    mng.ensure_new("a", ChannelType::Direct).unwrap();
    mng.ensure_new("b", ChannelType::Direct).unwrap();

    assert_eq!(Ok(()), mng.subscribe("X", &["a"], &["b"]));
    assert_eq!(
        Err(SubscribeError::RecursionDetected {
            chain: vec!["a", "b"],
            handlers: vec![vec!["X"], vec!["Y"]],
        }),
        mng.subscribe("Y", &["b"], &["a"])
    );
    // The refused subscription left nothing behind: the same wiring the
    // other way round is still free of cycles.
    assert_eq!(Ok(()), mng.subscribe("Z", &["a"], &["b"]));
}

#[test]
fn duplicate_channel_name_is_refused() {
    let mut mng = Manager::new();
    assert_eq!(Ok(()), mng.ensure_new("signal", ChannelType::Direct));
    assert_eq!(
        Err(SubscribeError::DuplicateChannelName),
        mng.ensure_new("signal", ChannelType::Direct)
    );
}

#[test]
fn duplicate_declaration_is_refused() {
    let mut mng = Manager::new();
    mng.ensure_new("a", ChannelType::Direct).unwrap();
    mng.prepare_construction("X");
    assert_eq!(Ok(()), mng.register_listen("a"));
    assert_eq!(Ok(()), mng.register_emit("a"));
    assert_eq!(
        Err(SubscribeError::DuplicateDeclaration),
        mng.register_listen("a")
    );
    assert_eq!(
        Err(SubscribeError::DuplicateDeclaration),
        mng.register_emit("a")
    );
}

#[test]
fn feed_channels_close_no_cycle() {
    let mut mng = Manager::new();
    mng.ensure_new("a", ChannelType::Direct).unwrap();
    mng.ensure_new("b", ChannelType::Feed).unwrap();
    assert_eq!(Ok(()), mng.subscribe("A", &["b"], &["a"]));
    assert_eq!(Ok(()), mng.subscribe("B", &["a"], &["b"]));
}

#[test]
fn simple_case() {
    let mut mng = Manager::new();
    mng.ensure_new("b", ChannelType::Direct).unwrap();
    mng.ensure_new("c", ChannelType::Direct).unwrap();

    mng.prepare_construction("A");
    mng.register_emit("b").unwrap();
    mng.finish_construction().unwrap();

    mng.prepare_construction("B");
    mng.register_listen("b").unwrap();
    mng.register_emit("c").unwrap();
    mng.finish_construction().unwrap();

    mng.prepare_construction("C");
    mng.register_listen("b").unwrap();
    mng.register_emit("c").unwrap();
    mng.finish_construction().unwrap();

    let grapher = Grapher::new(&mng);
    assert_eq!(
        format!("{}", grapher.to_string()),
        "strict digraph {\n\t\"A\" -> \"B\"[color=\"#3D9970\",fontcolor=\"#3D9970\",label=<<FONT POINT-SIZE=\"10\">b</FONT>>];\n\t\"A\" -> \"C\"[color=\"#85144B\",fontcolor=\"#85144B\",label=<<FONT POINT-SIZE=\"10\">b</FONT>>];\n\n}"
    );
}

#[test]
fn graph_feed_loop() {
    let mut mng = Manager::new();
    mng.ensure_new("a", ChannelType::Direct).unwrap();
    mng.ensure_new("b", ChannelType::Feed).unwrap();

    mng.prepare_construction("A");
    mng.register_emit("a").unwrap();
    mng.register_listen("b").unwrap();
    mng.finish_construction().unwrap();

    mng.prepare_construction("B");
    mng.register_listen("a").unwrap();
    mng.register_emit("b").unwrap();
    mng.finish_construction().unwrap();

    let grapher = Grapher::new(&mng);
    assert_eq!(
        format!("{}", grapher.to_string()),
        "strict digraph {\n\t\"B\" -> \"A\"[color=\"#3D9970\",fontcolor=\"#3D9970\",label=<<FONT POINT-SIZE=\"10\">b</FONT>>,style=\"dashed\"];\n\t\"A\" -> \"B\"[color=\"#85144B\",fontcolor=\"#85144B\",label=<<FONT POINT-SIZE=\"10\">a</FONT>>];\n\n}"
    );
}

#[test]
fn include_anchor_if_signals_unaccounted() {
    let mut mng = Manager::new();
    mng.ensure_new("a", ChannelType::Direct).unwrap();

    mng.prepare_construction("A");
    mng.register_listen("a").unwrap();
    mng.finish_construction().unwrap();

    let grapher = Grapher::new(&mng);
    assert_eq!(
        format!("{}", grapher.to_string()),
        "strict digraph {\n\t\"Anchor#0\"[style=\"invis\"];\t\"Anchor#0\" -> \"A\"[arrowhead=\"diamond\",color=\"#3D9970\",fontcolor=\"#3D9970\",label=<<FONT POINT-SIZE=\"10\">a</FONT>>];\n\n}"
    );
}

#[test]
fn anchors_skip_the_names_of_handlers_and_count_on_by_two() {
    let mut mng = Manager::new();
    mng.ensure_new("a", ChannelType::Direct).unwrap();
    mng.ensure_new("b", ChannelType::Direct).unwrap();
    mng.subscribe("Anchor#0", &["a"], &[]).unwrap();
    mng.subscribe("Z", &["b", "a"], &[]).unwrap();

    let text = Grapher::new(&mng).to_string();
    assert_eq!(
        text,
        "strict digraph {\n\t\"Anchor#1\"[style=\"invis\"];\t\"Anchor#1\" -> \"Anchor#0\"[arrowhead=\"diamond\",color=\"#3D9970\",fontcolor=\"#3D9970\",label=<<FONT POINT-SIZE=\"10\">a</FONT>>];\n\t\"Anchor#3\"[style=\"invis\"];\t\"Anchor#3\" -> \"Z\"[arrowhead=\"diamond\",color=\"#85144B\",fontcolor=\"#85144B\",label=<<FONT POINT-SIZE=\"10\">a<BR/>b</FONT>>];\n\n}"
    );
}

#[test]
fn recursion_is_reported_with_the_handlers_of_each_hop() {
    let mut mng = Manager::new();
    mng.ensure_new("a", ChannelType::Direct).unwrap();
    mng.ensure_new("b", ChannelType::Direct).unwrap();
    mng.subscribe("X", &["a"], &["b"]).unwrap();
    mng.subscribe("W", &["a"], &["b"]).unwrap();
    let refused = mng.subscribe("Y", &["b"], &["a"]).unwrap_err();
    assert_eq!(
        refused.message(),
        "revent: found a recursion during subscription: [W, X]a -> [Y]b -> a"
    );
    assert_eq!(mng.current_frames(), 0);
}

#[test]
fn longer_cycle_is_found_from_the_lowest_channel() {
    let mut mng = Manager::new();
    for name in ["d", "c", "b", "a"] {
        mng.ensure_new(name, ChannelType::Direct).unwrap();
    }
    mng.subscribe("H1", &["c"], &["d"]).unwrap();
    mng.subscribe("H2", &["d"], &["b"]).unwrap();
    mng.subscribe("H0", &["a"], &["b"]).unwrap();
    assert_eq!(
        mng.subscribe("H3", &["b"], &["c"]),
        Err(SubscribeError::RecursionDetected {
            chain: vec!["b", "c", "d"],
            handlers: vec![vec!["H3"], vec!["H1"], vec!["H2"]],
        })
    );
    assert_eq!(mng.subscribe("H4", &["b"], &["b"]).unwrap_err().message(),
        "revent: found a recursion during subscription: [H4]b -> b");
    assert_eq!(
        mng.ensure_new("a", ChannelType::Feed).unwrap_err().message(),
        "revent: name is already registered to this manager"
    );
}
