//! The web interface.

use led_remote::serve::{
    counter_advanced, press_button, press_raw, route, transmitted, Reply, Route, Step, Target, Verb,
};

#[test]
fn page_is_found() {
    assert!(matches!(route(Verb::Get, "/"), Route::Index));
    assert!(matches!(route(Verb::Get, "/index.html"), Route::Index));
    assert!(matches!(route(Verb::Post, "/"), Route::NotFound));
    assert!(matches!(route(Verb::Other, "/"), Route::NotFound));
    assert!(matches!(route(Verb::Get, ""), Route::NotFound));
    assert!(matches!(route(Verb::Get, "/index.htm"), Route::NotFound));
    assert!(matches!(route(Verb::Get, "/press/turn_on"), Route::NotFound));
}

#[test]
fn presses_are_found() {
    match route(Verb::Post, "/press/turn_on") {
        Route::Press(name) => assert_eq!(name, "turn_on"),
        other => panic!("{other:?}"),
    }
    match route(Verb::Post, "/raw/0x0C") {
        Route::Raw(byte) => assert_eq!(byte, "0x0C"),
        other => panic!("{other:?}"),
    }
}

#[test]
fn other_paths_are_not_found() {
    for url in [
        "", "/", "/press", "/press/", "/press/a/b", "/press//", "/raw", "/raw/", "/raw/1/", "/Press/a",
        "press/turn_on", "/other/turn_on",
    ] {
        assert!(matches!(route(Verb::Post, url), Route::NotFound), "{url}");
        assert!(matches!(route(Verb::Other, url), Route::NotFound), "{url}");
    }
}

#[test]
fn press_goes_through_its_steps() {
    let target = match press_button("brightness_50") {
        Step::AdvanceCounter(target) => target,
        other => panic!("{other:?}"),
    };
    assert_eq!(target.label, "brightness_50");
    assert_eq!(target.cmd, 0x0D);
    let (target, counter) = match counter_advanced(target, Ok(7)) {
        Step::Transmit(target, counter) => (target, counter),
        other => panic!("{other:?}"),
    };
    assert_eq!(counter, 7);
    let reply = transmitted(target, counter, Ok(123_456));
    assert_eq!(reply.status(), 200);
    assert_eq!(reply.error(), None);
    assert_eq!(
        reply.body(),
        "{\"button\":\"brightness_50\",\"counter\":7,\"ok\":true,\"samples\":123456}"
    );
}

#[test]
fn raw_press_begins() {
    match press_raw("0x7f") {
        Step::AdvanceCounter(target) => {
            assert_eq!(target.label, "raw");
            assert_eq!(target.cmd, 0x7F);
        },
        other => panic!("{other:?}"),
    }
    match press_raw("12") {
        Step::AdvanceCounter(target) => assert_eq!(target.cmd, 12),
        other => panic!("{other:?}"),
    }
}

#[test]
fn unknown_buttons_are_refused() {
    let reply = match press_button("blink") {
        Step::Answer(reply) => reply,
        other => panic!("{other:?}"),
    };
    assert!(matches!(reply, Reply::BadTarget(_)));
    assert_eq!(reply.status(), 400);
    let error = reply.error().unwrap();
    assert!(error.starts_with("unknown button 'blink' — expected one of: turn_on, "));
    assert_eq!(reply.body(), format!("{{\"error\":\"{error}\",\"ok\":false}}"));
}

#[test]
fn unknown_bytes_are_refused() {
    let reply = match press_raw("0x100") {
        Step::Answer(reply) => reply,
        other => panic!("{other:?}"),
    };
    assert_eq!(reply.status(), 400);
    assert_eq!(
        reply.error().unwrap(),
        "invalid hex byte '0x100': number too large to fit in target type"
    );
}

#[test]
fn failed_counters_are_told() {
    let target = Target { label: "pair".to_string(), cmd: 0x20 };
    let reply = match counter_advanced(target, Err("disk \"full\"".to_string())) {
        Step::Answer(reply) => reply,
        other => panic!("{other:?}"),
    };
    assert!(matches!(reply, Reply::CounterFailed(_)));
    assert_eq!(reply.status(), 500);
    assert_eq!(reply.error().unwrap(), "counter: disk \"full\"");
    assert_eq!(reply.body(), "{\"error\":\"counter: disk \\\"full\\\"\",\"ok\":false}");
}

#[test]
fn failed_transmissions_are_told() {
    let target = Target { label: "pair".to_string(), cmd: 0x20 };
    let reply = transmitted(target, 3, Err("no device".to_string()));
    assert!(matches!(reply, Reply::TransmitFailed(_)));
    assert_eq!(reply.status(), 500);
    assert_eq!(reply.error().unwrap(), "no device");
    assert_eq!(reply.body(), "{\"error\":\"no device\",\"ok\":false}");
}
