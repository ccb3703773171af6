use solflow::microphone::{pick_device, stream_reusable, Pick};

#[test]
fn the_named_microphone_or_the_default() {
    let names = vec!["MacBook".to_string(), "USB".to_string(), "USB".to_string()];
    assert_eq!(pick_device(&names, Some("USB")), Pick::Named(1));
    assert_eq!(pick_device(&names, Some("Gone")), Pick::Default);
    assert_eq!(pick_device(&names, None), Pick::Default);
}

#[test]
fn a_ready_stream_is_reused_only_when_nothing_changed() {
    assert!(stream_reusable(false, false, None, None, "MacBook", "MacBook"));
    assert!(!stream_reusable(false, false, None, None, "MacBook", "AirPods"));
    assert!(stream_reusable(false, false, Some("USB"), Some("USB"), "USB", "MacBook"));
    assert!(!stream_reusable(false, false, Some("USB"), None, "USB", "USB"));
    assert!(!stream_reusable(true, false, None, None, "MacBook", "MacBook"));
    assert!(!stream_reusable(false, true, None, None, "MacBook", "MacBook"));
}
