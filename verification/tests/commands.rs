use soundforge::commands::{frontend_level, frontend_line, ping, LogLevel};

#[test]
fn ping_replies_pong() {
    assert_eq!(ping("hello".to_string()), "pong: hello");
}

#[test]
fn frontend_log_accepts_all_levels() {
    // Unknown levels fall back to info.
    let want = [
        ("error", LogLevel::Error),
        ("warn", LogLevel::Warn),
        ("info", LogLevel::Info),
        ("debug", LogLevel::Debug),
        ("trace", LogLevel::Trace),
        ("weird", LogLevel::Info),
    ];
    for (name, level) in want {
        assert_eq!(frontend_level(&name.to_string()), level, "{name}");
    }
    assert_eq!(frontend_line("smoke"), "[ui] smoke");
}
