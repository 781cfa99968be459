use std::cell::RefCell;

use treap::logger::format_record;
use treap::logger::LogLevel;
use treap::logger::Logger;

struct Recorder {
    lines: RefCell<Vec<String>>,
}

impl Logger for Recorder {
    fn log(&self, level: LogLevel, message: &str) {
        self.lines.borrow_mut().push(format!("{}|{}", level.level_str(), message));
    }
}

#[test]
fn each_method_logs_at_its_level() {
    let recorder = Recorder { lines: RefCell::new(Vec::new()) };
    recorder.trace("a");
    recorder.debug("b");
    recorder.info("c");
    recorder.warn("d");
    recorder.error("e");
    assert_eq!(*recorder.lines.borrow(), vec!["TRACE|a", "DEBUG|b", "INFO |c", "WARN |d", "ERROR|e"]);
}

#[test]
fn levels_have_their_colours() {
    assert_eq!(LogLevel::Trace.color_code(), "\x1b[94m");
    assert_eq!(LogLevel::Debug.color_code(), "\x1b[36m");
    assert_eq!(LogLevel::Info.color_code(), "\x1b[32m");
    assert_eq!(LogLevel::Warn.color_code(), "\x1b[33m");
    assert_eq!(LogLevel::Error.color_code(), "\x1b[31m");
}

#[test]
fn a_record_is_one_coloured_line() {
    assert_eq!(
        format_record(LogLevel::Info, 1700000000, "started"),
        "\x1b[32mINFO  [1700000000] started\x1b[0m"
    );
    assert_eq!(format_record(LogLevel::Error, 0, ""), "\x1b[31mERROR [0] \x1b[0m");
    assert_eq!(
        format_record(LogLevel::Trace, u64::MAX, "x y"),
        "\x1b[94mTRACE [18446744073709551615] x y\x1b[0m"
    );
}
