use conv_core::bindings::{known_formats, parse_format, CancelToken};
use conv_core::{NoopProgress, ProgressSink};

#[test]
fn every_known_format_round_trips_through_its_id() {
    for format in known_formats() {
        assert_eq!(parse_format(format.id()), Some(format));
    }
}

#[test]
fn unknown_id_parses_to_none() {
    assert_eq!(parse_format("not-a-real-format"), None);
}

#[test]
fn cancel_token_reflects_cancellation() {
    let token = CancelToken::new();
    assert!(!token.is_cancelled());
    token.cancel();
    assert!(token.is_cancelled());
}

#[test]
fn a_cloned_cancel_token_shares_the_flag() {
    let token = CancelToken::new();
    let other = token.clone();
    other.cancel();
    assert!(token.is_cancelled());
}

#[test]
fn the_flag_handed_out_is_the_one_cancel_sets() {
    let token = CancelToken::new();
    let flag = token.flag();
    assert!(!flag.load(std::sync::atomic::Ordering::Relaxed));
    token.cancel();
    assert!(flag.load(std::sync::atomic::Ordering::Relaxed));
}

#[test]
fn the_default_sink_never_asks_to_stop() {
    let sink = NoopProgress;
    sink.on_progress(1, 2);
    assert!(!sink.is_cancelled());
}
