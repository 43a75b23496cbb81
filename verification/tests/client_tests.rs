use chat_relay::client::{next_recv_step, next_send_action, RecvEvent, RecvStep, SendAction};
use chat_relay::frame::frame_line;

#[test]
fn blank_input_reprompts_without_writing() {
    assert!(matches!(next_send_action(false, ""), SendAction::Reprompt));
    assert!(matches!(next_send_action(false, "   "), SendAction::Reprompt));
    assert!(matches!(next_send_action(false, " \t "), SendAction::Reprompt));
}

#[test]
fn nonblank_input_goes_out_framed() {
    match next_send_action(false, "hello there") {
        SendAction::Transmit { wire } => assert_eq!(wire, "hello there\n"),
        _ => panic!("a non-blank line must be written"),
    }
    // The line goes out untrimmed; only blankness is judged after trimming.
    match next_send_action(false, "  padded  ") {
        SendAction::Transmit { wire } => assert_eq!(wire, "  padded  \n"),
        _ => panic!("a non-blank line must be written"),
    }
}

#[test]
fn cancellation_signal_stops_the_send_path() {
    assert!(matches!(next_send_action(true, "still typing"), SendAction::Quit));
    assert!(matches!(next_send_action(true, ""), SendAction::Quit));
}

#[test]
fn receive_path_renders_lines_and_splits_stop_kinds() {
    match next_recv_step(RecvEvent::Line { text: String::from("[a]:hi") }) {
        RecvStep::Render { text } => assert_eq!(text, "[a]:hi"),
        _ => panic!("a received line must be rendered"),
    }
    assert!(matches!(next_recv_step(RecvEvent::TimedOut), RecvStep::StopQuiet));
    assert!(matches!(next_recv_step(RecvEvent::Failed), RecvStep::StopSignal));
}

#[test]
fn broadcast_frame_shape() {
    assert_eq!(frame_line("1.2.3.4:5", "hey"), "[1.2.3.4:5]:hey\n");
    assert_eq!(frame_line("", ""), "[]:\n");
}
