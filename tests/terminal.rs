use term_bridge::terminal::{shell_program, Terminal, TerminalError};

#[test]
fn send_before_init_fails() {
    let terminal = Terminal::new();
    assert!(!terminal.started());
    assert_eq!(terminal.send_input("echo hi\n".to_string()), Err(TerminalError::NotStarted));
}

#[test]
fn send_after_init_reaches_input_relay_unchanged() {
    let mut terminal = Terminal::new();
    let ends = terminal.init();
    assert!(terminal.started());
    assert_eq!(terminal.send_input("echo hi\n".to_string()), Ok(()));
    assert_eq!(terminal.send_input("ls\r\n".to_string()), Ok(()));
    assert_eq!(ends.input.recv().unwrap(), "echo hi\n");
    assert_eq!(ends.input.recv().unwrap(), "ls\r\n");
}

#[test]
fn send_after_input_relay_ended_is_closed() {
    let mut terminal = Terminal::new();
    let ends = terminal.init();
    drop(ends);
    assert_eq!(terminal.send_input("exit\n".to_string()), Err(TerminalError::Closed));
}

#[test]
fn init_again_replaces_the_queues() {
    let mut terminal = Terminal::new();
    let first = terminal.init();
    let second = terminal.init();
    assert_eq!(terminal.send_input("pwd\n".to_string()), Ok(()));
    assert!(first.input.try_recv().is_err());
    assert_eq!(second.input.recv().unwrap(), "pwd\n");
}

#[test]
fn error_messages() {
    assert_eq!(TerminalError::NotStarted.message(), "terminal session is not started");
    assert_eq!(TerminalError::Closed.message(), "terminal input is closed");
}

#[test]
fn shell_per_platform() {
    assert_eq!(shell_program(true), "powershell.exe");
    assert_eq!(shell_program(false), "bash");
}
