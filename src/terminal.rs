//! The session side of the shell bridge: which channel ends a session holds,
//! and what sending input to it does. Spawning the shell and running the relay
//! threads is left to the host program, which is handed the other ends.
use vstd::prelude::*;
use std::sync::mpsc::{Receiver, Sender};

verus! {

#[verifier::external_type_specification]
#[verifier::external_body]
#[verifier::reject_recursive_types(T)]
pub struct ExSender<T>(Sender<T>);

#[verifier::external_type_specification]
#[verifier::external_body]
#[verifier::reject_recursive_types(T)]
pub struct ExReceiver<T>(Receiver<T>);

/// Relies on `std::sync::mpsc::channel`: a fresh pair of connected ends.
#[verifier::external_body]
fn open_channel() -> (Sender<String>, Receiver<String>) {
    std::sync::mpsc::channel()
}

/// Relies on `Sender::send`: queues the text for the receiving end; `false`
/// when that end has been dropped.
#[verifier::external_body]
fn send_text(tx: &Sender<String>, text: String) -> bool {
    tx.send(text).is_ok()
}

/// Why input could not be handed to the shell.
#[derive(PartialEq, Eq, Structural, Clone, Copy, Debug)]
pub enum TerminalError {
    /// No session has been started.
    NotStarted,
    /// The session's input relay has ended, so nothing reads its queue.
    Closed,
}

impl TerminalError {
    pub open spec fn message_spec(&self) -> Seq<char> {
        match self {
            TerminalError::NotStarted => "terminal session is not started"@,
            TerminalError::Closed => "terminal input is closed"@,
        }
    }

    /// A human-readable description of the error.
    pub fn message(&self) -> (r: String)
        ensures
            r@ == self.message_spec(),
    {
        match self {
            TerminalError::NotStarted => {
                proof {
                    reveal_strlit("terminal session is not started");
                }
                "terminal session is not started".to_owned()
            },
            TerminalError::Closed => {
                proof {
                    reveal_strlit("terminal input is closed");
                }
                "terminal input is closed".to_owned()
            },
        }
    }
}

/// The ends of the two queues that the relay threads of a started session
/// work on: the input relay drains `input`, the output relays fill `output`.
pub struct RelayEnds {
    pub input: Receiver<String>,
    pub output: Sender<String>,
}

/// One shell session: the end that queues input for the shell and the end
/// that receives the shell's output lines. Both are absent until the session
/// is started and both are present afterwards.
pub struct Terminal {
    input_tx: Option<Sender<String>>,
    output_rx: Option<Receiver<String>>,
}

impl Terminal {
    pub closed spec fn wf(&self) -> bool {
        self.input_tx is Some <==> self.output_rx is Some
    }

    pub closed spec fn is_started(&self) -> bool {
        self.input_tx is Some
    }

    /// A session that has not been started.
    pub fn new() -> (r: Terminal)
        ensures
            r.wf(),
            !r.is_started(),
    {
        Terminal { input_tx: None, output_rx: None }
    }

    /// Whether the session has been started.
    pub fn started(&self) -> (r: bool)
        ensures
            r == self.is_started(),
    {
        self.input_tx.is_some()
    }

    /// Starts the session: opens its input and output queues, keeps one end of
    /// each, and returns the other ends for the relay threads. Starting again
    /// replaces the ends held before.
    pub fn init(&mut self) -> (r: RelayEnds)
        ensures
            final(self).wf(),
            final(self).is_started(),
    {
        let (input_tx, input_rx) = open_channel();
        let (output_tx, output_rx) = open_channel();
        self.input_tx = Some(input_tx);
        self.output_rx = Some(output_rx);
        RelayEnds { input: input_rx, output: output_tx }
    }

    /// Queues `input` for the shell's standard input, unchanged. Fails with
    /// `NotStarted` exactly when the session was never started; otherwise
    /// succeeds unless the input relay has ended, which gives `Closed`.
    pub fn send_input(&self, input: String) -> (r: Result<(), TerminalError>)
        ensures
            !self.is_started() <==> r == Err::<(), TerminalError>(TerminalError::NotStarted),
            self.is_started() ==> (r is Ok || r == Err::<(), TerminalError>(TerminalError::Closed)),
    {
        match &self.input_tx {
            Some(tx) => {
                if send_text(tx, input) {
                    Ok(())
                } else {
                    Err(TerminalError::Closed)
                }
            },
            None => Err(TerminalError::NotStarted),
        }
    }
}

pub open spec fn shell_for(windows: bool) -> Seq<char> {
    if windows {
        "powershell.exe"@
    } else {
        "bash"@
    }
}

/// The interactive shell to run: PowerShell on a Windows host, bash elsewhere.
pub fn shell_program(windows: bool) -> (r: String)
    ensures
        r@ == shell_for(windows),
{
    if windows {
        proof {
            reveal_strlit("powershell.exe");
        }
        "powershell.exe".to_owned()
    } else {
        proof {
            reveal_strlit("bash");
        }
        "bash".to_owned()
    }
}

} // verus!
