//! Routing rules of the stream duplexer.
//!
//! An attached container's combined channel delivers tagged chunks. The
//! duplexer relays every chunk's bytes, unchanged and in arrival order,
//! to the process stream its tag names; input echoes never occur on an
//! output-only channel.

use vstd::prelude::*;

verus! {

/// One tagged chunk from a container's combined output channel.
#[derive(Debug)]
pub enum OutputChunk {
    /// Container stdout bytes.
    StdOut { message: Vec<u8> },
    /// Container stderr bytes.
    StdErr { message: Vec<u8> },
    /// An echo of container input; not sent on an output-only channel.
    StdIn { message: Vec<u8> },
    /// Console-mode output; belongs on stdout.
    Console { message: Vec<u8> },
}

/// Where one chunk's bytes belong.
#[derive(Debug, Clone, Copy, PartialEq, Eq, Structural)]
pub enum OutputSink {
    /// The process's own standard output.
    Stdout,
    /// The process's own standard error.
    Stderr,
}

/// The options the duplexer attaches with: always streaming, both output
/// channels on, input only when the session is interactive.
#[derive(Debug, Clone, Copy)]
pub struct AttachSettings {
    pub stream: bool,
    pub stdin: bool,
    pub stdout: bool,
    pub stderr: bool,
}

/// The attach options for a session: output always, input exactly when
/// interactive.
pub fn attach_settings(interactive: bool) -> (r: AttachSettings)
    ensures
        r.stream,
        r.stdin == interactive,
        r.stdout,
        r.stderr,
{
    AttachSettings { stream: true, stdin: interactive, stdout: true, stderr: true }
}

/// Routes one chunk: stdout and console bytes to stdout, stderr bytes to
/// stderr, the bytes themselves untouched. Input echoes cannot arrive
/// here: the channel was attached without input echo.
pub fn route_chunk(chunk: OutputChunk) -> (r: (OutputSink, Vec<u8>))
    requires
        !(chunk is StdIn),
    ensures
        match chunk {
            OutputChunk::StdOut { message } => r.0 is Stdout && r.1@ == message@,
            OutputChunk::StdErr { message } => r.0 is Stderr && r.1@ == message@,
            OutputChunk::Console { message } => r.0 is Stdout && r.1@ == message@,
            OutputChunk::StdIn { .. } => false,
        },
{
    match chunk {
        OutputChunk::StdOut { message } => (OutputSink::Stdout, message),
        OutputChunk::StdErr { message } => (OutputSink::Stderr, message),
        OutputChunk::Console { message } => (OutputSink::Stdout, message),
        OutputChunk::StdIn { message } => (OutputSink::Stdout, message),
    }
}

} // verus!