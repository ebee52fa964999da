use dockrs::attach::attach_settings;
use dockrs::attach::route_chunk;
use dockrs::attach::OutputChunk;
use dockrs::attach::OutputSink;

#[test]
fn test_route_chunk_stdout() {
    let (sink, bytes) = route_chunk(OutputChunk::StdOut {
        message: b"hello".to_vec(),
    });

    assert_eq!(sink, OutputSink::Stdout);
    assert_eq!(bytes, b"hello".to_vec());
}

#[test]
fn test_route_chunk_stderr() {
    let (sink, bytes) = route_chunk(OutputChunk::StdErr {
        message: b"oops".to_vec(),
    });

    assert_eq!(sink, OutputSink::Stderr);
    assert_eq!(bytes, b"oops".to_vec());
}

#[test]
fn test_route_chunk_console_goes_to_stdout() {
    let (sink, bytes) = route_chunk(OutputChunk::Console {
        message: b"tty".to_vec(),
    });

    assert_eq!(sink, OutputSink::Stdout);
    assert_eq!(bytes, b"tty".to_vec());
}

#[test]
fn test_attach_settings() {
    let plain = attach_settings(false);
    assert!(plain.stream && plain.stdout && plain.stderr);
    assert!(!plain.stdin);

    let interactive = attach_settings(true);
    assert!(interactive.stream && interactive.stdout && interactive.stderr);
    assert!(interactive.stdin);
}
