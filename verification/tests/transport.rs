use sederial::dns::HEADER_LENGTH;
use sederial::transport::{
    transient, Deadline, FrameReader, FrameStep, FrameWriter, IoErrorKind, IoFailure, IO_POLL,
};
use sederial::upstream::ForwardError;

const SECOND: u64 = 1_000_000_000;
const MILLISECOND: u64 = 1_000_000;

#[test]
fn framing_retains_partial_prefix_across_read_timeouts() {
    let mut now = 0;
    let deadline = Deadline::after(now, 2 * SECOND);
    let mut reader = FrameReader::new();
    assert_eq!(reader.wanted(), 2);
    assert!(matches!(reader.receive(&[0]), FrameStep::Partial));
    assert_eq!(reader.wanted(), 1);
    // Two polls pass without a read; what was received stays.
    for _ in 0..2 {
        now += deadline.poll(now, false).unwrap();
    }
    assert_eq!(now, 2 * IO_POLL);
    assert!(matches!(reader.receive(&[12]), FrameStep::Partial));
    assert_eq!(reader.wanted(), HEADER_LENGTH);
    match reader.receive(&[0; HEADER_LENGTH]) {
        FrameStep::Complete(frame) => assert_eq!(frame, vec![0; HEADER_LENGTH]),
        other => panic!("expected a frame, got {other:?}"),
    }
    assert_eq!(reader.wanted(), 2);
}

#[test]
fn framing_deadline_is_absolute_despite_partial_progress() {
    let start = 5 * SECOND;
    let deadline = Deadline::after(start, 90 * MILLISECOND);
    let mut reader = FrameReader::new();
    let mut now = start;
    let mut failure = None;
    for byte in [0, 12, 0, 0, 0, 0, 0, 0, 0, 0, 0, 0, 0, 0] {
        match deadline.remaining(now, false) {
            Ok(_) => assert!(matches!(reader.receive(&[byte]), FrameStep::Partial)),
            Err(error) => {
                failure = Some(error);
                break;
            }
        }
        now += 20 * MILLISECOND;
    }
    let error = failure.unwrap();
    assert_eq!(error.kind, IoErrorKind::TimedOut);
    assert!(now - start < 250 * MILLISECOND);
}

#[test]
fn cancellation_is_distinct_from_an_interrupted_io_call() {
    assert!(matches!(
        ForwardError::from(IoFailure {
            kind: IoErrorKind::Interrupted,
            cancelled: false,
            message: "OS interrupt".to_string(),
        }),
        ForwardError::Io(_)
    ));
    let cancelled = Deadline::after(7, SECOND).remaining(7, true).unwrap_err();
    assert!(matches!(
        ForwardError::from(cancelled),
        ForwardError::Cancelled
    ));
    let timeout = Deadline::after(7, 0).remaining(7, false).unwrap_err();
    assert!(matches!(ForwardError::from(timeout), ForwardError::Timeout));
}

#[test]
fn cancellation_takes_precedence_over_expiry() {
    let deadline = Deadline::after(100, 50);
    let failure = deadline.remaining(200, true).unwrap_err();
    assert!(failure.cancelled);
    assert_eq!(failure.kind, IoErrorKind::Interrupted);
    assert_eq!(failure.message, "shutdown requested");
    let failure = deadline.remaining(150, false).unwrap_err();
    assert!(!failure.cancelled);
    assert_eq!(failure.message, "exchange deadline expired");
    assert_eq!(deadline.remaining(149, false).unwrap(), 1);
}

#[test]
fn caps_never_extend_a_budget() {
    let request = Deadline::after(1000, 500);
    assert_eq!(request.capped(1000, 200).at, 1200);
    assert_eq!(request.capped(1400, 200).at, 1500);
    assert_eq!(Deadline::after(u64::MAX, 5).at, u64::MAX);
    assert_eq!(request.poll(1400, false).unwrap(), 100);
    assert_eq!(
        Deadline::after(0, SECOND).poll(0, false).unwrap(),
        100 * MILLISECOND
    );
}

#[test]
fn frames_are_written_in_parts_and_read_back() {
    let wire: Vec<u8> = (0..300).map(|i| i as u8).collect();
    let mut writer = FrameWriter::new(&wire).unwrap();
    let mut out = Vec::new();
    while !writer.pending().is_empty() {
        let count = writer.pending().len().min(11);
        out.extend_from_slice(&writer.pending()[..count]);
        writer.advance(count).unwrap();
    }
    assert_eq!(&out[..2], &[1, 44]);
    assert_eq!(&out[2..], &wire[..]);
    let mut reader = FrameReader::new();
    let mut at = 0;
    loop {
        let size = reader.wanted().min(13);
        match reader.receive(&out[at..at + size]) {
            FrameStep::Partial => at += size,
            FrameStep::Complete(message) => {
                assert_eq!(message, wire);
                break;
            }
            other => panic!("unexpected {other:?}"),
        }
    }
}

#[test]
fn frames_outside_the_bounds_are_refused() {
    for length in [0, 11, 65536] {
        let failure = FrameWriter::new(&vec![0; length]).unwrap_err();
        assert_eq!(failure.kind, IoErrorKind::InvalidInput);
        assert_eq!(failure.message, "invalid TCP DNS frame length");
    }
    for length in [12, 65535] {
        assert!(FrameWriter::new(&vec![0; length]).is_ok());
    }
    let failure = FrameWriter::new(&[0; 12]).unwrap().advance(0).unwrap_err();
    assert_eq!(failure.kind, IoErrorKind::WriteZero);
    assert_eq!(failure.message, "TCP write returned zero");
}

#[test]
fn the_end_of_a_stream_is_clean_only_before_a_frame() {
    assert!(matches!(
        FrameReader::new().receive(&[]),
        FrameStep::Closed
    ));
    for (received, kind, message) in [
        (&[0][..], IoErrorKind::UnexpectedEof, "partial TCP frame"),
        (
            &[0, 12][..],
            IoErrorKind::UnexpectedEof,
            "missing TCP frame body",
        ),
        (
            &[0, 12, 1][..],
            IoErrorKind::UnexpectedEof,
            "partial TCP frame",
        ),
    ] {
        let mut reader = FrameReader::new();
        for byte in received {
            assert!(matches!(reader.receive(&[*byte]), FrameStep::Partial));
        }
        match reader.receive(&[]) {
            FrameStep::Failed(failure) => {
                assert_eq!(failure.kind, kind);
                assert_eq!(failure.message, message);
            }
            other => panic!("unexpected {other:?}"),
        }
    }
    match FrameReader::new().receive(&[0, 11]) {
        FrameStep::Failed(failure) => {
            assert_eq!(failure.kind, IoErrorKind::InvalidData);
            assert_eq!(failure.message, "TCP DNS frame shorter than header");
        }
        other => panic!("unexpected {other:?}"),
    }
}

#[test]
fn only_polling_outcomes_are_transient() {
    for kind in [
        IoErrorKind::WouldBlock,
        IoErrorKind::TimedOut,
        IoErrorKind::Interrupted,
    ] {
        assert!(transient(kind));
    }
    for kind in [
        IoErrorKind::UnexpectedEof,
        IoErrorKind::InvalidData,
        IoErrorKind::InvalidInput,
        IoErrorKind::WriteZero,
        IoErrorKind::Other,
    ] {
        assert!(!transient(kind));
    }
}
