use frame_analyzer::probe::{frame_analyzer_ebpf, try_frame_analyzer_ebpf, ProbeFault, ProbeOutcome};
use frame_analyzer::record::{EventRecord, RECORD_SIZE};

#[test]
fn record_layout_is_little_endian() {
    let r = EventRecord { timestamp_ns: 0x0102_0304_0506_0708, arg0: 0xAABB };
    let bytes = r.encode();
    assert_eq!(bytes.len(), RECORD_SIZE);
    assert_eq!(bytes, vec![8, 7, 6, 5, 4, 3, 2, 1, 0xBB, 0xAA, 0, 0, 0, 0, 0, 0]);
}

#[test]
fn record_round_trip() {
    let r = EventRecord { timestamp_ns: u64::MAX, arg0: 16_600_000 };
    assert_eq!(EventRecord::decode(&r.encode()), Some(r));
}

#[test]
fn record_of_wrong_size_is_rejected() {
    assert_eq!(EventRecord::decode(&[0u8; 15]), None);
    assert_eq!(EventRecord::decode(&[0u8; 17]), None);
    assert_eq!(EventRecord::decode(&[]), None);
}

#[test]
fn probe_submits_when_argument_and_slot_are_there() {
    let out = try_frame_analyzer_ebpf(Some(0xdead), true, 99);
    assert_eq!(out, ProbeOutcome::Submitted(EventRecord { timestamp_ns: 99, arg0: 0xdead }));
    assert_eq!(frame_analyzer_ebpf(&out), 0);
}

#[test]
fn probe_drops_on_unreadable_argument() {
    let out = try_frame_analyzer_ebpf(None, true, 99);
    assert_eq!(out, ProbeOutcome::Dropped(ProbeFault::ArgumentUnreadable));
    assert_eq!(frame_analyzer_ebpf(&out), 1);
}

#[test]
fn probe_drops_on_full_buffer() {
    let out = try_frame_analyzer_ebpf(Some(1), false, 99);
    assert_eq!(out, ProbeOutcome::Dropped(ProbeFault::BufferFull));
    assert_eq!(frame_analyzer_ebpf(&out), 2);
}
