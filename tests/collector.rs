use frame_analyzer::analyzer::{Analyzer, RecvStep};
use frame_analyzer::error::AnalyzerError;
use frame_analyzer::record::EventRecord;
use frame_analyzer::uprobe::UprobeHandler;

fn record_bytes(timestamp_ns: u64) -> Vec<u8> {
    EventRecord { timestamp_ns, arg0: 0x7f00_1234 }.encode()
}

#[test]
fn two_processes_do_not_mix_deltas() {
    let mut a: Analyzer<()> = Analyzer::new();
    assert!(a.register(1234, ()));
    assert!(a.deliver_bytes(1234, &record_bytes(0)));
    assert!(a.deliver_bytes(1234, &record_bytes(16_600_000)));
    assert_eq!(a.try_recv(), Some((1234, 16_600_000)));

    assert!(a.register(5678, ()));
    assert!(a.deliver_bytes(1234, &record_bytes(20_000_000)));
    assert!(a.deliver_bytes(5678, &record_bytes(0)));
    assert!(a.deliver_bytes(1234, &record_bytes(36_600_000)));
    assert!(a.deliver_bytes(5678, &record_bytes(33_300_000)));
    assert_eq!(a.try_recv(), Some((1234, 3_400_000)));
    assert_eq!(a.try_recv(), Some((5678, 33_300_000)));
    assert_eq!(a.try_recv(), Some((1234, 16_600_000)));
    assert_eq!(a.try_recv(), None);
}

#[test]
fn empty_analyzer_has_nothing_to_receive() {
    let mut a: Analyzer<()> = Analyzer::new();
    assert_eq!(a.try_recv(), None);
    assert!(!a.contains(1));
}

#[test]
fn reattach_starts_from_fresh_state() {
    let mut a: Analyzer<()> = Analyzer::new();
    a.register(42, ());
    a.deliver(42, 1_000);
    assert!(a.detach_app(42).is_ok());
    assert!(!a.contains(42));
    assert!(a.register(42, ()));
    a.deliver(42, 5_000);
    assert_eq!(a.try_recv(), None);
    a.deliver(42, 9_000);
    assert_eq!(a.try_recv(), Some((42, 4_000)));
}

#[test]
fn detached_pid_pending_data_is_dropped() {
    let mut a: Analyzer<()> = Analyzer::new();
    a.register(7, ());
    a.register(8, ());
    a.deliver(7, 0);
    a.deliver(7, 10);
    a.deliver(7, 30);
    a.deliver(8, 0);
    a.deliver(8, 5);
    assert!(a.detach_app(7).is_ok());
    assert_eq!(a.try_recv(), Some((8, 5)));
    assert_eq!(a.try_recv(), None);
}

#[test]
fn detach_of_unmonitored_pid_is_a_no_op() {
    let mut a: Analyzer<()> = Analyzer::new();
    a.register(3, ());
    assert!(a.detach_app(99).is_ok());
    assert!(a.contains(3));
    assert!(a.detach_app(3).is_ok());
    assert!(a.detach_app(3).is_ok());
}

#[test]
fn round_robin_between_ready_processes() {
    let mut a: Analyzer<()> = Analyzer::new();
    a.register(100, ());
    a.register(200, ());
    a.deliver(100, 0);
    a.deliver(100, 10);
    a.deliver(100, 30);
    a.deliver(200, 0);
    a.deliver(200, 7);
    assert_eq!(a.try_recv(), Some((100, 10)));
    assert_eq!(a.try_recv(), Some((200, 7)));
    assert_eq!(a.try_recv(), Some((100, 20)));
    assert_eq!(a.try_recv(), None);
}

#[test]
fn two_ready_processes_each_delivered_once() {
    let mut a: Analyzer<()> = Analyzer::new();
    a.register(1, ());
    a.register(2, ());
    a.deliver(2, 0);
    a.deliver(1, 0);
    a.deliver(2, 11);
    a.deliver(1, 22);
    let first = a.try_recv().unwrap();
    let second = a.try_recv().unwrap();
    assert_ne!(first.0, second.0);
    assert_eq!(first, (2, 11));
    assert_eq!(second, (1, 22));
}

#[test]
fn register_twice_is_rejected() {
    let mut a: Analyzer<()> = Analyzer::new();
    assert!(a.register(5, ()));
    a.deliver(5, 100);
    assert!(!a.register(5, ()));
    a.deliver(5, 150);
    assert_eq!(a.try_recv(), Some((5, 50)));
}

#[test]
fn malformed_record_is_dropped() {
    let mut a: Analyzer<()> = Analyzer::new();
    a.register(9, ());
    assert!(!a.deliver_bytes(9, &[1, 2, 3]));
    assert!(a.deliver_bytes(9, &record_bytes(10)));
    assert!(a.deliver_bytes(9, &record_bytes(25)));
    assert_eq!(a.try_recv(), Some((9, 15)));
}

#[test]
fn events_of_unmonitored_pid_are_ignored() {
    let mut a: Analyzer<()> = Analyzer::new();
    a.deliver(11, 0);
    a.deliver(11, 10);
    assert_eq!(a.try_recv(), None);
}

#[test]
fn detach_all_forgets_everything() {
    let mut a: Analyzer<()> = Analyzer::new();
    a.register(1, ());
    a.register(2, ());
    a.deliver(1, 0);
    a.deliver(1, 3);
    a.detach_apps();
    assert!(!a.contains(1));
    assert!(!a.contains(2));
    assert_eq!(a.try_recv(), None);
    assert!(a.pids().is_empty());
}

#[test]
fn pids_and_probe_lookup() {
    let mut a: Analyzer<u8> = Analyzer::new();
    a.register(10, 1);
    a.register(20, 2);
    assert_eq!(a.pids(), vec![10, 20]);
    assert_eq!(a.probe(20), Some(&2));
    assert_eq!(a.probe(30), None);
}

#[test]
fn attach_to_missing_process_fails_without_loading() {
    let mut a: Analyzer<()> = Analyzer::new();
    let r = a.attach_plan(999_999, false);
    assert!(matches!(r, Err(AnalyzerError::AppNotFound)));
    assert_eq!(r.unwrap_err().code(), -5);
    assert!(matches!(a.attach_plan(999_999, true), Ok(true)));
    a.register(999_999, ());
    assert!(matches!(a.attach_plan(999_999, true), Ok(false)));
    assert!(matches!(a.attach_plan(999_999, false), Err(AnalyzerError::AppNotFound)));
}

#[test]
fn attach_with_unparsable_object_reports_load_error() {
    let mut a: Analyzer<UprobeHandler> = Analyzer::new();
    let loaded = aya::Ebpf::load(&[0u8; 8]);
    assert!(loaded.is_err());
    let r = a.attach_loaded(1, loaded);
    assert!(matches!(r, Err(AnalyzerError::EbpfError(_))));
    assert!(!a.contains(1));
}

#[test]
fn scenario_second_process_interleaved() {
    let mut a: Analyzer<()> = Analyzer::new();
    assert!(a.register(1234, ()));
    a.deliver(1234, 0);
    a.deliver(1234, 16_600_000);
    assert_eq!(a.try_recv(), Some((1234, 16_600_000)));
    assert!(a.register(5678, ()));
    a.deliver(5678, 0);
    a.deliver(1234, 33_200_000);
    a.deliver(5678, 33_300_000);
    let first = a.try_recv().unwrap();
    let second = a.try_recv().unwrap();
    assert_eq!(first, (1234, 16_600_000));
    assert_eq!(second, (5678, 33_300_000));
    assert_eq!(a.try_recv(), None);
}

#[test]
fn take_app_hands_back_the_handle() {
    let mut a: Analyzer<u8> = Analyzer::new();
    a.register(4, 9);
    a.deliver(4, 0);
    a.deliver(4, 8);
    assert_eq!(a.take_app(4), Some(9));
    assert_eq!(a.take_app(4), None);
    assert_eq!(a.try_recv(), None);
}

#[test]
fn recv_step_without_processes() {
    let mut a: Analyzer<UprobeHandler> = Analyzer::new();
    assert_eq!(a.recv_step(Some(0)), RecvStep::GiveUp);
    assert_eq!(a.recv_step(Some(5)), RecvStep::Wait);
    assert_eq!(a.recv_step(None), RecvStep::Wait);
    assert!(a.release_app(77).is_ok());
}

#[test]
fn consecutive_differences_through_the_queue() {
    let mut a: Analyzer<()> = Analyzer::new();
    a.register(31, ());
    for t in [100u64, 250, 250, 900] {
        a.deliver(31, t);
    }
    assert_eq!(a.try_recv(), Some((31, 150)));
    assert_eq!(a.try_recv(), Some((31, 0)));
    assert_eq!(a.try_recv(), Some((31, 650)));
    assert_eq!(a.try_recv(), None);
}
