use frame_analyzer::frame::FrameState;

#[test]
fn first_event_yields_no_frametime() {
    let mut state = FrameState::new();
    assert_eq!(state.update(123_456), None);
    assert_eq!(state.last, Some(123_456));
}

#[test]
fn sequence_yields_consecutive_differences() {
    let timestamps: Vec<u64> = vec![0, 16_600_000, 33_300_000, 33_300_000, 50_000_000];
    let mut state = FrameState::new();
    let mut emitted = Vec::new();
    for t in &timestamps {
        if let Some(d) = state.update(*t) {
            emitted.push(d);
        }
    }
    assert_eq!(emitted, vec![16_600_000, 16_700_000, 0, 16_700_000]);
    assert_eq!(emitted.len(), timestamps.len() - 1);
}

#[test]
fn backwards_timestamp_clamps_to_zero() {
    let mut state = FrameState::new();
    assert_eq!(state.update(1_000), None);
    assert_eq!(state.update(400), Some(0));
    assert_eq!(state.update(1_400), Some(1_000));
}
