use frame_analyzer::error::{error_to_code, AnalyzerError};
use frame_analyzer::last_error::{clear_last_error, last_error_bytes, set_last_error};
use frame_analyzer::uprobe::{next_symbol, settle_attach, symbol_candidates, PRIMARY_SYMBOL, SECONDARY_SYMBOL};

#[test]
fn secondary_symbol_attaches_after_primary_fails() {
    let symbols = symbol_candidates();
    let outcomes: Vec<Result<(), String>> = vec![Err("symbol not found".to_string()), Ok(())];
    assert!(matches!(settle_attach(&symbols, &outcomes), Ok(1)));
}

#[test]
fn primary_symbol_attaches_first() {
    let symbols = symbol_candidates();
    let outcomes: Vec<Result<(), String>> = vec![Ok(())];
    assert!(matches!(settle_attach(&symbols, &outcomes), Ok(0)));
}

#[test]
fn both_symbols_failing_cites_both() {
    let symbols = symbol_candidates();
    let outcomes: Vec<Result<(), String>> = vec![Err("first cause".to_string()), Err("second cause".to_string())];
    match settle_attach(&symbols, &outcomes) {
        Err(AnalyzerError::UprobeAttachError(text)) => {
            let expected = format!(
                "Failed to attach any symbol variant: `{}` failed: first cause; `{}` failed: second cause; ",
                PRIMARY_SYMBOL, SECONDARY_SYMBOL
            );
            assert_eq!(text, expected);
        }
        other => panic!("unexpected {:?}", other),
    }
}

#[test]
fn symbol_candidates_are_ordered() {
    assert_eq!(symbol_candidates(), vec![PRIMARY_SYMBOL, SECONDARY_SYMBOL]);
}

#[test]
fn error_codes_follow_kinds() {
    assert_eq!(error_to_code(&AnalyzerError::AppNotFound), -5);
    assert_eq!(error_to_code(&AnalyzerError::MapError), -3);
    assert_eq!(error_to_code(&AnalyzerError::FrameDataReadError(String::new())), -3);
    assert_eq!(error_to_code(&AnalyzerError::UprobeAttachError(String::new())), -6);
    assert_eq!(error_to_code(&AnalyzerError::PermissionDenied), -7);
    assert_eq!(error_to_code(&AnalyzerError::ProgramNotFound), -2);
    let io = AnalyzerError::IOError(std::io::Error::new(std::io::ErrorKind::Other, "x"));
    assert_eq!(io.code(), -4);
}

#[test]
fn last_error_is_overwritten_and_cleared() {
    let mut slot = String::from("old");
    set_last_error(&mut slot, "Attach PID 1 failed");
    assert_eq!(slot, "Attach PID 1 failed");
    clear_last_error(&mut slot);
    assert_eq!(slot, "");
}

#[test]
fn last_error_copy_is_truncated_and_terminated() {
    assert_eq!(last_error_bytes("ab"), vec![b'a', b'b', 0]);
    let long = "x".repeat(300);
    let bytes = last_error_bytes(&long);
    assert_eq!(bytes.len(), 256);
    assert_eq!(bytes[254], b'x');
    assert_eq!(bytes[255], 0);
    assert_eq!(last_error_bytes(""), vec![0]);
}

#[test]
fn next_symbol_follows_outcomes() {
    let none: Vec<Result<(), String>> = vec![];
    assert_eq!(next_symbol(2, &none), Some(0));
    assert_eq!(next_symbol(2, &vec![Err("no".to_string())]), Some(1));
    assert_eq!(next_symbol(2, &vec![Ok(())]), None);
    assert_eq!(next_symbol(2, &vec![Err("a".to_string()), Err("b".to_string())]), None);
    assert_eq!(next_symbol(2, &vec![Err("a".to_string()), Ok(())]), None);
}
