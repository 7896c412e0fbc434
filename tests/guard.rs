use pab_converter::document::SourceFormat;
use pab_converter::guard::{format_of_extension, GuardError, GuardEvent, GuardState, MAX_FILE_SIZE};

fn resolved(ext: &str) -> GuardEvent {
    GuardEvent::Resolved { extension: Some(ext.to_string()) }
}

#[test]
fn accepted_extensions() {
    assert_eq!(format_of_extension(&"ohh".to_string()), Some(SourceFormat::Native));
    assert_eq!(format_of_extension(&"txt".to_string()), Some(SourceFormat::Plain));
    assert_eq!(format_of_extension(&"json".to_string()), Some(SourceFormat::Json));
}

#[test]
fn extension_comparison_is_case_sensitive() {
    assert_eq!(format_of_extension(&"OHH".to_string()), None);
    assert_eq!(format_of_extension(&"Json".to_string()), None);
    assert_eq!(format_of_extension(&"md".to_string()), None);
    assert_eq!(format_of_extension(&"".to_string()), None);
}

#[test]
fn whole_check_reaches_ready() {
    let s = GuardState::Resolving.step(&resolved("ohh"));
    assert_eq!(s, GuardState::Measuring);
    let s = s.step(&GuardEvent::Measured { size: MAX_FILE_SIZE });
    assert_eq!(s, GuardState::Reading);
    let s = s.step(&GuardEvent::Loaded);
    assert_eq!(s, GuardState::Ready);
}

#[test]
fn unsupported_extension_wins_over_size() {
    let s = GuardState::Resolving.step(&resolved("exe"));
    let refused = GuardState::Rejected { error: GuardError::UnsupportedExtension { missing: false } };
    assert_eq!(s, refused);
    let s = s.step(&GuardEvent::Measured { size: MAX_FILE_SIZE + 1 });
    assert_eq!(s, refused);
}

#[test]
fn too_large_file_is_never_read() {
    let s = GuardState::Measuring.step(&GuardEvent::Measured { size: 200 * 1024 * 1024 });
    assert_eq!(s, GuardState::Rejected { error: GuardError::FileTooLarge { size: 200 * 1024 * 1024 } });
    assert_eq!(s.step(&GuardEvent::Loaded), s);
    assert_eq!(
        GuardError::FileTooLarge { size: 200 * 1024 * 1024 }.message(),
        "File too large: 200 MB (maximum 100 MB)"
    );
}

#[test]
fn traversal_to_missing_target_is_path_invalid() {
    let p = std::path::Path::new("../../no-such-directory-here/etc/passwd");
    let event = match p.canonicalize() {
        Ok(c) => GuardEvent::Resolved { extension: c.extension().map(|e| e.to_string_lossy().into_owned()) },
        Err(_) => GuardEvent::ResolveFailed,
    };
    let s = GuardState::Resolving.step(&event);
    assert_eq!(s, GuardState::Rejected { error: GuardError::PathInvalid });
    assert_eq!(GuardError::PathInvalid.message(), "Invalid file path or file does not exist");
}

#[test]
fn missing_extension_and_access_errors() {
    let s = GuardState::Resolving.step(&GuardEvent::Resolved { extension: None });
    assert_eq!(s, GuardState::Rejected { error: GuardError::UnsupportedExtension { missing: true } });
    assert_eq!(GuardError::UnsupportedExtension { missing: true }.message(), "File must have an extension");
    assert_eq!(
        GuardError::UnsupportedExtension { missing: false }.message(),
        "Invalid file type. Only .ohh, .txt, or .json files are supported"
    );
    let s = GuardState::Measuring.step(&GuardEvent::MeasureFailed);
    assert_eq!(s, GuardState::Rejected { error: GuardError::AccessError { reading: false } });
    assert_eq!(GuardError::AccessError { reading: false }.message(), "Cannot access file");
    let s = GuardState::Reading.step(&GuardEvent::LoadFailed);
    assert_eq!(s, GuardState::Rejected { error: GuardError::AccessError { reading: true } });
    assert_eq!(GuardError::AccessError { reading: true }.message(), "Failed to read file");
}

#[test]
fn out_of_order_event_changes_nothing() {
    assert_eq!(GuardState::Resolving.step(&GuardEvent::Loaded), GuardState::Resolving);
    let ready = GuardState::Ready;
    assert_eq!(ready.step(&GuardEvent::ResolveFailed), ready);
}
