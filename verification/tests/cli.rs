use fastapi_lsp::cli::{CheckArgs, DiagCode, OutputFormat, KNOWN_CODES};
use fastapi_lsp::config::CheckDefaults;

#[test]
fn known_codes_parse_ok() {
    for code in KNOWN_CODES.iter() {
        let result: Result<DiagCode, _> = code.parse();
        assert!(result.is_ok(), "known code '{code}' should parse");
        assert_eq!(result.unwrap().0, *code);
    }
}

#[test]
fn unknown_code_returns_error() {
    let result: Result<DiagCode, _> = "not/a/real-code".parse();
    assert!(result.is_err());
    let msg = result.unwrap_err();
    assert!(msg.contains("not/a/real-code"));
    assert!(msg.contains("valid codes are"));
}

#[test]
fn typo_is_rejected() {
    let result: Result<DiagCode, _> = "di/cycl".parse();
    assert!(result.is_err());
}

#[test]
fn known_codes_list_non_empty() {
    assert!(!KNOWN_CODES.is_empty());
    assert!(KNOWN_CODES.contains(&"tpl/missing-template"));
    assert!(KNOWN_CODES.contains(&"di/cycle"));
    assert!(KNOWN_CODES.contains(&"url/unknown-name"));
}

#[test]
fn unknown_code_message_lists_every_code_in_order() {
    let msg = DiagCode::parse_code("nope").unwrap_err();
    let expected = format!(
        "unknown diagnostic code 'nope'; valid codes are: {}",
        KNOWN_CODES.join(", ")
    );
    assert_eq!(msg, expected);
}

#[test]
fn settings_env_key_missing_code_is_known() {
    let r = DiagCode::parse_code("settings/env-key-missing");
    assert!(r.is_ok());
    assert_eq!(r.unwrap().0, "settings/env-key-missing");
}

#[test]
fn check_section_supplies_default_code_filters() {
    let defaults = CheckDefaults { only: vec![], ignore: vec!["env/undefined-key".to_owned()] };
    let plain = CheckArgs { path: ".".into(), format: OutputFormat::Text, only: vec![], ignore: vec![], fix: false };
    assert_eq!(plain.code_filters(&defaults), (vec![], vec!["env/undefined-key".to_owned()]));
    let given = CheckArgs {
        path: ".".into(),
        format: OutputFormat::Text,
        only: vec![DiagCode("route/duplicate".into())],
        ignore: vec![],
        fix: false,
    };
    assert_eq!(given.code_filters(&defaults), (vec!["route/duplicate".to_owned()], vec![]));
}
