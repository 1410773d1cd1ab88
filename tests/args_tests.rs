use sim::args::parse_args;

fn strings(items: &[&str]) -> Vec<String> {
    items.iter().map(|s| s.to_string()).collect()
}

#[test]
fn test_parse_args_valid_input() {
    let args = vec![
        "program".to_string(),
        "-s".to_string(),
        "4".to_string(),
        "-E".to_string(),
        "2".to_string(),
        "-b".to_string(),
        "4".to_string(),
        "-t".to_string(),
        "test_tracefile".to_string(),
    ];
    assert_eq!(parse_args(&args), Ok((4, 2, 4, "test_tracefile".to_string())));
}

#[test]
fn test_parse_args_different_order() {
    let args = vec![
        "program".to_string(),
        "-t".to_string(),
        "test_tracefile".to_string(),
        "-E".to_string(),
        "2".to_string(),
        "-s".to_string(),
        "4".to_string(),
        "-b".to_string(),
        "4".to_string(),
    ];
    assert_eq!(parse_args(&args), Ok((4, 2, 4, "test_tracefile".to_string())));
}

#[test]
fn test_parse_args_missing_whitespace() {
    let args = vec![
        "program".to_string(),
        "-t".to_string(),
        "test_tracefile".to_string(),
        "-E2".to_string(),
        "-s".to_string(),
        "4".to_string(),
        "-b".to_string(),
        "4".to_string(),
    ];
    assert_eq!(parse_args(&args), Ok((4, 2, 4, "test_tracefile".to_string())));
}

#[test]
fn test_parse_args_missing_arguments() {
    let args = vec![
        "program".to_string(),
        "-s".to_string(),
        "4".to_string(),
        "-E".to_string(),
        "2".to_string(),
        "-b".to_string(),
        "4".to_string(),
    ];
    assert!(parse_args(&args).is_err());
}

#[test]
fn test_parse_args_duplicate_flags() {
    let args = vec![
        "program".to_string(),
        "-s".to_string(),
        "4".to_string(),
        "-s".to_string(),
        "5".to_string(),
        "-E".to_string(),
        "2".to_string(),
        "-b".to_string(),
        "4".to_string(),
        "-t".to_string(),
        "test_tracefile".to_string(),
    ];
    assert!(parse_args(&args).is_err());
}

#[test]
fn test_parse_args_unknown_flag() {
    let args = vec![
        "program".to_string(),
        "-s".to_string(),
        "4".to_string(),
        "-v".to_string(),
        "5".to_string(),
        "-E".to_string(),
        "2".to_string(),
        "-b".to_string(),
        "4".to_string(),
        "-t".to_string(),
        "test_tracefile".to_string(),
    ];
    assert!(parse_args(&args).is_err());
}

#[test]
fn test_parse_args_invalid_values() {
    let invalid_values = vec!["-3", "2.4", "a", "*", "0", ""];
    for invalid_value in invalid_values {
        let args = vec![
            "program".to_string(),
            "-s".to_string(),
            "4".to_string(),
            "-E".to_string(),
            "2".to_string(),
            "-b".to_string(),
            invalid_value.to_string(),
            "-t".to_string(),
            "test_tracefile".to_string(),
        ];
        assert!(parse_args(&args).is_err());
    }
}

#[test]
fn test_parse_args_extra_item() {
    let args = vec![
        "program".to_string(),
        "-s".to_string(),
        "4".to_string(),
        "-E".to_string(),
        "2".to_string(),
        "-b".to_string(),
        "4".to_string(),
        "extra".to_string(),
        "-t".to_string(),
        "test_tracefile".to_string(),
    ];
    assert!(parse_args(&args).is_err());
}

#[test]
fn test_parse_args_case_sensitivity_to_upper() {
    let args = vec![
        "program".to_string(),
        "-S".to_string(),
        "4".to_string(),
        "-E".to_string(),
        "2".to_string(),
        "-b".to_string(),
        "4".to_string(),
        "-t".to_string(),
        "test_tracefile".to_string(),
    ];
    assert!(parse_args(&args).is_err());
}

#[test]
fn test_parse_args_case_sensitivity_to_lower() {
    let args = vec![
        "program".to_string(),
        "-s".to_string(),
        "4".to_string(),
        "-e".to_string(),
        "2".to_string(),
        "-b".to_string(),
        "4".to_string(),
        "-t".to_string(),
        "test_tracefile".to_string(),
    ];
    assert!(parse_args(&args).is_err());
}

#[test]
fn parse_args_error_messages() {
    let dup = strings(&["p", "-s", "4", "-s", "5", "-E", "2", "-b", "4", "-t", "f"]);
    assert_eq!(parse_args(&dup), Err("duplicate flag -s".to_string()));
    let bad = strings(&["p", "-s", "4", "-E", "x", "-b", "4", "-t", "f"]);
    assert_eq!(parse_args(&bad), Err("invalid value for -E flag".to_string()));
    let missing = strings(&["p", "-s", "4", "-E", "2", "-t", "f"]);
    assert_eq!(
        parse_args(&missing),
        Err("missing required arguments, incorrect command-line format".to_string())
    );
    let unknown = strings(&["p", "-x", "-s", "4"]);
    assert_eq!(parse_args(&unknown), Err("unknown option -- 'x'".to_string()));
    let no_arg = strings(&["p", "-s", "4", "-E", "2", "-b", "4", "-t"]);
    assert_eq!(parse_args(&no_arg), Err("option requires an argument -- 't'".to_string()));
}

#[test]
fn parse_args_accepts_plus_sign_and_large_values() {
    let args = strings(&["p", "-s+12", "-E", "007", "-b", "3", "-t", "trace"]);
    assert_eq!(parse_args(&args), Ok((12, 7, 3, "trace".to_string())));
    let too_big = strings(&["p", "-s", "99999999999999999999999", "-E", "1", "-b", "1", "-t", "f"]);
    assert_eq!(parse_args(&too_big), Err("invalid value for -s flag".to_string()));
}

#[test]
fn parse_args_stops_at_double_dash() {
    let args = strings(&["p", "-s", "1", "-E", "1", "-b", "1", "--", "-t", "f"]);
    assert!(parse_args(&args).is_err());
}
