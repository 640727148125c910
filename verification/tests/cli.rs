use owo_colors::OwoColorize;
use pre_commit::cli::{interrupt_exit_code, report_error, ExitStatus, Level};
use pre_commit::paths::Platform;

#[test]
fn each_request_for_more_output_gives_more() {
    assert_eq!(Level::from_verbosity(0), Level::Default);
    assert_eq!(Level::from_verbosity(1), Level::Verbose);
    assert_eq!(Level::from_verbosity(2), Level::ExtraVerbose);
    assert_eq!(Level::from_verbosity(255), Level::ExtraVerbose);
    assert_eq!(Level::default(), Level::Default);
}

#[test]
fn the_directive_follows_the_level() {
    assert_eq!(Level::Default.directive(), None);
    assert_eq!(Level::Verbose.directive(), Some("pre_commit=debug"));
    assert_eq!(Level::ExtraVerbose.directive(), Some("pre_commit=trace"));
}

#[test]
fn an_interrupt_has_the_code_of_the_platform() {
    assert_eq!(interrupt_exit_code(Platform::Unix), 130);
    assert_eq!(interrupt_exit_code(Platform::Windows), 0xC000_013A_u32 as i32);
}

#[test]
fn each_status_has_a_code() {
    assert_eq!(ExitStatus::Success.code(), 0);
    assert_eq!(ExitStatus::Failure.code(), 1);
    assert_eq!(ExitStatus::Error.code(), 2);
}

#[test]
fn an_error_is_reported_with_its_causes() {
    let chain = vec!["outer".to_string(), "middle".to_string(), "inner".to_string()];
    let lines = report_error(&chain);
    assert_eq!(
        lines,
        vec![
            "\x1b[1m\x1b[31merror\x1b[39m\x1b[0m: outer",
            "  \x1b[1m\x1b[31mcaused by\x1b[39m\x1b[0m: middle",
            "  \x1b[1m\x1b[31mcaused by\x1b[39m\x1b[0m: inner",
        ]
    );
    assert_eq!(lines[0], format!("{}: outer", "error".red().bold()));
    assert_eq!(lines[1], format!("  {}: middle", "caused by".red().bold()));
}
