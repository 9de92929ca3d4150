use port_sniffer::args::parse_arguments;
use port_sniffer::args::ArgsError;
use port_sniffer::args::DEFAULT_THREADS;

fn argv(parts: &[&str]) -> Vec<String> {
    parts.iter().map(|s| s.to_string()).collect()
}

#[test]
fn no_arguments_is_not_enough() {
    let r = parse_arguments(&argv(&["prog"]), false, false);
    assert_eq!(r.unwrap_err(), ArgsError::NotEnoughArguments);
}

#[test]
fn five_arguments_is_too_many() {
    let r = parse_arguments(&argv(&["prog", "a", "b", "c", "d"]), false, false);
    assert_eq!(r.unwrap_err(), ArgsError::TooManyArguments);
}

#[test]
fn bare_address_uses_default_workers() {
    let a = parse_arguments(&argv(&["prog", "192.168.1.1"]), true, false).unwrap();
    assert_eq!(a.flag, "");
    assert_eq!(a.ipaddr, "192.168.1.1");
    assert_eq!(a.threads, DEFAULT_THREADS);
    assert_eq!(a.threads, 4);
}

#[test]
fn lone_help_flag_is_a_help_request() {
    let r = parse_arguments(&argv(&["prog", "-h"]), false, false);
    assert_eq!(r.unwrap_err(), ArgsError::HelpRequested);
}

#[test]
fn long_help_flag_is_a_help_request() {
    let r = parse_arguments(&argv(&["prog", "-help"]), false, false);
    assert_eq!(r.unwrap_err(), ArgsError::HelpRequested);
}

#[test]
fn help_match_is_by_substring() {
    let r = parse_arguments(&argv(&["prog", "-host"]), false, false);
    assert_eq!(r.unwrap_err(), ArgsError::HelpRequested);
}

#[test]
fn help_flag_with_extra_arguments_is_too_many() {
    let r = parse_arguments(&argv(&["prog", "-h", "192.168.1.1"]), false, false);
    assert_eq!(r.unwrap_err(), ArgsError::TooManyArguments);
}

#[test]
fn thread_flag_form_parses_count_and_address() {
    let a = parse_arguments(&argv(&["prog", "-j", "100", "192.168.1.1"]), false, true).unwrap();
    assert_eq!(a.flag, "-j");
    assert_eq!(a.threads, 100);
    assert_eq!(a.ipaddr, "192.168.1.1");
}

#[test]
fn thread_flag_with_bad_count_is_rejected() {
    let r = parse_arguments(&argv(&["prog", "-j", "abc", "192.168.1.1"]), false, true);
    assert_eq!(r.unwrap_err(), ArgsError::InvalidThreadCount);
}

#[test]
fn thread_flag_with_oversized_count_is_rejected() {
    let r = parse_arguments(&argv(&["prog", "-j", "65536", "192.168.1.1"]), false, true);
    assert_eq!(r.unwrap_err(), ArgsError::InvalidThreadCount);
}

#[test]
fn thread_flag_with_bad_address_is_rejected() {
    let r = parse_arguments(&argv(&["prog", "-j", "100", "not-an-address"]), false, false);
    assert_eq!(r.unwrap_err(), ArgsError::InvalidAddress);
}

#[test]
fn thread_flag_without_address_is_not_enough() {
    let r = parse_arguments(&argv(&["prog", "-j", "10"]), false, false);
    assert_eq!(r.unwrap_err(), ArgsError::NotEnoughArguments);
}

#[test]
fn unrecognized_flag_is_invalid_syntax() {
    let r = parse_arguments(&argv(&["prog", "sideways"]), false, false);
    assert_eq!(r.unwrap_err(), ArgsError::InvalidSyntax);
}

#[test]
fn diagnostics_match_the_reported_errors() {
    assert_eq!(ArgsError::NotEnoughArguments.message(), "not enough arguments");
    assert_eq!(ArgsError::TooManyArguments.message(), "too many arguments");
    assert_eq!(ArgsError::HelpRequested.message(), "help");
    assert_eq!(
        ArgsError::InvalidAddress.message(),
        "not a valid IPADDR; must be IPv4 or IPv6"
    );
    assert_eq!(
        ArgsError::InvalidThreadCount.message(),
        "failed to parse thread number"
    );
    assert_eq!(ArgsError::InvalidSyntax.message(), "invalid syntax");
}
