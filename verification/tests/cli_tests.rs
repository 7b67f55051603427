use streamforge::cli::{listen_addr, parse_args, Invocation};
use streamforge::text::{parse_unsigned, push_decimal, push_padded};
use streamforge::wire::{get_le, put_le};

fn parse(args: &[&str]) -> Invocation {
    let mut raw = vec!["streamforge".to_string()];
    raw.extend(args.iter().map(|a| a.to_string()));
    parse_args(&raw)
}

fn run(args: &[&str]) -> (u16, String) {
    match parse(args) {
        Invocation::Run(args) => (args.port, args.data_dir),
        other => panic!("got {:?}", other),
    }
}

fn refusal(args: &[&str]) -> String {
    match parse(args) {
        Invocation::Refused(text) => text,
        other => panic!("got {:?}", other),
    }
}

#[test]
fn the_port_and_the_directory_have_defaults() {
    assert_eq!(run(&[]), (9876, "./data".to_string()));
    assert_eq!(run(&["--port", "80"]), (80, "./data".to_string()));
    assert_eq!(run(&["--data-dir", "/var/x"]), (9876, "/var/x".to_string()));
    match parse_args(&Vec::new()) {
        Invocation::Run(args) => assert_eq!(args.port, 9876),
        other => panic!("got {:?}", other),
    }
}

#[test]
fn the_last_of_several_counts() {
    assert_eq!(
        run(&["--port", "1", "--data-dir", "a", "--port", "+65535", "--data-dir", "--port"]),
        (65535, "--port".to_string())
    );
}

#[test]
fn bad_arguments_are_refused() {
    let port = "error: --port requires a valid u16";
    assert_eq!(refusal(&["--port"]), port);
    assert_eq!(refusal(&["--port", "65536"]), port);
    assert_eq!(refusal(&["--port", "-1"]), port);
    assert_eq!(refusal(&["--port", ""]), port);
    assert_eq!(refusal(&["--data-dir"]), "error: --data-dir requires a path");
    assert_eq!(refusal(&["--what"]), "error: unknown argument '--what'");
    assert_eq!(refusal(&["x", "--help"]), "error: unknown argument 'x'");
}

#[test]
fn help_is_given_at_once() {
    assert!(matches!(parse(&["--help", "--what"]), Invocation::Help));
    assert!(matches!(parse(&["--port", "1", "-h"]), Invocation::Help));
}

#[test]
fn the_broker_listens_everywhere() {
    assert_eq!(listen_addr(9876), "0.0.0.0:9876");
    assert_eq!(listen_addr(0), "0.0.0.0:0");
}

#[test]
fn numbers_are_written_and_read() {
    let mut out = String::new();
    push_decimal(&mut out, 0);
    push_decimal(&mut out, u64::MAX);
    assert_eq!(out, "018446744073709551615");
    let mut out = String::new();
    push_padded(&mut out, 0xBEEF, 16, 8);
    push_padded(&mut out, 1234, 10, 2);
    assert_eq!(out, "0000beef34");
    assert_eq!(parse_unsigned("18446744073709551615", u64::MAX), Some(u64::MAX));
    assert_eq!(parse_unsigned("18446744073709551616", u64::MAX), None);
    assert_eq!(parse_unsigned("+007", 9), Some(7));
    assert_eq!(parse_unsigned("++7", 9), None);
    assert_eq!(parse_unsigned("+", 9), None);
    assert_eq!(parse_unsigned("10", 9), None);
}

#[test]
fn integers_are_little_endian() {
    let mut buf = vec![9];
    put_le(&mut buf, 0x0102030405060708, 8);
    assert_eq!(buf, vec![9, 8, 7, 6, 5, 4, 3, 2, 1]);
    assert_eq!(get_le(&buf, 1, 8), 0x0102030405060708);
    assert_eq!(get_le(&buf, 1, 2), 0x0708);
    assert_eq!(get_le(&buf, 9, 0), 0);
    let mut low = Vec::new();
    put_le(&mut low, 0x12345, 2);
    assert_eq!(low, vec![0x45, 0x23]);
}
