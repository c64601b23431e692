use neomark::cli::{parse_args, set_input, Args};

fn parse(raw: &[&str]) -> Result<Option<Args>, String> {
    let owned: Vec<String> = raw.iter().map(|arg| arg.to_string()).collect();
    parse_args(&owned)
}

#[test]
fn input_and_options_are_read() {
    let args = parse(&["-o", "out.html", "-t", "标题", "doc.nm"]).unwrap().unwrap();

    assert_eq!(args.input.as_deref(), Some("doc.nm"));
    assert_eq!(args.output.as_deref(), Some("out.html"));
    assert_eq!(args.title.as_deref(), Some("标题"));
    assert!(!args.fragment);
}

#[test]
fn stdin_dash_is_an_input_not_an_option() {
    let args = parse(&["-"]).unwrap().unwrap();
    assert_eq!(args.input.as_deref(), Some("-"));
}

#[test]
fn help_short_circuits() {
    assert!(parse(&["--help"]).unwrap().is_none());
}

#[test]
fn unknown_options_and_missing_values_are_errors() {
    assert!(parse(&["--nope"]).is_err());
    assert!(parse(&["-o"]).is_err());
    assert!(parse(&["a.nm", "b.nm"]).is_err());
}

#[test]
fn the_error_messages_name_the_problem() {
    assert_eq!(parse(&["--nope"]), Err("未知选项：--nope".to_string()));
    assert_eq!(parse(&["-t"]), Err("--title 需要一个参数".to_string()));
    assert_eq!(parse(&["--output"]), Err("--output 需要一个参数".to_string()));
    assert_eq!(parse(&["a", "b"]), Err("只能指定一个输入文件".to_string()));
}

#[test]
fn everything_after_a_double_dash_is_an_input() {
    let args = parse(&["--fragment", "--", "-x"]).unwrap().unwrap();
    assert_eq!(args.input.as_deref(), Some("-x"));
    assert!(args.fragment);
    assert!(parse(&["--", "a", "b"]).is_err());
    assert_eq!(parse(&[]).unwrap().unwrap(), Args::default());
}

#[test]
fn help_after_an_error_is_too_late() {
    assert!(parse(&["--nope", "-h"]).is_err());
    assert!(parse(&["a", "-h"]).unwrap().is_none());
}

#[test]
fn only_one_input_is_taken() {
    let mut args = Args::default();
    assert!(set_input(&mut args, "a").is_ok());
    assert!(set_input(&mut args, "b").is_err());
    assert_eq!(args.input.as_deref(), Some("a"));
}
