use zero_copy_log_parser::generate::{
    check_templates, format_timestamp, generate_entry, generate_log_line,
    parse_timestamp_components,
};
use zero_copy_log_parser::log_line::{
    normalize, parse_fields, parse_template_fields, process_line, redact_token, validate_line,
};

#[test]
fn normalizes_trailing_whitespace() {
    let line = String::from(
        "2026-09-15T10:20:30Z INFO \
         token=abc message=Started   ",
    );

    let normalized = normalize(line);

    assert_eq!(
        normalized,
        "2026-09-15T10:20:30Z INFO \
         token=abc message=Started"
    );
}

#[test]
fn parses_fields_as_slices() {
    let line = String::from(
        "2026-09-15T10:20:30Z INFO \
         token=abc123 message=Server started",
    );

    let (timestamp, level, message) = parse_fields(&line).unwrap();

    assert_eq!(timestamp, "2026-09-15T10:20:30Z");
    assert_eq!(level, "INFO");
    assert_eq!(message, "Server started");

    let base = line.as_ptr() as usize;
    let end = base + line.len();

    for field in [timestamp, level, message] {
        let address = field.as_ptr() as usize;

        assert!(address >= base);
        assert!(address < end);
    }
}

#[test]
fn redacts_token_in_place() {
    let mut line = String::from(
        "2026-09-15T10:20:30Z INFO \
         token=abc123 message=Server started",
    );

    redact_token(&mut line).unwrap();

    assert_eq!(
        line,
        "2026-09-15T10:20:30Z INFO \
         token=****** message=Server started"
    );
}

#[test]
fn rejects_an_unknown_level() {
    let line = String::from(
        "2026-09-15T10:20:30Z TRACE \
         token=abc message=Started",
    );

    let result = validate_line(&line);

    assert_eq!(result, Err("unsupported log level `TRACE`".to_string()));
}

#[test]
fn generates_log_lines_from_sample() {
    let line = "2026-09-15T10:20:30Z INFO token=abc123 message=Server started";

    let generated = generate_log_line(line, 0).unwrap();

    assert_eq!(
        generated,
        "2026-09-15T10:20:30Z INFO token=abc123-1 message=Server started [copy 1]"
    );

    let next = generate_log_line(line, 59).unwrap();

    assert_eq!(
        next,
        "2026-09-15T10:21:29Z INFO token=abc123-60 message=Server started [copy 60]"
    );
}

#[test]
fn normalize_keeps_inner_and_leading_whitespace() {
    assert_eq!(normalize(String::from("  a b \t\r\n")), "  a b");
    assert_eq!(normalize(String::from("x\u{a0}\u{3000}")), "x");
    assert_eq!(normalize(String::from(" \t ")), "");
    assert_eq!(normalize(String::new()), "");
}

#[test]
fn reports_each_missing_field() {
    assert_eq!(parse_fields("ts").unwrap_err(), "missing log level");
    assert_eq!(parse_fields("ts INFO").unwrap_err(), "missing token field");
    assert_eq!(parse_fields("ts INFO token=a").unwrap_err(), "missing message field");
    assert_eq!(
        parse_fields("ts INFO tok=a message=b").unwrap_err(),
        "token field must start with `token=`"
    );
    assert_eq!(
        parse_fields("ts INFO token=a msg=b").unwrap_err(),
        "message field must start with `message=`"
    );
    assert_eq!(parse_fields("ts INFO token= message=b").unwrap_err(), "token cannot be empty");
    assert_eq!(parse_fields("ts INFO token=a message=").unwrap_err(), "message cannot be empty");
}

#[test]
fn message_keeps_its_spaces_and_token_is_split_off() {
    let (ts, level, token, message) =
        parse_template_fields("t\u{e9} L token=k\u{e9}y message=a b  c").unwrap();
    assert_eq!(ts, "t\u{e9}");
    assert_eq!(level, "L");
    assert_eq!(token, "k\u{e9}y");
    assert_eq!(message, "a b  c");
}

#[test]
fn validation_errors() {
    assert_eq!(
        validate_line("2026-09-15 INFO token=a message=b"),
        Err("invalid timestamp `2026-09-15`".to_string())
    );
    assert_eq!(
        validate_line("2026-09-15T10:20:30Z INFO token=a message=\u{2003} "),
        Err("message cannot be empty".to_string())
    );
    assert_eq!(validate_line("2026-09-15T10:20:30Z WARN token=a message=b"), Ok(()));
    assert_eq!(validate_line("2026-09-15T10:20:30Z DEBUG token=a message=b"), Ok(()));
    assert_eq!(validate_line("2026-09-15T10:20:30Z ERROR token=a message=b"), Ok(()));
}

#[test]
fn redaction_masks_one_star_per_character() {
    let mut line = String::from("a token=h\u{e9}llo");
    redact_token(&mut line).unwrap();
    assert_eq!(line, "a token=*****");

    let mut missing = String::from("no secret here");
    assert_eq!(redact_token(&mut missing), Err("missing token field".to_string()));
    assert_eq!(missing, "no secret here");

    let mut empty = String::from("x token= message=y");
    assert_eq!(redact_token(&mut empty), Err("token cannot be empty".to_string()));
    assert_eq!(empty, "x token= message=y");
}

#[test]
fn processes_a_line_with_offsets() {
    let processed =
        process_line(String::from("2026-09-15T10:20:30Z INFO token=abc123 message=Server started  "))
            .unwrap();
    assert_eq!(
        processed.text(),
        "2026-09-15T10:20:30Z INFO token=****** message=Server started"
    );
    assert_eq!(processed.timestamp_offset(), 0);
    assert_eq!(processed.level_offset(), 21);
    assert_eq!(processed.message_offset(), 47);
    let (ts, level, message) = processed.fields();
    assert_eq!(ts, "2026-09-15T10:20:30Z");
    assert_eq!(level, "INFO");
    assert_eq!(message, "Server started");
    assert_eq!(
        processed.output_line(),
        "INFO  2026-09-15T10:20:30Z | Server started [offsets: timestamp=0, level=21, message=40]"
    );
    let long = process_line(String::from("2026-09-15T10:20:30Z ERROR token=k message=m")).unwrap();
    assert_eq!(
        long.output_line(),
        "ERROR 2026-09-15T10:20:30Z | m [offsets: timestamp=0, level=21, message=36]"
    );

    assert_eq!(
        process_line(String::from("bad")).err(),
        Some("missing log level".to_string())
    );
}

#[test]
fn reads_timestamp_components() {
    assert_eq!(parse_timestamp_components("2026-09-15T10:20:30Z"), Ok((10, 20, 30)));
    assert_eq!(parse_timestamp_components("2026-09-15T+1:+2:+3Z"), Ok((1, 2, 3)));
    assert_eq!(
        parse_timestamp_components("2026-09-15T1x:20:30Z"),
        Err("invalid timestamp `2026-09-15T1x:20:30Z`".to_string())
    );
    assert_eq!(
        parse_timestamp_components("2026-09-15 10:20:30Z"),
        Err("invalid timestamp `2026-09-15 10:20:30Z`".to_string())
    );
}

#[test]
fn shifts_timestamps_across_midnight() {
    assert_eq!(
        format_timestamp("2026-09-15T23:59:30Z", 45).unwrap(),
        "2026-09-15T00:00:15Z"
    );
    assert_eq!(format_timestamp("2026-09-15T10:20:30Z", 0).unwrap(), "2026-09-15T10:20:30Z");
    assert_eq!(
        format_timestamp("2026-09-15T10:20:30Z", 86_400 * 3 + 61).unwrap(),
        "2026-09-15T10:21:31Z"
    );
}

#[test]
fn generates_entries_in_turn() {
    let templates = vec![
        String::from("2026-09-15T10:20:30Z INFO token=abc123 message=Server started"),
        String::from(
            "2026-09-15T10:21:04Z WARN token=user-456 message=Disk usage is above 80%",
        ),
    ];
    assert_eq!(check_templates(&templates), Ok(()));
    assert_eq!(check_templates(&[]), Err("sample log is empty".to_string()));
    let first = generate_entry(&templates, 0).unwrap();
    let second = generate_entry(&templates, 1).unwrap();
    let third = generate_entry(&templates, 2).unwrap();
    assert!(first.contains("token=abc123-1"));
    assert_eq!(
        second,
        "2026-09-15T10:21:05Z WARN token=user-456-2 message=Disk usage is above 80% [copy 2]"
    );
    assert_eq!(
        third,
        "2026-09-15T10:20:32Z INFO token=abc123-3 message=Server started [copy 3]"
    );
}

#[test]
fn generated_lines_parse_and_validate_again() {
    let template = "2026-09-15T23:59:58Z WARN token=t\u{e9}st message=Disk almost full";
    let generated = generate_log_line(template, 4).unwrap();
    assert_eq!(
        generated,
        "2026-09-15T00:00:02Z WARN token=t\u{e9}st-5 message=Disk almost full [copy 5]"
    );
    let (ts, level, token, message) = parse_template_fields(&generated).unwrap();
    assert_eq!(ts, "2026-09-15T00:00:02Z");
    assert_eq!(level, "WARN");
    assert_eq!(token, "t\u{e9}st-5");
    assert_eq!(message, "Disk almost full [copy 5]");
    assert_eq!(validate_line(&generated), Ok(()));

    let odd = generate_log_line("2026-09-15T10:20:30Z NOTE token=a message=b", 0).unwrap();
    assert_eq!(validate_line(&odd), Err("unsupported log level `NOTE`".to_string()));
}

#[test]
fn assembled_fields_split_back() {
    let line = format!("{} {} token={} message={}", "ts\u{1f600}", "LVL", "k", " spaced  message ");
    let (ts, level, token, message) = parse_template_fields(&line).unwrap();
    assert_eq!((ts, level, token, message), ("ts\u{1f600}", "LVL", "k", " spaced  message "));
}

#[test]
fn redacting_twice_changes_nothing_more() {
    let mut line = String::from("2026-09-15T10:20:30Z INFO token=abc123 message=token=again");
    redact_token(&mut line).unwrap();
    let once = line.clone();
    redact_token(&mut line).unwrap();
    assert_eq!(line, once);
    assert_eq!(once, "2026-09-15T10:20:30Z INFO token=****** message=token=again");
}

#[test]
fn normalizing_twice_changes_nothing_more() {
    let once = normalize(String::from("a line \u{2028}\u{85}"));
    assert_eq!(once, "a line");
    assert_eq!(normalize(once.clone()), once);
}

#[test]
fn normalize_agrees_with_trim_end_on_every_character() {
    for code in 0u32..0x3100 {
        if let Some(c) = char::from_u32(code) {
            let line = format!("a{c}");
            assert_eq!(normalize(line.clone()), line.trim_end(), "character {code:#x}");
        }
    }
}

#[test]
fn shifting_twice_adds_the_shifts() {
    for base in ["2026-09-15T10:20:30Z", "2026-09-15T23:59:30Z", "2026-09-15T00:00:00Z"] {
        for (a, c) in [(0usize, 0usize), (45, 30), (86_399, 2), (3_600, 86_400 * 2 + 7)] {
            let once = format_timestamp(base, a).unwrap();
            assert_eq!(
                format_timestamp(&once, c).unwrap(),
                format_timestamp(base, a + c).unwrap()
            );
        }
    }
    let once = format_timestamp("2026-09-15T23:59:30Z", 45).unwrap();
    assert_eq!(format_timestamp(&once, 60).unwrap(), "2026-09-15T00:01:15Z");
}

#[test]
fn redaction_forgets_the_token_value() {
    let mut first = String::from("2026-09-15T10:20:30Z INFO token=abc123 message=hi");
    let mut second = String::from("2026-09-15T10:20:30Z INFO token=zz\u{e9}999 message=hi");
    redact_token(&mut first).unwrap();
    redact_token(&mut second).unwrap();
    assert_eq!(first, second);
    assert_eq!(first, "2026-09-15T10:20:30Z INFO token=****** message=hi");
}

#[test]
fn processing_forgets_the_token_value() {
    let first = process_line(String::from(
        "2026-09-15T10:20:30Z WARN token=h\u{e9}llo message=Disk usage is above 80%  ",
    ))
    .unwrap();
    let second = process_line(String::from(
        "2026-09-15T10:20:30Z WARN token=abcde message=Disk usage is above 80%",
    ))
    .unwrap();
    assert_eq!(first.text(), second.text());
    assert_eq!(first.output_line(), second.output_line());
    assert_eq!(
        first.output_line(),
        "WARN  2026-09-15T10:20:30Z | Disk usage is above 80% [offsets: timestamp=0, level=21, message=39]"
    );
    assert_eq!(
        process_line(String::from("bad token=abc message=x")).err(),
        process_line(String::from("bad token=xyz message=x")).err()
    );
}
