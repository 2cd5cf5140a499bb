use zero_copy_log_parser::bench::{exe_name, heavy_computation, run_sequential};
use zero_copy_log_parser::cli::{generator_args, generator_usage, parser_args, parser_usage};
use zero_copy_log_parser::lookup::{get_username_by_id, parse_port};
use zero_copy_log_parser::sequences::{doubled_even_sum_fits, sum_of_doubled_evens, MyRange};
use zero_copy_log_parser::traffic_light::{Light, TrafficLight};

#[test]
fn looks_up_users() {
    assert_eq!(get_username_by_id(1), Some("Alice".to_string()));
    assert_eq!(get_username_by_id(2), Some("Bob".to_string()));
    assert_eq!(get_username_by_id(3), None);
}

#[test]
fn reads_ports() {
    assert_eq!(parse_port("8080"), Ok(8080));
    assert_eq!(parse_port("+1024"), Ok(1024));
    assert_eq!(parse_port("65535"), Ok(65535));
    assert_eq!(
        parse_port("invalid"),
        Err("Invalid port format: invalid digit found in string".to_string())
    );
    assert_eq!(
        parse_port(""),
        Err("Invalid port format: cannot parse integer from empty string".to_string())
    );
    assert_eq!(
        parse_port("65536"),
        Err("Invalid port format: number too large to fit in target type".to_string())
    );
    assert_eq!(
        parse_port("-1"),
        Err("Invalid port format: invalid digit found in string".to_string())
    );
    assert_eq!(
        parse_port("80"),
        Err("Port 80 is outside valid range (1024-65535)".to_string())
    );
    assert_eq!(
        parse_port("0"),
        Err("Port 0 is outside valid range (1024-65535)".to_string())
    );
}

#[test]
fn port_errors_match_std() {
    for text in ["", "+", "-", "12a", "99999", "+80", "80 ", "007"] {
        let ours = parse_port(text);
        let theirs = text
            .parse::<u16>()
            .map_err(|e| format!("Invalid port format: {}", e))
            .and_then(|port| {
                if port > 1023 {
                    Ok(port)
                } else {
                    Err(format!("Port {} is outside valid range (1024-65535)", port))
                }
            });
        assert_eq!(ours, theirs, "input {text:?}");
    }
}

#[test]
fn cycles_the_traffic_light() {
    let mut light = TrafficLight::new();
    assert_eq!(light.state(), Light::Red);
    assert_eq!(light.report_status(), "Light is RED. STOP! 🛑");
    assert_eq!(light.change_state(), "Changing from Red to Green... 🚦");
    assert_eq!(light.report_status(), "Light is GREEN. GO! 🟢");
    assert_eq!(light.change_state(), "Changing from Green to Yellow... 🚦");
    assert_eq!(light.report_status(), "Light is YELLOW. PREPARE TO STOP! 🟠");
    assert_eq!(light.change_state(), "Changing from Yellow to Red... 🚦");
    assert_eq!(light.state(), Light::Red);
}

#[test]
fn computes_the_workload() {
    assert_eq!(heavy_computation(0), 0);
    assert_eq!(heavy_computation(7), 7_000_000);
}

#[test]
fn names_executables() {
    assert_eq!(exe_name("run-all", false), "run-all");
    assert_eq!(exe_name("run-all", true), "run-all.exe");
}

#[test]
fn runs_sequentially() {
    let runs = std::cell::RefCell::new(Vec::new());
    let run = |k: usize| runs.borrow_mut().push(k);
    let _ = run_sequential(&run, 4);
    assert_eq!(*runs.borrow(), vec![0, 1, 2, 3]);
}

#[test]
fn sums_doubled_evens_and_ranges() {
    let numbers = [1, 2, 3, 4, 5, 6, 7, 8, 9, 10];
    assert!(doubled_even_sum_fits(&numbers));
    assert_eq!(sum_of_doubled_evens(&numbers), 60);
    assert!(!doubled_even_sum_fits(&[u32::MAX - 1, 2]));
    let range = MyRange { current: 1, end: 5 };
    assert!(range.sum_fits());
    assert_eq!(range.sum(), 10);
    assert!(!MyRange { current: 0, end: 100_000 }.sum_fits());
    let mut counting = MyRange { current: 3, end: 5 };
    assert_eq!(counting.next(), Some(3));
    assert_eq!(counting.next(), Some(4));
    assert_eq!(counting.next(), None);
    assert_eq!(counting.next(), None);
}

fn strings(args: &[&str]) -> Vec<String> {
    args.iter().map(|a| a.to_string()).collect()
}

#[test]
fn reads_parser_arguments() {
    assert_eq!(parser_args(&strings(&["app.log"])), Ok("app.log".to_string()));
    assert_eq!(parser_args(&strings(&[])), Err(parser_usage()));
    assert_eq!(parser_args(&strings(&["a", "b"])), Err(parser_usage()));
    assert_eq!(parser_usage(), "usage: zero-copy-log-parser <log-file>");
}

#[test]
fn reads_generator_arguments() {
    let args = generator_args(&strings(&["sample.log", "out.log"])).ok().unwrap();
    assert_eq!((args.sample_path.as_str(), args.output_path.as_str(), args.count), ("sample.log", "out.log", 500));
    let args = generator_args(&strings(&["s", "o", "42"])).ok().unwrap();
    assert_eq!(args.count, 42);
    assert_eq!(generator_args(&strings(&["s"])).err(), Some(generator_usage()));
    assert_eq!(
        generator_args(&strings(&["s", "o", "many", "x"])).err(),
        Some("invalid count `many`: invalid digit found in string".to_string())
    );
    assert_eq!(generator_args(&strings(&["s", "o", "3", "x"])).err(), Some(generator_usage()));
    assert_eq!(generator_usage(), "usage: generate <sample-log> <output-log> [count]");
}

#[test]
fn printed_ports_read_back() {
    for port in [0u16, 1023, 1024, 8080, 65535] {
        let result = parse_port(&port.to_string());
        if port > 1023 {
            assert_eq!(result, Ok(port));
        } else {
            assert_eq!(result, Err(format!("Port {port} is outside valid range (1024-65535)")));
        }
    }
}
