use renumber::args::{clap, resolve_start, Config, Parsed};

fn args(items: &[&str]) -> Vec<Vec<u8>> {
    items.iter().map(|s| s.as_bytes().to_vec()).collect()
}

fn run(items: &[&str]) -> Config {
    match clap(&args(items)) {
        Parsed::Run(c) => c,
        _ => panic!("expected a runnable configuration"),
    }
}

#[test]
fn files_alone_preview_mode() {
    let c = run(&["a.txt", "b.txt"]);
    assert!(!c.do_it);
    assert!(!c.verbose);
    assert_eq!(c.start_arg, None);
    assert_eq!(c.files, args(&["a.txt", "b.txt"]));
}

#[test]
fn do_it_and_verbose_flags() {
    let c = run(&["--do-it", "-v", "x"]);
    assert!(c.do_it);
    assert!(c.verbose);
    let c = run(&["--verbose", "x"]);
    assert!(!c.do_it);
    assert!(c.verbose);
}

#[test]
fn start_takes_next_argument() {
    let c = run(&["-s", "5", "x"]);
    assert_eq!(c.start_arg, Some(b"5".to_vec()));
    assert_eq!(c.files, args(&["x"]));
    let c = run(&["--start", "12", "x"]);
    assert_eq!(c.start_arg, Some(b"12".to_vec()));
}

#[test]
fn start_without_value_is_usage_error() {
    assert!(matches!(clap(&args(&["x", "-s"])), Parsed::Usage));
}

#[test]
fn no_files_is_usage_error() {
    assert!(matches!(clap(&args(&[])), Parsed::Usage));
    assert!(matches!(clap(&args(&["--do-it"])), Parsed::Usage));
}

#[test]
fn unknown_flag_is_usage_error() {
    assert!(matches!(clap(&args(&["-z", "x"])), Parsed::Usage));
    assert!(matches!(clap(&args(&["--nope", "x"])), Parsed::Usage));
}

#[test]
fn help_flag_wins() {
    assert!(matches!(clap(&args(&["-H"])), Parsed::Help));
    assert!(matches!(clap(&args(&["--help", "x"])), Parsed::Help));
}

#[test]
fn lone_dash_is_a_file() {
    let c = run(&["-"]);
    assert_eq!(c.files, args(&["-"]));
}

#[test]
fn start_resolution() {
    assert_eq!(resolve_start(&None), Some(0));
    assert_eq!(resolve_start(&Some(b"5".to_vec())), Some(5));
    assert_eq!(resolve_start(&Some(b"+41".to_vec())), Some(41));
    assert_eq!(resolve_start(&Some(b"abc".to_vec())), None);
    assert_eq!(resolve_start(&Some(b"".to_vec())), None);
}
