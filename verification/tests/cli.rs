use lib::cli::{parse_args, ArgError, Config};

fn args(list: &[&str]) -> Vec<String> {
    list.iter().map(|s| s.to_string()).collect()
}

#[test]
fn defaults_without_options() {
    let c = parse_args(&args(&["raytracer"])).unwrap();
    assert_eq!(c.width, 400);
    assert_eq!(c.height, 225);
    assert_eq!(c.samples, 20);
    assert_eq!(c.depth, 20);
    assert_eq!(c.out, "render.ppm");
}

#[test]
fn defaults_with_empty_list() {
    let c = parse_args(&Vec::new()).unwrap();
    assert_eq!(c.width, 400);
    assert_eq!(c.out, "render.ppm");
}

#[test]
fn defaults_function() {
    let c = Config::defaults();
    assert_eq!((c.width, c.height, c.samples, c.depth), (400, 225, 20, 20));
    assert_eq!(c.out, "render.ppm");
}

#[test]
fn all_options_set() {
    let c = parse_args(&args(&[
        "raytracer", "--width", "640", "--height", "480", "--samples", "5", "--depth", "-3", "--out", "x.ppm",
    ]))
    .unwrap();
    assert_eq!((c.width, c.height, c.samples, c.depth), (640, 480, 5, -3));
    assert_eq!(c.out, "x.ppm");
}

#[test]
fn later_option_overrides_earlier() {
    let c = parse_args(&args(&["raytracer", "--width", "10", "--width", "20"])).unwrap();
    assert_eq!(c.width, 20);
}

#[test]
fn unknown_options_skip_their_value() {
    let c = parse_args(&args(&["raytracer", "--fast", "--width", "--width", "30"])).unwrap();
    assert_eq!(c.width, 30);
}

#[test]
fn trailing_argument_is_ignored() {
    let c = parse_args(&args(&["raytracer", "--width", "50", "--height"])).unwrap();
    assert_eq!(c.width, 50);
    assert_eq!(c.height, 225);
    let c = parse_args(&args(&["raytracer", "--width", "50", "oops"])).unwrap();
    assert_eq!(c.width, 50);
}

#[test]
fn each_numeric_option_reports_bad_value() {
    assert_eq!(parse_args(&args(&["r", "--width", "wide"])).err(), Some(ArgError::Width));
    assert_eq!(parse_args(&args(&["r", "--height", "-1"])).err(), Some(ArgError::Height));
    assert_eq!(parse_args(&args(&["r", "--samples", "4294967296"])).err(), Some(ArgError::Samples));
    assert_eq!(parse_args(&args(&["r", "--depth", "2147483648"])).err(), Some(ArgError::Depth));
}

#[test]
fn first_failure_stops_reading() {
    let r = parse_args(&args(&["r", "--depth", "x", "--width", "y"]));
    assert_eq!(r.err(), Some(ArgError::Depth));
}

#[test]
fn out_takes_any_text() {
    let c = parse_args(&args(&["r", "--out", "--width"])).unwrap();
    assert_eq!(c.out, "--width");
    assert_eq!(c.width, 400);
}

#[test]
fn apply_one_option() {
    let c = Config::defaults().apply(&"--samples".to_string(), &"+8".to_string()).unwrap();
    assert_eq!(c.samples, 8);
    let c = Config::defaults().apply(&"--other".to_string(), &"1".to_string()).unwrap();
    assert_eq!(c.samples, 20);
}
