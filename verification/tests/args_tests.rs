use flirpi::args::find_arg;

fn args(v: &[&str]) -> Vec<String> {
    v.iter().map(|s| s.to_string()).collect()
}

#[test]
fn finds_value_after_flag() {
    let a = args(&["flirpi", "--fb", "/dev/fb1"]);
    assert_eq!(find_arg(&a, "--fb"), Some("/dev/fb1"));
}

#[test]
fn missing_flag_gives_none() {
    let a = args(&["flirpi"]);
    assert_eq!(find_arg(&a, "--fb"), None);
}

#[test]
fn flag_without_value_gives_none() {
    let a = args(&["flirpi", "--fb"]);
    assert_eq!(find_arg(&a, "--fb"), None);
}

#[test]
fn first_occurrence_wins() {
    let a = args(&["flirpi", "--fb", "/dev/fb1", "--fb", "/dev/fb2"]);
    assert_eq!(find_arg(&a, "--fb"), Some("/dev/fb1"));
}

#[test]
fn value_may_look_like_a_flag() {
    let a = args(&["--fb", "--fb"]);
    assert_eq!(find_arg(&a, "--fb"), Some("--fb"));
}

#[test]
fn prefix_is_not_a_match() {
    let a = args(&["--fbx", "a", "--f", "b"]);
    assert_eq!(find_arg(&a, "--fb"), None);
}
