use rupert::configuration::{interpolate, Command, Commands};
use rupert::navigation::{navigate, Key, Step};

fn pairs(p: &[(&str, &str)]) -> Vec<(String, String)> {
    p.iter().map(|(k, v)| (k.to_string(), v.to_string())).collect()
}

#[test]
fn interpolate_simple() {
    assert_eq!(
        "replacement 1, replacement 2, ${r3}",
        interpolate("${r1}, ${r2}, ${r3}", &pairs(&[("r1", "replacement 1"), ("r2", "replacement 2")])),
    );
}

#[test]
fn interpolate_edge_cases() {
    let reps = pairs(&[("a", "X"), ("a", "Y")]);
    assert_eq!("X", interpolate("${a}", &reps));
    assert_eq!("$a ${a", interpolate("$a ${a", &reps));
    assert_eq!("", interpolate("", &reps));
    assert_eq!("XX", interpolate("${a}${a}", &reps));
    assert_eq!("${}", interpolate("${}", &reps));
    assert_eq!("E", interpolate("${}", &pairs(&[("", "E")])));
}

#[test]
fn initialize_interpolates_the_path() {
    let commands = Commands {
        initialize: Some(Command {
            binary: "notify".to_string(),
            arguments: vec!["--file=${presentation.path}".to_string(), "${other}".to_string()],
        }),
    };
    let (binary, args) = commands.initialize("/tmp/p.md").unwrap();
    assert_eq!("notify", binary);
    assert_eq!(vec!["--file=/tmp/p.md".to_string(), "${other}".to_string()], args);
    assert!(Commands { initialize: None }.initialize("/tmp/p.md").is_none());
}

#[test]
fn navigation_stops_at_both_ends() {
    assert_eq!(Step::Show(0), navigate(0, 3, Key::Previous));
    assert_eq!(Step::Show(1), navigate(2, 3, Key::Previous));
    assert_eq!(Step::Show(2), navigate(2, 3, Key::Next));
    assert_eq!(Step::Show(1), navigate(0, 3, Key::Next));
    assert_eq!(Step::Show(1), navigate(1, 3, Key::Other));
    assert_eq!(Step::Quit, navigate(1, 3, Key::Quit));
}
