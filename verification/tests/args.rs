use agent_spy::args::{parse_args, Args, Parsed, USAGE};

fn parse(args: &[&str]) -> Parsed {
    parse_args(&args.iter().map(|arg| arg.to_string()).collect())
}

fn accepted(args: &[&str]) -> Args {
    match parse(args) {
        Parsed::Run(args) => args,
        Parsed::Help => panic!("help"),
        Parsed::UsageError(message) => panic!("{message}"),
    }
}

fn complaint(args: &[&str]) -> String {
    match parse(args) {
        Parsed::UsageError(message) => message,
        _ => panic!("no complaint"),
    }
}

#[test]
fn the_current_directory_is_the_default() {
    let args = accepted(&[]);
    assert_eq!(args.dir, ".");
    assert!(!args.existing);
    assert!(!args.recursive);
}

#[test]
fn options_have_two_forms() {
    for (option, existing, recursive) in
        [("-e", true, false), ("--existing", true, false), ("-r", false, true), ("--recursive", false, true)]
    {
        let args = accepted(&[option]);
        assert_eq!((args.existing, args.recursive), (existing, recursive));
        assert_eq!(args.dir, ".");
    }
}

#[test]
fn options_and_directory_in_any_order() {
    for order in [["-e", "-r", "plots"], ["plots", "-r", "-e"], ["-r", "plots", "--existing"]] {
        let args = accepted(&order);
        assert_eq!(args.dir, "plots");
        assert!(args.existing && args.recursive);
    }
    assert_eq!(accepted(&[""]).dir, "");
}

#[test]
fn help_comes_first() {
    assert!(matches!(parse(&["-h"]), Parsed::Help));
    assert!(matches!(parse(&["-e", "--help", "--nonsense"]), Parsed::Help));
    assert!(matches!(parse(&["a", "-h", "b"]), Parsed::Help));
}

#[test]
fn unknown_options() {
    assert_eq!(complaint(&["-x"]), "unknown option -x");
    assert_eq!(complaint(&["-"]), "unknown option -");
    assert_eq!(complaint(&["dir", "--exist", "-h"]), "unknown option --exist");
}

#[test]
fn only_one_directory() {
    assert_eq!(complaint(&["a", "b"]), "only one directory can be watched");
    assert_eq!(complaint(&["a", "-e", "a", "-h"]), "only one directory can be watched");
}

#[test]
fn what_follows_a_decision_does_not_matter() {
    for rest in [vec![], vec!["-h"], vec!["-x", "a"], vec!["b", "c"]] {
        let with = |first: &[&'static str]| [first, &rest[..]].concat();
        assert!(matches!(parse(&with(&["--help"])), Parsed::Help));
        assert_eq!(complaint(&with(&["-r", "-y"])), "unknown option -y");
        assert_eq!(complaint(&with(&["a", "b"])), "only one directory can be watched");
    }
}

#[test]
fn usage_names_the_options_and_keys() {
    for part in ["[DIR]", "--existing", "--recursive", "--help", "Left / Right", "Home / End", "Esc / q"] {
        assert!(USAGE.contains(part));
    }
}
