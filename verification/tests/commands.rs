use xaffinity::command::{join_command_line, substitute};
use xaffinity::{Affinity, AffinityPair, Config, Monitor, ProcessSpec};

fn primary() -> Monitor {
    Monitor {
        x: 0,
        y: 0,
        width: 1920,
        height: 1080,
        primary: true,
        name: "PRIMARY".into(),
    }
}

fn large() -> Monitor {
    Monitor {
        x: 1920,
        y: 0,
        width: 3440,
        height: 1440,
        primary: false,
        name: "LARGE".into(),
    }
}

fn top() -> Monitor {
    Monitor {
        x: 0,
        y: 1440,
        width: 1024,
        height: 768,
        primary: false,
        name: "TOP".into(),
    }
}

#[test]
fn test_get_commands_for_monitors_single() {
    let config = Config {
        cmd: "foobar".into(),
        args: Some(vec!["baz".into()]),
        affinities: vec![AffinityPair(Affinity::Largest, true)],
        allow_multiple: false,
        env: Some("MONITOR".into()),
    };
    let commands = config.get_commands_for_monitors(&[primary(), large()]);
    assert_eq!(1, commands.len());
    assert_eq!(
        commands[0].render(),
        r#"MONITOR="LARGE" "foobar" "baz""#
    );
}

#[test]
fn test_get_commands_for_monitors_multiple() {
    let config = Config {
        cmd: "foobar".into(),
        args: Some(vec!["baz".into()]),
        affinities: vec![AffinityPair(Affinity::Nonprimary, true)],
        allow_multiple: true,
        env: Some("MONITOR".into()),
    };
    let commands = config.get_commands_for_monitors(&[top(), large()]);
    assert_eq!(2, commands.len());
    assert_eq!(
        commands[0].render(),
        r#"MONITOR="LARGE" "foobar" "baz""#
    );
    assert_eq!(
        commands[1].render(),
        r#"MONITOR="TOP" "foobar" "baz""#
    );
}

fn plain(cmd: &str, args: Option<Vec<&str>>, multiple: bool, env: Option<&str>) -> Config {
    Config {
        cmd: cmd.into(),
        args: args.map(|a| a.into_iter().map(String::from).collect()),
        affinities: vec![AffinityPair(Affinity::Nonprimary, true)],
        allow_multiple: multiple,
        env: env.map(String::from),
    }
}

#[test]
fn the_placeholder_is_replaced_wherever_it_stands() {
    assert_eq!(substitute("%s", "DP-1"), "DP-1");
    assert_eq!(substitute("--name=%s", "DP-1"), "--name=DP-1");
    assert_eq!(substitute("%s-main", "DP-1"), "DP-1-main");
    assert_eq!(substitute("%s%s", "ab"), "abab");
    assert_eq!(substitute("a%sb%sc", "-"), "a-b-c");
    assert_eq!(substitute("baz", "DP-1"), "baz");
    assert_eq!(substitute("", "DP-1"), "");
    assert_eq!(substitute("%", "DP-1"), "%");
    assert_eq!(substitute("100%", "DP-1"), "100%");
    assert_eq!(substitute("s%", "DP-1"), "s%");
    assert_eq!(substitute("%S", "DP-1"), "%S");
    assert_eq!(substitute("% s", "DP-1"), "% s");
    assert_eq!(substitute("%%s", "DP-1"), "%DP-1");
    assert_eq!(substitute("%ss", "DP-1"), "DP-1s");
    assert_eq!(substitute("%s", ""), "");
    assert_eq!(substitute("%s", "%s"), "%s");
    assert_eq!(substitute("x%s", "%"), "x%");
    assert_eq!(substitute("\u{e9}%s\u{1f5a5}", "\u{e8}"), "\u{e9}\u{e8}\u{1f5a5}");
    for arg in ["", "%s", "a%sb", "%%s%", "no placeholder", "\u{fc}%s%s"] {
        for name in ["", "X", "HDMI-1", "%s"] {
            assert_eq!(substitute(arg, name), arg.replace("%s", name));
        }
    }
}

#[test]
fn a_process_takes_program_arguments_and_variable_from_the_template() {
    let t = plain("xrandr", Some(vec!["--output", "%s", "--mode=%s"]), false, Some("MON"));
    let p = t.process_for(&large());
    assert_eq!(p.program, "xrandr");
    assert_eq!(p.argv, ["--output", "LARGE", "--mode=LARGE"]);
    assert_eq!(p.env, [("MON".to_string(), "LARGE".to_string())]);
    let bare = plain("true", None, false, None).process_for(&top());
    assert_eq!(bare.program, "true");
    assert!(bare.argv.is_empty());
    assert!(bare.env.is_empty());
    let empty = plain("%s", Some(vec![]), true, Some("%s")).process_for(&top());
    assert_eq!(empty.program, "%s");
    assert!(empty.argv.is_empty());
    assert_eq!(empty.env, [("%s".to_string(), "TOP".to_string())]);
}

#[test]
fn nothing_is_materialized_for_an_empty_selection() {
    assert!(plain("foobar", Some(vec!["%s"]), false, None).materialize(&[]).is_empty());
    assert!(plain("foobar", Some(vec!["%s"]), true, None).materialize(&[]).is_empty());
    let t = Config {
        cmd: "foobar".into(),
        args: None,
        affinities: vec![AffinityPair(Affinity::Portrait, true)],
        allow_multiple: true,
        env: None,
    };
    assert!(t.get_commands_for_monitors(&[primary(), large(), top()]).is_empty());
}

#[test]
fn one_process_is_materialized_unless_several_are_allowed() {
    let selection = [large(), primary(), top()];
    let one = plain("foobar", Some(vec!["%s"]), false, None).materialize(&selection);
    assert_eq!(one.len(), 1);
    assert_eq!(one[0].argv, ["LARGE"]);
    let all = plain("foobar", Some(vec!["%s"]), true, None).materialize(&selection);
    assert_eq!(all.len(), 3);
    assert_eq!(all[0].argv, ["LARGE"]);
    assert_eq!(all[1].argv, ["PRIMARY"]);
    assert_eq!(all[2].argv, ["TOP"]);
    let unsorted = [top(), large()];
    let kept = plain("foobar", None, true, Some("M")).materialize(&unsorted);
    assert_eq!(kept[0].env[0].1, "TOP");
    assert_eq!(kept[1].env[0].1, "LARGE");
    let first = plain("foobar", None, false, Some("M")).materialize(&unsorted);
    assert_eq!(first.len(), 1);
    assert_eq!(first[0].env[0].1, "TOP");
}

#[test]
fn commands_follow_the_selection() {
    let t = Config {
        cmd: "foobar".into(),
        args: Some(vec!["baz".into()]),
        affinities: vec![AffinityPair(Affinity::Nonprimary, true)],
        allow_multiple: false,
        env: Some("MONITOR".into()),
    };
    let commands = t.get_commands_for_monitors(&[top(), primary(), large()]);
    assert_eq!(commands.len(), 1);
    assert_eq!(commands[0].render(), r#"MONITOR="LARGE" "foobar" "baz""#);
    let largest = Config {
        cmd: "foobar".into(),
        args: None,
        affinities: vec![AffinityPair(Affinity::Largest, true)],
        allow_multiple: true,
        env: None,
    };
    let commands = largest.get_commands_for_monitors(&[primary(), large()]);
    assert_eq!(commands.len(), 1);
    assert_eq!(commands[0].render(), r#""foobar""#);
    let none = Config {
        cmd: "foobar".into(),
        args: None,
        affinities: vec![AffinityPair(Affinity::Bottommost, false)],
        allow_multiple: true,
        env: None,
    };
    assert!(none.get_commands_for_monitors(&[top()]).is_empty());
}

#[test]
fn a_rendering_quotes_what_it_shows() {
    let p = ProcessSpec {
        program: "my prog".into(),
        argv: vec!["a\"b".into(), "c\\d".into(), "".into(), "tab\there".into()],
        env: vec![("A".into(), "1 2".into()), ("B".into(), "'".into())],
    };
    assert_eq!(
        p.render(),
        "A=\"1 2\" B=\"'\" \"my prog\" \"a\\\"b\" \"c\\\\d\" \"\" \"tab\\there\""
    );
    let bare = ProcessSpec { program: "ls".into(), argv: vec![], env: vec![] };
    assert_eq!(bare.render(), "\"ls\"");
    assert_eq!(bare.render(), format!("{:?}", "ls"));
}

#[test]
fn a_command_line_joins_its_pieces() {
    let env = vec![("A".to_string(), "1".to_string()), ("B".to_string(), "".to_string())];
    let args = vec!["x".to_string(), "".to_string(), "y z".to_string()];
    assert_eq!(join_command_line(&env, "p", &args), "A=1 B= p x  y z");
    assert_eq!(join_command_line(&vec![], "p", &vec![]), "p");
    assert_eq!(join_command_line(&vec![], "", &vec![]), "");
    assert_eq!(join_command_line(&env, "", &vec![]), "A=1 B= ");
    assert_eq!(join_command_line(&vec![], "p", &args), "p x  y z");
}
