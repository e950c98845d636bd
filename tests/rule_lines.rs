use mdev_conf::{
    parse, parse_line, parse_with_rejections, Command, Conf, ConfError, DeviceRegex, EnvMatch,
    ErrorKind, Filter, MajMin, OnCreation, WhenToRun,
};
use regex::Regex;

fn regex(s: &str) -> Regex {
    Regex::new(s).unwrap()
}

fn rule(line: &str) -> Conf {
    match parse_line(line) {
        Ok(Some(c)) => c,
        other => panic!("{line:?} gave {other:?}"),
    }
}

fn kind(line: &str) -> ErrorKind {
    match parse_line(line) {
        Err(e) => e.error_kind(),
        other => panic!("{line:?} gave {other:?}"),
    }
}

fn device(pattern: &str) -> Filter {
    DeviceRegex { envvar: None, regex: regex(pattern) }.into()
}

#[test]
fn null_device_with_command() {
    let expected = Conf {
        stop: true,
        envmatches: vec![],
        filter: device("null"),
        user: "root".into(),
        group: "root".into(),
        mode: 0o666,
        on_creation: None,
        command: Some(Command {
            when: WhenToRun::After,
            path: "chmod".into(),
            args: vec!["666".into(), "$MDEV".into()],
        }),
    };
    assert_eq!(rule("null root:root 666 @chmod 666 $MDEV"), expected);
}

#[test]
fn env_filter_keeps_quotes_in_arguments() {
    let c = rule("$MODALIAS=.* root:root 660 @modprobe -b \"$MODALIAS\"");
    assert_eq!(
        c.filter,
        DeviceRegex { envvar: Some("MODALIAS".into()), regex: regex(".*") }.into()
    );
    assert_eq!(
        c.command,
        Some(Command {
            when: WhenToRun::After,
            path: "modprobe".into(),
            args: vec!["-b".into(), "\"$MODALIAS\"".into()],
        })
    );
}

#[test]
fn majmin_range() {
    let c = rule("@42,17-125 root:root 660");
    assert_eq!(c.filter, Filter::MajMin(MajMin { maj: 42, min: 17, min2: Some(125) }));
    assert_eq!(c.mode, 0o660);
}

#[test]
fn symlink_on_creation() {
    let c = rule("loop([0-9]+) root:disk 660 >loop/%1");
    assert_eq!(c.on_creation, Some(OnCreation::SymLink("loop/%1".into())));
    assert_eq!(c.group, "disk");
    assert_eq!(c.filter, device("loop([0-9]+)"));
}

#[test]
fn two_env_matches_and_both_command() {
    let c = rule("SUBSYSTEM=usb;DEVTYPE=usb_device;.* root:root 660 */opt/helpers/dev-bus-usb");
    assert_eq!(
        c.envmatches,
        vec![
            EnvMatch { envvar: "SUBSYSTEM".into(), regex: regex("usb") },
            EnvMatch { envvar: "DEVTYPE".into(), regex: regex("usb_device") },
        ]
    );
    assert_eq!(c.filter, device(".*"));
    assert_eq!(
        c.command,
        Some(Command { when: WhenToRun::Both, path: "/opt/helpers/dev-bus-usb".into(), args: vec![] })
    );
}

#[test]
fn leading_dash_clears_stop() {
    let c = rule("-SUBSYSTEM=net;.* root:root 600 @helper --write-mactab");
    assert!(!c.stop);
    assert_eq!(c.mode, 0o600);
    assert_eq!(c.envmatches, vec![EnvMatch { envvar: "SUBSYSTEM".into(), regex: regex("net") }]);
}

#[test]
fn comments_and_blank_lines_yield_nothing() {
    assert!(matches!(parse_line("# comment"), Ok(None)));
    assert!(matches!(parse_line(""), Ok(None)));
    assert!(matches!(parse_line("  \t "), Ok(None)));
    assert!(matches!(parse_line("   #indented comment root:root 660"), Ok(None)));
    let (rules, rejected) = parse_with_rejections("# comment\n\n   \n");
    assert!(rules.is_empty());
    assert!(rejected.is_empty());
}

#[test]
fn missing_colon_is_a_user_group_error() {
    assert_eq!(kind("bad line with no colon 660"), ErrorKind::UserGroup);
    assert!(parse("bad line with no colon 660").is_empty());
}

#[test]
fn matcher_errors() {
    assert_eq!(kind("$foo root:root 660"), ErrorKind::Matcher);
    assert_eq!(kind("$=x root:root 660"), ErrorKind::Matcher);
    assert_eq!(kind("$A= root:root 660"), ErrorKind::Matcher);
    assert_eq!(kind("- root:root 660"), ErrorKind::Matcher);
    assert_eq!(kind("A=b; root:root 660"), ErrorKind::Matcher);
}

#[test]
fn regex_errors_name_their_field() {
    assert!(matches!(parse_line("A=(;.* root:root 660"), Err(ConfError::EnvRegex(_))));
    assert!(matches!(parse_line("( root:root 660"), Err(ConfError::DeviceRegex(_))));
    assert!(matches!(parse_line("$A=( root:root 660"), Err(ConfError::DeviceRegex(_))));
    assert_eq!(kind("A=(;( root:root 660"), ErrorKind::EnvRegex);
}

#[test]
fn majmin_errors() {
    assert_eq!(kind("@42 root:root 660"), ErrorKind::MajMin);
    assert_eq!(kind("@42, root:root 660"), ErrorKind::MajMin);
    assert_eq!(kind("@,1 root:root 660"), ErrorKind::MajMin);
    assert_eq!(kind("@1,2-x root:root 660"), ErrorKind::MajMin);
    assert_eq!(kind("@1,2- root:root 660"), ErrorKind::MajMin);
    assert_eq!(kind("@1,2+3 root:root 660"), ErrorKind::MajMin);
    assert_eq!(kind("@4294967296,1 root:root 660"), ErrorKind::MajMin);
}

#[test]
fn majmin_largest_numbers() {
    let c = rule("@4294967295,0-4294967295 root:root 660");
    assert_eq!(
        c.filter,
        Filter::MajMin(MajMin { maj: u32::MAX, min: 0, min2: Some(u32::MAX) })
    );
}

#[test]
fn reversed_minor_range_is_kept() {
    let c = rule("@1,9-3 root:root 660");
    assert_eq!(c.filter, Filter::MajMin(MajMin { maj: 1, min: 9, min2: Some(3) }));
}

#[test]
fn user_group_errors() {
    assert_eq!(kind("null rootroot 660"), ErrorKind::UserGroup);
    assert_eq!(kind("null"), ErrorKind::UserGroup);
}

#[test]
fn group_may_hold_a_colon() {
    let c = rule("null a:b:c 660");
    assert_eq!(c.user, "a");
    assert_eq!(c.group, "b:c");
}

#[test]
fn mode_errors() {
    assert_eq!(kind("null root:root 668"), ErrorKind::Mode);
    assert_eq!(kind("null root:root 66"), ErrorKind::Mode);
    assert_eq!(kind("null root:root 6600"), ErrorKind::Mode);
    assert_eq!(kind("null root:root"), ErrorKind::Mode);
}

#[test]
fn mode_is_octal() {
    assert_eq!(rule("null root:root 777").mode, 511);
    assert_eq!(rule("null root:root 000").mode, 0);
    assert_eq!(rule("null root:root 640").mode, 416);
}

#[test]
fn on_creation_errors() {
    assert_eq!(kind("null root:root 660 !x"), ErrorKind::OnCreation);
    assert_eq!(kind("null root:root 660 %x"), ErrorKind::OnCreation);
    assert_eq!(kind("null root:root 660 ="), ErrorKind::OnCreation);
}

#[test]
fn command_errors() {
    assert_eq!(kind("null root:root 660 @"), ErrorKind::Command);
    assert_eq!(kind("null root:root 660 =x y"), ErrorKind::Command);
    assert_eq!(kind("null root:root 660 ! !"), ErrorKind::Command);
}

#[test]
fn move_then_command() {
    let c = rule("cpu([0-9]+) root:root 600 =cpu/%1/cpuid $remove a b");
    assert_eq!(c.on_creation, Some(OnCreation::Move("cpu/%1/cpuid".into())));
    assert_eq!(
        c.command,
        Some(Command { when: WhenToRun::Before, path: "remove".into(), args: vec!["a".into(), "b".into()] })
    );
}

#[test]
fn prevent_on_creation() {
    let c = rule("[0-9]+:[0-9]+ root:root 660 !");
    assert_eq!(c.on_creation, Some(OnCreation::Prevent));
    assert_eq!(c.filter, device("[0-9]+:[0-9]+"));
}

#[test]
fn printing_is_canonical() {
    let lines = [
        ("@42,17-125   root:root\t660", "@42,17-125 root:root 660"),
        ("@007,01 root:root 660", "@7,1 root:root 660"),
        (
            "-SUBSYSTEM=net;DEVPATH=.*/net/.*;.*\troot:root 600 @/opt/x --w",
            "-SUBSYSTEM=net;DEVPATH=.*/net/.*;.* root:root 600 @/opt/x --w",
        ),
        ("$MODALIAS=.*\troot:root 660 @modprobe -b \"$MODALIAS\" ", "$MODALIAS=.* root:root 660 @modprobe -b \"$MODALIAS\""),
        ("null root:root 007 ! *cmd", "null root:root 007 ! *cmd"),
        ("x root:root 660 >a/", "x root:root 660 >a/"),
    ];
    for (input, printed) in lines {
        assert_eq!(rule(input).to_string(), printed);
    }
}

#[test]
fn printing_wide_modes() {
    let c = Conf { mode: 0o4755, ..rule("null root:root 660") };
    assert_eq!(c.to_string(), "null root:root 4755");
    let c = Conf { mode: 0o7, ..rule("null root:root 660") };
    assert_eq!(c.to_string(), "null root:root 007");
}

#[test]
fn printed_line_parses_back() {
    let lines = [
        "null root:root 666 @chmod 666 $MDEV",
        "$MODALIAS=.* root:root 660 @modprobe -b \"$MODALIAS\"",
        "@42,17-125 root:root 660",
        "@42,17 root:root 660",
        "loop([0-9]+) root:disk 660 >loop/%1",
        "SUBSYSTEM=usb;DEVTYPE=usb_device;.*\troot:root 660 */opt/helpers/dev-bus-usb",
        "-SUBSYSTEM=net;.* root:root 600 @helper --write-mactab",
        "--x root:root 600",
        "A=b;-x root:root 600",
        "-#x root:root 600",
        "A=b;#x a:b 640 ! $c",
        "=b;c root:root 600 =p",
    ];
    for line in lines {
        let first = rule(line);
        let again = rule(&first.to_string());
        assert_eq!(first, again, "{line}");
        assert_eq!(parse(&first.to_string()), vec![first]);
    }
}

#[test]
fn separators_do_not_matter() {
    let a = rule("SUBSYSTEM=usb;.* root:root 660 @cmd x y");
    let b = rule("  SUBSYSTEM=usb;.*\t\t root:root  660\t@cmd   x\ty  \r");
    assert_eq!(a, b);
}

#[test]
fn rejected_lines_do_not_stop_the_batch() {
    let input = "null root:root 660\nbad line 660\n( root:root 660\nnull root:root 668\nzero root:root 600\n";
    let rules = parse(input);
    assert_eq!(rules.len(), 2);
    assert_eq!(rules[0].filter, device("null"));
    assert_eq!(rules[1].filter, device("zero"));
    let (_, rejected) = parse_with_rejections(input);
    let seen: Vec<(usize, ErrorKind)> = rejected.iter().map(|(n, e)| (*n, e.error_kind())).collect();
    assert_eq!(
        seen,
        vec![(2, ErrorKind::UserGroup), (3, ErrorKind::DeviceRegex), (4, ErrorKind::Mode)]
    );
}

#[test]
fn input_without_trailing_newline() {
    let rules = parse("a root:root 660\r\nb root:root 600");
    assert_eq!(rules.len(), 2);
    assert_eq!(rules[1].mode, 0o600);
}

#[test]
fn equality_compares_pattern_text() {
    let a = EnvMatch { envvar: "A".into(), regex: regex("x+") };
    let b = EnvMatch { envvar: "A".into(), regex: regex("x+") };
    let c = EnvMatch { envvar: "A".into(), regex: regex("xx*") };
    assert_eq!(a, b);
    assert_ne!(a, c);
    let d = DeviceRegex { envvar: Some("V".into()), regex: regex("a") };
    let e = DeviceRegex { envvar: None, regex: regex("a") };
    assert_ne!(d, e);
}

#[test]
fn exactly_one_filter_kind() {
    assert!(matches!(rule("@1,2 root:root 660").filter, Filter::MajMin(_)));
    assert!(matches!(rule("A=b;@1,2 root:root 660").filter, Filter::MajMin(_)));
    assert!(matches!(rule("sd[a-z] root:root 660").filter, Filter::DeviceRegex(_)));
}
