use mdev_conf::{
    parse, Command, Conf, DeviceRegex, EnvMatch, MajMin, OnCreation, WhenToRun,
};
use regex::Regex;

const INPUT: &str = "SYSTEM=usb;DEVTYPE=usb_device;.*\troot:root\t660  */opt/dev-bus-usb\n\
$MODALIAS=.*\troot:root\t660 @modprobe -b \"$MODALIAS\" \n\
@42,17-125 root:root 660\n\
@42,17     root:root 660\n\
loop([0-9]+)\troot:disk 660\t>loop/%1\n\
SUBSYSTEM=usb;DEVTYPE=usb_device;.* root:root 660 */opt/mdev/helpers/dev-bus-usb\n\
-SUBSYSTEM=net;DEVPATH=.*/net/.*;.*\troot:root 600 @/opt/mdev/helpers/settle-nics --write-mactab\n\
SUBSYSTEM=sound;.*  root:audio 660 @/opt/mdev/helpers/sound-control\n\
cpu([0-9]+)\troot:root 600\t=cpu/%1/cpuid\n\
SUBSYSTEM=input;.* root:input 660\n\
[0-9]+:[0-9]+:[0-9]+:[0-9]+ root:root 660 !\n";

fn common_case(r: &str) -> Conf {
    Conf {
        stop: true,
        envmatches: vec![],
        filter: DeviceRegex {
            envvar: None,
            regex: regex(r),
        }
        .into(),
        user: "root".into(),
        group: "root".into(),
        mode: 0o660,
        on_creation: None,
        command: None,
    }
}

fn regex(s: &str) -> Regex {
    Regex::new(s).unwrap()
}

fn outs() -> Vec<Conf> {
    vec![
        Conf {
            envmatches: vec![
                EnvMatch { envvar: "SYSTEM".into(), regex: regex("usb") },
                EnvMatch { envvar: "DEVTYPE".into(), regex: regex("usb_device") },
            ],
            command: Command {
                when: WhenToRun::Both,
                path: "/opt/dev-bus-usb".into(),
                args: vec![],
            }
            .into(),
            ..common_case(".*")
        },
        Conf {
            filter: DeviceRegex {
                envvar: Some("MODALIAS".into()),
                regex: regex(".*"),
            }
            .into(),
            command: Command {
                when: WhenToRun::After,
                path: "modprobe".into(),
                args: vec!["-b".into(), "\"$MODALIAS\"".into()],
            }
            .into(),
            ..common_case(".*")
        },
        Conf {
            filter: MajMin { maj: 42, min: 17, min2: Some(125) }.into(),
            ..common_case(".*")
        },
        Conf {
            filter: MajMin { maj: 42, min: 17, min2: None }.into(),
            ..common_case(".*")
        },
        Conf {
            user: "root".into(),
            group: "disk".into(),
            on_creation: OnCreation::SymLink("loop/%1".into()).into(),
            ..common_case("loop([0-9]+)")
        },
        Conf {
            envmatches: vec![
                EnvMatch { envvar: "SUBSYSTEM".into(), regex: regex("usb") },
                EnvMatch { envvar: "DEVTYPE".into(), regex: regex("usb_device") },
            ],
            command: Command {
                when: WhenToRun::Both,
                path: "/opt/mdev/helpers/dev-bus-usb".into(),
                args: vec![],
            }
            .into(),
            ..common_case(".*")
        },
        Conf {
            stop: false,
            envmatches: vec![
                EnvMatch { envvar: "SUBSYSTEM".into(), regex: regex("net") },
                EnvMatch { envvar: "DEVPATH".into(), regex: regex(".*/net/.*") },
            ],
            mode: 0o600,
            command: Command {
                when: WhenToRun::After,
                path: "/opt/mdev/helpers/settle-nics".into(),
                args: vec!["--write-mactab".into()],
            }
            .into(),
            ..common_case(".*")
        },
        Conf {
            envmatches: vec![EnvMatch { envvar: "SUBSYSTEM".into(), regex: regex("sound") }],
            user: "root".into(),
            group: "audio".into(),
            command: Command {
                when: WhenToRun::After,
                path: "/opt/mdev/helpers/sound-control".into(),
                args: vec![],
            }
            .into(),
            ..common_case(".*")
        },
        Conf {
            mode: 0o600,
            on_creation: OnCreation::Move("cpu/%1/cpuid".into()).into(),
            ..common_case("cpu([0-9]+)")
        },
        Conf {
            envmatches: vec![EnvMatch { envvar: "SUBSYSTEM".into(), regex: regex("input") }],
            user: "root".into(),
            group: "input".into(),
            ..common_case(".*")
        },
        Conf {
            on_creation: OnCreation::Prevent.into(),
            ..common_case("[0-9]+:[0-9]+:[0-9]+:[0-9]+")
        },
    ]
}

#[test]
fn test_all() {
    let conf = parse(INPUT);
    let hardcoded = outs();

    for (a, b) in conf.iter().zip(hardcoded.iter()) {
        assert_eq!(a, b);
    }

    for (source, parsed) in INPUT.lines().zip(conf.iter().map(Conf::to_string)) {
        let parts = source.split_whitespace().zip(parsed.split_whitespace());
        for (source, parsed) in parts {
            assert_eq!(source, parsed)
        }
    }
}

#[test]
fn every_line_of_the_sample_is_a_rule() {
    assert_eq!(parse(INPUT).len(), outs().len());
}
