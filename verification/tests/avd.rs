use avm_android::avd::{
    avd_command, check_avd_name, create_avd_args, delete_avd_args, device_picker_labels,
    emulator_args, parse_choice, parse_create_args, parse_device_list, patch_avd_target,
    picked_device, next_create_step, AvdCommand, AvdError, CreateProgress, CreateStep,
};

fn strings(v: &[&str]) -> Vec<String> {
    v.iter().map(|s| s.to_string()).collect()
}

#[test]
fn commands_and_aliases() {
    assert!(matches!(avd_command(&[]), AvdCommand::Help));
    assert!(matches!(avd_command(&strings(&["ls"])), AvdCommand::List));
    assert!(matches!(avd_command(&strings(&["-h"])), AvdCommand::Help));
    match avd_command(&strings(&["rm", "pixel"])) {
        AvdCommand::Delete(rest) => assert_eq!(rest, ["pixel"]),
        other => panic!("{other:?}"),
    }
    match avd_command(&strings(&["new", "a", "--api", "36"])) {
        AvdCommand::Create(rest) => assert_eq!(rest, ["a", "--api", "36"]),
        other => panic!("{other:?}"),
    }
    match avd_command(&strings(&["frobnicate"])) {
        AvdCommand::Unknown(c) => {
            assert_eq!(c, "frobnicate");
            assert_eq!(
                AvdError::UnknownCommand(c).message(),
                "unknown `avd` command 'frobnicate' — run `avm android avd --help`"
            );
        }
        other => panic!("{other:?}"),
    }
}

#[test]
fn create_args() {
    let (n, a, d) = parse_create_args(&strings(&["pixel-36", "--api", "36", "--device", "pixel_6"])).unwrap();
    assert_eq!((n.as_deref(), a.as_deref(), d.as_deref()), (Some("pixel-36"), Some("36"), Some("pixel_6")));
    let (n, a, d) = parse_create_args(&[]).unwrap();
    assert_eq!((n, a, d), (None, None, None));
    assert!(matches!(parse_create_args(&strings(&["--api"])), Err(AvdError::ApiNeedsValue)));
    assert!(matches!(parse_create_args(&strings(&["x", "--device"])), Err(AvdError::DeviceNeedsValue)));
    match parse_create_args(&strings(&["a", "b"])) {
        Err(AvdError::UnknownArgument(x)) => assert_eq!(x, "b"),
        other => panic!("{other:?}"),
    }
    match parse_create_args(&strings(&["--force"])) {
        Err(e) => assert_eq!(e.message(), "unknown argument '--force'"),
        other => panic!("{other:?}"),
    }
}

#[test]
fn device_list_blocks() {
    let text = "Available devices definitions:\nid: 0 or \"automotive_1024p_landscape\"\n    Name: Automotive (1024p landscape)\n    OEM : Google\n---------\nid: 1 or \"pixel_6\"\n    Name: Pixel 6\n---------\nid: 2\n    Name: Broken\n";
    let devices = parse_device_list(text);
    let got: Vec<(&str, &str)> = devices.iter().map(|d| (d.id.as_str(), d.label.as_str())).collect();
    assert_eq!(
        got,
        [
            ("automotive_1024p_landscape", "Automotive (1024p landscape) (automotive_1024p_landscape)"),
            ("pixel_6", "Pixel 6 (pixel_6)"),
        ]
    );
    let labels = device_picker_labels(&devices);
    assert_eq!(labels[0], "(skip — use avdmanager's default profile)");
    assert_eq!(labels[2], "Pixel 6 (pixel_6)");
    assert_eq!(picked_device(&devices, 0), None);
    assert_eq!(picked_device(&devices, 2).as_deref(), Some("pixel_6"));
}

#[test]
fn choices() {
    assert_eq!(parse_choice("1", 3), Some(0));
    assert_eq!(parse_choice("3", 3), Some(2));
    assert_eq!(parse_choice("4", 3), None);
    assert_eq!(parse_choice("0", 3), None);
    assert_eq!(parse_choice("x", 3), None);
    assert_eq!(parse_choice("+2", 3), Some(1));
}

#[test]
fn target_line_repair() {
    let ini = "avd.ini.encoding=UTF-8\ntarget=android-0\npath=/x\n";
    assert_eq!(
        patch_avd_target(ini, "37.0").as_deref(),
        Some("avd.ini.encoding=UTF-8\ntarget=android-37\npath=/x\n")
    );
    assert_eq!(patch_avd_target("target=android-37\n", "37.0"), None);
    assert_eq!(patch_avd_target("a\r\ntarget=android-0", "36"), Some("a\ntarget=android-36\n".to_string()));
    let fixed = patch_avd_target(ini, "36.1").unwrap();
    assert_eq!(patch_avd_target(&fixed, "36.1"), None);
}

#[test]
fn command_lines() {
    assert!(matches!(check_avd_name("  "), Err(AvdError::EmptyName)));
    assert!(check_avd_name("p").is_ok());
    assert_eq!(emulator_args(&strings(&["p", "-no-window"])).unwrap(), ["-avd", "p", "-no-window"]);
    assert!(matches!(emulator_args(&[]), Err(AvdError::StartNeedsName)));
    assert_eq!(delete_avd_args(&strings(&["p"])).unwrap(), ["delete", "avd", "-n", "p"]);
    assert_eq!(AvdError::DeleteNeedsName.message(), "usage: avm android avd delete <name>");
    assert_eq!(create_avd_args("p", "pkg", None), ["create", "avd", "-n", "p", "-k", "pkg"]);
    assert_eq!(create_avd_args("p", "pkg", Some("d")), ["create", "avd", "-n", "p", "-k", "pkg", "-d", "d"]);
}

#[test]
fn create_wizard_steps() {
    let p = |has_name, has_api, image_present, has_device, device_count| CreateProgress {
        has_name,
        has_api,
        image_present,
        has_device,
        device_count,
    };
    assert_eq!(next_create_step(&p(false, false, None, false, None)), CreateStep::AskName);
    assert_eq!(next_create_step(&p(true, false, None, true, None)), CreateStep::AskApi);
    assert_eq!(next_create_step(&p(true, true, None, false, None)), CreateStep::ResolveImage);
    assert_eq!(next_create_step(&p(true, true, Some(false), false, None)), CreateStep::InstallImage);
    assert_eq!(next_create_step(&p(true, true, Some(true), true, None)), CreateStep::Create);
    assert_eq!(next_create_step(&p(true, true, Some(true), false, None)), CreateStep::ListDevices);
    assert_eq!(next_create_step(&p(true, true, Some(true), false, Some(0))), CreateStep::Create);
    assert_eq!(next_create_step(&p(true, true, Some(true), false, Some(3))), CreateStep::AskDevice);
}

#[test]
fn device_lists_concatenate() {
    let a = "id: 0 or \"a\"\n  Name: A\n";
    let b = "id: 1 or \"b\"\n  Name: B\n---------\nid: 2 or \"c\"\n  Name: C\n";
    let joined = parse_device_list(&format!("{a}---------{b}"));
    let mut parts = parse_device_list(a);
    parts.extend(parse_device_list(b));
    let ids = |v: &[avm_android::avd::DeviceProfile]| -> Vec<(String, String)> {
        v.iter().map(|d| (d.id.clone(), d.label.clone())).collect()
    };
    assert_eq!(ids(&joined), ids(&parts));
    assert_eq!(joined.len(), 3);
}
