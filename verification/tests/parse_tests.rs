use wrtype::Args;
use wrtype::Command;
use wrtype::Modifier;
use wrtype::WrtypeError;
use wrtype::parse_commands;
use wrtype::shortcut_commands;

fn empty_args() -> Args {
    Args {
        text: vec![],
        press_mod: vec![],
        release_mod: vec![],
        press_key: vec![],
        release_key: vec![],
        type_key: vec![],
        delay: 0,
        sleep: vec![],
        stdin: false,
    }
}

#[test]
fn texts_come_first_and_dash_reads_the_byte_source() {
    let mut args = empty_args();
    args.text = vec!["before".to_string(), "-".to_string(), "after".to_string()];
    args.delay = 7;
    let cmds = parse_commands(args).unwrap();
    assert_eq!(cmds.len(), 3);
    assert!(matches!(&cmds[0], Command::Text { text, delay: 7 } if text == "before"));
    assert!(matches!(&cmds[1], Command::StdinText { delay: 7 }));
    assert!(matches!(&cmds[2], Command::Text { text, delay: 7 } if text == "after"));
}

#[test]
fn full_argument_set_parses_in_order() {
    let mut args = empty_args();
    args.text = vec!["hi".to_string()];
    args.press_mod = vec!["ctrl".to_string()];
    args.release_mod = vec!["ctrl".to_string()];
    args.press_key = vec!["a".to_string()];
    args.release_key = vec!["a".to_string()];
    args.type_key = vec!["Tab".to_string()];
    args.delay = 5;
    args.sleep = vec![100];
    args.stdin = true;
    let cmds = parse_commands(args).unwrap();
    assert_eq!(cmds.len(), 9);
    assert!(matches!(&cmds[0], Command::Text { text, delay: 5 } if text == "hi"));
    assert!(matches!(cmds[1], Command::ModPress(Modifier::Ctrl)));
    assert!(matches!(cmds[2], Command::ModRelease(Modifier::Ctrl)));
    assert!(matches!(&cmds[3], Command::KeyPress(k) if k == "a"));
    assert!(matches!(&cmds[4], Command::KeyRelease(k) if k == "a"));
    assert!(matches!(&cmds[5], Command::KeyPress(k) if k == "Tab"));
    assert!(matches!(&cmds[6], Command::KeyRelease(k) if k == "Tab"));
    assert!(matches!(cmds[7], Command::Sleep(100)));
    assert!(matches!(cmds[8], Command::StdinText { delay: 5 }));
}

#[test]
fn invalid_modifier_names_are_rejected() {
    let mut args = empty_args();
    args.press_mod = vec!["bogus".to_string()];
    assert!(matches!(parse_commands(args), Err(WrtypeError::InvalidModifierName)));
    let mut args = empty_args();
    args.release_mod = vec!["nope".to_string()];
    assert!(matches!(parse_commands(args), Err(WrtypeError::InvalidModifierName)));
}

#[test]
fn no_arguments_give_no_commands() {
    let cmds = parse_commands(empty_args()).unwrap();
    assert!(cmds.is_empty());
}

#[test]
fn shortcut_releases_modifiers_in_reverse_order() {
    let mods = vec![Modifier::Ctrl, Modifier::Shift];
    let cmds = shortcut_commands(&mods, "t");
    assert_eq!(cmds.len(), 6);
    assert!(matches!(cmds[0], Command::ModPress(Modifier::Ctrl)));
    assert!(matches!(cmds[1], Command::ModPress(Modifier::Shift)));
    assert!(matches!(&cmds[2], Command::KeyPress(k) if k == "t"));
    assert!(matches!(&cmds[3], Command::KeyRelease(k) if k == "t"));
    assert!(matches!(cmds[4], Command::ModRelease(Modifier::Shift)));
    assert!(matches!(cmds[5], Command::ModRelease(Modifier::Ctrl)));
}

#[test]
fn error_messages_describe_each_failure() {
    assert_eq!(WrtypeError::UnknownKeyName.message(), "unknown key name");
    assert_eq!(WrtypeError::InvalidModifierName.message(), "invalid modifier name");
    assert_eq!(WrtypeError::ChannelFailure.message(), "channel communication failed");
    assert_eq!(WrtypeError::InputReadFailure.message(), "failed to read input");
}
