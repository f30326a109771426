use wrtype::Command;
use wrtype::CommandExecutor;
use wrtype::Modifier;
use wrtype::WrtypeError;
use wrtype::executor::Action;
use wrtype::executor::StepOutcome;

fn actions(outcome: Result<StepOutcome, WrtypeError>) -> Vec<Action> {
    match outcome.unwrap() {
        StepOutcome::Actions(v) => v,
        StepOutcome::ReadInput { .. } => panic!("expected actions"),
    }
}

#[test]
fn shortcut_session_uploads_once_and_orders_events() {
    let mut ex = CommandExecutor::new();
    let mut all: Vec<Action> = Vec::new();

    // Setup: the empty keymap goes up before anything else.
    let setup = ex.setup_actions();
    assert_eq!(setup.len(), 2);
    assert!(matches!(&setup[0], Action::UploadKeymap(k) if !k.contains("key <K")));
    assert!(matches!(setup[1], Action::Roundtrip));

    for cmd in [
        Command::ModPress(Modifier::Ctrl),
        Command::KeyPress("c".to_string()),
        Command::KeyRelease("c".to_string()),
        Command::ModRelease(Modifier::Ctrl),
    ] {
        all.extend(actions(ex.step_command(&cmd)));
    }

    // Exactly one upload carries the binding for the key's symbol.
    let uploads_with_c: Vec<usize> = all
        .iter()
        .enumerate()
        .filter_map(|(i, a)| match a {
            Action::UploadKeymap(k) if k.contains("{[c]}") => Some(i),
            _ => None,
        })
        .collect();
    assert_eq!(uploads_with_c.len(), 1);

    // One depressed-mask transmission with Ctrl set, one with it cleared.
    let masks: Vec<u32> = all
        .iter()
        .filter_map(|a| match a {
            Action::SendModifiers { depressed, .. } => Some(*depressed),
            _ => None,
        })
        .collect();
    assert_eq!(masks, vec![4, 0]);

    // The key events come in press-then-release order, after the upload.
    let keys: Vec<(usize, u32, bool)> = all
        .iter()
        .enumerate()
        .filter_map(|(i, a)| match a {
            Action::SendKey { keycode, pressed } => Some((i, *keycode, *pressed)),
            _ => None,
        })
        .collect();
    assert_eq!(keys.len(), 2);
    assert_eq!(keys[0].1, keys[1].1);
    assert!(keys[0].2 && !keys[1].2);
    assert!(uploads_with_c[0] < keys[0].0);
    assert!(keys[0].0 < keys[1].0);

    // Cleanup forces the modifiers to zero and synchronizes.
    let cleanup = ex.cleanup_actions();
    assert_eq!(cleanup.len(), 2);
    assert!(matches!(cleanup[0], Action::SendModifiers { depressed: 0, locked: 0 }));
    assert!(matches!(cleanup[1], Action::Roundtrip));
}

#[test]
fn typing_text_uploads_once_then_taps_each_code() {
    let mut ex = CommandExecutor::new();
    let acts = actions(ex.step_command(&Command::Text { text: "ab".to_string(), delay: 0 }));
    // One upload + roundtrip, then two taps of six actions each.
    assert_eq!(acts.len(), 14);
    assert!(matches!(&acts[0], Action::UploadKeymap(k) if k.contains("{[a]}") && k.contains("{[b]}")));
    assert!(matches!(acts[1], Action::Roundtrip));
    assert!(matches!(acts[2], Action::SendKey { keycode: 1, pressed: true }));
    assert!(matches!(acts[3], Action::Roundtrip));
    assert!(matches!(acts[4], Action::SleepMs(2)));
    assert!(matches!(acts[5], Action::SendKey { keycode: 1, pressed: false }));
    assert!(matches!(acts[6], Action::Roundtrip));
    assert!(matches!(acts[7], Action::SleepMs(2)));
    assert!(matches!(acts[8], Action::SendKey { keycode: 2, pressed: true }));
    assert!(matches!(acts[11], Action::SendKey { keycode: 2, pressed: false }));
}

#[test]
fn retyping_known_text_uploads_nothing() {
    let mut ex = CommandExecutor::new();
    let _ = actions(ex.step_command(&Command::Text { text: "ab".to_string(), delay: 0 }));
    let again = actions(ex.step_command(&Command::Text { text: "ab".to_string(), delay: 0 }));
    assert!(again.iter().all(|a| !matches!(a, Action::UploadKeymap(_))));
    assert_eq!(again.len(), 12);
}

#[test]
fn inter_character_delay_follows_each_tap() {
    let mut ex = CommandExecutor::new();
    let acts = actions(ex.step_command(&Command::Text { text: "a".to_string(), delay: 30 }));
    assert_eq!(acts.len(), 9);
    assert!(matches!(acts[8], Action::SleepMs(30)));
}

#[test]
fn sleep_only_waits() {
    let mut ex = CommandExecutor::new();
    let acts = actions(ex.step_command(&Command::Sleep(250)));
    assert_eq!(acts.len(), 1);
    assert!(matches!(acts[0], Action::SleepMs(250)));
}

#[test]
fn stdin_command_hands_the_read_back() {
    let mut ex = CommandExecutor::new();
    match ex.step_command(&Command::StdinText { delay: 9 }).unwrap() {
        StepOutcome::ReadInput { delay } => assert_eq!(delay, 9),
        StepOutcome::Actions(_) => panic!("expected a read"),
    }
}

#[test]
fn unknown_key_name_aborts_before_any_action() {
    let mut ex = CommandExecutor::new();
    let r = ex.step_command(&Command::KeyPress("NotAKeyNameAtAll".to_string()));
    assert!(matches!(r, Err(WrtypeError::UnknownKeyName)));
    // The failed command left no trace: the next upload is still the empty
    // keymap.
    let setup = ex.setup_actions();
    assert!(matches!(&setup[0], Action::UploadKeymap(k) if !k.contains("key <K")));
}

#[test]
fn releasing_a_key_never_pressed_still_installs_it() {
    let mut ex = CommandExecutor::new();
    let acts = actions(ex.step_command(&Command::KeyRelease("space".to_string())));
    assert!(matches!(&acts[0], Action::UploadKeymap(k) if k.contains("{[space]}")));
    assert!(matches!(acts[1], Action::Roundtrip));
    assert!(matches!(acts[2], Action::SendKey { keycode: 1, pressed: false }));
    assert!(matches!(acts[3], Action::Roundtrip));
}

#[test]
fn typed_characters_upload_only_when_the_keymap_grows() {
    let mut ex = CommandExecutor::new();
    let first = ex.type_character('x', 0);
    assert!(matches!(&first[0], Action::UploadKeymap(k) if k.contains("{[x]}")));
    assert_eq!(first.len(), 8);
    let second = ex.type_character('x', 4);
    assert!(second.iter().all(|a| !matches!(a, Action::UploadKeymap(_))));
    assert_eq!(second.len(), 7);
    assert!(matches!(second[0], Action::SendKey { keycode: 1, pressed: true }));
    assert!(matches!(second[6], Action::SleepMs(4)));
}

#[test]
fn settle_delay_is_a_parameter() {
    let mut ex = CommandExecutor::with_settle_delay(11);
    let acts = actions(ex.step_command(&Command::Text { text: "q".to_string(), delay: 0 }));
    assert!(matches!(acts[4], Action::SleepMs(11)));
    assert!(matches!(acts[7], Action::SleepMs(11)));
}

#[test]
fn typing_unicode_text_binds_table_and_coded_names() {
    let mut ex = CommandExecutor::new();
    let acts = actions(ex.step_command(&Command::Text { text: "é\u{1F600}".to_string(), delay: 0 }));
    match &acts[0] {
        Action::UploadKeymap(k) => {
            assert!(k.contains("{[eacute]}"));
            assert!(k.contains("{[U1F600]}"));
        }
        _ => panic!("expected an upload first"),
    }
}

#[test]
fn modifier_steps_accumulate_and_split_the_mask() {
    let mut ex = CommandExecutor::new();
    let a1 = actions(ex.step_command(&Command::ModPress(Modifier::Ctrl)));
    assert!(matches!(a1[0], Action::SendModifiers { depressed: 4, locked: 0 }));
    let a2 = actions(ex.step_command(&Command::ModPress(Modifier::CapsLock)));
    assert!(matches!(a2[0], Action::SendModifiers { depressed: 4, locked: 2 }));
    let a3 = actions(ex.step_command(&Command::ModRelease(Modifier::Ctrl)));
    assert!(matches!(a3[0], Action::SendModifiers { depressed: 0, locked: 2 }));
}
