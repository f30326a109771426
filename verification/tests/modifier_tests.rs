use wrtype::Modifier;
use wrtype::press_mask;
use wrtype::release_mask;
use wrtype::split_modifiers;

#[test]
fn modifier_bits_match_the_protocol() {
    assert_eq!(Modifier::Shift.mask(), 1);
    assert_eq!(Modifier::CapsLock.mask(), 2);
    assert_eq!(Modifier::Ctrl.mask(), 4);
    assert_eq!(Modifier::Alt.mask(), 8);
    assert_eq!(Modifier::Logo.mask(), 64);
    assert_eq!(Modifier::AltGr.mask(), 128);
}

#[test]
fn press_release_round_trip() {
    assert_eq!(release_mask(press_mask(0, Modifier::Ctrl), Modifier::Ctrl), 0);
    let both = press_mask(press_mask(0, Modifier::Ctrl), Modifier::Shift);
    assert_eq!(both & 4, 4);
    assert_eq!(both & 1, 1);
    assert_eq!(both, 5);
    let (depressed, locked) = split_modifiers(both);
    assert_eq!(locked, 0);
    assert_eq!(depressed, both);
}

#[test]
fn releasing_an_unheld_modifier_changes_nothing() {
    let mask = press_mask(0, Modifier::Alt);
    assert_eq!(release_mask(mask, Modifier::Ctrl), mask);
}

#[test]
fn caps_lock_splits_into_the_locked_mask() {
    let mask = press_mask(press_mask(0, Modifier::CapsLock), Modifier::Ctrl);
    let (depressed, locked) = split_modifiers(mask);
    assert_eq!(depressed, 4);
    assert_eq!(locked, 2);
}

#[test]
fn modifier_names_resolve_case_insensitively() {
    assert_eq!(Modifier::from_name("shift"), Some(Modifier::Shift));
    assert_eq!(Modifier::from_name("SHIFT"), Some(Modifier::Shift));
    assert_eq!(Modifier::from_name("capslock"), Some(Modifier::CapsLock));
    assert_eq!(Modifier::from_name("CTRL"), Some(Modifier::Ctrl));
    assert_eq!(Modifier::from_name("Alt"), Some(Modifier::Alt));
    assert_eq!(Modifier::from_name("logo"), Some(Modifier::Logo));
    assert_eq!(Modifier::from_name("win"), Some(Modifier::Logo));
    assert_eq!(Modifier::from_name("altgr"), Some(Modifier::AltGr));
    assert_eq!(Modifier::from_name("super"), None);
    assert_eq!(Modifier::from_name("command"), None);
    assert_eq!(Modifier::from_name(""), None);
}
