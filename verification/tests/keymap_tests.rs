use wrtype::KeymapBuilder;
use wrtype::WrtypeError;

#[test]
fn char_codes_are_stable_and_sequential() {
    let mut b = KeymapBuilder::new();
    let a1 = b.get_keycode_for_char('a');
    let b1 = b.get_keycode_for_char('b');
    let a2 = b.get_keycode_for_char('a');
    assert_eq!(a1, 1);
    assert_eq!(b1, 2);
    assert_eq!(a1, a2);
}

#[test]
fn newline_tab_escape_map_to_named_keys() {
    let mut b = KeymapBuilder::new();
    let nl = b.get_keycode_for_char('\n');
    let tab = b.get_keycode_for_char('\t');
    let esc = b.get_keycode_for_char('\x1b');
    assert_eq!(nl, b.get_keycode_for_key_name("Return").unwrap());
    assert_eq!(tab, b.get_keycode_for_key_name("Tab").unwrap());
    assert_eq!(esc, b.get_keycode_for_key_name("Escape").unwrap());
}

#[test]
fn key_names_are_case_insensitive() {
    let mut b = KeymapBuilder::new();
    let r1 = b.get_keycode_for_key_name("return").unwrap();
    let r2 = b.get_keycode_for_key_name("RETURN").unwrap();
    let r3 = b.get_keycode_for_key_name("Return").unwrap();
    assert_eq!(r1, r2);
    assert_eq!(r2, r3);
}

#[test]
fn unknown_and_empty_key_names_fail() {
    let mut b = KeymapBuilder::new();
    assert_eq!(b.get_keycode_for_key_name(""), Err(WrtypeError::UnknownKeyName));
    assert_eq!(
        b.get_keycode_for_key_name("NotAKeyNameAtAll"),
        Err(WrtypeError::UnknownKeyName)
    );
}

#[test]
fn named_keys_resolve_and_cache() {
    let mut b = KeymapBuilder::new();
    let left = b.get_keycode_for_key_name("Left").unwrap();
    let f1 = b.get_keycode_for_key_name("F1").unwrap();
    let space = b.get_keycode_for_key_name("space").unwrap();
    let left2 = b.get_keycode_for_key_name("Left").unwrap();
    assert_eq!(left, 1);
    assert_eq!(f1, 2);
    assert_eq!(space, 3);
    assert_eq!(left, left2);
}

#[test]
fn letter_key_name_prefers_lowercase_keysym() {
    // The case-insensitive lookup prefers the lowercase-named keysym, so the
    // key named `a` — queried in either case — finds the entry the character
    // `a` already allocated for that keysym.
    let mut b = KeymapBuilder::new();
    let by_char = b.get_keycode_for_char('a');
    let by_name = b.get_keycode_for_key_name("a").unwrap();
    assert_eq!(by_char, by_name);
    let by_upper_query = b.get_keycode_for_key_name("A").unwrap();
    assert_eq!(by_name, by_upper_query);
}

#[test]
fn coded_key_names_resolve() {
    let mut b = KeymapBuilder::new();
    // U00E9 names the scalar of `é`, whose keysym the table also gives the
    // character itself.
    let by_char = b.get_keycode_for_char('é');
    let by_form = b.get_keycode_for_key_name("U00E9").unwrap();
    assert_eq!(by_form, by_char);
    // 0xff0d is the Return keysym.
    let by_hex = b.get_keycode_for_key_name("0xff0d").unwrap();
    let by_name = b.get_keycode_for_key_name("Return").unwrap();
    assert_eq!(by_hex, by_name);
}

#[test]
fn rendered_keymap_has_range_and_bindings() {
    let mut b = KeymapBuilder::new();
    b.get_keycode_for_char('a');
    b.get_keycode_for_char('b');
    b.get_keycode_for_key_name("Return").unwrap();
    let keymap = b.generate_keymap();
    assert!(keymap.contains("xkb_keymap {"));
    assert!(keymap.contains("xkb_keycodes \"(unnamed)\" {"));
    assert!(keymap.contains("minimum = 8;"));
    assert!(keymap.contains("maximum = 12;"));
    assert!(keymap.contains("<K1> = 9;"));
    assert!(keymap.contains("<K2> = 10;"));
    assert!(keymap.contains("<K3> = 11;"));
    assert!(keymap.contains("xkb_types \"(unnamed)\" { include \"complete\" };"));
    assert!(keymap.contains("xkb_compatibility \"(unnamed)\" { include \"complete\" };"));
    assert!(keymap.contains("key <K1> {[a]};"));
    assert!(keymap.contains("key <K2> {[b]};"));
    assert!(keymap.contains("key <K3> {[Return]};"));
}

#[test]
fn rendering_twice_gives_identical_text() {
    let mut b = KeymapBuilder::new();
    b.get_keycode_for_char('x');
    b.get_keycode_for_key_name("F5").unwrap();
    let first = b.generate_keymap();
    let second = b.generate_keymap();
    assert_eq!(first, second);
}

#[test]
fn unnamed_keysyms_render_as_coded_forms() {
    let mut b = KeymapBuilder::new();
    // An emoji has no table name; its keysym encodes the scalar directly and
    // renders as U plus uppercase hexadecimal.
    b.get_keycode_for_char('\u{1F600}');
    // A raw keysym without any table name renders as 0x plus eight
    // lowercase hexadecimal digits.
    b.get_keycode_for_keysym(0x12345678);
    let keymap = b.generate_keymap();
    assert!(keymap.contains("key <K1> {[U1F600]};"));
    assert!(keymap.contains("key <K2> {[0x12345678]};"));
}

#[test]
fn empty_keymap_renders_without_bindings() {
    let b = KeymapBuilder::new();
    let keymap = b.generate_keymap();
    assert!(keymap.contains("maximum = 9;"));
    assert!(!keymap.contains("key <K"));
}

#[test]
fn codes_for_text_preserve_order_and_caching() {
    let mut b = KeymapBuilder::new();
    let empty = b.get_keycodes_for_text("");
    assert!(empty.is_empty());
    let twice = b.get_keycodes_for_text("aa");
    assert_eq!(twice.len(), 2);
    assert_eq!(twice[0], twice[1]);
    let hello = b.get_keycodes_for_text("hello");
    assert_eq!(hello.len(), 5);
    // `l` appears twice and keeps one code.
    assert_eq!(hello[2], hello[3]);
    // Every character already has its stable code.
    assert_eq!(hello[0], b.get_keycode_for_char('h'));
    assert_eq!(hello[4], b.get_keycode_for_char('o'));
}
