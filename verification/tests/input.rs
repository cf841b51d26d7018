use notez::input::{
    cell_in_area, char_len_utf8, edit_key, insert_at_cursor, remove_before_cursor, search_key, Area, Key,
    VimCommandMode,
};

#[test]
fn vim_command_mode_quits() {
    let mut v = VimCommandMode::new();
    assert_eq!(v.handle_key(Key::Char(':')), None);
    assert_eq!(v.handle_key(Key::Char('w')), None);
    assert_eq!(v.handle_key(Key::Char('q')), None);
    let cmd = v.handle_key(Key::Enter).unwrap();
    assert_eq!(cmd, ":wq");
    assert!(VimCommandMode::is_quit(&cmd));
    assert!(VimCommandMode::is_quit(":q!"));
    assert!(!VimCommandMode::is_quit(":w"));
}

#[test]
fn typing_and_erasing_multibyte() {
    let mut s = String::from("ab");
    let c = insert_at_cursor(&mut s, 1, 'å');
    assert_eq!(s, "aåb");
    assert_eq!(c, 3);
    let c2 = remove_before_cursor(&mut s, c);
    assert_eq!(s, "ab");
    assert_eq!(c2, 1);
    assert_eq!(char_len_utf8('€'), 3);
}

#[test]
fn edit_keys_move_and_type() {
    let mut text = String::from("hé");
    let mut cursor = 3usize;
    edit_key(&mut text, &mut cursor, Key::Left);
    assert_eq!(cursor, 1);
    edit_key(&mut text, &mut cursor, Key::Char('x'));
    assert_eq!(text, "hxé");
    assert_eq!(cursor, 2);
    edit_key(&mut text, &mut cursor, Key::Backspace);
    assert_eq!((text.as_str(), cursor), ("hé", 1));
    edit_key(&mut text, &mut cursor, Key::Right);
    assert_eq!(cursor, 3);
}

#[test]
fn type_then_erase_restores_field() {
    let mut text = String::from("för");
    let mut cursor = 3usize;
    edit_key(&mut text, &mut cursor, Key::Char('ß'));
    edit_key(&mut text, &mut cursor, Key::Backspace);
    assert_eq!(text, "för");
    assert_eq!(cursor, 3);
}

#[test]
fn search_typing_ends_on_enter() {
    let mut typing = true;
    let mut text = String::new();
    let mut cursor = 0usize;
    search_key(&mut typing, &mut text, &mut cursor, Key::Char('a'));
    assert!(typing);
    assert_eq!(text, "a");
    search_key(&mut typing, &mut text, &mut cursor, Key::Enter);
    assert!(!typing);
}

#[test]
fn areas_contain_cells() {
    let a = Area { x: 2, y: 3, width: 4, height: 2 };
    assert!(cell_in_area(a, 2, 3));
    assert!(cell_in_area(a, 5, 4));
    assert!(!cell_in_area(a, 6, 4));
    assert!(!cell_in_area(a, 2, 5));
}
