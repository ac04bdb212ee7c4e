use tethys::key::Key;
use tethys::key::KeyState;

#[test]
fn no_key_is_down_at_first() {
    let s = KeyState::new();
    assert!(!s.is_down(Key::Char('a')));
    assert!(!s.is_down(Key::Escape));
    assert!(!s.is_down(Key::LShift));
    assert!(!s.is_down(Key::Down));
}

#[test]
fn keys_go_down_and_up_one_by_one() {
    let mut s = KeyState::new();
    s.set_down(Key::Char('w'));
    s.set_down(Key::RShift);
    s.set_down(Key::Left);
    assert!(s.is_down(Key::Char('w')));
    assert!(s.is_down(Key::RShift));
    assert!(s.is_down(Key::Left));
    assert!(!s.is_down(Key::Char('W')));
    assert!(!s.is_down(Key::LShift));
    assert!(!s.is_down(Key::Right));
    s.set_up(Key::Char('w'));
    assert!(!s.is_down(Key::Char('w')));
    assert!(s.is_down(Key::RShift));
    s.set_up(Key::RShift);
    s.set_up(Key::Right);
    assert!(!s.is_down(Key::RShift));
    assert!(s.is_down(Key::Left));
}

#[test]
fn every_named_key_has_its_own_state() {
    let keys = [
        Key::Escape,
        Key::LShift,
        Key::RShift,
        Key::LCtrl,
        Key::RCtrl,
        Key::LAlt,
        Key::RAlt,
        Key::Left,
        Key::Right,
        Key::Up,
        Key::Down,
        Key::Char('a'),
        Key::Char('\u{ff}'),
        Key::Char('\0'),
    ];
    for (n, key) in keys.iter().enumerate() {
        let mut s = KeyState::new();
        s.set_down(*key);
        for (m, other) in keys.iter().enumerate() {
            assert_eq!(s.is_down(*other), n == m);
        }
    }
}

#[test]
fn characters_beyond_the_table_are_not_known() {
    assert!(Key::Char('\u{ff}').is_known());
    assert!(!Key::Char('\u{100}').is_known());
    assert!(!Key::Char('\u{1F600}').is_known());
    assert!(Key::Escape.is_known());
}
