use tethys::mouse::Mouse;
use tethys::mouse::MouseButton;

#[test]
fn no_button_is_pressed_at_first() {
    let m = Mouse::new();
    assert!(!m.left() && !m.right() && !m.middle());
}

#[test]
fn pressed_buttons_are_kept() {
    let mut m = Mouse::new();
    m.update(MouseButton::Right);
    assert!(!m.left() && m.right() && !m.middle());
    m.update(MouseButton::Left);
    m.update(MouseButton::Back);
    m.update(MouseButton::Forward);
    m.update(MouseButton::Other(7));
    assert!(m.left() && m.right() && !m.middle());
    m.update(MouseButton::Middle);
    assert!(m.left() && m.right() && m.middle());
}
