use iota_buffer::frontends::CharColor;
use iota_buffer::frontends::CharStyle;
use iota_buffer::frontends::EditorEvent;
use iota_buffer::frontends::Frontend;
use iota_buffer::frontends::Key;

struct NullFrontend;

impl Frontend for NullFrontend {
    fn poll_event(&self) -> EditorEvent {
        EditorEvent::UnSupported
    }

    fn present(&self) {}

    fn get_window_height(&self) -> usize {
        24
    }

    fn get_window_width(&self) -> usize {
        80
    }

    fn draw_cursor(&mut self, _offset: isize, _linenum: isize) {}

    fn draw_char(
        &mut self,
        _offset: usize,
        _linenum: usize,
        _ch: char,
        _fg: CharColor,
        _bg: CharColor,
        _style: CharStyle,
    ) {
    }
}

#[test]
fn editor_event_variants() {
    let e = EditorEvent::KeyEvent(Some(Key::Char('x')));
    assert!(matches!(e, EditorEvent::KeyEvent(Some(Key::Char('x')))));
    let u = EditorEvent::UnSupported;
    assert!(matches!(u, EditorEvent::UnSupported));
}

#[test]
fn frontend_trait_is_implementable() {
    let mut f = NullFrontend;
    assert_eq!(f.get_window_height(), 24);
    assert_eq!(f.get_window_width(), 80);
    f.draw_cursor(0, 0);
    f.draw_char(0, 0, 'a', CharColor::Default, CharColor::Black, CharStyle::Normal);
    f.present();
    assert!(matches!(f.poll_event(), EditorEvent::UnSupported));
}
