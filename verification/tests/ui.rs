use himark::button::ButtonRole;
use himark::clipboard::{ClipboardClient, ClipboardContent};
use himark::layout::laid;
use himark::ui_ctx::UiCtx;

#[test]
fn a_cold_context_has_nothing() {
    let ctx = UiCtx::cold();
    assert!(ctx.get::<u32>().is_none());
}

#[test]
fn the_first_value_set_for_a_type_stays() {
    let mut ctx = UiCtx::cold();
    ctx.set(5u32);
    ctx.set(7u32);
    ctx.set(String::from("font"));
    assert_eq!(ctx.get::<u32>(), Some(&5));
    assert_eq!(ctx.get::<String>().map(|s| s.as_str()), Some("font"));
    assert!(ctx.get::<u64>().is_none());
}

#[test]
fn laid_keeps_the_sizing_closure() {
    let layout = laid(|scale: u32| scale * 2);
    assert_eq!((layout.0)(21), 42);
}

struct Buffer {
    text: String,
    selected: bool,
}

impl ClipboardClient for Buffer {
    fn copy(&mut self) -> Option<ClipboardContent> {
        if self.selected {
            Some(ClipboardContent {
                text: self.text.clone(),
            })
        } else {
            None
        }
    }

    fn cut(&mut self) -> Option<ClipboardContent> {
        let content = self.copy()?;
        self.text.clear();
        Some(content)
    }

    fn paste(&mut self, content: &ClipboardContent) -> bool {
        self.text.push_str(&content.text);
        true
    }
}

#[test]
fn a_clipboard_client_round_trips_text() {
    let mut buffer = Buffer {
        text: "hello".to_string(),
        selected: true,
    };
    let content = buffer.cut().expect("a selection");
    assert_eq!(buffer.text, "");
    assert!(buffer.paste(&content));
    assert_eq!(buffer.text, "hello");
}

#[test]
fn button_roles_are_distinct() {
    assert_ne!(ButtonRole::Primary, ButtonRole::Outlined);
    let role = ButtonRole::Outlined;
    let copy = role;
    assert_eq!(role, copy);
}
