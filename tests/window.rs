use starlink::window::{remove_exited, SubWindow, Window};

#[test]
fn sub_window_opens_shown() {
    let w = SubWindow::new("测试应用".to_string());
    assert_eq!(w.title, "测试应用");
    assert!(w.is_open);
}

#[test]
fn window_new_keeps_fields() {
    let w = Window::new(42, "demo".to_string(), false);
    assert_eq!(w.id, 42);
    assert_eq!(w.title, "demo");
    assert!(!w.is_open);
    assert!(!w.is_exit);
}

#[test]
fn exited_windows_are_removed_in_order() {
    let mut ws = vec![
        Window::new(1, "a".to_string(), true),
        Window::new(2, "b".to_string(), true),
        Window::new(3, "c".to_string(), false),
    ];
    ws[1].is_exit = true;
    remove_exited(&mut ws);
    let ids: Vec<u64> = ws.iter().map(|w| w.id).collect();
    assert_eq!(ids, vec![1, 3]);
    let mut none: Vec<Window> = Vec::new();
    remove_exited(&mut none);
    assert!(none.is_empty());
}
