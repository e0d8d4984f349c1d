use manga_overlay::id_item::{IdItem, IdItemVec};
use manga_overlay::ui_state::{
    toggle_decorations, toggle_mouse_passthrough, update_mouse_passthrough, AppFlags, Backend,
    BackendStatus, ShortcutEvent,
};

fn flags() -> AppFlags {
    AppFlags { mouse_passthrough: false, quick_area_pick_mode: true, decorations: true }
}

#[test]
fn enabling_passthrough_leaves_quick_pick_mode() {
    let mut f = flags();
    update_mouse_passthrough(&mut f, true);
    assert!(f.mouse_passthrough);
    assert!(!f.quick_area_pick_mode);
    assert!(f.decorations);
}

#[test]
fn disabling_passthrough_keeps_quick_pick_mode() {
    let mut f = flags();
    update_mouse_passthrough(&mut f, false);
    assert!(!f.mouse_passthrough);
    assert!(f.quick_area_pick_mode);
}

#[test]
fn toggles_flip_their_flags() {
    let mut f = flags();
    toggle_mouse_passthrough(&mut f);
    assert!(f.mouse_passthrough);
    toggle_decorations(&mut f);
    assert!(!f.decorations);
}

#[test]
fn shortcut_labels_are_stable() {
    assert_eq!(ShortcutEvent::ToggleDecorations.get_label(), "Toggle Decorations");
    assert_eq!(ShortcutEvent::ToggleMousePassthrough.get_label(), "Toggle MousePassthrough");
    assert_eq!(ShortcutEvent::ToggleMinimized.get_label(), "Toggle Minimized");
    assert_eq!(ShortcutEvent::QuickAreaPickMode.get_label(), "Quick Area Pick Mode");
}

#[test]
fn shortcut_events_update_the_flags() {
    let mut f = flags();
    ShortcutEvent::QuickAreaPickMode.emit_event(&mut f);
    assert!(!f.mouse_passthrough);
    assert!(!f.quick_area_pick_mode);
    ShortcutEvent::ToggleMinimized.emit_event(&mut f);
    assert!(!f.quick_area_pick_mode);
    assert_eq!(Backend::MangaOcr, Backend::MangaOcr);
    assert_ne!(BackendStatus::Loading, BackendStatus::Ready);
}

#[test]
fn from_vec_numbers_items_in_order() {
    let items = IdItem::from_vec(vec!["a", "b", "c"]);
    assert_eq!(items.len(), 3);
    for (k, item) in items.iter().enumerate() {
        assert_eq!(item.id, k);
        assert!(item.active);
    }
    assert_eq!(items[1].item, "b");
}

#[test]
fn push_item_picks_a_fresh_id_and_active_filters() {
    let mut items = IdItem::from_vec(vec![10, 20]);
    items.push_item(30);
    assert_eq!(items[2].id, 2);
    assert_eq!(items[2].item, 30);
    items[1].active = false;
    items.push_item(40);
    assert_eq!(items[3].id, 3);
    let active = items.create_active_item_vec();
    assert_eq!(active, vec![10, 30, 40]);
}
