//! Window-state decisions the event handlers make: which flags a mouse or
//! decoration event flips, and the labels and states of the UI's backends and
//! shortcuts. Applying the decisions to a real window is the surrounding
//! application's concern.

use vstd::prelude::*;

verus! {

/// The window flags the event handlers decide over.
#[derive(Clone, Copy, Debug, PartialEq, Eq, Structural)]
pub struct AppFlags {
    pub mouse_passthrough: bool,
    pub quick_area_pick_mode: bool,
    pub decorations: bool,
}

/// Sets mouse passthrough; turning it on leaves quick-area-pick mode.
pub fn update_mouse_passthrough(flags: &mut AppFlags, mouse_passthrough: bool)
    ensures
        final(flags).mouse_passthrough == mouse_passthrough,
        final(flags).quick_area_pick_mode == (if mouse_passthrough {
            false
        } else {
            old(flags).quick_area_pick_mode
        }),
        final(flags).decorations == old(flags).decorations,
{
    if mouse_passthrough {
        flags.quick_area_pick_mode = false;
    }
    flags.mouse_passthrough = mouse_passthrough;
}

/// Flips mouse passthrough, with the same side effect on quick-area-pick
/// mode.
pub fn toggle_mouse_passthrough(flags: &mut AppFlags)
    ensures
        final(flags).mouse_passthrough == !old(flags).mouse_passthrough,
        final(flags).quick_area_pick_mode == (if !old(flags).mouse_passthrough {
            false
        } else {
            old(flags).quick_area_pick_mode
        }),
        final(flags).decorations == old(flags).decorations,
{
    let next = !flags.mouse_passthrough;
    update_mouse_passthrough(flags, next);
}

/// Sets whether the window shows decorations.
pub fn update_decorations(flags: &mut AppFlags, decorations: bool)
    ensures
        final(flags).decorations == decorations,
        final(flags).mouse_passthrough == old(flags).mouse_passthrough,
        final(flags).quick_area_pick_mode == old(flags).quick_area_pick_mode,
{
    flags.decorations = decorations;
}

/// Flips whether the window shows decorations.
pub fn toggle_decorations(flags: &mut AppFlags)
    ensures
        final(flags).decorations == !old(flags).decorations,
        final(flags).mouse_passthrough == old(flags).mouse_passthrough,
        final(flags).quick_area_pick_mode == old(flags).quick_area_pick_mode,
{
    flags.decorations = !flags.decorations;
}

/// The global shortcuts the overlay reacts to.
#[derive(Clone, Copy, Debug, PartialEq, Eq, Structural)]
pub enum ShortcutEvent {
    ToggleDecorations,
    ToggleMousePassthrough,
    ToggleMinimized,
    QuickAreaPickMode,
}

impl ShortcutEvent {
    /// The label the configuration UI shows for this shortcut.
    pub fn get_label(&self) -> (r: &'static str)
        ensures
            *self == ShortcutEvent::ToggleDecorations ==> r@ == "Toggle Decorations"@,
            *self == ShortcutEvent::ToggleMousePassthrough ==> r@ == "Toggle MousePassthrough"@,
            *self == ShortcutEvent::ToggleMinimized ==> r@ == "Toggle Minimized"@,
            *self == ShortcutEvent::QuickAreaPickMode ==> r@ == "Quick Area Pick Mode"@,
    {
        match self {
            ShortcutEvent::ToggleDecorations => "Toggle Decorations",
            ShortcutEvent::ToggleMousePassthrough => "Toggle MousePassthrough",
            ShortcutEvent::ToggleMinimized => "Toggle Minimized",
            ShortcutEvent::QuickAreaPickMode => "Quick Area Pick Mode",
        }
    }

    /// What a shortcut does to the window flags when it fires; minimizing is
    /// the window system's affair and leaves the flags alone.
    pub fn emit_event(&self, flags: &mut AppFlags)
        ensures
            *self == ShortcutEvent::ToggleDecorations ==> final(flags).decorations
                == !old(flags).decorations && final(flags).mouse_passthrough
                == old(flags).mouse_passthrough && final(flags).quick_area_pick_mode
                == old(flags).quick_area_pick_mode,
            *self == ShortcutEvent::ToggleMousePassthrough ==> final(flags).mouse_passthrough
                == !old(flags).mouse_passthrough,
            *self == ShortcutEvent::ToggleMinimized ==> *final(flags) == *old(flags),
            *self == ShortcutEvent::QuickAreaPickMode ==> final(flags).mouse_passthrough == false
                && final(flags).quick_area_pick_mode == !old(flags).quick_area_pick_mode
                && final(flags).decorations == old(flags).decorations,
    {
        match self {
            ShortcutEvent::ToggleDecorations => toggle_decorations(flags),
            ShortcutEvent::ToggleMousePassthrough => toggle_mouse_passthrough(flags),
            ShortcutEvent::ToggleMinimized => {},
            ShortcutEvent::QuickAreaPickMode => {
                let next = !flags.quick_area_pick_mode;
                update_mouse_passthrough(flags, false);
                flags.quick_area_pick_mode = next;
            },
        }
    }
}

/// The load state of one OCR backend.
#[derive(Clone, Copy, Debug, PartialEq, Eq, Structural)]
pub enum BackendStatus {
    Loading,
    Ready,
    Running,
    Error,
}

/// The backends whose status the UI tracks.
#[derive(Clone, Copy, Debug, PartialEq, Eq, Structural)]
pub enum Backend {
    MangaOcr,
}

} // verus!
