//! Hotkeys and settings as the settings window handles them.

use repodeck::application::settings_view::{
    Captured, HotkeyRegisterError, autostart_message, capture_hotkey, cycle_combo_label,
    cycle_saved_message, hotkey_display_label, hotkey_refused, hotkey_register_error_message,
    replace_hotkey, save_failed_message, set_cycle_key,
};
use repodeck::domain::config::{PopupLocation, SortMode, UnknownWindowPolicy, UserSettings};
use repodeck::domain::hotkey::{HotkeyConfig, HotkeyModifier};

fn hotkey(modifiers: Vec<HotkeyModifier>, virtual_key: u32) -> HotkeyConfig {
    HotkeyConfig { modifiers, virtual_key }
}

fn settings() -> UserSettings {
    UserSettings {
        quick_switcher_hotkey: hotkey(vec![HotkeyModifier::Control, HotkeyModifier::Alt], 0x20),
        cycle_next_key: 0x27,
        cycle_prev_key: 0x25,
        sort_mode: SortMode::Manual,
        popup_location: PopupLocation::CursorMonitorCenter,
        close_after_switch: true,
        close_on_focus_loss: true,
        start_with_windows: false,
        auto_display_recovery: true,
        unknown_window_policy: UnknownWindowPolicy::Ask,
    }
}

#[test]
fn a_label_lists_modifiers_in_a_set_order() {
    let a = hotkey(vec![HotkeyModifier::Win, HotkeyModifier::Control], 0x20);
    assert_eq!(hotkey_display_label(&a, Some("Space")), "Ctrl+Win+Space");
    let b = hotkey(vec![HotkeyModifier::Control, HotkeyModifier::Win], 0x20);
    assert_eq!(hotkey_display_label(&b, Some("Space")), "Ctrl+Win+Space");
    let c = hotkey(vec![HotkeyModifier::Shift, HotkeyModifier::Alt], 0xa);
    assert_eq!(hotkey_display_label(&c, None), "Alt+Shift+VK 0x0A");
    assert_eq!(hotkey_display_label(&hotkey(vec![], 0x70), Some("F1")), "F1");
}

#[test]
fn a_cycle_key_takes_over_the_modifiers() {
    let main = hotkey(vec![HotkeyModifier::Control, HotkeyModifier::Alt], 0x20);
    assert_eq!(cycle_combo_label(&main, 0x27, Some("Right")), "Ctrl+Alt+Right");
    assert_eq!(cycle_combo_label(&main, 0x27, None), "0x27");
    assert_eq!(cycle_combo_label(&main, 0x1ab, None), "0x1AB");
}

#[test]
fn a_captured_key_is_checked() {
    let current = hotkey(vec![HotkeyModifier::Control], 0x41);
    let refused = capture_hotkey(true, false, false, false, None, false, &current);
    assert!(matches!(refused, Captured::KeyRefused));
    assert!(refused.keeps_capturing());
    assert_eq!(refused.message(), "このキーは登録できません。別のキーを押してください。");

    let bare = capture_hotkey(false, false, false, false, Some(0x41), false, &current);
    assert!(matches!(bare, Captured::ModifierMissing));
    assert!(bare.keeps_capturing());
    assert_eq!(
        bare.message(),
        "修飾キーと組み合わせてください（ファンクションキーのみ単独登録可）"
    );

    let same = capture_hotkey(true, false, false, false, Some(0x41), false, &current);
    assert!(matches!(same, Captured::Unchanged));
    assert!(!same.keeps_capturing());
    assert_eq!(same.message(), "変更はありません。");

    let alone = capture_hotkey(false, false, false, false, Some(0x70), true, &current);
    assert_eq!(alone.message(), "保存しました。反映を確認しています…");
    match alone {
        Captured::Changed(h) => assert_eq!((h.modifiers.len(), h.virtual_key), (0, 0x70)),
        _ => panic!("the key was not taken"),
    }
    match capture_hotkey(true, true, true, true, Some(0x20), false, &current) {
        Captured::Changed(h) => assert_eq!(
            h.modifiers,
            vec![
                HotkeyModifier::Control,
                HotkeyModifier::Alt,
                HotkeyModifier::Shift,
                HotkeyModifier::Win
            ]
        ),
        _ => panic!("the keys were not taken"),
    }
}

#[test]
fn a_refused_hotkey_is_taken_back() {
    let mut s = settings();
    let before = replace_hotkey(&mut s, hotkey(vec![HotkeyModifier::Win], 0x41));
    assert_eq!(s.quick_switcher_hotkey.virtual_key, 0x41);
    let mut pending = Some(before);
    assert!(hotkey_refused(&mut s, &mut pending));
    assert_eq!(s.quick_switcher_hotkey.virtual_key, 0x20);
    assert_eq!(
        s.quick_switcher_hotkey.modifiers,
        vec![HotkeyModifier::Control, HotkeyModifier::Alt]
    );
    assert!(pending.is_none());
    assert!(!hotkey_refused(&mut s, &mut pending));
    assert_eq!(s.quick_switcher_hotkey.virtual_key, 0x20);
}

#[test]
fn refusals_are_explained() {
    assert_eq!(
        hotkey_register_error_message(&HotkeyRegisterError::AlreadyRegistered),
        "このホットキーは他のアプリと競合しています。元のホットキーに戻しました。"
    );
    assert_eq!(
        hotkey_register_error_message(&HotkeyRegisterError::Other("denied".to_string())),
        "ホットキーの登録に失敗しました: denied"
    );
    assert_eq!(save_failed_message("full"), "設定の保存に失敗しました: full");
}

#[test]
fn cycle_keys_are_set_one_by_one() {
    let mut s = settings();
    set_cycle_key(&mut s, 1, 0x41);
    assert_eq!((s.cycle_next_key, s.cycle_prev_key), (0x41, 0x25));
    set_cycle_key(&mut s, 2, 0x42);
    assert_eq!((s.cycle_next_key, s.cycle_prev_key), (0x41, 0x42));
    assert_eq!(
        cycle_saved_message("Ctrl+A", "Ctrl+B"),
        "次のセット=Ctrl+A / 前のセット=Ctrl+B を保存しました。"
    );
    assert_eq!(autostart_message(true), "Windows起動時の自動起動を有効にしました。");
    assert_eq!(autostart_message(false), "自動起動を無効にしました。");
}
