use askey::models::{AppConfig, CharsetPreset, QuantizationLevel};
use askey::ui::{
    index_after_removal, next_index, prev_index, ConfigDialog, ConversionSettings, DialogOutcome, Key,
    SelectorAction, SelectorState,
    SettingsEffect,
};

#[test]
fn selection_wraps_both_ways() {
    assert_eq!(next_index(0, 3), 1);
    assert_eq!(next_index(2, 3), 0);
    assert_eq!(prev_index(0, 3), 2);
    assert_eq!(prev_index(2, 3), 1);
    for i in 0..5 {
        assert_eq!(prev_index(next_index(i, 5), 5), i);
        assert_eq!(next_index(prev_index(i, 5), 5), i);
    }
    let mut i = 2;
    for _ in 0..7 {
        i = next_index(i, 7);
    }
    assert_eq!(i, 2);
}

#[test]
fn selection_after_a_removal() {
    assert_eq!(index_after_removal(3, 3), 2);
    assert_eq!(index_after_removal(1, 3), 1);
    assert_eq!(index_after_removal(0, 0), 0);
    assert_eq!(index_after_removal(5, 0), 5);
}

#[test]
fn defaults_dialog_edits_and_saves() {
    let mut d = ConfigDialog::open(AppConfig { default_noclip: false, default_dashboard: true });
    assert_eq!(d.active_item, 0);
    assert_eq!(d.on_key(Key::Char(' ')), DialogOutcome::Stay);
    assert!(d.config.default_noclip);
    assert_eq!(d.on_key(Key::Down), DialogOutcome::Stay);
    assert_eq!(d.active_item, 1);
    assert_eq!(d.on_key(Key::Right), DialogOutcome::Stay);
    assert!(!d.config.default_dashboard);
    assert_eq!(d.on_key(Key::Char('k')), DialogOutcome::Stay);
    assert_eq!(d.active_item, 0);
    assert_eq!(d.on_key(Key::Up), DialogOutcome::Stay);
    assert_eq!(d.active_item, 1);
    assert_eq!(d.on_key(Key::Char('x')), DialogOutcome::Stay);
    assert_eq!(d.on_key(Key::Enter), DialogOutcome::Save);
    assert!(d.config.default_noclip);
    assert!(!d.config.default_dashboard);
}

#[test]
fn defaults_dialog_escape_closes() {
    let mut d = ConfigDialog::open(AppConfig::default());
    assert_eq!(d.on_key(Key::Esc), DialogOutcome::Close);
}

#[test]
fn conversion_settings_start() {
    let s = ConversionSettings::new();
    assert_eq!(s.width, 60);
    assert_eq!(s.preset, CharsetPreset::Blocks);
    assert_eq!(s.quantize, QuantizationLevel::Standard);
    assert_eq!(s.active, 0);
}

#[test]
fn conversion_width_moves_by_five_within_bounds() {
    let mut s = ConversionSettings::new();
    assert_eq!(s.on_key(Key::Left), SettingsEffect::Changed);
    assert_eq!(s.width, 55);
    s.width = 20;
    assert_eq!(s.on_key(Key::Left), SettingsEffect::Unchanged);
    assert_eq!(s.width, 20);
    s.width = 150;
    assert_eq!(s.on_key(Key::Right), SettingsEffect::Unchanged);
    s.width = 145;
    assert_eq!(s.on_key(Key::Right), SettingsEffect::Changed);
    assert_eq!(s.width, 150);
}

#[test]
fn conversion_cursor_and_other_settings() {
    let mut s = ConversionSettings::new();
    assert_eq!(s.on_key(Key::Up), SettingsEffect::Unchanged);
    assert_eq!(s.active, 3);
    assert_eq!(s.on_key(Key::Right), SettingsEffect::Changed);
    assert_eq!(s.quantize, QuantizationLevel::Toon);
    assert_eq!(s.on_key(Key::Down), SettingsEffect::Unchanged);
    assert_eq!(s.active, 0);
    s.on_key(Key::Down);
    assert_eq!(s.on_key(Key::Left), SettingsEffect::Changed);
    assert_eq!(s.preset, CharsetPreset::Detailed);
    s.on_key(Key::Down);
    assert_eq!(s.on_key(Key::Left), SettingsEffect::ScaleDown);
    assert_eq!(s.on_key(Key::Right), SettingsEffect::ScaleUp);
    assert_eq!(s.on_key(Key::Char('a')), SettingsEffect::Unchanged);
    assert_eq!(s.on_key(Key::Enter), SettingsEffect::Confirm);
    assert_eq!(s.on_key(Key::Esc), SettingsEffect::Cancel);
}

#[test]
fn library_keys_move_load_and_delete() {
    let mut s = SelectorState::new();
    assert!(matches!(s.on_key(Key::Down, 3, false), SelectorAction::Continue));
    assert_eq!(s.selected, 1);
    assert!(matches!(s.on_key(Key::Char('j'), 3, false), SelectorAction::AddToPaste('j')));
    assert_eq!(s.selected, 2);
    s.on_key(Key::Down, 3, false);
    assert_eq!(s.selected, 0);
    s.on_key(Key::Up, 3, false);
    assert_eq!(s.selected, 2);
    assert!(matches!(s.on_key(Key::Enter, 3, false), SelectorAction::Load(2)));
    assert!(matches!(s.on_key(Key::Delete, 3, false), SelectorAction::Delete(2)));
    s.after_removal(2);
    assert_eq!(s.selected, 1);
    assert!(matches!(s.on_key(Key::Enter, 0, false), SelectorAction::Continue));
    assert!(matches!(s.on_key(Key::Char('x'), 0, false), SelectorAction::AddToPaste('x')));
    assert!(matches!(s.on_key(Key::Esc, 2, false), SelectorAction::Exit));
}

#[test]
fn library_help_and_defaults_dialog() {
    let mut s = SelectorState::new();
    assert!(s.asks_pending(Key::Char('?')));
    assert!(matches!(s.on_key(Key::Char('?'), 1, true), SelectorAction::HoldForPaste('?')));
    assert!(!s.help);
    s.on_key(Key::Char('?'), 1, false);
    assert!(s.help);
    assert!(!s.asks_pending(Key::Char('?')));
    assert!(matches!(s.on_key(Key::Esc, 1, false), SelectorAction::Continue));
    assert!(!s.help);
    assert!(matches!(s.on_key(Key::Char('C'), 1, false), SelectorAction::OpenConfig));
    s.open_config(AppConfig { default_noclip: false, default_dashboard: false });
    s.on_key(Key::Char(' '), 1, false);
    match s.on_key(Key::Enter, 1, false) {
        SelectorAction::SaveConfig(c) => assert!(c.default_noclip && !c.default_dashboard),
        _ => panic!("expected the defaults to be saved"),
    }
    assert!(s.dialog.is_none());
    s.open_config(AppConfig::default());
    assert!(matches!(s.on_key(Key::Esc, 1, false), SelectorAction::Continue));
    assert!(s.dialog.is_none());
}

#[test]
fn width_stays_a_multiple_of_five_within_bounds() {
    let mut s = ConversionSettings::new();
    for _ in 0..40 {
        s.on_key(Key::Right);
        assert!(s.width % 5 == 0 && (20..=150).contains(&s.width));
    }
    assert_eq!(s.width, 150);
    for _ in 0..40 {
        s.on_key(Key::Left);
        assert!(s.width % 5 == 0 && (20..=150).contains(&s.width));
    }
    assert_eq!(s.width, 20);
    s.on_key(Key::Down);
    s.on_key(Key::Left);
    assert_eq!(s.width, 20);
    for _ in 0..9 {
        s.on_key(Key::Up);
        assert!(s.active < 4);
    }
}

#[test]
fn library_selection_stays_on_a_listed_animation() {
    let mut s = SelectorState::new();
    let keys = [Key::Up, Key::Char('k'), Key::Down, Key::Down, Key::Char('j'), Key::Char('z'), Key::Up, Key::Enter];
    for k in keys {
        let a = s.on_key(k, 4, false);
        assert!(s.selected < 4);
        if let SelectorAction::Load(i) = a {
            assert_eq!(i, s.selected);
        }
    }
    assert_eq!(s.selected, 0);
}
