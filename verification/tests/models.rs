use askey::models::{AppConfig, CharsetPreset, QuantizationLevel};

#[test]
fn quantization_steps() {
    assert_eq!(QuantizationLevel::Standard.to_u8(), 16);
    assert_eq!(QuantizationLevel::Toon.to_u8(), 32);
    assert_eq!(QuantizationLevel::Posterized.to_u8(), 48);
    assert_eq!(QuantizationLevel::Retro.to_u8(), 64);
}

#[test]
fn quantization_from_step_roundtrip() {
    for q in [
        QuantizationLevel::Standard,
        QuantizationLevel::Toon,
        QuantizationLevel::Posterized,
        QuantizationLevel::Retro,
    ] {
        assert_eq!(QuantizationLevel::from_u8(q.to_u8()), q);
    }
}

#[test]
fn quantization_unknown_step_is_standard() {
    assert_eq!(QuantizationLevel::from_u8(0), QuantizationLevel::Standard);
    assert_eq!(QuantizationLevel::from_u8(17), QuantizationLevel::Standard);
    assert_eq!(QuantizationLevel::from_u8(255), QuantizationLevel::Standard);
}

#[test]
fn quantization_descriptions() {
    assert_eq!(QuantizationLevel::Standard.description(), "16 (standard)");
    assert_eq!(QuantizationLevel::Toon.description(), "32 (toon)");
    assert_eq!(QuantizationLevel::Posterized.description(), "48 (posterized)");
    assert_eq!(QuantizationLevel::Retro.description(), "64 (retro)");
}

#[test]
fn quantization_next_and_prev_stop_at_the_ends() {
    assert_eq!(QuantizationLevel::Standard.next(), QuantizationLevel::Toon);
    assert_eq!(QuantizationLevel::Toon.next(), QuantizationLevel::Posterized);
    assert_eq!(QuantizationLevel::Posterized.next(), QuantizationLevel::Retro);
    assert_eq!(QuantizationLevel::Retro.next(), QuantizationLevel::Retro);
    assert_eq!(QuantizationLevel::Standard.prev(), QuantizationLevel::Standard);
    assert_eq!(QuantizationLevel::Retro.prev(), QuantizationLevel::Posterized);
}

#[test]
fn quantization_next_then_prev_below_the_coarsest() {
    for q in [QuantizationLevel::Standard, QuantizationLevel::Toon, QuantizationLevel::Posterized] {
        assert_eq!(q.next().prev(), q);
    }
}

#[test]
fn preset_names() {
    assert_eq!(CharsetPreset::Blocks.as_str(), "blocks");
    assert_eq!(CharsetPreset::Standard.as_str(), "standard");
    assert_eq!(CharsetPreset::Detailed.as_str(), "detailed");
    assert_eq!(CharsetPreset::Custom("xy".to_string()).as_str(), "xy");
}

#[test]
fn preset_from_str_ignores_ascii_case() {
    assert_eq!(CharsetPreset::from_str("BLOCKS"), CharsetPreset::Blocks);
    assert_eq!(CharsetPreset::from_str("Standard"), CharsetPreset::Standard);
    assert_eq!(CharsetPreset::from_str("detailed"), CharsetPreset::Detailed);
}

#[test]
fn preset_from_str_other_text_is_custom_as_given() {
    assert_eq!(CharsetPreset::from_str("AbC"), CharsetPreset::Custom("AbC".to_string()));
    assert_eq!(CharsetPreset::from_str(" .oO@"), CharsetPreset::Custom(" .oO@".to_string()));
    assert_eq!(CharsetPreset::from_str(""), CharsetPreset::Custom(String::new()));
}

#[test]
fn preset_name_roundtrip() {
    for p in [CharsetPreset::Blocks, CharsetPreset::Standard, CharsetPreset::Detailed] {
        assert_eq!(CharsetPreset::from_str(p.as_str()), p);
    }
}

#[test]
fn preset_cycle() {
    assert_eq!(CharsetPreset::Blocks.next(), CharsetPreset::Standard);
    assert_eq!(CharsetPreset::Standard.next(), CharsetPreset::Detailed);
    assert_eq!(CharsetPreset::Detailed.next(), CharsetPreset::Blocks);
    assert_eq!(CharsetPreset::Custom("a".to_string()).next(), CharsetPreset::Blocks);
    assert_eq!(CharsetPreset::Blocks.prev(), CharsetPreset::Detailed);
    assert_eq!(CharsetPreset::Custom("a".to_string()).prev(), CharsetPreset::Detailed);
    for p in [CharsetPreset::Blocks, CharsetPreset::Standard, CharsetPreset::Detailed] {
        assert_eq!(p.clone().next().prev(), p.clone());
        assert_eq!(p.clone().next().next().next(), p);
    }
}

#[test]
fn config_default_is_all_off() {
    let c = AppConfig::default();
    assert!(!c.default_noclip);
    assert!(!c.default_dashboard);
}
