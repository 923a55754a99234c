use isometric_stanford::style::{validate_style, StyleError, StylePack};

#[test]
fn bootstrap_style_is_valid() {
    StylePack::stanford_v1()
        .validate()
        .expect("style must validate");
}

#[test]
fn grammar_indexes_and_measurements_are_validated() {
    let mut style = StylePack::stanford_v1();
    style.ordinary.outline = 127;
    assert_eq!(style.validate(), Err(StyleError::PaletteIndex));

    let mut style = StylePack::stanford_v1();
    style.ordinary.tree_spacing_mm = 0;
    assert_eq!(style.validate(), Err(StyleError::InvalidGrammar));
}

#[test]
fn style_validation_wraps_style_errors() {
    assert!(validate_style(&StylePack::stanford_v1()).is_ok());
    let mut style = StylePack::stanford_v1();
    style.palette.clear();
    assert!(validate_style(&style).is_err());
}

#[test]
fn stanford_v1_is_one_fixed_value() {
    let a = StylePack::stanford_v1();
    let b = StylePack::stanford_v1();
    assert_eq!(a.palette, b.palette);
    assert_eq!(a.ordinary, b.ordinary);
    assert_eq!(a.palette.len(), 16);
    assert_eq!((a.palette[0].red, a.palette[0].green, a.palette[0].blue), (239, 225, 190));
    assert_eq!((a.palette[15].red, a.palette[15].green, a.palette[15].blue), (35, 37, 37));
    assert_eq!(a.ordinary.shadow_y_mm, -4_000);
}
