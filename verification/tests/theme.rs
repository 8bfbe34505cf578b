use blkspeed::theme::{background, detect, parse, Color, Mode, Theme};

#[test]
fn colorfgbg_light_backgrounds_are_recognised() {
    // The value is fg;bg, so the background is the trailing field.
    assert_eq!(background("0;15"), Some(15));
    assert_eq!(background("15;0"), Some(0));
    assert_eq!(background("0;default;15"), Some(15));
}

#[test]
fn backgrounds_are_never_painted_over() {
    // Guards the property that makes light terminals work.
    for mode in [Mode::Dark, Mode::Light] {
        let t = Theme::new(mode);
        assert_eq!(t.text().bg, None);
        assert_eq!(t.fg, Color::Reset);
    }
}

#[test]
fn parse_accepts_the_documented_values() {
    for auto in [Mode::Dark, Mode::Light] {
        assert_eq!(parse("dark", auto), Some(Mode::Dark));
        assert_eq!(parse("light", auto), Some(Mode::Light));
        assert!(parse("auto", auto).is_some());
        assert_eq!(parse("nope", auto), None);
    }
}

#[test]
fn auto_is_what_was_detected() {
    assert_eq!(parse("auto", Mode::Light), Some(Mode::Light));
    assert_eq!(parse("auto", Mode::Dark), Some(Mode::Dark));
    assert_eq!(parse("Dark", Mode::Dark), None);
}

#[test]
fn light_backgrounds_choose_the_light_palette() {
    assert_eq!(detect(Some("0;15")), Mode::Light);
    assert_eq!(detect(Some("0; 7 ")), Mode::Light);
    assert_eq!(detect(Some("15;0")), Mode::Dark);
    assert_eq!(detect(Some("0;default")), Mode::Dark);
    assert_eq!(detect(Some("0;271")), Mode::Dark);
    assert_eq!(detect(Some("")), Mode::Dark);
    assert_eq!(detect(None), Mode::Dark);
}

#[test]
fn toggling_twice_comes_back() {
    for mode in [Mode::Dark, Mode::Light] {
        assert_ne!(mode.toggled(), mode);
        assert_eq!(mode.toggled().toggled(), mode);
    }
    assert_eq!(Mode::Dark.label(), "dark");
    assert_eq!(Mode::Light.label(), "light");
}

#[test]
fn no_style_paints_a_background() {
    for mode in [Mode::Dark, Mode::Light] {
        let t = Theme::new(mode);
        for s in [t.text(), t.dimmed(), t.title(), t.selected(), t.gauge()] {
            assert!(s.bg.is_none() || s.bg == Some(Color::Reset));
        }
    }
}

#[test]
fn the_selection_is_reversed() {
    let t = Theme::new(Mode::Dark);
    assert!(t.selected().reversed);
    assert_eq!(t.selected().bg, None);
    assert!(t.title().bold);
    assert_eq!(t.dimmed().fg, Some(Color::DarkGray));
}
