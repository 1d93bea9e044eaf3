use dradu::config::{Config, Theme};

#[test]
fn config_defaults() {
    let c = Config::load(None, None, None, None);
    assert_eq!(c.theme, Theme::Dark);
    assert!(!c.custom_color_enabled);
    assert_eq!(c.nickname, "");
    assert_eq!(c.color, [255, 255, 255]);
}

#[test]
fn config_from_stored_texts() {
    let c = Config::load(Some("LiGhT"), Some("TRUE"), Some("  Ann \n"), Some("1 2 3"));
    assert_eq!(c.theme, Theme::Light);
    assert!(c.custom_color_enabled);
    assert_eq!(c.nickname, "Ann");
    assert_eq!(c.color, [1, 2, 3]);
    let c = Config::load(Some("lights"), Some("yes"), Some("x"), Some("1 2 300"));
    assert_eq!(c.theme, Theme::Dark);
    assert!(!c.custom_color_enabled);
    assert_eq!(c.color, [255, 255, 255]);
}

#[test]
fn config_as_stored() {
    let c = Config {
        theme: Theme::Light,
        nickname: " Bo ".to_string(),
        custom_color_enabled: true,
        color: [0, 128, 255],
    };
    let texts = |k: &str, v: &str| (k.to_string(), v.to_string());
    assert_eq!(
        c.save(),
        vec![
            texts("nickname", " Bo "),
            texts("color", "0 128 255"),
            texts("custom_color_enabled", "true"),
            texts("theme", "Light"),
        ]
    );
    let c = Config {
        theme: Theme::Dark,
        nickname: "  ".to_string(),
        custom_color_enabled: false,
        color: [9, 9, 9],
    };
    assert_eq!(
        c.save(),
        vec![
            texts("color", "9 9 9"),
            texts("custom_color_enabled", "false"),
            texts("theme", "Dark"),
        ]
    );
    assert_eq!(Theme::Dark.name(), "Dark");
}
