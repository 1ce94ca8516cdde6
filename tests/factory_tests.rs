use hyprink::config::{
    Config, IconsSection, LayoutSection, LoggingConfig, RetentionConfig, StructureConfig, TagConfig,
    ThemeSection,
};
use hyprink::factory::{ColorResolver, TagFactory};
use hyprink::strmap::StrMap;

fn create_test_config() -> Config {
    Config {
        theme: ThemeSection {
            name: "test".to_string(),
            active_icons: "nerdfont".to_string(),
            colors: StrMap::new(),
            fonts: StrMap::new(),
        },
        icons: IconsSection { nerdfont: StrMap::new(), ascii: StrMap::new() },
        layout: LayoutSection {
            tag: TagConfig {
                prefix: "[".to_string(),
                suffix: "]".to_string(),
                transform: "uppercase".to_string(),
                min_width: 5,
                alignment: "center".to_string(),
            },
            labels: StrMap::from_pairs(vec![
                ("info".to_string(), "INF".to_string()),
                ("error".to_string(), "ERR".to_string()),
            ]),
            structure: StructureConfig { terminal: "{tag} {msg}".to_string(), file: "{msg}".to_string() },
            logging: LoggingConfig {
                base_dir: "/tmp".to_string(),
                path_structure: "{app}".to_string(),
                filename_structure: "{level}.log".to_string(),
                timestamp_format: "%H:%M:%S".to_string(),
                write_by_default: false,
                app_name: "test".to_string(),
                retention: RetentionConfig::default(),
            },
        },
    }
}

#[test]
fn test_tag_factory_uppercase_transform() {
    let config = create_test_config();
    let tag = TagFactory::create_tag(&config, "debug");
    assert_eq!(tag, "[DEBUG]");
}

#[test]
fn test_tag_factory_lowercase_transform() {
    let mut config = create_test_config();
    config.layout.tag.transform = "lowercase".to_string();
    let tag = TagFactory::create_tag(&config, "DEBUG");
    assert_eq!(tag, "[debug]");
}

#[test]
fn test_tag_factory_capitalize_transform() {
    let mut config = create_test_config();
    config.layout.tag.transform = "capitalize".to_string();
    let tag = TagFactory::create_tag(&config, "debug");
    assert_eq!(tag, "[Debug]");
}

#[test]
fn test_tag_factory_no_transform() {
    let mut config = create_test_config();
    config.layout.tag.transform = "none".to_string();
    let tag = TagFactory::create_tag(&config, "MiXeD");
    assert_eq!(tag, "[MiXeD]");
}

#[test]
fn test_tag_factory_label_lookup() {
    let config = create_test_config();
    let tag = TagFactory::create_tag(&config, "info");
    assert_eq!(tag, "[ INF ]");
}

#[test]
fn test_tag_factory_min_width_padding() {
    let mut config = create_test_config();
    config.layout.tag.min_width = 10;
    let tag = TagFactory::create_tag(&config, "ok");
    assert_eq!(tag, "[    OK    ]");
}

#[test]
fn test_tag_factory_no_padding_when_exceeds() {
    let mut config = create_test_config();
    config.layout.tag.min_width = 3;
    let tag = TagFactory::create_tag(&config, "debug");
    assert_eq!(tag, "[DEBUG]");
}

#[test]
fn test_tag_factory_custom_brackets() {
    let mut config = create_test_config();
    config.layout.tag.prefix = "<<".to_string();
    config.layout.tag.suffix = ">>".to_string();
    config.layout.tag.min_width = 0;
    let tag = TagFactory::create_tag(&config, "ok");
    assert_eq!(tag, "<<OK>>");
}

#[test]
fn tag_odd_padding_goes_right() {
    let mut config = create_test_config();
    config.layout.tag.min_width = 6;
    config.layout.tag.transform = "none".to_string();
    assert_eq!(TagFactory::create_tag(&config, "ok"), "[  ok  ]");
    config.layout.tag.min_width = 5;
    assert_eq!(TagFactory::create_tag(&config, "ok"), "[ ok  ]");
}

#[test]
fn capitalize_empty_and_unicode_labels() {
    let mut config = create_test_config();
    config.layout.tag.transform = "capitalize".to_string();
    config.layout.tag.min_width = 0;
    assert_eq!(TagFactory::create_tag(&config, ""), "[]");
    assert_eq!(TagFactory::create_tag(&config, "ßx"), "[SSx]");
}

#[test]
fn test_color_resolver_valid_hex_with_hash() {
    let color = ColorResolver::hex_to_color("#FF5500");
    assert_eq!(color.r, 255);
    assert_eq!(color.g, 85);
    assert_eq!(color.b, 0);
}

#[test]
fn test_color_resolver_valid_hex_without_hash() {
    let color = ColorResolver::hex_to_color("00FF00");
    assert_eq!(color.r, 0);
    assert_eq!(color.g, 255);
    assert_eq!(color.b, 0);
}

#[test]
fn test_color_resolver_black() {
    let color = ColorResolver::hex_to_color("#000000");
    assert_eq!(color.r, 0);
    assert_eq!(color.g, 0);
    assert_eq!(color.b, 0);
}

#[test]
fn test_color_resolver_white() {
    let color = ColorResolver::hex_to_color("#FFFFFF");
    assert_eq!(color.r, 255);
    assert_eq!(color.g, 255);
    assert_eq!(color.b, 255);
}

#[test]
fn test_color_resolver_invalid_short() {
    let color = ColorResolver::hex_to_color("#FFF");
    assert_eq!(color.r, 255);
    assert_eq!(color.g, 255);
    assert_eq!(color.b, 255);
}

#[test]
fn test_color_resolver_invalid_empty() {
    let color = ColorResolver::hex_to_color("");
    assert_eq!(color.r, 255);
    assert_eq!(color.g, 255);
    assert_eq!(color.b, 255);
}

#[test]
fn test_color_resolver_lowercase_hex() {
    let color = ColorResolver::hex_to_color("#aabbcc");
    assert_eq!(color.r, 170);
    assert_eq!(color.g, 187);
    assert_eq!(color.b, 204);
}

#[test]
fn color_component_that_does_not_parse_is_255() {
    let color = ColorResolver::hex_to_color("##12zz+f");
    assert_eq!(color.r, 0x12);
    assert_eq!(color.g, 255);
    assert_eq!(color.b, 15);
}
