use axolotl_core::error::ErrorKind;
use axolotl_core::shortcut::{
    check_shortcut_target, desktop_shortcut_name, instance_launch_url,
    shortcut_path_with_extension,
};

#[test]
fn launch_url_uses_the_registered_scheme_and_encodes_values() {
    let url = instance_launch_url(
        "instance id/测试".to_string(),
        Some("example.org:25565".to_string()),
        None,
    );

    assert_eq!(
        url.as_str(),
        "axolotl://launch?instance_id=instance+id%2F%E6%B5%8B%E8%AF%95&server=example.org%3A25565"
    );
}

#[test]
fn desktop_shortcut_name_is_safe_on_all_supported_platforms() {
    assert_eq!(
        desktop_shortcut_name("My: Instance?/ "),
        "Axolotl - My_ Instance__"
    );
    assert_eq!(desktop_shortcut_name(" ... "), "Axolotl - Instance");
}

#[test]
fn launch_url_opens_a_world_only_without_a_server() {
    let url = instance_launch_url(
        "abc".to_string(),
        None,
        Some("New World*".to_string()),
    );
    assert_eq!(url, "axolotl://launch?instance_id=abc&singleplayer_world=New+World*");
    let both = instance_launch_url(
        "abc".to_string(),
        Some("s".to_string()),
        Some("w".to_string()),
    );
    assert_eq!(both, "axolotl://launch?instance_id=abc&server=s");
}

#[test]
fn shortcut_cannot_launch_both_a_server_and_a_world() {
    match check_shortcut_target(&Some("s".to_string()), &Some("w".to_string())) {
        Err(ErrorKind::OtherError(m)) => {
            assert_eq!(m, "shortcut cannot launch both a server and a singleplayer world")
        }
        other => panic!("unexpected {other:?}"),
    }
    assert!(check_shortcut_target(&Some("s".to_string()), &None).is_ok());
}

#[test]
fn shortcut_names_replace_control_characters() {
    assert_eq!(desktop_shortcut_name("a\tb\u{7f}"), "Axolotl - a_b_");
    assert_eq!(desktop_shortcut_name("<>:\"|*"), "Axolotl - ______");
}

#[test]
fn shortcut_extension_is_added_once() {
    assert_eq!(shortcut_path_with_extension("/tmp/a.desktop".to_string(), "desktop"), "/tmp/a.desktop");
    assert_eq!(shortcut_path_with_extension("/tmp/a.txt".to_string(), "desktop"), "/tmp/a.desktop");
    assert_eq!(shortcut_path_with_extension("/tmp/a".to_string(), "desktop"), "/tmp/a.desktop");
}

#[test]
fn shortcut_names_are_portable_for_any_instance_name() {
    for name in ["", "   ", "a. . .", "\u{0}\u{1f}", "x/y\\z:*?", "ok name", "..."] {
        let full = desktop_shortcut_name(name);
        assert!(full.starts_with("Axolotl - "));
        let label = &full["Axolotl - ".len()..];
        assert!(!label.is_empty(), "{name:?}");
        assert!(!full.ends_with('.') && !full.ends_with(' '), "{name:?}");
        assert!(
            !full.chars().any(|c| c.is_control() || "<>:\"/\\|?*".contains(c)),
            "{name:?}"
        );
    }
}

#[test]
fn a_path_given_the_shortcut_extension_keeps_it() {
    let once = shortcut_path_with_extension("/tmp/My.Instance".to_string(), "lnk");
    assert_eq!(once, "/tmp/My.lnk");
    assert_eq!(shortcut_path_with_extension(once.clone(), "lnk"), once);
    assert_eq!(shortcut_path_with_extension("/".to_string(), "lnk"), "/");
}
