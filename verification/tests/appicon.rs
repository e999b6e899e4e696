use clipstack::appicon::{frontmost_app, icon_for, png_data_url, resolve_frontmost};

#[test]
fn unknown_bundle_returns_none() {
    assert!(icon_for("com.clipstack.no-such-app").is_none());
}

#[test]
fn frontmost_app_is_unknown_here() {
    assert_eq!(frontmost_app(), None);
}

#[test]
fn resolve_frontmost_skips_own_app() {
    assert_eq!(resolve_frontmost(Some("com.user.clipstack".to_string()), Some("ClipStack".to_string())), None);
    assert_eq!(resolve_frontmost(None, Some("Safari".to_string())), None);
}

#[test]
fn resolve_frontmost_names() {
    assert_eq!(
        resolve_frontmost(Some("com.apple.Safari".to_string()), Some("Safari".to_string())),
        Some(("com.apple.Safari".to_string(), "Safari".to_string()))
    );
    assert_eq!(
        resolve_frontmost(Some("com.apple.Safari".to_string()), Some(String::new())),
        Some(("com.apple.Safari".to_string(), "com.apple.Safari".to_string()))
    );
    assert_eq!(
        resolve_frontmost(Some("org.example.app".to_string()), None),
        Some(("org.example.app".to_string(), "org.example.app".to_string()))
    );
}

#[test]
fn png_data_url_encodes_bytes() {
    assert_eq!(png_data_url(&[]), "data:image/png;base64,");
    assert_eq!(png_data_url(&[0x89, b'P', b'N', b'G']), "data:image/png;base64,iVBORw==");
    assert_eq!(png_data_url(b"Man"), "data:image/png;base64,TWFu");
}
