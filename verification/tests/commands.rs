use clipstack::commands::{
    capacity, clear_history_inner, clipboard_write, copy_clip, copy_clip_plain, current_hotkey,
    get_ignored_apps, get_source_apps, get_status, image_file_name, list_clips, read_setting,
    updated_ignore_list,
    set_auto_paste, set_capacity, set_hotkey, set_ignored_app, set_theme, toggle_pin, ClipPayload,
    HotkeyOutcome, SourceApp, Status, DEFAULT_HOTKEY, NOT_FOUND,
};
use clipstack::db::{self, get, get_setting, init, set_setting, upsert_clip, Db};

fn add(d: &mut Db, kind: &str, text: &str, meta: Option<&str>, html: Option<&str>, hash: &str, now: i64) {
    upsert_clip(d, kind, text, meta, None, None, None, None, html, hash, now).unwrap();
}

fn from_app(d: &mut Db, bundle: &str, name: Option<&str>, icon: Option<&str>, hash: &str, now: i64) {
    upsert_clip(d, "text", hash, None, None, name, icon, Some(bundle), None, hash, now).unwrap();
}

#[test]
fn status_defaults() {
    let d = init();
    assert_eq!(
        get_status(&d, true, false),
        Status {
            paused: true,
            capacity: 500,
            autostart: false,
            theme: "system".into(),
            auto_paste: false,
            hotkey: DEFAULT_HOTKEY.into(),
        }
    );
    assert_eq!(current_hotkey(&d), "CommandOrControl+Shift+V");
    assert_eq!(read_setting(&d, "theme", "system"), "system");
}

#[test]
fn status_reads_settings() {
    let mut d = init();
    set_theme(&mut d, "dark");
    set_auto_paste(&mut d, true);
    set_capacity(&mut d, -3);
    let s = get_status(&d, false, true);
    assert_eq!(s.theme, "dark");
    assert!(s.auto_paste);
    assert_eq!(s.capacity, -3);
    assert!(s.autostart);
    set_auto_paste(&mut d, false);
    assert_eq!(get_setting(&d, "auto_paste").as_deref(), Some("false"));
    assert!(!get_status(&d, false, false).auto_paste);
    set_setting(&mut d, "capacity", "lots");
    assert_eq!(capacity(&d), 500);
    assert_eq!(get_status(&d, false, false).capacity, 500);
}

#[test]
fn capacity_round_trip() {
    let mut d = init();
    for n in [0i64, 1, 250, -1, i64::MAX, i64::MIN] {
        set_capacity(&mut d, n);
        assert_eq!(capacity(&d), n);
        assert_eq!(get_status(&d, false, false).capacity, n);
    }
}

#[test]
fn list_clips_uses_capacity() {
    let mut d = init();
    for i in 0..5 {
        add(&mut d, "text", &format!("item {i}"), None, None, &format!("h{i}"), i);
    }
    assert_eq!(list_clips(&d, None).len(), 5);
    set_capacity(&mut d, 2);
    let l = list_clips(&d, None);
    assert_eq!(l.iter().map(|i| i.id).collect::<Vec<_>>(), vec![5, 4]);
    set_capacity(&mut d, 0);
    assert_eq!(list_clips(&d, None).len(), 5);
    assert_eq!(list_clips(&d, Some(String::new())).len(), 5);
    assert_eq!(list_clips(&d, Some("ITEM 3".into())).iter().map(|i| i.id).collect::<Vec<_>>(), vec![4]);
}

#[test]
fn toggle_pin_flips_and_reports_missing() {
    let mut d = init();
    add(&mut d, "text", "a", None, None, "ha", 1);
    toggle_pin(&mut d, 1).unwrap();
    assert!(get(&d, 1).unwrap().pinned);
    toggle_pin(&mut d, 1).unwrap();
    assert!(!get(&d, 1).unwrap().pinned);
    assert_eq!(toggle_pin(&mut d, 9), Err(NOT_FOUND.to_string()));
    assert_eq!(NOT_FOUND, "记录不存在");
}

#[test]
fn image_names_cut_hash_at_16_bytes() {
    assert_eq!(image_file_name("0123456789abcdef0123"), "0123456789abcdef.png");
    assert_eq!(image_file_name("abc"), "abc.png");
    assert_eq!(image_file_name(""), ".png");
    assert_eq!(image_file_name("0123456789abcdef"), "0123456789abcdef.png");
}

#[test]
fn clear_history_lists_image_files() {
    let mut d = init();
    add(&mut d, "image", "", None, None, "aaaaaaaaaaaaaaaaaaaaaa", 1);
    add(&mut d, "text", "keep", None, None, "bbbb", 2);
    add(&mut d, "text", "gone", None, None, "cccc", 3);
    toggle_pin(&mut d, 2).unwrap();
    assert_eq!(clear_history_inner(&mut d), vec!["aaaaaaaaaaaaaaaa.png".to_string(), "cccc.png".to_string()]);
    assert_eq!(d.records().len(), 1);
    assert!(get(&d, 2).is_some());
}

#[test]
fn clipboard_payloads() {
    let mut d = init();
    add(&mut d, "text", "hello", None, Some("<b>hello</b>"), "h1", 1);
    add(&mut d, "link", "https://x.org", None, Some(" \n "), "h2", 2);
    add(&mut d, "image", "", None, None, "0123456789abcdef9999", 3);
    add(&mut d, "file", "a.txt", Some("[\"/tmp/a.txt\",\"/tmp/b.txt\"]"), None, "h4", 4);
    add(&mut d, "file", "x", Some("not json"), None, "h5", 5);

    let w = copy_clip(&d, 1).unwrap();
    assert_eq!(w.hash, "h1");
    assert_eq!(w.payload, ClipPayload::Text { text: "hello".into(), html: Some("<b>hello</b>".into()) });
    assert_eq!(copy_clip_plain(&d, 1).unwrap().payload, ClipPayload::Text { text: "hello".into(), html: None });
    assert_eq!(copy_clip(&d, 2).unwrap().payload, ClipPayload::Text { text: "https://x.org".into(), html: None });
    assert_eq!(clipboard_write(&d, 3, true).unwrap().payload, ClipPayload::Image { file_name: "0123456789abcdef.png".into() });
    assert_eq!(
        copy_clip(&d, 4).unwrap().payload,
        ClipPayload::Files { paths: vec!["/tmp/a.txt".into(), "/tmp/b.txt".into()] }
    );
    assert_eq!(copy_clip(&d, 5).unwrap().payload, ClipPayload::Files { paths: vec![] });
    assert_eq!(copy_clip(&d, 6), Err(NOT_FOUND.to_string()));
}

#[test]
fn hotkey_outcomes() {
    let mut d = init();
    assert_eq!(set_hotkey(&mut d, "bad", HotkeyOutcome::Unrecognized), Err("无法识别的快捷键组合".to_string()));
    assert_eq!(current_hotkey(&d), DEFAULT_HOTKEY);
    assert_eq!(
        set_hotkey(&mut d, "Alt+V", HotkeyOutcome::RegisterFailed("busy".into())),
        Err("快捷键注册失败（可能被其他应用占用）：busy".to_string())
    );
    assert_eq!(current_hotkey(&d), DEFAULT_HOTKEY);
    assert_eq!(set_hotkey(&mut d, "Alt+V", HotkeyOutcome::Registered), Ok(()));
    assert_eq!(current_hotkey(&d), "Alt+V");
    assert_eq!(get_status(&d, false, false).hotkey, "Alt+V");
}

#[test]
fn ignore_list_add_remove() {
    let mut d = init();
    assert!(get_ignored_apps(&d).is_empty());
    set_ignored_app(&mut d, "com.a", true).unwrap();
    set_ignored_app(&mut d, "com.b", true).unwrap();
    set_ignored_app(&mut d, "com.a", true).unwrap();
    assert_eq!(get_ignored_apps(&d), vec!["com.a".to_string(), "com.b".to_string()]);
    assert_eq!(get_setting(&d, "ignored_apps").as_deref(), Some("[\"com.a\",\"com.b\"]"));
    set_ignored_app(&mut d, "com.a", false).unwrap();
    assert_eq!(get_ignored_apps(&d), vec!["com.b".to_string()]);
    set_ignored_app(&mut d, "com.zzz", false).unwrap();
    assert_eq!(get_ignored_apps(&d), vec!["com.b".to_string()]);
}

#[test]
fn ignore_list_from_bad_setting() {
    let mut d = init();
    set_setting(&mut d, "ignored_apps", "{oops");
    assert!(get_ignored_apps(&d).is_empty());
    set_ignored_app(&mut d, "com.q\"x", true).unwrap();
    assert_eq!(get_ignored_apps(&d), vec!["com.q\"x".to_string()]);
}

#[test]
fn source_apps_grouped_latest_first() {
    let mut d = init();
    from_app(&mut d, "com.a", Some("A old"), Some("ia1"), "h1", 10);
    from_app(&mut d, "com.b", None, None, "h2", 20);
    from_app(&mut d, "com.a", Some("A new"), Some("ia2"), "h3", 30);
    add(&mut d, "text", "no source", None, None, "h4", 40);
    from_app(&mut d, "com.c", Some("C"), None, "h5", 5);
    assert_eq!(
        get_source_apps(&d),
        vec![
            SourceApp { bundle: "com.a".into(), name: "A new".into(), icon: Some("ia2".into()) },
            SourceApp { bundle: "com.b".into(), name: String::new(), icon: None },
            SourceApp { bundle: "com.c".into(), name: "C".into(), icon: None },
        ]
    );
    db::delete(&mut d, 3);
    assert_eq!(get_source_apps(&d)[0], SourceApp { bundle: "com.b".into(), name: String::new(), icon: None });
    assert_eq!(get_source_apps(&d)[1].name, "A old");
}

#[test]
fn ignore_list_updates() {
    let l = |v: &[&str]| v.iter().map(|s| s.to_string()).collect::<Vec<String>>();
    assert_eq!(updated_ignore_list(l(&["a", "b"]), "c", true), l(&["a", "b", "c"]));
    assert_eq!(updated_ignore_list(l(&["a", "b"]), "a", true), l(&["a", "b"]));
    assert_eq!(updated_ignore_list(l(&["a", "b", "a"]), "a", false), l(&["b"]));
    assert_eq!(updated_ignore_list(l(&[]), "a", false), l(&[]));
}
