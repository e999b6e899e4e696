use clipstack::db::{
    self, clear_unpinned, delete, get, get_html, get_setting, init, list, prune, restore,
    set_pinned, set_setting, upsert_clip, ClipItem, ClipRecord, Db, DbError,
};

fn add(d: &mut Db, text: &str, hash: &str, now: i64) {
    upsert_clip(d, "text", text, None, None, None, None, None, None, hash, now).unwrap();
}

fn ids(v: &[ClipItem]) -> Vec<i64> {
    v.iter().map(|i| i.id).collect()
}

#[test]
fn upsert_inserts_with_next_id() {
    let mut d = init();
    upsert_clip(&mut d, "link", "https://x.org", Some("m"), None, Some("Safari"), None, Some("com.apple.Safari"), Some("<a>x</a>"), "h1", 10).unwrap();
    add(&mut d, "two", "h2", 20);
    let it = get(&d, 1).unwrap();
    assert_eq!(it.kind, "link");
    assert_eq!(it.text, "https://x.org");
    assert_eq!(it.meta.as_deref(), Some("m"));
    assert_eq!(it.source.as_deref(), Some("Safari"));
    assert_eq!(it.source_bundle.as_deref(), Some("com.apple.Safari"));
    assert!(!it.pinned);
    assert_eq!(it.created_at, 10);
    assert_eq!(get(&d, 2).unwrap().hash, "h2");
    assert_eq!(get_html(&d, 1), Ok(Some("<a>x</a>".to_string())));
    assert_eq!(get_html(&d, 2), Ok(None));
    assert_eq!(get_html(&d, 3), Err(DbError::NotFound));
    assert_eq!(d.last_assigned_id(), 2);
}

#[test]
fn upsert_same_hash_only_refreshes_time() {
    let mut d = init();
    add(&mut d, "first", "h", 1);
    upsert_clip(&mut d, "image", "other", Some("x"), None, None, None, None, None, "h", 99).unwrap();
    assert_eq!(d.records().len(), 1);
    let it = get(&d, 1).unwrap();
    assert_eq!(it.text, "first");
    assert_eq!(it.kind, "text");
    assert_eq!(it.meta, None);
    assert_eq!(it.created_at, 99);
    assert_eq!(d.last_assigned_id(), 1);
}

#[test]
fn upsert_when_ids_run_out() {
    let mut d = restore(Vec::new(), Vec::new(), i64::MAX).unwrap();
    assert_eq!(upsert_clip(&mut d, "text", "t", None, None, None, None, None, None, "h", 1), Err(DbError::Full));
    assert_eq!(d.records().len(), 0);
}

#[test]
fn list_orders_pinned_then_newest() {
    let mut d = init();
    add(&mut d, "a", "ha", 10);
    add(&mut d, "b", "hb", 30);
    add(&mut d, "c", "hc", 20);
    add(&mut d, "d", "hd", 30);
    set_pinned(&mut d, 3, true);
    assert_eq!(ids(&list(&d, None, -1)), vec![3, 4, 2, 1]);
    assert_eq!(ids(&list(&d, None, 2)), vec![3, 4]);
    assert_eq!(ids(&list(&d, None, 0)), Vec::<i64>::new());
    assert_eq!(ids(&list(&d, None, i64::MAX)), vec![3, 4, 2, 1]);
}

#[test]
fn list_searches_text() {
    let mut d = init();
    add(&mut d, "Hello World", "h1", 1);
    add(&mut d, "goodbye", "h2", 2);
    add(&mut d, "world peace", "h3", 3);
    assert_eq!(ids(&list(&d, Some("WORLD"), -1)), vec![3, 1]);
    assert_eq!(ids(&list(&d, Some("o_d"), -1)), vec![2]);
    assert_eq!(ids(&list(&d, Some("zzz"), -1)), Vec::<i64>::new());
}

#[test]
fn pin_and_delete() {
    let mut d = init();
    add(&mut d, "a", "ha", 1);
    add(&mut d, "b", "hb", 2);
    set_pinned(&mut d, 1, true);
    assert!(get(&d, 1).unwrap().pinned);
    set_pinned(&mut d, 1, false);
    assert!(!get(&d, 1).unwrap().pinned);
    set_pinned(&mut d, 7, true);
    delete(&mut d, 1);
    assert_eq!(get(&d, 1), None);
    assert_eq!(ids(&list(&d, None, -1)), vec![2]);
    delete(&mut d, 42);
    assert_eq!(d.records().len(), 1);
}

#[test]
fn clear_keeps_pinned() {
    let mut d = init();
    add(&mut d, "a", "ha", 1);
    add(&mut d, "b", "hb", 2);
    add(&mut d, "c", "hc", 3);
    set_pinned(&mut d, 2, true);
    assert_eq!(clear_unpinned(&mut d), vec!["ha".to_string(), "hc".to_string()]);
    assert_eq!(ids(&list(&d, None, -1)), vec![2]);
}

#[test]
fn prune_keeps_newest_unpinned() {
    let mut d = init();
    add(&mut d, "a", "ha", 1);
    add(&mut d, "b", "hb", 5);
    add(&mut d, "c", "hc", 3);
    add(&mut d, "d", "hd", 4);
    set_pinned(&mut d, 1, true);
    assert_eq!(prune(&mut d, 0), Vec::<String>::new());
    assert_eq!(prune(&mut d, -3), Vec::<String>::new());
    assert_eq!(d.records().len(), 4);
    assert_eq!(prune(&mut d, 2), vec!["hc".to_string()]);
    assert_eq!(ids(&list(&d, None, -1)), vec![1, 2, 4]);
    assert_eq!(prune(&mut d, 2), Vec::<String>::new());
    assert_eq!(prune(&mut d, 10), Vec::<String>::new());
}

#[test]
fn settings_read_back() {
    let mut d = init();
    assert_eq!(get_setting(&d, "theme"), None);
    set_setting(&mut d, "theme", "dark");
    set_setting(&mut d, "capacity", "20");
    set_setting(&mut d, "theme", "light");
    assert_eq!(get_setting(&d, "theme").as_deref(), Some("light"));
    assert_eq!(get_setting(&d, "capacity").as_deref(), Some("20"));
    assert_eq!(d.setting_pairs().len(), 2);
}

fn rec(id: i64, hash: &str) -> ClipRecord {
    ClipRecord {
        item: ClipItem {
            id,
            kind: "text".into(),
            text: "t".into(),
            meta: None,
            thumb: None,
            source: None,
            source_icon: None,
            source_bundle: None,
            pinned: false,
            hash: hash.into(),
            created_at: 0,
        },
        html: None,
    }
}

#[test]
fn restore_checks_constraints() {
    assert!(restore(vec![rec(1, "a"), rec(2, "b")], vec![], 2).is_ok());
    assert_eq!(restore(vec![rec(1, "a"), rec(1, "b")], vec![], 2).err(), Some(DbError::Invalid));
    assert_eq!(restore(vec![rec(1, "a"), rec(2, "a")], vec![], 2).err(), Some(DbError::Invalid));
    assert_eq!(restore(vec![rec(3, "a")], vec![], 2).err(), Some(DbError::Invalid));
    assert_eq!(restore(vec![rec(0, "a")], vec![], 2).err(), Some(DbError::Invalid));
    assert_eq!(restore(vec![], vec![], -1).err(), Some(DbError::Invalid));
    let d = restore(vec![rec(5, "a")], vec![("k".into(), "v".into())], 9).unwrap();
    assert_eq!(db::get_setting(&d, "k").as_deref(), Some("v"));
    assert_eq!(d.last_assigned_id(), 9);
}

#[test]
fn recopying_moves_record_to_front() {
    let mut d = init();
    add(&mut d, "a", "ha", 10);
    add(&mut d, "b", "hb", 20);
    add(&mut d, "c", "hc", 30);
    assert_eq!(ids(&list(&d, None, -1)), vec![3, 2, 1]);
    add(&mut d, "a again", "ha", 40);
    assert_eq!(ids(&list(&d, None, -1)), vec![1, 3, 2]);
    assert_eq!(get(&d, 1).unwrap().text, "a");
}

#[test]
fn recopied_record_follows_pinned_ones() {
    let mut d = init();
    add(&mut d, "a", "ha", 10);
    add(&mut d, "b", "hb", 100);
    add(&mut d, "c", "hc", 30);
    set_pinned(&mut d, 2, true);
    add(&mut d, "a again", "ha", 40);
    assert_eq!(ids(&list(&d, None, -1)), vec![2, 1, 3]);
    let it = get(&d, 1).unwrap();
    assert_eq!((it.text.as_str(), it.created_at, it.pinned), ("a", 40, false));
}
