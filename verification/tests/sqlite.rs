//! The store's queries against SQLite running the same SQL on the same rows.

use clipstack::db::{clear_unpinned, init, list, prune, set_pinned, upsert_clip, Db};
use clipstack::text::like_contains;
use rusqlite::Connection;

const SCHEMA: &str = "CREATE TABLE clips (
    id INTEGER PRIMARY KEY AUTOINCREMENT,
    kind TEXT NOT NULL,
    text TEXT NOT NULL DEFAULT '',
    pinned INTEGER NOT NULL DEFAULT 0,
    hash TEXT NOT NULL UNIQUE,
    created_at INTEGER NOT NULL
);";

fn both(rows: &[(&str, &str, i64)]) -> (Db, Connection) {
    let mut d = init();
    let c = Connection::open_in_memory().unwrap();
    c.execute_batch(SCHEMA).unwrap();
    for (text, hash, now) in rows {
        upsert_clip(&mut d, "text", text, None, None, None, None, None, None, hash, *now).unwrap();
        c.execute(
            "INSERT INTO clips (kind, text, pinned, hash, created_at) VALUES ('text', ?1, 0, ?2, ?3)
             ON CONFLICT(hash) DO UPDATE SET created_at = excluded.created_at",
            (text, hash, now,),
        )
        .unwrap();
    }
    (d, c)
}

fn sql_list(c: &Connection, q: Option<&str>, limit: i64) -> Vec<i64> {
    let mut st = c
        .prepare(
            "SELECT id FROM clips WHERE (?1 IS NULL OR text LIKE '%' || ?1 || '%')
             ORDER BY pinned DESC, created_at DESC LIMIT ?2",
        )
        .unwrap();
    st.query_map((q, limit,), |r| r.get(0)).unwrap().map(|r| r.unwrap()).collect()
}

fn ids(d: &Db, q: Option<&str>, limit: i64) -> Vec<i64> {
    list(d, q, limit).iter().map(|i| i.id).collect()
}

fn sql_like(text: &str, q: &str) -> bool {
    let c = Connection::open_in_memory().unwrap();
    c.query_row("SELECT ?1 LIKE '%' || ?2 || '%'", (text, q,), |r| r.get::<_, bool>(0)).unwrap()
}

#[test]
fn like_agrees_with_sqlite() {
    let texts = ["Hello World", "hello", "", "abc_def", "a%b", "ÄPFEL äpfel", "剪贴板历史", "aXb", "mississippi"];
    let queries = ["", "world", "WORLD", "o w", "_", "__", "%", "a%b", "a_b", "c_d", "äpfel", "ÄPFEL", "贴板", "ssi%pi", "s_s", "x", "hello world!"];
    for t in texts {
        for q in queries {
            let tc: Vec<char> = t.chars().collect();
            let qc: Vec<char> = q.chars().collect();
            assert_eq!(like_contains(&tc, &qc), sql_like(t, q), "text {t:?} query {q:?}");
        }
    }
}

#[test]
fn list_agrees_with_sqlite() {
    let rows = [
        ("Hello World", "h1", 10),
        ("goodbye", "h2", 30),
        ("world peace", "h3", 20),
        ("Hello again", "h4", 40),
        ("wOrLd", "h5", 25),
        ("Hello World", "h1", 50),
    ];
    let (mut d, c) = both(&rows);
    set_pinned(&mut d, 3, true);
    c.execute("UPDATE clips SET pinned = ?2 WHERE id = ?1", (3, true as i64,)).unwrap();
    for q in [None, Some("world"), Some("HELLO"), Some("o_d"), Some("zzz"), Some("")] {
        for limit in [-1i64, 0, 1, 2, 3, 10, i64::MAX] {
            assert_eq!(ids(&d, q, limit), sql_list(&c, q, limit), "query {q:?} limit {limit}");
        }
    }
}

#[test]
fn prune_and_clear_agree_with_sqlite() {
    let rows = [("a", "ha", 1), ("b", "hb", 5), ("c", "hc", 3), ("d", "hd", 4), ("e", "he", 2)];
    let (mut d, c) = both(&rows);
    set_pinned(&mut d, 1, true);
    c.execute("UPDATE clips SET pinned = 1 WHERE id = 1", []).unwrap();
    let mut removed = prune(&mut d, 2);
    let mut st = c
        .prepare(
            "SELECT hash FROM clips WHERE pinned = 0 AND id NOT IN (
                 SELECT id FROM clips WHERE pinned = 0 ORDER BY created_at DESC LIMIT ?1)",
        )
        .unwrap();
    let mut sql_removed: Vec<String> = st.query_map((2,), |r| r.get(0)).unwrap().map(|r| r.unwrap()).collect();
    c.execute(
        "DELETE FROM clips WHERE pinned = 0 AND id NOT IN (
             SELECT id FROM clips WHERE pinned = 0 ORDER BY created_at DESC LIMIT ?1)",
        (2,),
    )
    .unwrap();
    removed.sort();
    sql_removed.sort();
    assert_eq!(removed, sql_removed);
    assert_eq!(ids(&d, None, -1), sql_list(&c, None, -1));

    let mut cleared = clear_unpinned(&mut d);
    c.execute("DELETE FROM clips WHERE pinned = 0", []).unwrap();
    cleared.sort();
    assert_eq!(cleared, vec!["hb".to_string(), "hd".to_string()]);
    assert_eq!(ids(&d, None, -1), sql_list(&c, None, -1));
}
