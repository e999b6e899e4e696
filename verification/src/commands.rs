//! What each command of the application decides and computes: the
//! listing limit, what goes back onto the clipboard, pin toggling,
//! settings, the ignore list and the source-app overview.
//! Window handling, events and the clipboard itself stay with the shell.

use vstd::prelude::*;
use vstd::string::StringSliceAdditionalSpecFns;
use crate::db::{
    self, ClipItem, ClipRecord, Db, is_listing, opt_view, pin_update, is_pinned, negate,
    hash_list, clone_opt,
};
use crate::text::{
    chars_of, blank, is_blank, parse_i64, parse_i64_spec, format_i64, format_i64_spec,
    push_chars, same_text,
};

verus! {

broadcast use vstd::seq_lib::group_seq_properties;

/// The shortcut used until the user picks another one.
pub const DEFAULT_HOTKEY: &'static str = "CommandOrControl+Shift+V";

/// The error text for a command on a record that does not exist.
pub const NOT_FOUND: &'static str = "记录不存在";

/// The error text for a shortcut that cannot be read.
pub const UNRECOGNIZED_HOTKEY: &'static str = "无法识别的快捷键组合";

/// The prefix of the error text for a shortcut that could not be registered.
pub const HOTKEY_TAKEN: &'static str = "快捷键注册失败（可能被其他应用占用）：";

/// The history capacity used when none (or no number) is stored.
pub const DEFAULT_CAPACITY: i64 = 500;

// ---------------------------------------------------------------------------
// Settings
// ---------------------------------------------------------------------------

/// A setting's value, or `default` when it is not stored.
pub open spec fn setting_or(db: Db, key: Seq<char>, default: Seq<char>) -> Seq<char> {
    match db.setting(key) {
        Some(v) => v,
        None => default,
    }
}

/// The stored history capacity: the `capacity` setting read as an `i64`,
/// 500 when it is missing or not a number.
pub open spec fn capacity_of(db: Db) -> int {
    match db.setting("capacity"@) {
        Some(v) => match parse_i64_spec(v) {
            Some(n) => n,
            None => 500,
        },
        None => 500,
    }
}

/// The listing limit for a capacity: no bound (`i64::MAX`) when the
/// capacity is zero or less.
pub open spec fn limit_for(capacity: int) -> int {
    if capacity <= 0 {
        i64::MAX as int
    } else {
        capacity
    }
}

/// A setting's value, or `default` when it is not stored.
pub fn read_setting(db: &Db, key: &str, default: &str) -> (r: String)
    ensures
        r@ == setting_or(*db, key@, default@),
{
    match db::get_setting(db, key) {
        Some(v) => v,
        None => default.to_owned(),
    }
}

/// The stored history capacity (500 when unset or not a number).
pub fn capacity(db: &Db) -> (r: i64)
    ensures
        r == capacity_of(*db),
{
    match db::get_setting(db, "capacity") {
        Some(v) => match parse_i64(v.as_str()) {
            Some(n) => n,
            None => DEFAULT_CAPACITY,
        },
        None => DEFAULT_CAPACITY,
    }
}

/// The search term in effect: an empty query searches for nothing.
pub open spec fn effective_query(query: Option<String>) -> Option<Seq<char>> {
    match query {
        Some(q) => if q@.len() == 0 {
            None
        } else {
            Some(q@)
        },
        None => None,
    }
}

/// The history list as the main window shows it: the listing for the
/// query, bounded by the stored capacity.
pub fn list_clips(db: &Db, query: Option<String>) -> (r: Vec<ClipItem>)
    requires
        db.wf(),
    ensures
        is_listing(db.rows(), effective_query(query), limit_for(capacity_of(*db)), r@),
        list_clips_shows(*db, query, r@),
{
    let cap = capacity(db);
    let limit: i64 = if cap <= 0 {
        i64::MAX
    } else {
        cap
    };
    let r = match &query {
        Some(q) => {
            if q.as_str().is_empty() {
                db::list(db, None, limit)
            } else {
                db::list(db, Some(q.as_str()), limit)
            }
        },
        None => db::list(db, None, limit),
    };
    proof {
        law_list_clips_complete(*db, query, r@);
    }
    r
}

/// What a history list holds when the stored capacity is positive and at
/// least the number of records, or zero or less (no bound): every record
/// without a query, and with a query every record whose text contains it
/// (ASCII case aside).
pub open spec fn list_clips_shows(db: Db, query: Option<String>, r: Seq<ClipItem>) -> bool {
    ((capacity_of(db) > 0 && db.rows().len() <= capacity_of(db)) || (capacity_of(db) <= 0
        && db.rows().len() <= i64::MAX)) ==> {
        &&& (query is None ==> forall|k: int|
            0 <= k < db.rows().len() ==> r.contains(#[trigger] db.rows()[k].item))
        &&& forall|k: int, i: int|
            0 <= k < db.rows().len() && query is Some && #[trigger] crate::text::occurs_at(
                query->0@,
                db.rows()[k].item.text@,
                i,
            ) ==> r.contains(db.rows()[k].item)
    }
}

/// The history list is bounded by the stored capacity itself: when it is at
/// least the number of records (or there is no bound), nothing is left out,
/// and a search lists every record whose text contains the query, whatever
/// its kind.
pub proof fn law_list_clips_complete(db: Db, query: Option<String>, r: Seq<ClipItem>)
    requires
        is_listing(db.rows(), effective_query(query), limit_for(capacity_of(db)), r),
    ensures
        list_clips_shows(db, query, r),
{
    let rows = db.rows();
    let q = effective_query(query);
    let limit = limit_for(capacity_of(db));
    if (capacity_of(db) > 0 && rows.len() <= capacity_of(db)) || (capacity_of(db) <= 0 && rows.len()
        <= i64::MAX) {
        assert(rows.len() <= limit);
        crate::db::law_listing_complete(rows, q, limit, r);
        assert forall|k: int| query is None && 0 <= k < rows.len() implies r.contains(
            #[trigger] rows[k].item,
        ) by {
            assert(db::matches_query(rows[k].item, q));
        }
        assert forall|k: int, i: int|
            0 <= k < rows.len() && query is Some && #[trigger] crate::text::occurs_at(
                query->0@,
                rows[k].item.text@,
                i,
            ) implies r.contains(rows[k].item) by {
            if query->0@.len() > 0 {
                crate::text::law_search_finds_occurrence(query->0@, rows[k].item.text@, i);
            }
            assert(db::matches_query(rows[k].item, q));
        }
    }
}

/// What the settings page shows.
#[derive(Debug, Clone, PartialEq, Eq)]
pub struct Status {
    pub paused: bool,
    pub capacity: i64,
    pub autostart: bool,
    pub theme: String,
    pub auto_paste: bool,
    pub hotkey: String,
}

/// The status from the stored settings, the recording switch and the
/// autostart state the system reports.
pub fn get_status(db: &Db, paused: bool, autostart: bool) -> (r: Status)
    ensures
        r.paused == paused,
        r.autostart == autostart,
        r.capacity == capacity_of(*db),
        r.theme@ == setting_or(*db, "theme"@, "system"@),
        r.auto_paste == (setting_or(*db, "auto_paste"@, "false"@) == "true"@),
        r.hotkey@ == setting_or(*db, "hotkey"@, DEFAULT_HOTKEY@),
{
    let cap = match parse_i64(read_setting(db, "capacity", "500").as_str()) {
        Some(n) => n,
        None => DEFAULT_CAPACITY,
    };
    proof {
        lemma_parse_500();
    }
    let theme = read_setting(db, "theme", "system");
    let auto = read_setting(db, "auto_paste", "false");
    let auto_paste = same_text(auto.as_str(), "true");
    let hotkey = read_setting(db, "hotkey", DEFAULT_HOTKEY);
    Status { paused, capacity: cap, autostart, theme, auto_paste, hotkey }
}

proof fn lemma_parse_500()
    ensures
        parse_i64_spec("500"@) == Some(500int),
{
    reveal_strlit("500");
    let s = "500"@;
    assert(s =~= seq!['5', '0', '0']);
    assert(s.drop_last() =~= seq!['5', '0']);
    assert(s.drop_last().drop_last() =~= seq!['5']);
    assert(s.drop_last().drop_last().drop_last() =~= Seq::<char>::empty());
    reveal_with_fuel(crate::text::digits_value, 4);
}

/// Stores the appearance (light, dark or system).
pub fn set_theme(db: &mut Db, theme: &str)
    requires
        old(db).wf(),
    ensures
        final(db).wf(),
        final(db).rows() == old(db).rows(),
        final(db).last_id() == old(db).last_id(),
        final(db).setting("theme"@) == Some(theme@),
        forall|k: Seq<char>| k != "theme"@ ==> final(db).setting(k) == old(db).setting(k),
{
    db::set_setting(db, "theme", theme);
}

/// Stores whether a chosen record is pasted right away.
pub fn set_auto_paste(db: &mut Db, enabled: bool)
    requires
        old(db).wf(),
    ensures
        final(db).wf(),
        final(db).rows() == old(db).rows(),
        final(db).last_id() == old(db).last_id(),
        final(db).setting("auto_paste"@) == Some(if enabled { "true"@ } else { "false"@ }),
        forall|k: Seq<char>| k != "auto_paste"@ ==> final(db).setting(k) == old(db).setting(k),
{
    db::set_setting(
        db,
        "auto_paste",
        if enabled {
            "true"
        } else {
            "false"
        },
    );
}

/// Stores the history capacity in decimal.
pub fn set_capacity(db: &mut Db, capacity: i64)
    requires
        old(db).wf(),
    ensures
        final(db).wf(),
        final(db).rows() == old(db).rows(),
        final(db).last_id() == old(db).last_id(),
        final(db).setting("capacity"@) == Some(format_i64_spec(capacity as int)),
        forall|k: Seq<char>| k != "capacity"@ ==> final(db).setting(k) == old(db).setting(k),
{
    let v = format_i64(capacity);
    db::set_setting(db, "capacity", v.as_str());
}


// ---------------------------------------------------------------------------
// Records
// ---------------------------------------------------------------------------

/// Flips the pinned flag of the record with the given id; the error text
/// `NOT_FOUND` when there is no such record.
pub fn toggle_pin(db: &mut Db, id: i64) -> (r: Result<(), String>)
    requires
        old(db).wf(),
    ensures
        final(db).wf(),
        final(db).last_id() == old(db).last_id(),
        forall|k: Seq<char>| final(db).setting(k) == old(db).setting(k),
        forall|k: int|
            0 <= k < old(db).rows().len() && old(db).rows()[k].item.id == id ==> r is Ok
                && final(db).rows() == old(db).rows().map_values(
                pin_update(id, !old(db).rows()[k].item.pinned),
            ),
        (forall|k: int| 0 <= k < old(db).rows().len() ==> old(db).rows()[k].item.id != id) ==> (
        r matches Err(e) && e@ == NOT_FOUND@ && final(db).rows() == old(db).rows()),
{
    match db::get(db, id) {
        None => Err(NOT_FOUND.to_owned()),
        Some(item) => {
            db::set_pinned(db, id, !item.pinned);
            Ok(())
        },
    }
}

/// The image file name for a content hash: its first 16 bytes (all of it
/// when shorter), then `.png`.
pub open spec fn image_stem_bytes(hash: Seq<char>) -> Seq<u8> {
    let b = vstd::utf8::encode_utf8(hash);
    if b.len() <= 16 {
        b
    } else {
        b.subrange(0, 16)
    }
}

/// Whether cutting the hash after 16 bytes splits no character (slicing
/// a string anywhere else panics).
pub open spec fn image_name_defined(hash: Seq<char>) -> bool {
    let b = vstd::utf8::encode_utf8(hash);
    b.len() <= 16 || vstd::utf8::is_char_boundary(b, 16)
}

/// `name` is the image file name of `hash`.
pub open spec fn is_image_name(hash: Seq<char>, name: Seq<char>) -> bool {
    &&& name.len() >= 4
    &&& name.subrange(name.len() - 4, name.len() as int) == seq!['.', 'p', 'n', 'g']
    &&& vstd::utf8::encode_utf8(name.subrange(0, name.len() - 4)) == image_stem_bytes(hash)
}

/// The file under the images directory that holds an image record's PNG.
pub fn image_file_name(hash: &str) -> (r: String)
    requires
        image_name_defined(hash@),
    ensures
        is_image_name(hash@, r@),
{
    let stem: &str = if hash.as_bytes().len() <= 16 {
        hash
    } else {
        hash.split_at(16).0
    };
    assert(stem.spec_bytes() == image_stem_bytes(hash@));
    let mut name = stem.to_owned();
    let ext: Vec<char> = vec!['.', 'p', 'n', 'g'];
    push_chars(&mut name, ext.as_slice());
    assert(name@.subrange(0, name@.len() - 4) =~= stem@);
    assert(name@.subrange(name@.len() - 4, name@.len() as int) =~= seq!['.', 'p', 'n', 'g']);
    name
}

/// Clears the history (pinned records stay); returns the image files of
/// the removed records, which the caller deletes.
pub fn clear_history_inner(db: &mut Db) -> (r: Vec<String>)
    requires
        old(db).wf(),
        forall|k: int|
            0 <= k < old(db).rows().len() && !old(db).rows()[k].item.pinned ==> image_name_defined(
                #[trigger] old(db).rows()[k].item.hash@,
            ),
    ensures
        final(db).wf(),
        final(db).last_id() == old(db).last_id(),
        forall|k: Seq<char>| final(db).setting(k) == old(db).setting(k),
        final(db).rows() == old(db).rows().filter(is_pinned()),
        r@.len() == hash_list(old(db).rows().filter(negate(is_pinned()))).len(),
        forall|i: int|
            0 <= i < r@.len() ==> is_image_name(
                hash_list(old(db).rows().filter(negate(is_pinned())))[i]@,
                #[trigger] r@[i]@,
            ),
{
    let ghost removed = old(db).rows().filter(negate(is_pinned()));
    proof {
        broadcast use vstd::seq_lib::group_filter_ensures;
    }
    let hashes = db::clear_unpinned(db);
    let mut names: Vec<String> = Vec::new();
    let mut i: usize = 0;
    while i < hashes.len()
        invariant
            i <= hashes@.len(),
            hashes@ == hash_list(removed),
            removed == old(db).rows().filter(negate(is_pinned())),
            forall|k: int|
                0 <= k < old(db).rows().len() && !old(db).rows()[k].item.pinned ==> image_name_defined(
                    #[trigger] old(db).rows()[k].item.hash@,
                ),
            names@.len() == i,
            forall|x: int| 0 <= x < i ==> is_image_name(hashes@[x]@, #[trigger] names@[x]@),
        decreases hashes@.len() - i,
    {
        proof {
            broadcast use vstd::seq_lib::group_filter_ensures;
            let rec = removed[i as int];
            assert(negate(is_pinned())(rec));
            assert(removed.contains(rec));
            old(db).rows().lemma_filter_contains_rev(negate(is_pinned()), rec);
            let k = choose|k: int| 0 <= k < old(db).rows().len() && old(db).rows()[k] == rec;
            assert(image_name_defined(old(db).rows()[k].item.hash@));
        }
        names.push(image_file_name(hashes[i].as_str()));
        i = i + 1;
    }
    names
}

// ---------------------------------------------------------------------------
// Writing a record back to the clipboard
// ---------------------------------------------------------------------------

/// What goes onto the system clipboard for a record.
#[derive(Debug, Clone, PartialEq, Eq)]
pub enum ClipPayload {
    /// The PNG in the images directory under this file name.
    Image { file_name: String },
    /// A file list (empty: nothing is written).
    Files { paths: Vec<String> },
    /// The text, and its HTML form when there is one to offer.
    Text { text: String, html: Option<String> },
}

/// A clipboard write: the content hash, which the watcher must not record
/// again, and the payload.
#[derive(Debug, Clone, PartialEq, Eq)]
pub struct ClipboardWrite {
    pub hash: String,
    pub payload: ClipPayload,
}

/// The file list stored in a record's `meta` (a JSON array of strings);
/// empty when there is none or it is not such an array.
pub open spec fn meta_paths(meta: Option<String>) -> Seq<Seq<char>> {
    match meta {
        Some(m) => match json_string_list(m@) {
            Some(l) => l,
            None => Seq::empty(),
        },
        None => Seq::empty(),
    }
}

pub open spec fn strings_view(v: Seq<String>) -> Seq<Seq<char>> {
    v.map_values(|s: String| s@)
}

/// The payload for `rec`: images by file, files by path list, anything
/// else as text, with the HTML form when `rich` and it is not blank.
pub open spec fn payload_matches(rec: ClipRecord, rich: bool, p: ClipPayload) -> bool {
    if rec.item.kind@ == "image"@ {
        p matches ClipPayload::Image { file_name } && is_image_name(rec.item.hash@, file_name@)
    } else if rec.item.kind@ == "file"@ {
        p matches ClipPayload::Files { paths } && strings_view(paths@) == meta_paths(rec.item.meta)
    } else {
        p matches ClipPayload::Text { text, html } && text == rec.item.text && html == (
        if rich && rec.html is Some && !is_blank(rec.html->0@) {
            rec.html
        } else {
            None
        })
    }
}

/// Reads `s` as a JSON array of strings.
pub fn parse_paths(s: &str) -> (r: Vec<String>)
    ensures
        strings_view(r@) == match json_string_list(s@) {
            Some(l) => l,
            None => Seq::<Seq<char>>::empty(),
        },
{
    match decode_string_list(s) {
        Some(v) => v,
        None => Vec::new(),
    }
}

/// What to put on the clipboard for the record with the given id (`rich`:
/// text records carry their HTML form too); `NOT_FOUND` when there is no
/// such record.
pub fn clipboard_write(db: &Db, id: i64, rich: bool) -> (r: Result<ClipboardWrite, String>)
    requires
        db.wf(),
        forall|k: int|
            0 <= k < db.rows().len() && db.rows()[k].item.id == id && db.rows()[k].item.kind@ == "image"@
                ==> image_name_defined(#[trigger] db.rows()[k].item.hash@),
    ensures
        r matches Ok(w) ==> exists|k: int|
            0 <= k < db.rows().len() && db.rows()[k].item.id == id && w.hash == db.rows()[k].item.hash
                && payload_matches(db.rows()[k], rich, w.payload),
        r matches Err(e) ==> e@ == NOT_FOUND@ && forall|k: int|
            0 <= k < db.rows().len() ==> db.rows()[k].item.id != id,
        forall|k: int|
            0 <= k < db.rows().len() && (#[trigger] db.rows()[k]).item.id == id ==> r is Ok,
        r matches Ok(w) ==> forall|k: int|
            0 <= k < db.rows().len() && (#[trigger] db.rows()[k]).item.id == id && db.rows()[k].item.kind@
                != "image"@ && db.rows()[k].item.kind@ != "file"@ ==> w.payload == (ClipPayload::Text {
                text: db.rows()[k].item.text,
                html: if rich && db.rows()[k].html is Some && !is_blank(db.rows()[k].html->0@) {
                    db.rows()[k].html
                } else {
                    None
                },
            }),
{
    let r = clipboard_write_inner(db, id, rich);
    proof {
        if r is Ok {
            let w = r->Ok_0;
            let k0 = choose|k: int|
                0 <= k < db.rows().len() && db.rows()[k].item.id == id && w.hash == db.rows()[k].item.hash
                    && payload_matches(db.rows()[k], rich, w.payload);
            assert forall|k: int|
                0 <= k < db.rows().len() && (#[trigger] db.rows()[k]).item.id == id && db.rows()[k].item.kind@
                    != "image"@ && db.rows()[k].item.kind@ != "file"@ implies w.payload == (ClipPayload::Text {
                text: db.rows()[k].item.text,
                html: if rich && db.rows()[k].html is Some && !is_blank(db.rows()[k].html->0@) {
                    db.rows()[k].html
                } else {
                    None
                },
            }) by {
                assert(k == k0);
                law_text_payload(db.rows()[k], rich, w.payload);
            }
        }
    }
    r
}

/// What a copy puts on the clipboard for a record that is neither an image
/// nor a file, whatever its kind (text, link, colour, ...): its text, and
/// its stored HTML form exactly when the copy is rich and that form is
/// present and not blank.
pub proof fn law_text_payload(rec: ClipRecord, rich: bool, p: ClipPayload)
    requires
        payload_matches(rec, rich, p),
        rec.item.kind@ != "image"@,
        rec.item.kind@ != "file"@,
    ensures
        p matches ClipPayload::Text { text, html } && text == rec.item.text,
        rich && rec.html is Some && !is_blank(rec.html->0@) ==> p == (ClipPayload::Text {
            text: rec.item.text,
            html: rec.html,
        }),
        !rich ==> p == (ClipPayload::Text { text: rec.item.text, html: None }),
        rec.html is None ==> p == (ClipPayload::Text { text: rec.item.text, html: None }),
{
}

fn clipboard_write_inner(db: &Db, id: i64, rich: bool) -> (r: Result<ClipboardWrite, String>)
    requires
        db.wf(),
        forall|k: int|
            0 <= k < db.rows().len() && db.rows()[k].item.id == id && db.rows()[k].item.kind@ == "image"@
                ==> image_name_defined(#[trigger] db.rows()[k].item.hash@),
    ensures
        r matches Ok(w) ==> exists|k: int|
            0 <= k < db.rows().len() && db.rows()[k].item.id == id && w.hash == db.rows()[k].item.hash
                && payload_matches(db.rows()[k], rich, w.payload),
        r matches Err(e) ==> e@ == NOT_FOUND@ && forall|k: int|
            0 <= k < db.rows().len() ==> db.rows()[k].item.id != id,
{
    let item = match db::get(db, id) {
        Some(it) => it,
        None => {
            return Err(NOT_FOUND.to_owned());
        },
    };
    let html: Option<String> = if rich {
        match db::get_html(db, id) {
            Ok(Some(h)) => if blank(h.as_str()) {
                None
            } else {
                Some(h)
            },
            _ => None,
        }
    } else {
        None
    };
    let payload = if same_text(item.kind.as_str(), "image") {
        ClipPayload::Image { file_name: image_file_name(item.hash.as_str()) }
    } else if same_text(item.kind.as_str(), "file") {
        let paths = match &item.meta {
            Some(m) => parse_paths(m.as_str()),
            None => Vec::new(),
        };
        assert(strings_view(paths@) == meta_paths(item.meta));
        ClipPayload::Files { paths }
    } else {
        ClipPayload::Text { text: item.text, html }
    };
    Ok(ClipboardWrite { hash: item.hash, payload })
}

/// Copy with formatting: text records carry their HTML form.
pub fn copy_clip(db: &Db, id: i64) -> (r: Result<ClipboardWrite, String>)
    requires
        db.wf(),
        forall|k: int|
            0 <= k < db.rows().len() && db.rows()[k].item.id == id && db.rows()[k].item.kind@ == "image"@
                ==> image_name_defined(#[trigger] db.rows()[k].item.hash@),
    ensures
        r matches Ok(w) ==> exists|k: int|
            0 <= k < db.rows().len() && db.rows()[k].item.id == id && w.hash == db.rows()[k].item.hash
                && payload_matches(db.rows()[k], true, w.payload),
        r matches Err(e) ==> e@ == NOT_FOUND@ && forall|k: int|
            0 <= k < db.rows().len() ==> db.rows()[k].item.id != id,
{
    clipboard_write(db, id, true)
}

/// Copy as plain text.
pub fn copy_clip_plain(db: &Db, id: i64) -> (r: Result<ClipboardWrite, String>)
    requires
        db.wf(),
        forall|k: int|
            0 <= k < db.rows().len() && db.rows()[k].item.id == id && db.rows()[k].item.kind@ == "image"@
                ==> image_name_defined(#[trigger] db.rows()[k].item.hash@),
    ensures
        r matches Ok(w) ==> exists|k: int|
            0 <= k < db.rows().len() && db.rows()[k].item.id == id && w.hash == db.rows()[k].item.hash
                && payload_matches(db.rows()[k], false, w.payload),
        r matches Err(e) ==> e@ == NOT_FOUND@ && forall|k: int|
            0 <= k < db.rows().len() ==> db.rows()[k].item.id != id,
{
    clipboard_write(db, id, false)
}

// ---------------------------------------------------------------------------
// JSON string lists (serde_json)
// ---------------------------------------------------------------------------

/// What `serde_json::from_str::<Vec<String>>` gives for a text: the list
/// of strings when the text is a JSON array of strings, `None` otherwise.
pub uninterp spec fn json_string_list(s: Seq<char>) -> Option<Seq<Seq<char>>>;

/// What `serde_json::to_string` gives for a list of strings.
pub uninterp spec fn json_of_string_list(l: Seq<Seq<char>>) -> Seq<char>;

/// `serde_json::from_str::<Vec<String>>`: the contract names its result,
/// `Some` exactly when the text parses.
#[verifier::external_body]
fn decode_string_list(s: &str) -> (r: Option<Vec<String>>)
    ensures
        match r {
            Some(v) => json_string_list(s@) == Some(strings_view(v@)),
            None => json_string_list(s@) is None,
        },
{
    serde_json::from_str::<Vec<String>>(s).ok()
}

/// `serde_json::to_string` on a list of strings. Serialising strings into
/// an in-memory buffer cannot fail; the contract names the text and
/// states that `from_str` reads the same list back from it.
#[verifier::external_body]
fn encode_string_list(list: &Vec<String>) -> (r: Result<String, serde_json::Error>)
    ensures
        r is Ok,
        r matches Ok(s) ==> s@ == json_of_string_list(strings_view(list@)),
        r matches Ok(s) ==> json_string_list(s@) == Some(strings_view(list@)),
{
    serde_json::to_string(list)
}

/// The error type of `serde_json`.
#[verifier::external_type_specification]
#[verifier::external_body]
pub struct ExJsonError(serde_json::Error);


// ---------------------------------------------------------------------------
// Shortcut
// ---------------------------------------------------------------------------

/// The shortcut in effect: the stored one, else the default.
pub fn current_hotkey(db: &Db) -> (r: String)
    ensures
        r@ == setting_or(*db, "hotkey"@, DEFAULT_HOTKEY@),
{
    read_setting(db, "hotkey", DEFAULT_HOTKEY)
}

/// How the system took a new shortcut.
#[derive(Debug, Clone, PartialEq, Eq)]
pub enum HotkeyOutcome {
    /// The text names no shortcut.
    Unrecognized,
    /// Registration failed with this message (the old shortcut is restored).
    RegisterFailed(String),
    /// The shortcut is registered.
    Registered,
}

/// Finishes a shortcut change: stores the shortcut once it is registered,
/// and otherwise answers with the error text and changes nothing.
pub fn set_hotkey(db: &mut Db, hotkey: &str, outcome: HotkeyOutcome) -> (r: Result<(), String>)
    requires
        old(db).wf(),
    ensures
        final(db).wf(),
        final(db).rows() == old(db).rows(),
        final(db).last_id() == old(db).last_id(),
        match outcome {
            HotkeyOutcome::Unrecognized => r matches Err(e) && e@ == UNRECOGNIZED_HOTKEY@
                && forall|k: Seq<char>| final(db).setting(k) == old(db).setting(k),
            HotkeyOutcome::RegisterFailed(msg) => r matches Err(e) && e@ == HOTKEY_TAKEN@ + msg@
                && forall|k: Seq<char>| final(db).setting(k) == old(db).setting(k),
            HotkeyOutcome::Registered => r is Ok && final(db).setting("hotkey"@) == Some(hotkey@)
                && forall|k: Seq<char>| k != "hotkey"@ ==> final(db).setting(k) == old(db).setting(k),
        },
{
    match outcome {
        HotkeyOutcome::Unrecognized => Err(UNRECOGNIZED_HOTKEY.to_owned()),
        HotkeyOutcome::RegisterFailed(msg) => {
            let mut e = HOTKEY_TAKEN.to_owned();
            let m = chars_of(msg.as_str());
            push_chars(&mut e, m.as_slice());
            Err(e)
        },
        HotkeyOutcome::Registered => {
            db::set_setting(db, "hotkey", hotkey);
            Ok(())
        },
    }
}

// ---------------------------------------------------------------------------
// Ignored source apps
// ---------------------------------------------------------------------------

/// The ignore list: the `ignored_apps` setting read as a JSON array of
/// strings, empty when missing or unreadable.
pub open spec fn ignored_list(db: Db) -> Seq<Seq<char>> {
    match db.setting("ignored_apps"@) {
        Some(v) => match json_string_list(v) {
            Some(l) => l,
            None => Seq::empty(),
        },
        None => Seq::empty(),
    }
}

/// The ignore list after ignoring (`ignored`) or no longer ignoring `b`:
/// added at the end unless present; removed wherever it occurs.
pub open spec fn updated_ignore(l: Seq<Seq<char>>, b: Seq<char>, ignored: bool) -> Seq<Seq<char>> {
    if ignored {
        if l.contains(b) {
            l
        } else {
            l.push(b)
        }
    } else {
        l.filter(differs_from(b))
    }
}

/// Entries other than `b`.
pub open spec fn differs_from(b: Seq<char>) -> spec_fn(Seq<char>) -> bool {
    |x: Seq<char>| x != b
}

/// The ignore list.
pub fn read_ignored(db: &Db) -> (r: Vec<String>)
    ensures
        strings_view(r@) == ignored_list(*db),
{
    match db::get_setting(db, "ignored_apps") {
        Some(v) => parse_paths(v.as_str()),
        None => Vec::new(),
    }
}

/// The ignore list, as the settings page shows it.
pub fn get_ignored_apps(db: &Db) -> (r: Vec<String>)
    ensures
        strings_view(r@) == ignored_list(*db),
{
    read_ignored(db)
}

/// The ignore list after ignoring (`ignored`) or no longer ignoring `bundle`.
pub fn updated_ignore_list(list: Vec<String>, bundle: &str, ignored: bool) -> (r: Vec<String>)
    ensures
        strings_view(r@) == updated_ignore(strings_view(list@), bundle@, ignored),
{
    let ghost l = strings_view(list@);
    let ghost not_b = differs_from(bundle@);
    let mut found = false;
    let mut out: Vec<String> = Vec::new();
    let mut i: usize = 0;
    while i < list.len()
        invariant
            i <= list@.len(),
            l == strings_view(list@),
            not_b == differs_from(bundle@),
            found == l.take(i as int).contains(bundle@),
            strings_view(out@) == l.take(i as int).filter(not_b),
        decreases list@.len() - i,
    {
        let same = same_text(list[i].as_str(), bundle);
        proof {
            assert(l.take(i + 1) =~= l.take(i as int).push(l[i as int]));
            l.take(i as int).lemma_filter_push(l[i as int], not_b);
            assert(l[i as int] == list@[i as int]@);
        }
        if same {
            found = true;
        } else {
            out.push(list[i].clone());
            assert(strings_view(out@) =~= l.take(i as int).filter(not_b).push(l[i as int]));
        }
        i = i + 1;
    }
    assert(l.take(list@.len() as int) =~= l);
    let new_list: Vec<String> = if ignored {
        if found {
            list
        } else {
            let mut v = list;
            v.push(bundle.to_owned());
            assert(strings_view(v@) =~= l.push(bundle@));
            v
        }
    } else {
        out
    };
    new_list
}

/// Ignores (or stops ignoring) the app `bundle` and stores the list.
pub fn set_ignored_app(db: &mut Db, bundle: &str, ignored: bool) -> (r: Result<(), String>)
    requires
        old(db).wf(),
    ensures
        r is Ok,
        final(db).wf(),
        final(db).rows() == old(db).rows(),
        final(db).last_id() == old(db).last_id(),
        final(db).setting("ignored_apps"@) == Some(
            json_of_string_list(updated_ignore(ignored_list(*old(db)), bundle@, ignored)),
        ),
        ignored_list(*final(db)) == updated_ignore(ignored_list(*old(db)), bundle@, ignored),
        forall|k: Seq<char>| k != "ignored_apps"@ ==> final(db).setting(k) == old(db).setting(k),
{
    let list = read_ignored(db);
    let new_list = updated_ignore_list(list, bundle, ignored);
    match encode_string_list(&new_list) {
        Ok(json) => {
            db::set_setting(db, "ignored_apps", json.as_str());
            Ok(())
        },
        Err(_) => Err(String::new()),
    }
}

// ---------------------------------------------------------------------------
// Source apps seen in the history
// ---------------------------------------------------------------------------

/// An app that clipboard records came from.
#[derive(Debug, Clone, PartialEq, Eq)]
pub struct SourceApp {
    pub bundle: String,
    pub name: String,
    pub icon: Option<String>,
}

/// Row `k` is a latest record of the app `b`: it comes from `b`, and no
/// record from `b` is newer.
pub open spec fn latest_for(rows: Seq<ClipRecord>, b: Seq<char>, k: int) -> bool {
    &&& 0 <= k < rows.len()
    &&& opt_view(rows[k].item.source_bundle) == Some(b)
    &&& forall|j: int|
        0 <= j < rows.len() && opt_view(#[trigger] rows[j].item.source_bundle) == Some(b)
            ==> rows[j].item.created_at <= rows[k].item.created_at
}

/// The display name a record gives its app: its `source`, or empty.
pub open spec fn source_name(rec: ClipRecord) -> Seq<char> {
    match rec.item.source {
        Some(s) => s@,
        None => Seq::empty(),
    }
}

/// The apps that appear in the history, once each, described by one of
/// their latest records, most recently used first.
pub open spec fn is_source_app_list(rows: Seq<ClipRecord>, r: Seq<SourceApp>) -> bool {
    &&& forall|i: int|
        0 <= i < r.len() ==> exists|k: int|
            latest_for(rows, (#[trigger] r[i]).bundle@, k) && r[i].name@ == source_name(rows[k])
                && opt_view(r[i].icon) == opt_view(rows[k].item.source_icon)
    &&& forall|i: int, j: int|
        0 <= i < r.len() && 0 <= j < r.len() && i != j ==> (#[trigger] r[i]).bundle@ != (
        #[trigger] r[j]).bundle@
    &&& forall|k: int|
        0 <= k < rows.len() && (#[trigger] rows[k].item.source_bundle) is Some ==> exists|i: int|
            0 <= i < r.len() && Some((#[trigger] r[i]).bundle@) == opt_view(rows[k].item.source_bundle)
    &&& forall|i: int, j: int, ki: int, kj: int|
        0 <= i < j < r.len() && #[trigger] latest_for(rows, r[i].bundle@, ki) && #[trigger] latest_for(
            rows,
            r[j].bundle@,
            kj,
        ) ==> rows[ki].item.created_at >= rows[kj].item.created_at
}

proof fn lemma_latest_unique_time(rows: Seq<ClipRecord>, b: Seq<char>, k1: int, k2: int)
    requires
        latest_for(rows, b, k1),
        latest_for(rows, b, k2),
    ensures
        rows[k1].item.created_at == rows[k2].item.created_at,
{
    assert(opt_view(rows[k1].item.source_bundle) == Some(b));
    assert(opt_view(rows[k2].item.source_bundle) == Some(b));
}

/// Groups the records by app: one latest record per app (by index).
#[verifier::spinoff_prover]
#[verifier::rlimit(40)]
fn latest_per_app(recs: &Vec<ClipRecord>) -> (reps: Vec<usize>)
    ensures
        forall|g: int|
            0 <= g < reps@.len() ==> (#[trigger] reps@[g]) < recs@.len() && opt_view(
                recs@[reps@[g] as int].item.source_bundle,
            ) is Some && latest_for(
                recs@,
                opt_view(recs@[reps@[g] as int].item.source_bundle)->0,
                reps@[g] as int,
            ),
        forall|g: int, h: int|
            0 <= g < reps@.len() && 0 <= h < reps@.len() && g != h ==> opt_view(
                recs@[(#[trigger] reps@[g]) as int].item.source_bundle,
            ) != opt_view(recs@[(#[trigger] reps@[h]) as int].item.source_bundle),
        forall|x: int|
            0 <= x < recs@.len() && (#[trigger] recs@[x].item.source_bundle) is Some ==> exists|g: int|
                0 <= g < reps@.len() && opt_view(recs@[(#[trigger] reps@[g]) as int].item.source_bundle)
                    == opt_view(recs@[x].item.source_bundle),
{
    let ghost rows = recs@;
    let n = recs.len();
    let mut reps: Vec<usize> = Vec::new();
    let mut k: usize = 0;
    while k < n
        invariant
            k <= n,
            n == rows.len(),
            rows == recs@,
            forall|g: int|
                0 <= g < reps@.len() ==> (#[trigger] reps@[g]) < k && opt_view(
                    rows[reps@[g] as int].item.source_bundle,
                ) is Some && latest_for(
                    rows.take(k as int),
                    opt_view(rows[reps@[g] as int].item.source_bundle)->0,
                    reps@[g] as int,
                ),
            forall|g: int, h: int|
                0 <= g < reps@.len() && 0 <= h < reps@.len() && g != h ==> opt_view(
                    rows[(#[trigger] reps@[g]) as int].item.source_bundle,
                ) != opt_view(rows[(#[trigger] reps@[h]) as int].item.source_bundle),
            forall|x: int|
                0 <= x < k && (#[trigger] rows[x].item.source_bundle) is Some ==> exists|g: int|
                    0 <= g < reps@.len() && opt_view(rows[(#[trigger] reps@[g]) as int].item.source_bundle)
                        == opt_view(rows[x].item.source_bundle),
        decreases n - k,
    {
        let ghost pre = rows.take(k as int);
        let ghost post = rows.take(k + 1);
        let ghost old_reps = reps@;
        assert(post =~= pre.push(rows[k as int]));
        match &recs[k].item.source_bundle {
            None => {
                assert forall|g: int| 0 <= g < reps@.len() implies latest_for(
                    post,
                    opt_view(rows[reps@[g] as int].item.source_bundle)->0,
                    #[trigger] reps@[g] as int,
                ) by {
                    let b = opt_view(rows[reps@[g] as int].item.source_bundle)->0;
                    assert(latest_for(pre, b, reps@[g] as int));
                    assert forall|j: int|
                        0 <= j < post.len() && opt_view(#[trigger] post[j].item.source_bundle) == Some(b)
                            implies post[j].item.created_at <= post[reps@[g] as int].item.created_at by {
                        if j < k {
                            assert(post[j] == pre[j]);
                        }
                    }
                }
            },
            Some(b) => {
                let ghost bv = b@;
                let mut g: usize = 0;
                let mut found: Option<usize> = None;
                while g < reps.len()
                    invariant
                        g <= reps@.len(),
                        k < n,
                        n == rows.len(),
                        rows == recs@,
                        opt_view(rows[k as int].item.source_bundle) == Some(bv),
                        bv == b@,
                        found matches Some(f) ==> f < reps@.len() && opt_view(
                            rows[reps@[f as int] as int].item.source_bundle,
                        ) == Some(bv),
                        found is None ==> forall|x: int|
                            0 <= x < g ==> opt_view(rows[(#[trigger] reps@[x]) as int].item.source_bundle)
                                != Some(bv),
                        forall|x: int| 0 <= x < reps@.len() ==> (#[trigger] reps@[x]) < k,
                    decreases reps@.len() - g,
                {
                    if found.is_none() {
                        let rg = reps[g];
                        match &recs[rg].item.source_bundle {
                            Some(c) => {
                                if same_text(c.as_str(), b.as_str()) {
                                    found = Some(g);
                                }
                            },
                            None => {},
                        }
                    }
                    g = g + 1;
                }
                match found {
                    Some(f) => {
                        let rf = reps[f];
                        let newer = recs[k].item.created_at > recs[rf].item.created_at;
                        if newer {
                            reps.set(f, k);
                        }
                        assert forall|x: int| 0 <= x < reps@.len() implies latest_for(
                            post,
                            opt_view(rows[reps@[x] as int].item.source_bundle)->0,
                            #[trigger] reps@[x] as int,
                        ) by {
                            let r0 = old_reps[x];
                            let bx = opt_view(rows[r0 as int].item.source_bundle)->0;
                            assert(latest_for(pre, bx, r0 as int));
                            if x == f {
                                assert(bx == bv);
                                assert forall|j: int|
                                    0 <= j < post.len() && opt_view(
                                        #[trigger] post[j].item.source_bundle,
                                    ) == Some(bv) implies post[j].item.created_at
                                    <= post[reps@[x] as int].item.created_at by {
                                    if j < k {
                                        assert(post[j] == pre[j]);
                                    }
                                }
                            } else {
                                assert(opt_view(rows[old_reps[x] as int].item.source_bundle) != opt_view(
                                    rows[old_reps[f as int] as int].item.source_bundle,
                                ));
                                assert forall|j: int|
                                    0 <= j < post.len() && opt_view(
                                        #[trigger] post[j].item.source_bundle,
                                    ) == Some(bx) implies post[j].item.created_at
                                    <= post[reps@[x] as int].item.created_at by {
                                    if j < k {
                                        assert(post[j] == pre[j]);
                                    }
                                }
                            }
                        }
                        assert forall|x: int|
                            0 <= x < k + 1 && (#[trigger] rows[x].item.source_bundle) is Some implies exists|
                                g2: int,
                            |
                                0 <= g2 < reps@.len() && opt_view(
                                    rows[(#[trigger] reps@[g2]) as int].item.source_bundle,
                                ) == opt_view(rows[x].item.source_bundle) by {
                            if x == k {
                                assert(opt_view(rows[reps@[f as int] as int].item.source_bundle) == Some(
                                    bv,
                                ));
                            } else {
                                let g2 = choose|g2: int|
                                    0 <= g2 < old_reps.len() && opt_view(
                                        rows[(#[trigger] old_reps[g2]) as int].item.source_bundle,
                                    ) == opt_view(rows[x].item.source_bundle);
                                if g2 == f {
                                    assert(opt_view(rows[reps@[g2] as int].item.source_bundle) == Some(
                                        bv,
                                    ));
                                } else {
                                    assert(reps@[g2] == old_reps[g2]);
                                }
                            }
                        }
                    },
                    None => {
                        reps.push(k);
                        assert forall|x: int| 0 <= x < reps@.len() implies latest_for(
                            post,
                            opt_view(rows[reps@[x] as int].item.source_bundle)->0,
                            #[trigger] reps@[x] as int,
                        ) by {
                            if x == old_reps.len() {
                                assert forall|j: int|
                                    0 <= j < post.len() && opt_view(
                                        #[trigger] post[j].item.source_bundle,
                                    ) == Some(bv) implies post[j].item.created_at
                                    <= post[k as int].item.created_at by {
                                    if j < k {
                                        assert(post[j] == pre[j]);
                                        assert(rows[j].item.source_bundle is Some);
                                        let g2 = choose|g2: int|
                                            0 <= g2 < old_reps.len() && opt_view(
                                                rows[(#[trigger] old_reps[g2]) as int].item.source_bundle,
                                            ) == opt_view(rows[j].item.source_bundle);
                                        assert(false);
                                    }
                                }
                            } else {
                                let r0 = old_reps[x];
                                let bx = opt_view(rows[r0 as int].item.source_bundle)->0;
                                assert(latest_for(pre, bx, r0 as int));
                                assert(bx != bv);
                                assert forall|j: int|
                                    0 <= j < post.len() && opt_view(
                                        #[trigger] post[j].item.source_bundle,
                                    ) == Some(bx) implies post[j].item.created_at
                                    <= post[reps@[x] as int].item.created_at by {
                                    if j < k {
                                        assert(post[j] == pre[j]);
                                    }
                                }
                            }
                        }
                        assert forall|x: int|
                            0 <= x < k + 1 && (#[trigger] rows[x].item.source_bundle) is Some implies exists|
                                g2: int,
                            |
                                0 <= g2 < reps@.len() && opt_view(
                                    rows[(#[trigger] reps@[g2]) as int].item.source_bundle,
                                ) == opt_view(rows[x].item.source_bundle) by {
                            if x == k {
                                assert(reps@[old_reps.len() as int] == k);
                            } else {
                                let g2 = choose|g2: int|
                                    0 <= g2 < old_reps.len() && opt_view(
                                        rows[(#[trigger] old_reps[g2]) as int].item.source_bundle,
                                    ) == opt_view(rows[x].item.source_bundle);
                                assert(reps@[g2] == old_reps[g2]);
                            }
                        }
                    },
                }
            },
        }
        k = k + 1;
    }
    assert(rows.take(n as int) =~= rows);
    reps
}


/// The apps seen in the history (the ignore-rules page lists them).
pub fn get_source_apps(db: &Db) -> (r: Vec<SourceApp>)
    ensures
        is_source_app_list(db.rows(), r@),
{
    let recs = db.records();
    let ghost rows = recs@;
    let mut reps = latest_per_app(recs);
    let m = reps.len();
    // selection sort of the groups, latest use first
    let mut i: usize = 0;
    while i < m
        invariant
            i <= m,
            m == reps@.len(),
            rows == recs@,
            forall|g: int|
                0 <= g < reps@.len() ==> (#[trigger] reps@[g]) < rows.len() && opt_view(
                    rows[reps@[g] as int].item.source_bundle,
                ) is Some && latest_for(
                    rows,
                    opt_view(rows[reps@[g] as int].item.source_bundle)->0,
                    reps@[g] as int,
                ),
            forall|g: int, h: int|
                0 <= g < reps@.len() && 0 <= h < reps@.len() && g != h ==> opt_view(
                    rows[(#[trigger] reps@[g]) as int].item.source_bundle,
                ) != opt_view(rows[(#[trigger] reps@[h]) as int].item.source_bundle),
            forall|x: int|
                0 <= x < rows.len() && (#[trigger] rows[x].item.source_bundle) is Some ==> exists|g: int|
                    0 <= g < reps@.len() && opt_view(rows[(#[trigger] reps@[g]) as int].item.source_bundle)
                        == opt_view(rows[x].item.source_bundle),
            forall|g: int, h: int|
                0 <= g < h < reps@.len() && g < i ==> rows[(#[trigger] reps@[g]) as int].item.created_at
                    >= rows[(#[trigger] reps@[h]) as int].item.created_at,
        decreases m - i,
    {
        let mut best: usize = i;
        let mut j: usize = i + 1;
        while j < m
            invariant
                i < m,
                i <= best < m,
                i < j <= m,
                m == reps@.len(),
                forall|g: int| 0 <= g < reps@.len() ==> (#[trigger] reps@[g]) < rows.len(),
                rows == recs@,
                forall|x: int|
                    i <= x < j ==> rows[(#[trigger] reps@[x]) as int].item.created_at <= rows[reps@[best as int] as int].item.created_at,
            decreases m - j,
        {
            if recs[reps[j]].item.created_at > recs[reps[best]].item.created_at {
                best = j;
            }
            j = j + 1;
        }
        let ghost pre = reps@;
        let a = reps[i];
        let b = reps[best];
        reps.set(i, b);
        reps.set(best, a);
        assert(reps@ =~= pre.update(i as int, b).update(best as int, a));
        let ghost perm = |x: int|
            if x == i {
                best as int
            } else if x == best {
                i as int
            } else {
                x
            };
        assert forall|x: int| 0 <= x < m implies #[trigger] reps@[x] == pre[perm(x)] by {}
        assert forall|x: int|
            0 <= x < rows.len() && (#[trigger] rows[x].item.source_bundle) is Some implies exists|g: int|
                0 <= g < reps@.len() && opt_view(rows[(#[trigger] reps@[g]) as int].item.source_bundle)
                    == opt_view(rows[x].item.source_bundle) by {
            let g = choose|g: int|
                0 <= g < pre.len() && opt_view(rows[(#[trigger] pre[g]) as int].item.source_bundle)
                    == opt_view(rows[x].item.source_bundle);
            assert(reps@[perm(g)] == pre[g]);
        }
        assert forall|g: int, h: int|
            0 <= g < reps@.len() && 0 <= h < reps@.len() && g != h implies opt_view(
                rows[(#[trigger] reps@[g]) as int].item.source_bundle,
            ) != opt_view(rows[(#[trigger] reps@[h]) as int].item.source_bundle) by {
            assert(reps@[g] == pre[perm(g)] && reps@[h] == pre[perm(h)]);
        }
        assert forall|g: int, h: int|
            0 <= g < h < reps@.len() && g < i + 1 implies rows[(#[trigger] reps@[g]) as int].item.created_at
                >= rows[(#[trigger] reps@[h]) as int].item.created_at by {
            assert(reps@[g] == pre[perm(g)] && reps@[h] == pre[perm(h)]);
            if g < i {
            } else {
                assert(g == i);
                if h == best {
                } else {
                    assert(rows[pre[h] as int].item.created_at <= rows[pre[best as int] as int].item.created_at);
                }
            }
        }
        i = i + 1;
    }
    let mut out: Vec<SourceApp> = Vec::new();
    let mut t: usize = 0;
    while t < m
        invariant
            t <= m,
            m == reps@.len(),
            rows == recs@,
            rows == db.rows(),
            out@.len() == t,
            forall|g: int|
                0 <= g < reps@.len() ==> (#[trigger] reps@[g]) < rows.len() && opt_view(
                    rows[reps@[g] as int].item.source_bundle,
                ) is Some && latest_for(
                    rows,
                    opt_view(rows[reps@[g] as int].item.source_bundle)->0,
                    reps@[g] as int,
                ),
            forall|g: int|
                0 <= g < t ==> Some((#[trigger] out@[g]).bundle@) == opt_view(
                    rows[reps@[g] as int].item.source_bundle,
                ) && out@[g].name@ == source_name(rows[reps@[g] as int]) && opt_view(out@[g].icon)
                    == opt_view(rows[reps@[g] as int].item.source_icon),
        decreases m - t,
    {
        let rec = &recs[reps[t]];
        let bundle = match &rec.item.source_bundle {
            Some(b) => b.clone(),
            None => String::new(),
        };
        let name = match &rec.item.source {
            Some(s) => s.clone(),
            None => String::new(),
        };
        out.push(SourceApp { bundle, name, icon: clone_opt(&rec.item.source_icon) });
        t = t + 1;
    }
    proof {
        let r = out@;
        assert forall|i: int| 0 <= i < r.len() implies exists|k: int|
            latest_for(rows, (#[trigger] r[i]).bundle@, k) && r[i].name@ == source_name(rows[k])
                && opt_view(r[i].icon) == opt_view(rows[k].item.source_icon) by {
            assert(latest_for(rows, r[i].bundle@, reps@[i] as int));
        }
        assert forall|x: int|
            0 <= x < rows.len() && (#[trigger] rows[x].item.source_bundle) is Some implies exists|i: int|
                0 <= i < r.len() && Some((#[trigger] r[i]).bundle@) == opt_view(rows[x].item.source_bundle) by {
            let g = choose|g: int|
                0 <= g < reps@.len() && opt_view(rows[(#[trigger] reps@[g]) as int].item.source_bundle)
                    == opt_view(rows[x].item.source_bundle);
            assert(Some(r[g].bundle@) == opt_view(rows[x].item.source_bundle));
        }
        assert forall|i: int, j: int, ki: int, kj: int|
            0 <= i < j < r.len() && #[trigger] latest_for(rows, r[i].bundle@, ki) && #[trigger] latest_for(
                rows,
                r[j].bundle@,
                kj,
            ) implies rows[ki].item.created_at >= rows[kj].item.created_at by {
            lemma_latest_unique_time(rows, r[i].bundle@, ki, reps@[i] as int);
            lemma_latest_unique_time(rows, r[j].bundle@, kj, reps@[j] as int);
        }
    }
    out
}


// ---------------------------------------------------------------------------
// Laws
// ---------------------------------------------------------------------------

/// The capacity that `set_capacity` stores is the one the status reports.
pub proof fn law_capacity_read_back(db: Db, capacity: i64)
    requires
        db.setting("capacity"@) == Some(format_i64_spec(capacity as int)),
    ensures
        capacity_of(db) == capacity,
{
    crate::text::lemma_parse_format_i64(capacity);
}

/// An ignored app is on the ignore list; ignoring it again changes nothing.
pub proof fn law_ignore_adds(l: Seq<Seq<char>>, b: Seq<char>)
    ensures
        updated_ignore(l, b, true).contains(b),
        updated_ignore(updated_ignore(l, b, true), b, true) == updated_ignore(l, b, true),
        forall|x: Seq<char>| l.contains(x) ==> updated_ignore(l, b, true).contains(x),
{
    if !l.contains(b) {
        assert(l.push(b)[l.len() as int] == b);
        assert forall|x: Seq<char>| l.contains(x) implies l.push(b).contains(x) by {
            let i = choose|i: int| 0 <= i < l.len() && l[i] == x;
            assert(l.push(b)[i] == x);
        }
    }
}

/// An app no longer ignored is off the list, and every other entry stays.
pub proof fn law_unignore_removes(l: Seq<Seq<char>>, b: Seq<char>)
    ensures
        !updated_ignore(l, b, false).contains(b),
        forall|x: Seq<char>| x != b ==> (updated_ignore(l, b, false).contains(x) <==> l.contains(x)),
{
    broadcast use vstd::seq_lib::group_filter_ensures;

    let p = differs_from(b);
    let f = l.filter(p);
    if f.contains(b) {
        let i = choose|i: int| 0 <= i < f.len() && f[i] == b;
        assert(p(f[i]));
    }
    assert forall|x: Seq<char>| x != b implies (f.contains(x) <==> l.contains(x)) by {
        if l.contains(x) {
            let i = choose|i: int| 0 <= i < l.len() && l[i] == x;
            assert(p(l[i]));
        }
        if f.contains(x) {
            l.lemma_filter_contains_rev(p, x);
        }
    }
}

} // verus!
