//! The clip history and the settings table.
//!
//! `Db` holds what the `clips` and `settings` tables hold, and each function
//! here is one query on them: upsert by content hash, listing with `LIKE`
//! search ordered pinned-first then newest-first, pinning, deletion,
//! clearing and pruning to a capacity, and key/value settings.

use vstd::prelude::*;
use crate::text::{chars_of, like_contains, like_match, contains_pattern};

verus! {

broadcast use vstd::seq_lib::group_seq_properties;

/// One clipboard record as the history list shows it.
#[derive(Debug, Clone, PartialEq, Eq)]
pub struct ClipItem {
    pub id: i64,
    pub kind: String,
    pub text: String,
    pub meta: Option<String>,
    pub thumb: Option<String>,
    pub source: Option<String>,
    pub source_icon: Option<String>,
    pub source_bundle: Option<String>,
    pub pinned: bool,
    pub hash: String,
    pub created_at: i64,
}

/// A stored row: the item and its HTML form, which listings leave out.
#[derive(Debug, Clone, PartialEq, Eq)]
pub struct ClipRecord {
    pub item: ClipItem,
    pub html: Option<String>,
}

/// Why a store operation failed.
#[derive(Debug, PartialEq, Eq)]
pub enum DbError {
    /// No record has the requested id.
    NotFound,
    /// Every id up to `i64::MAX` has been handed out.
    Full,
    /// Stored rows that break the table's constraints (a repeated id or
    /// hash, or an id beyond the id sequence).
    Invalid,
}

/// The history store: the records in insertion order, the settings as
/// key/value pairs, and the largest id ever handed out.
pub struct Db {
    records: Vec<ClipRecord>,
    settings: Vec<(String, String)>,
    last_id: i64,
}

pub open spec fn opt_view(o: Option<String>) -> Option<Seq<char>> {
    match o {
        Some(s) => Some(s@),
        None => None,
    }
}

pub open spec fn opt_str_view(o: Option<&str>) -> Option<Seq<char>> {
    match o {
        Some(s) => Some(s@),
        None => None,
    }
}

/// The value stored under `key`: the first pair whose key is `key`.
pub open spec fn lookup(s: Seq<(String, String)>, key: Seq<char>) -> Option<Seq<char>>
    decreases s.len(),
{
    if s.len() == 0 {
        None
    } else if s[0].0@ == key {
        Some(s[0].1@)
    } else {
        lookup(s.drop_first(), key)
    }
}

/// `a` is listed before `b`: pinned records first, then newer first,
/// then (for equal times) the later insertion first.
pub open spec fn ranks_before(a: ClipItem, b: ClipItem) -> bool {
    (a.pinned && !b.pinned) || (a.pinned == b.pinned && (a.created_at > b.created_at || (
    a.created_at == b.created_at && a.id > b.id)))
}

/// Whether an item passes the search: no query, or its text matches
/// `'%' || q || '%'`.
pub open spec fn matches_query(item: ClipItem, q: Option<Seq<char>>) -> bool {
    match q {
        None => true,
        Some(q) => like_match(contains_pattern(q), item.text@),
    }
}

/// `r` is the answer to the listing query over `rows`: matching items,
/// in listing order, the first `limit` of them (all of them when `limit`
/// is negative).
pub open spec fn is_listing(
    rows: Seq<ClipRecord>,
    q: Option<Seq<char>>,
    limit: int,
    r: Seq<ClipItem>,
) -> bool {
    &&& (limit >= 0 ==> r.len() <= limit)
    &&& forall|i: int|
        0 <= i < r.len() ==> exists|k: int|
            0 <= k < rows.len() && rows[k].item == #[trigger] r[i] && matches_query(rows[k].item, q)
    &&& forall|i: int, j: int| 0 <= i < j < r.len() ==> ranks_before(#[trigger] r[i], #[trigger] r[j])
    &&& forall|k: int|
        0 <= k < rows.len() && matches_query(#[trigger] rows[k].item, q) ==> (r.contains(rows[k].item)
            || (limit >= 0 && r.len() == limit && forall|i: int|
            0 <= i < r.len() ==> ranks_before(#[trigger] r[i], rows[k].item)))
}

/// Ids and content hashes are unique, ids are positive, and none exceeds
/// `last_id` (the table's id sequence).
pub open spec fn rows_wf(rows: Seq<ClipRecord>, last_id: int) -> bool {
    &&& last_id >= 0
    &&& forall|i: int| 0 <= i < rows.len() ==> 1 <= #[trigger] rows[i].item.id <= last_id
    &&& forall|i: int, j: int|
        0 <= i < rows.len() && 0 <= j < rows.len() && i != j ==> (#[trigger] rows[i]).item.id
            != (#[trigger] rows[j]).item.id
    &&& forall|i: int, j: int|
        0 <= i < rows.len() && 0 <= j < rows.len() && i != j ==> (#[trigger] rows[i]).item.hash@
            != (#[trigger] rows[j]).item.hash@
}

/// The record with `created_at` set to `now`, all else kept.
pub open spec fn refreshed(r: ClipRecord, now: i64) -> ClipRecord {
    ClipRecord { item: ClipItem { created_at: now, ..r.item }, html: r.html }
}

/// Sets `pinned` on the record with the given id, leaves the others.
pub open spec fn pin_update(id: i64, pinned: bool) -> spec_fn(ClipRecord) -> ClipRecord {
    |x: ClipRecord|
        if x.item.id == id {
            with_pinned(x, pinned)
        } else {
            x
        }
}

/// Records other than the one with the given id.
pub open spec fn id_differs(id: i64) -> spec_fn(ClipRecord) -> bool {
    |x: ClipRecord| x.item.id != id
}

pub open spec fn negate(pred: spec_fn(ClipRecord) -> bool) -> spec_fn(ClipRecord) -> bool {
    |x: ClipRecord| !pred(x)
}

/// The record with `pinned` set, all else kept.
pub open spec fn with_pinned(r: ClipRecord, pinned: bool) -> ClipRecord {
    ClipRecord { item: ClipItem { pinned: pinned, ..r.item }, html: r.html }
}

impl Db {
    /// The records, in insertion order.
    pub closed spec fn rows(&self) -> Seq<ClipRecord> {
        self.records@
    }

    /// The value of a setting.
    pub closed spec fn setting(&self, key: Seq<char>) -> Option<Seq<char>> {
        lookup(self.settings@, key)
    }

    /// The largest id handed out so far.
    pub closed spec fn last_id(&self) -> int {
        self.last_id as int
    }

    /// Ids and content hashes are unique, and no id exceeds the last one
    /// handed out.
    pub open spec fn wf(&self) -> bool {
        rows_wf(self.rows(), self.last_id())
    }

    /// The records, in insertion order (what a full table read gives).
    pub fn records(&self) -> (r: &Vec<ClipRecord>)
        ensures
            r@ == self.rows(),
    {
        &self.records
    }

    /// The settings pairs, in the order they were first written.
    pub fn setting_pairs(&self) -> (r: &Vec<(String, String)>)
        ensures
            forall|k: Seq<char>| lookup(r@, k) == self.setting(k),
    {
        &self.settings
    }

    /// The largest id handed out so far.
    pub fn last_assigned_id(&self) -> (r: i64)
        ensures
            r == self.last_id(),
    {
        self.last_id
    }
}

pub fn clone_opt(o: &Option<String>) -> (r: Option<String>)
    ensures
        r == *o,
{
    match o {
        Some(s) => Some(s.clone()),
        None => None,
    }
}

pub fn opt_to_string(o: Option<&str>) -> (r: Option<String>)
    ensures
        opt_view(r) == opt_str_view(o),
{
    match o {
        Some(s) => Some(s.to_owned()),
        None => None,
    }
}

/// A copy of the item, field for field.
pub fn copy_item(it: &ClipItem) -> (r: ClipItem)
    ensures
        r == *it,
{
    ClipItem {
        id: it.id,
        kind: it.kind.clone(),
        text: it.text.clone(),
        meta: clone_opt(&it.meta),
        thumb: clone_opt(&it.thumb),
        source: clone_opt(&it.source),
        source_icon: clone_opt(&it.source_icon),
        source_bundle: clone_opt(&it.source_bundle),
        pinned: it.pinned,
        hash: it.hash.clone(),
        created_at: it.created_at,
    }
}

/// An empty store, as a freshly created database holds.
pub fn init() -> (db: Db)
    ensures
        db.wf(),
        db.rows().len() == 0,
        db.last_id() == 0,
        forall|k: Seq<char>| db.setting(k) is None,
{
    Db { records: Vec::new(), settings: Vec::new(), last_id: 0 }
}

fn find_id(db: &Db, id: i64) -> (r: Option<usize>)
    ensures
        r matches Some(k) ==> k < db.rows().len() && db.rows()[k as int].item.id == id,
        r is None ==> forall|k: int| 0 <= k < db.rows().len() ==> db.rows()[k].item.id != id,
{
    let mut k: usize = 0;
    while k < db.records.len()
        invariant
            k <= db.records@.len(),
            forall|x: int| 0 <= x < k ==> db.records@[x].item.id != id,
        decreases db.records@.len() - k,
    {
        if db.records[k].item.id == id {
            return Some(k);
        }
        k = k + 1;
    }
    None
}

/// The record with the given id, if any.
pub fn get(db: &Db, id: i64) -> (r: Option<ClipItem>)
    requires
        db.wf(),
    ensures
        r matches Some(it) ==> exists|k: int|
            0 <= k < db.rows().len() && db.rows()[k].item == it && it.id == id,
        r is None ==> forall|k: int| 0 <= k < db.rows().len() ==> db.rows()[k].item.id != id,
{
    match find_id(db, id) {
        Some(k) => Some(copy_item(&db.records[k].item)),
        None => None,
    }
}

/// The HTML form of the record with the given id; `NotFound` when there
/// is no such record.
pub fn get_html(db: &Db, id: i64) -> (r: Result<Option<String>, DbError>)
    requires
        db.wf(),
    ensures
        r matches Ok(h) ==> exists|k: int|
            0 <= k < db.rows().len() && db.rows()[k].item.id == id && db.rows()[k].html == h,
        r is Err ==> r == Err::<Option<String>, DbError>(DbError::NotFound) && forall|k: int|
            0 <= k < db.rows().len() ==> db.rows()[k].item.id != id,
{
    match find_id(db, id) {
        Some(k) => Ok(clone_opt(&db.records[k].html)),
        None => Err(DbError::NotFound),
    }
}


fn find_hash(db: &Db, hash: &String) -> (r: Option<usize>)
    ensures
        r matches Some(k) ==> k < db.rows().len() && db.rows()[k as int].item.hash@ == hash@,
        r is None ==> forall|k: int| 0 <= k < db.rows().len() ==> db.rows()[k].item.hash@ != hash@,
{
    let mut k: usize = 0;
    while k < db.records.len()
        invariant
            k <= db.records@.len(),
            forall|x: int| 0 <= x < k ==> db.records@[x].item.hash@ != hash@,
        decreases db.records@.len() - k,
    {
        if db.records[k].item.hash == *hash {
            return Some(k);
        }
        k = k + 1;
    }
    None
}

/// Records a clipboard entry. A record with the same content hash is only
/// moved to the front of the timeline (its `created_at` becomes `now`);
/// otherwise a new unpinned record with the next id is added.
pub fn upsert_clip(
    db: &mut Db,
    kind: &str,
    text: &str,
    meta: Option<&str>,
    thumb: Option<&str>,
    source: Option<&str>,
    source_icon: Option<&str>,
    source_bundle: Option<&str>,
    html: Option<&str>,
    hash: &str,
    now: i64,
) -> (r: Result<(), DbError>)
    requires
        old(db).wf(),
    ensures
        final(db).wf(),
        forall|k: Seq<char>| final(db).setting(k) == old(db).setting(k),
        forall|i: int|
            0 <= i < old(db).rows().len() && old(db).rows()[i].item.hash@ == hash@ ==> {
                &&& r is Ok
                &&& final(db).rows() == old(db).rows().update(i, refreshed(old(db).rows()[i], now))
                &&& final(db).last_id() == old(db).last_id()
            },
        (forall|i: int| 0 <= i < old(db).rows().len() ==> old(db).rows()[i].item.hash@ != hash@) ==> {
            if old(db).last_id() == i64::MAX {
                &&& r == Err::<(), DbError>(DbError::Full)
                &&& final(db).rows() == old(db).rows()
                &&& final(db).last_id() == old(db).last_id()
            } else {
                let new_rec = final(db).rows().last();
                &&& r is Ok
                &&& final(db).last_id() == old(db).last_id() + 1
                &&& final(db).rows() == old(db).rows().push(new_rec)
                &&& new_rec.item.id == final(db).last_id()
                &&& new_rec.item.kind@ == kind@
                &&& new_rec.item.text@ == text@
                &&& opt_view(new_rec.item.meta) == opt_str_view(meta)
                &&& opt_view(new_rec.item.thumb) == opt_str_view(thumb)
                &&& opt_view(new_rec.item.source) == opt_str_view(source)
                &&& opt_view(new_rec.item.source_icon) == opt_str_view(source_icon)
                &&& opt_view(new_rec.item.source_bundle) == opt_str_view(source_bundle)
                &&& opt_view(new_rec.html) == opt_str_view(html)
                &&& !new_rec.item.pinned
                &&& new_rec.item.hash@ == hash@
                &&& new_rec.item.created_at == now
            }
        },
{
    let key = hash.to_owned();
    match find_hash(db, &key) {
        Some(k) => {
            let mut rec = db.records.remove(k);
            rec.item.created_at = now;
            db.records.insert(k, rec);
            assert(db.records@ =~= old(db).rows().update(k as int, refreshed(old(db).rows()[k as int], now)));
            Ok(())
        },
        None => {
            if db.last_id == i64::MAX {
                return Err(DbError::Full);
            }
            let id = db.last_id + 1;
            let item = ClipItem {
                id,
                kind: kind.to_owned(),
                text: text.to_owned(),
                meta: opt_to_string(meta),
                thumb: opt_to_string(thumb),
                source: opt_to_string(source),
                source_icon: opt_to_string(source_icon),
                source_bundle: opt_to_string(source_bundle),
                pinned: false,
                hash: key,
                created_at: now,
            };
            db.records.push(ClipRecord { item, html: opt_to_string(html) });
            db.last_id = id;
            Ok(())
        },
    }
}

/// Sets the pinned flag of the record with the given id (no record: no change).
pub fn set_pinned(db: &mut Db, id: i64, pinned: bool)
    requires
        old(db).wf(),
    ensures
        final(db).wf(),
        final(db).last_id() == old(db).last_id(),
        forall|k: Seq<char>| final(db).setting(k) == old(db).setting(k),
        final(db).rows() == old(db).rows().map_values(pin_update(id, pinned)),
{
    let ghost f = pin_update(id, pinned);
    let n = db.records.len();
    let mut k: usize = 0;
    while k < n
        invariant
            k <= n,
            f == pin_update(id, pinned),
            n == old(db).rows().len(),
            db.settings == old(db).settings,
            db.last_id == old(db).last_id,
            db.records@.len() == n,
            forall|x: int| 0 <= x < k ==> db.records@[x] == f(old(db).rows()[x]),
            forall|x: int| k <= x < n ==> db.records@[x] == old(db).rows()[x],
        decreases n - k,
    {
        let ghost pre = db.records@;
        if db.records[k].item.id == id {
            let mut rec = db.records.remove(k);
            rec.item.pinned = pinned;
            db.records.insert(k, rec);
            assert(db.records@ =~= pre.update(k as int, f(old(db).rows()[k as int])));
        } else {
            assert(f(old(db).rows()[k as int]) == old(db).rows()[k as int]);
        }
        k = k + 1;
    }
    assert(db.records@ =~= old(db).rows().map_values(f));
}

/// Splits `recs` by `pred`, whose value on each record `flags` gives.
fn split_records(recs: Vec<ClipRecord>, flags: &Vec<bool>, Ghost(pred): Ghost<spec_fn(ClipRecord) -> bool>) -> (r: (Vec<ClipRecord>, Vec<ClipRecord>))
    requires
        flags@.len() == recs@.len(),
        forall|i: int| 0 <= i < recs@.len() ==> flags@[i] == pred(#[trigger] recs@[i]),
    ensures
        r.0@ == recs@.filter(pred),
        r.1@ == recs@.filter(negate(pred)),
{
    let ghost rows = recs@;
    let ghost npred = negate(pred);
    let n = recs.len();
    let mut kept: Vec<ClipRecord> = Vec::new();
    let mut dropped: Vec<ClipRecord> = Vec::new();
    let mut src = recs;
    let mut idx: usize = 0;
    while idx < n
        invariant
            idx <= n,
            n == rows.len(),
            npred == negate(pred),
            flags@.len() == n,
            forall|i: int| 0 <= i < rows.len() ==> flags@[i] == pred(#[trigger] rows[i]),
            src@.len() == n - idx,
            forall|x: int| 0 <= x < src@.len() ==> src@[x] == rows[x + idx],
            kept@ == rows.take(idx as int).filter(pred),
            dropped@ == rows.take(idx as int).filter(npred),
        decreases n - idx,
    {
        let rec = src.remove(0);
        proof {
            assert(rows.take(idx + 1) =~= rows.take(idx as int).push(rows[idx as int]));
            rows.take(idx as int).lemma_filter_push(rows[idx as int], pred);
            rows.take(idx as int).lemma_filter_push(rows[idx as int], npred);
        }
        assert(npred(rows[idx as int]) == !pred(rows[idx as int]));
        if flags[idx] {
            kept.push(rec);
        } else {
            dropped.push(rec);
        }
        idx = idx + 1;
    }
    assert(rows.take(n as int) =~= rows);
    (kept, dropped)
}

/// The content hashes of `recs`, in order.
fn hashes_of(recs: &Vec<ClipRecord>) -> (r: Vec<String>)
    ensures
        r@ == recs@.map_values(|x: ClipRecord| x.item.hash),
{
    let mut r: Vec<String> = Vec::new();
    let mut i: usize = 0;
    while i < recs.len()
        invariant
            i <= recs@.len(),
            r@ == recs@.take(i as int).map_values(|x: ClipRecord| x.item.hash),
        decreases recs@.len() - i,
    {
        r.push(recs[i].item.hash.clone());
        assert(recs@.take(i + 1).map_values(|x: ClipRecord| x.item.hash) =~= recs@.take(
            i as int,
        ).map_values(|x: ClipRecord| x.item.hash).push(recs@[i as int].item.hash));
        i = i + 1;
    }
    assert(recs@.take(recs@.len() as int) =~= recs@);
    r
}

/// A sub-sequence of the rows keeps the store well formed.
proof fn lemma_filter_keeps_wf(db: &Db, pred: spec_fn(ClipRecord) -> bool)
    requires
        db.wf(),
    ensures
        forall|i: int|
            0 <= i < db.rows().filter(pred).len() ==> db.rows().contains(
                #[trigger] db.rows().filter(pred)[i],
            ),
        forall|i: int, j: int|
            0 <= i < db.rows().filter(pred).len() && 0 <= j < db.rows().filter(pred).len() && i
                != j ==> (#[trigger] db.rows().filter(pred)[i]).item.id != (#[trigger] db.rows().filter(
                pred,
            )[j]).item.id && db.rows().filter(pred)[i].item.hash@ != db.rows().filter(pred)[j].item.hash@,
{
    lemma_filter_distinct(db.rows(), pred);
}

/// Filtering keeps elements, in order, without repeating positions.
proof fn lemma_filter_distinct(s: Seq<ClipRecord>, pred: spec_fn(ClipRecord) -> bool)
    requires
        forall|i: int, j: int|
            0 <= i < s.len() && 0 <= j < s.len() && i != j ==> (#[trigger] s[i]).item.id != (
            #[trigger] s[j]).item.id && s[i].item.hash@ != s[j].item.hash@,
    ensures
        forall|i: int| 0 <= i < s.filter(pred).len() ==> s.contains(#[trigger] s.filter(pred)[i]),
        forall|i: int, j: int|
            0 <= i < s.filter(pred).len() && 0 <= j < s.filter(pred).len() && i != j ==> (
            #[trigger] s.filter(pred)[i]).item.id != (#[trigger] s.filter(pred)[j]).item.id
                && s.filter(pred)[i].item.hash@ != s.filter(pred)[j].item.hash@,
    decreases s.len(),
{
    reveal(Seq::filter);
    if s.len() > 0 {
        let t = s.drop_last();
        assert forall|i: int, j: int|
            0 <= i < t.len() && 0 <= j < t.len() && i != j implies (#[trigger] t[i]).item.id != (
            #[trigger] t[j]).item.id && t[i].item.hash@ != t[j].item.hash@ by {
            assert(t[i] == s[i] && t[j] == s[j]);
        }
        lemma_filter_distinct(t, pred);
        let f = s.filter(pred);
        let ft = t.filter(pred);
        if pred(s.last()) {
            assert(f == ft.push(s.last()));
            assert forall|i: int| 0 <= i < ft.len() implies (#[trigger] ft[i]).item.id != s.last().item.id
                && ft[i].item.hash@ != s.last().item.hash@ by {
                assert(t.contains(ft[i]));
                let k = choose|k: int| 0 <= k < t.len() && t[k] == ft[i];
                assert(s[k] == ft[i]);
                assert(s[s.len() - 1] == s.last());
            }
            assert forall|i: int| 0 <= i < f.len() implies s.contains(#[trigger] f[i]) by {
                if i < ft.len() {
                    assert(f[i] == ft[i]);
                    assert(t.contains(ft[i]));
                    let k = choose|k: int| 0 <= k < t.len() && t[k] == ft[i];
                    assert(s[k] == ft[i]);
                } else {
                    assert(s[s.len() - 1] == f[i]);
                }
            }
            assert forall|i: int, j: int|
                0 <= i < f.len() && 0 <= j < f.len() && i != j implies (#[trigger] f[i]).item.id != (
                #[trigger] f[j]).item.id && f[i].item.hash@ != f[j].item.hash@ by {
                if i < ft.len() && j < ft.len() {
                    assert(f[i] == ft[i] && f[j] == ft[j]);
                } else if i < ft.len() {
                    assert(f[i] == ft[i] && f[j] == s.last());
                } else {
                    assert(f[j] == ft[j] && f[i] == s.last());
                }
            }
        } else {
            assert(f == ft);
            assert forall|i: int| 0 <= i < f.len() implies s.contains(#[trigger] f[i]) by {
                assert(t.contains(ft[i]));
                let k = choose|k: int| 0 <= k < t.len() && t[k] == ft[i];
                assert(s[k] == ft[i]);
            }
        }
    }
}

/// Deletes the record with the given id (no record: no change).
pub fn delete(db: &mut Db, id: i64)
    requires
        old(db).wf(),
    ensures
        final(db).wf(),
        final(db).last_id() == old(db).last_id(),
        forall|k: Seq<char>| final(db).setting(k) == old(db).setting(k),
        final(db).rows() == old(db).rows().filter(id_differs(id)),
        forall|k: int| 0 <= k < final(db).rows().len() ==> (#[trigger] final(db).rows()[k]).item.id != id,
        forall|k: int|
            0 <= k < old(db).rows().len() && (#[trigger] old(db).rows()[k]).item.id != id
                ==> final(db).rows().contains(old(db).rows()[k]),
{
    proof {
        law_delete_removes(old(db).rows(), id);
    }
    let ghost keep = id_differs(id);
    let mut flags: Vec<bool> = Vec::new();
    let mut i: usize = 0;
    while i < db.records.len()
        invariant
            i <= db.records@.len(),
            keep == id_differs(id),
            flags@.len() == i,
            forall|k: int| 0 <= k < i ==> flags@[k] == keep(#[trigger] db.records@[k]),
        decreases db.records@.len() - i,
    {
        assert(keep(db.records@[i as int]) == (db.records@[i as int].item.id != id));
        flags.push(db.records[i].item.id != id);
        i = i + 1;
    }
    let mut recs: Vec<ClipRecord> = Vec::new();
    std::mem::swap(&mut recs, &mut db.records);
    let (kept, _dropped) = split_records(recs, &flags, Ghost(keep));
    db.records = kept;
    proof {
        lemma_filter_keeps_wf(old(db), keep);
        broadcast use vstd::seq_lib::group_filter_ensures;
    }
}

proof fn lemma_lookup_push(s: Seq<(String, String)>, p: (String, String), k: Seq<char>)
    ensures
        lookup(s.push(p), k) == (if lookup(s, k) is Some {
            lookup(s, k)
        } else if p.0@ == k {
            Some(p.1@)
        } else {
            None
        }),
    decreases s.len(),
{
    if s.len() > 0 {
        assert(s.push(p).drop_first() =~= s.drop_first().push(p));
        lemma_lookup_push(s.drop_first(), p, k);
    } else {
        assert(s.push(p).drop_first() =~= Seq::<(String, String)>::empty());
    }
}

proof fn lemma_lookup_update(s: Seq<(String, String)>, i: int, p: (String, String), k: Seq<char>)
    requires
        0 <= i < s.len(),
        s[i].0@ == p.0@,
        forall|j: int| 0 <= j < i ==> s[j].0@ != p.0@,
    ensures
        lookup(s.update(i, p), k) == (if k == p.0@ {
            Some(p.1@)
        } else {
            lookup(s, k)
        }),
    decreases i,
{
    if i > 0 {
        assert(s.update(i, p).drop_first() =~= s.drop_first().update(i - 1, p));
        lemma_lookup_update(s.drop_first(), i - 1, p, k);
    }
}

/// The value stored under `key`, if any.
pub fn get_setting(db: &Db, key: &str) -> (r: Option<String>)
    ensures
        opt_view(r) == db.setting(key@),
{
    let mut i: usize = 0;
    let ghost s = db.settings@;
    while i < db.settings.len()
        invariant
            i <= s.len(),
            s == db.settings@,
            lookup(s, key@) == lookup(s.skip(i as int), key@),
        decreases s.len() - i,
    {
        assert(s.skip(i as int).drop_first() =~= s.skip(i + 1));
        if crate::text::same_text(db.settings[i].0.as_str(), key) {
            return Some(db.settings[i].1.clone());
        }
        i = i + 1;
    }
    None
}

/// Stores `value` under `key`, replacing any earlier value.
pub fn set_setting(db: &mut Db, key: &str, value: &str)
    requires
        old(db).wf(),
    ensures
        final(db).wf(),
        final(db).rows() == old(db).rows(),
        final(db).last_id() == old(db).last_id(),
        final(db).setting(key@) == Some(value@),
        forall|k: Seq<char>| k != key@ ==> final(db).setting(k) == old(db).setting(k),
{
    let ghost s = db.settings@;
    let mut i: usize = 0;
    while i < db.settings.len()
        invariant
            i <= s.len(),
            s == db.settings@,
            db.records == old(db).records,
            db.last_id == old(db).last_id,
            s == old(db).settings@,
            old(db).wf(),
            forall|j: int| 0 <= j < i ==> s[j].0@ != key@,
        decreases s.len() - i,
    {
        if crate::text::same_text(db.settings[i].0.as_str(), key) {
            let p = (key.to_owned(), value.to_owned());
            proof {
                assert forall|k: Seq<char>| lookup(s.update(i as int, p), k) == (if k == key@ {
                    Some(value@)
                } else {
                    lookup(s, k)
                }) by {
                    lemma_lookup_update(s, i as int, p, k);
                }
            }
            db.settings.set(i, p);
            assert(db.rows() == old(db).rows());
            return;
        }
        i = i + 1;
    }
    let p = (key.to_owned(), value.to_owned());
    proof {
        assert forall|k: Seq<char>| lookup(s.push(p), k) == (if k == key@ {
            Some(value@)
        } else {
            lookup(s, k)
        }) by {
            lemma_lookup_push(s, p, k);
            if k == key@ {
                lemma_lookup_absent(s, k);
            }
        }
    }
    db.settings.push(p);
}

proof fn lemma_lookup_absent(s: Seq<(String, String)>, k: Seq<char>)
    requires
        forall|j: int| 0 <= j < s.len() ==> s[j].0@ != k,
    ensures
        lookup(s, k) is None,
    decreases s.len(),
{
    if s.len() > 0 {
        lemma_lookup_absent(s.drop_first(), k);
    }
}


pub open spec fn count_true(s: Seq<bool>) -> nat
    decreases s.len(),
{
    if s.len() == 0 {
        0
    } else {
        count_true(s.drop_last()) + if s.last() {
            1nat
        } else {
            0nat
        }
    }
}

proof fn lemma_count_clear(s: Seq<bool>, i: int)
    requires
        0 <= i < s.len(),
        s[i],
    ensures
        count_true(s.update(i, false)) + 1 == count_true(s),
    decreases s.len(),
{
    let u = s.update(i, false);
    if i == s.len() - 1 {
        assert(u.drop_last() =~= s.drop_last());
    } else {
        assert(u.drop_last() =~= s.drop_last().update(i, false));
        lemma_count_clear(s.drop_last(), i);
    }
}

fn ranks_before_exec(a: &ClipItem, b: &ClipItem) -> (r: bool)
    ensures
        r == ranks_before(*a, *b),
{
    (a.pinned && !b.pinned) || (a.pinned == b.pinned && (a.created_at > b.created_at || (
    a.created_at == b.created_at && a.id > b.id)))
}

/// Whether each record passes the search.
fn match_flags(db: &Db, query: Option<&str>) -> (r: Vec<bool>)
    ensures
        r@.len() == db.rows().len(),
        forall|k: int|
            0 <= k < db.rows().len() ==> r@[k] == matches_query(
                #[trigger] db.rows()[k].item,
                opt_str_view(query),
            ),
{
    let q: Option<Vec<char>> = match query {
        Some(s) => Some(chars_of(s)),
        None => None,
    };
    let mut r: Vec<bool> = Vec::new();
    let mut k: usize = 0;
    while k < db.records.len()
        invariant
            k <= db.records@.len(),
            r@.len() == k,
            match q {
                Some(qc) => opt_str_view(query) == Some(qc@),
                None => opt_str_view(query) is None,
            },
            forall|x: int|
                0 <= x < k ==> r@[x] == matches_query(#[trigger] db.records@[x].item, opt_str_view(query)),
        decreases db.records@.len() - k,
    {
        let m = match &q {
            None => true,
            Some(qc) => {
                let t = chars_of(db.records[k].item.text.as_str());
                like_contains(t.as_slice(), qc.as_slice())
            },
        };
        r.push(m);
        k = k + 1;
    }
    r
}

/// The history listing: records whose text matches `'%' || query || '%'`
/// (all records when there is no query), pinned first, then newest first,
/// at most `limit` of them (no bound when `limit` is negative).
pub fn list(db: &Db, query: Option<&str>, limit: i64) -> (r: Vec<ClipItem>)
    requires
        db.wf(),
    ensures
        is_listing(db.rows(), opt_str_view(query), limit as int, r@),
        limit < 0 && query is None ==> forall|k: int|
            0 <= k < db.rows().len() ==> r@.contains(#[trigger] db.rows()[k].item),
        forall|k: int, i: int|
            limit < 0 && 0 <= k < db.rows().len() && query is Some && #[trigger] crate::text::occurs_at(
                query->0@,
                db.rows()[k].item.text@,
                i,
            ) ==> r@.contains(db.rows()[k].item),
{
    let ghost rows = db.rows();
    let ghost q = opt_str_view(query);
    let n = db.records.len();
    let mut sel = match_flags(db, query);
    let mut out: Vec<ClipItem> = Vec::new();
    loop
        invariant
            rows == db.rows(),
            db.wf(),
            n == rows.len(),
            sel@.len() == n,
            forall|k: int| 0 <= k < n && #[trigger] sel@[k] ==> matches_query(rows[k].item, q),
            forall|k: int|
                0 <= k < n && #[trigger] sel@[k] ==> forall|i: int|
                    0 <= i < out@.len() ==> ranks_before(#[trigger] out@[i], rows[k].item),
            forall|k: int|
                0 <= k < n && !(#[trigger] sel@[k]) && matches_query(rows[k].item, q)
                    ==> out@.contains(rows[k].item),
            forall|i: int|
                0 <= i < out@.len() ==> exists|k: int|
                    0 <= k < rows.len() && rows[k].item == #[trigger] out@[i] && matches_query(
                        rows[k].item,
                        q,
                    ),
            forall|i: int, j: int|
                0 <= i < j < out@.len() ==> ranks_before(#[trigger] out@[i], #[trigger] out@[j]),
            limit >= 0 ==> out@.len() <= limit,
        ensures
            is_listing(rows, q, limit as int, out@),
        decreases count_true(sel@),
    {
        if limit >= 0 && out.len() as u64 >= limit as u64 {
            assert forall|k: int|
                0 <= k < rows.len() && matches_query(#[trigger] rows[k].item, q) implies (out@.contains(
                rows[k].item) || (limit >= 0 && out@.len() == limit && forall|i: int|
                0 <= i < out@.len() ==> ranks_before(#[trigger] out@[i], rows[k].item))) by {
                if sel@[k] {
                } else {
                }
            }
            break;
        }
        let mut best: Option<usize> = None;
        let mut k: usize = 0;
        while k < n
            invariant
                k <= n,
                n == rows.len(),
                rows == db.rows(),
                db.wf(),
                sel@.len() == n,
                best matches Some(b) ==> b < k && sel@[b as int] && forall|x: int|
                    0 <= x < k && #[trigger] sel@[x] && x != b ==> ranks_before(
                        rows[b as int].item,
                        rows[x].item,
                    ),
                best is None ==> forall|x: int| 0 <= x < k ==> !(#[trigger] sel@[x]),
            decreases n - k,
        {
            if sel[k] {
                match best {
                    None => {
                        best = Some(k);
                    },
                    Some(b) => {
                        assert(rows[k as int].item.id != rows[b as int].item.id);
                        if ranks_before_exec(&db.records[k].item, &db.records[b].item) {
                            best = Some(k);
                        }
                    },
                }
            }
            k = k + 1;
        }
        match best {
            None => {
                assert forall|k: int|
                    0 <= k < rows.len() && matches_query(#[trigger] rows[k].item, q) implies out@.contains(
                    rows[k].item) by {
                    assert(!sel@[k]);
                }
                break;
            },
            Some(b) => {
                let ghost pre_sel = sel@;
                let ghost pre_out = out@;
                let it = copy_item(&db.records[b].item);
                out.push(it);
                proof {
                    lemma_count_clear(sel@, b as int);
                }
                sel.set(b, false);
                assert forall|k: int|
                    0 <= k < n && !(#[trigger] sel@[k]) && matches_query(rows[k].item, q)
                        implies out@.contains(rows[k].item) by {
                    if k == b {
                        assert(out@[out@.len() - 1] == rows[k].item);
                    } else {
                        assert(!pre_sel[k]);
                        let i = choose|i: int| 0 <= i < pre_out.len() && pre_out[i] == rows[k].item;
                        assert(out@[i] == rows[k].item);
                    }
                }
                assert forall|i: int|
                    0 <= i < out@.len() implies exists|k: int|
                        0 <= k < rows.len() && rows[k].item == #[trigger] out@[i] && matches_query(
                            rows[k].item,
                            q,
                        ) by {
                    if i == out@.len() - 1 {
                        assert(rows[b as int].item == out@[i]);
                    } else {
                        assert(out@[i] == pre_out[i]);
                    }
                }
            },
        }
    }
    proof {
        if limit < 0 {
            law_listing_shows_all_or_search(db.rows(), opt_str_view(query), limit as int, out@);
        }
    }
    out
}


pub open spec fn is_pinned() -> spec_fn(ClipRecord) -> bool {
    |x: ClipRecord| x.item.pinned
}

/// The number of records in `s` that satisfy `p`.
pub open spec fn count_where(s: Seq<ClipRecord>, p: spec_fn(ClipRecord) -> bool) -> nat
    decreases s.len(),
{
    if s.len() == 0 {
        0
    } else {
        count_where(s.drop_last(), p) + if p(s.last()) {
            1nat
        } else {
            0nat
        }
    }
}

/// Unpinned records listed before `x`.
pub open spec fn ahead_of(x: ClipRecord) -> spec_fn(ClipRecord) -> bool {
    |y: ClipRecord| !y.item.pinned && ranks_before(y.item, x.item)
}

/// Whether `x` stays when `rows` are pruned to `capacity` unpinned records:
/// pinned records stay, and so does an unpinned record with fewer than
/// `capacity` unpinned records newer than it.
pub open spec fn survives_prune(rows: Seq<ClipRecord>, capacity: int) -> spec_fn(ClipRecord) -> bool {
    |x: ClipRecord| x.item.pinned || count_where(rows, ahead_of(x)) < capacity
}

pub open spec fn hash_list(s: Seq<ClipRecord>) -> Seq<String> {
    s.map_values(|x: ClipRecord| x.item.hash)
}

/// Removes every unpinned record; returns their content hashes (so that
/// their image files can be removed), in insertion order.
pub fn clear_unpinned(db: &mut Db) -> (r: Vec<String>)
    requires
        old(db).wf(),
    ensures
        final(db).wf(),
        final(db).last_id() == old(db).last_id(),
        forall|k: Seq<char>| final(db).setting(k) == old(db).setting(k),
        final(db).rows() == old(db).rows().filter(is_pinned()),
        r@ == hash_list(old(db).rows().filter(negate(is_pinned()))),
        forall|k: int| 0 <= k < final(db).rows().len() ==> (#[trigger] final(db).rows()[k]).item.pinned,
        forall|k: int|
            0 <= k < old(db).rows().len() && (#[trigger] old(db).rows()[k]).item.pinned
                ==> final(db).rows().contains(old(db).rows()[k]),
        forall|k: int|
            0 <= k < old(db).rows().len() && !(#[trigger] old(db).rows()[k]).item.pinned
                ==> r@.contains(old(db).rows()[k].item.hash),
{
    proof {
        law_clear_leaves_pinned(old(db).rows());
    }
    let ghost keep = is_pinned();
    let mut flags: Vec<bool> = Vec::new();
    let mut i: usize = 0;
    while i < db.records.len()
        invariant
            i <= db.records@.len(),
            keep == is_pinned(),
            flags@.len() == i,
            forall|k: int| 0 <= k < i ==> flags@[k] == keep(#[trigger] db.records@[k]),
        decreases db.records@.len() - i,
    {
        flags.push(db.records[i].item.pinned);
        i = i + 1;
    }
    let mut recs: Vec<ClipRecord> = Vec::new();
    std::mem::swap(&mut recs, &mut db.records);
    let (kept, dropped) = split_records(recs, &flags, Ghost(keep));
    db.records = kept;
    proof {
        lemma_filter_keeps_wf(old(db), keep);
        broadcast use vstd::seq_lib::group_filter_ensures;
    }
    hashes_of(&dropped)
}

/// The number of unpinned records ranked before `x`.
fn count_ahead(db: &Db, x: &ClipItem, Ghost(xr): Ghost<ClipRecord>) -> (c: u64)
    requires
        xr.item == *x,
    ensures
        c == count_where(db.rows(), ahead_of(xr)),
{
    let ghost rows = db.rows();
    let mut c: u64 = 0;
    let mut j: usize = 0;
    while j < db.records.len()
        invariant
            rows == db.rows(),
            j <= rows.len(),
            xr.item == *x,
            c == count_where(rows.take(j as int), ahead_of(xr)),
            c <= j,
        decreases rows.len() - j,
    {
        assert(rows.take(j + 1).drop_last() =~= rows.take(j as int));
        let y = &db.records[j].item;
        if !y.pinned && ranks_before_exec(y, x) {
            c = c + 1;
        }
        j = j + 1;
    }
    assert(rows.take(rows.len() as int) =~= rows);
    c
}

/// Keeps at most `capacity` unpinned records, the first ones in listing
/// order (newest first), and every pinned record; returns the content
/// hashes of the removed records in insertion order. A capacity of zero
/// or less means no limit.
pub fn prune(db: &mut Db, capacity: i64) -> (r: Vec<String>)
    requires
        old(db).wf(),
    ensures
        final(db).wf(),
        final(db).last_id() == old(db).last_id(),
        forall|k: Seq<char>| final(db).setting(k) == old(db).setting(k),
        capacity <= 0 ==> final(db).rows() == old(db).rows() && r@.len() == 0,
        capacity > 0 ==> final(db).rows() == old(db).rows().filter(
            survives_prune(old(db).rows(), capacity as int),
        ),
        capacity > 0 ==> r@ == hash_list(
            old(db).rows().filter(negate(survives_prune(old(db).rows(), capacity as int))),
        ),
{
    if capacity <= 0 {
        return Vec::new();
    }
    let ghost rows = old(db).rows();
    let ghost keep = survives_prune(rows, capacity as int);
    let mut flags: Vec<bool> = Vec::new();
    let mut i: usize = 0;
    while i < db.records.len()
        invariant
            i <= db.records@.len(),
            rows == db.rows(),
            capacity > 0,
            keep == survives_prune(rows, capacity as int),
            flags@.len() == i,
            forall|k: int| 0 <= k < i ==> flags@[k] == keep(#[trigger] db.records@[k]),
        decreases db.records@.len() - i,
    {
        let x = &db.records[i].item;
        let stays = if x.pinned {
            true
        } else {
            let c = count_ahead(db, x, Ghost(db.records@[i as int]));
            c < capacity as u64
        };
        flags.push(stays);
        i = i + 1;
    }
    let mut recs: Vec<ClipRecord> = Vec::new();
    std::mem::swap(&mut recs, &mut db.records);
    let (kept, dropped) = split_records(recs, &flags, Ghost(keep));
    db.records = kept;
    proof {
        lemma_filter_keeps_wf(old(db), keep);
        broadcast use vstd::seq_lib::group_filter_ensures;
    }
    hashes_of(&dropped)
}


/// A store holding rows read back from disk, after checking the table's
/// constraints; `Invalid` when they do not hold.
pub fn restore(records: Vec<ClipRecord>, settings: Vec<(String, String)>, last_id: i64) -> (r: Result<Db, DbError>)
    ensures
        r is Ok <==> rows_wf(records@, last_id as int),
        r matches Ok(db) ==> db.wf() && db.rows() == records@ && db.last_id() == last_id && forall|
            k: Seq<char>,
        | db.setting(k) == lookup(settings@, k),
        r matches Err(e) ==> e == DbError::Invalid,
{
    if last_id < 0 {
        return Err(DbError::Invalid);
    }
    let n = records.len();
    let mut i: usize = 0;
    while i < n
        invariant
            i <= n,
            n == records@.len(),
            last_id >= 0,
            forall|a: int| 0 <= a < i ==> 1 <= #[trigger] records@[a].item.id <= last_id,
            forall|a: int, b: int|
                0 <= a < i && 0 <= b < n && a != b ==> (#[trigger] records@[a]).item.id != (
                #[trigger] records@[b]).item.id && records@[a].item.hash@ != records@[b].item.hash@,
        decreases n - i,
    {
        let ri = &records[i].item;
        if ri.id < 1 || ri.id > last_id {
            return Err(DbError::Invalid);
        }
        let mut j: usize = 0;
        while j < n
            invariant
                i < n,
                j <= n,
                n == records@.len(),
                ri == &records@[i as int].item,
                forall|b: int|
                    0 <= b < j && b != i ==> records@[i as int].item.id != (#[trigger] records@[b]).item.id
                        && records@[i as int].item.hash@ != records@[b].item.hash@,
            decreases n - j,
        {
            if j != i {
                let rj = &records[j].item;
                if rj.id == ri.id || rj.hash == ri.hash {
                    return Err(DbError::Invalid);
                }
            }
            j = j + 1;
        }
        i = i + 1;
    }
    Ok(Db { records, settings, last_id })
}


// ---------------------------------------------------------------------------
// Laws
// ---------------------------------------------------------------------------

/// A record added with the next id is the only record with that id, so
/// reading that id back gives the record that was written.
pub proof fn law_new_record_found_by_id(rows: Seq<ClipRecord>, last_id: int, rec: ClipRecord)
    requires
        rows_wf(rows, last_id),
        rec.item.id == last_id + 1,
    ensures
        forall|k: int|
            0 <= k < rows.push(rec).len() && (#[trigger] rows.push(rec)[k]).item.id == rec.item.id
                ==> rows.push(rec)[k] == rec,
{
    assert forall|k: int|
        0 <= k < rows.push(rec).len() && (#[trigger] rows.push(rec)[k]).item.id == rec.item.id implies rows.push(
        rec,
    )[k] == rec by {
        if k < rows.len() {
            assert(rows.push(rec)[k] == rows[k]);
        }
    }
}

/// Recording content that is already in the history brings its record to
/// the front: with a time later than that of every other record of the same
/// pinned state, it is listed before each of them.
pub proof fn law_refresh_moves_to_front(rows: Seq<ClipRecord>, i: int, now: i64)
    requires
        0 <= i < rows.len(),
        forall|j: int|
            0 <= j < rows.len() && j != i && (#[trigger] rows[j]).item.pinned == rows[i].item.pinned
                ==> rows[j].item.created_at < now,
    ensures
        forall|j: int|
            0 <= j < rows.len() && j != i && (#[trigger] rows.update(i, refreshed(rows[i], now))[j]).item.pinned
                == rows[i].item.pinned ==> ranks_before(
                rows.update(i, refreshed(rows[i], now))[i].item,
                rows.update(i, refreshed(rows[i], now))[j].item,
            ),
{
}

/// After re-recording an unpinned record's content at a time later than
/// that of every other unpinned record, the record keeps its id, text and
/// everything but its time, and a listing without query shows it right
/// after the pinned records: only pinned records come before it, and an
/// unbounded listing shows it.
pub proof fn law_refresh_listed_first(
    rows: Seq<ClipRecord>,
    last_id: int,
    i: int,
    now: i64,
    limit: int,
    r: Seq<ClipItem>,
)
    requires
        rows_wf(rows, last_id),
        0 <= i < rows.len(),
        !rows[i].item.pinned,
        forall|j: int|
            0 <= j < rows.len() && j != i && !(#[trigger] rows[j]).item.pinned ==> rows[j].item.created_at
                < now,
        is_listing(rows.update(i, refreshed(rows[i], now)), None, limit, r),
    ensures
        rows.update(i, refreshed(rows[i], now))[i].item == (ClipItem { created_at: now, ..rows[i].item }),
        forall|x: int, y: int|
            0 <= x < r.len() && 0 <= y < r.len() && #[trigger] r[y] == rows.update(
                i,
                refreshed(rows[i], now),
            )[i].item && x < y ==> (#[trigger] r[x]).pinned,
        limit < 0 ==> r.contains(rows.update(i, refreshed(rows[i], now))[i].item),
{
    let rows2 = rows.update(i, refreshed(rows[i], now));
    let it = rows2[i].item;
    assert forall|x: int, y: int|
        0 <= x < r.len() && 0 <= y < r.len() && #[trigger] r[y] == it && x < y implies (
        #[trigger] r[x]).pinned by {
        assert(ranks_before(r[x], r[y]));
        if !r[x].pinned {
            let k = choose|k: int|
                0 <= k < rows2.len() && rows2[k].item == r[x] && matches_query(rows2[k].item, None);
            if k == i {
                assert(r[x] == it);
            } else {
                assert(rows2[k] == rows[k]);
            }
        }
    }
    if limit < 0 {
        assert(matches_query(rows2[i].item, None));
    }
}

/// In a listing, pinned records come before all unpinned ones.
pub proof fn law_listing_pinned_first(rows: Seq<ClipRecord>, q: Option<Seq<char>>, limit: int, r: Seq<ClipItem>)
    requires
        is_listing(rows, q, limit, r),
    ensures
        forall|i: int, j: int| 0 <= i < j < r.len() && (#[trigger] r[j]).pinned ==> (#[trigger] r[i]).pinned,
        forall|i: int, j: int|
            0 <= i < j < r.len() && (#[trigger] r[i]).pinned == (#[trigger] r[j]).pinned ==> r[i].created_at
                >= r[j].created_at,
{
}

/// A listing without query or bound holds every record.
pub proof fn law_unbounded_listing_is_complete(rows: Seq<ClipRecord>, r: Seq<ClipItem>)
    requires
        is_listing(rows, None, -1, r),
    ensures
        forall|k: int| 0 <= k < rows.len() ==> r.contains(#[trigger] rows[k].item),
{
    assert forall|k: int| 0 <= k < rows.len() implies r.contains(#[trigger] rows[k].item) by {
        assert(matches_query(rows[k].item, None));
    }
}

/// Pinning then unpinning (or the reverse) a record restores the history.
pub proof fn law_toggle_pin_twice(rows: Seq<ClipRecord>, last_id: int, k: int)
    requires
        rows_wf(rows, last_id),
        0 <= k < rows.len(),
    ensures
        rows.map_values(pin_update(rows[k].item.id, !rows[k].item.pinned)).map_values(
            pin_update(rows[k].item.id, rows[k].item.pinned),
        ) == rows,
{
    let id = rows[k].item.id;
    let p = rows[k].item.pinned;
    let once = rows.map_values(pin_update(id, !p));
    let twice = once.map_values(pin_update(id, p));
    assert forall|j: int| 0 <= j < rows.len() implies #[trigger] twice[j] == rows[j] by {
        if j == k {
            assert(twice[j].item == rows[j].item);
        } else {
            assert(rows[j].item.id != id);
        }
    }
    assert(twice =~= rows);
}

proof fn lemma_count_mono(s: Seq<ClipRecord>, p: spec_fn(ClipRecord) -> bool, q: spec_fn(ClipRecord) -> bool)
    requires
        forall|i: int| 0 <= i < s.len() && p(#[trigger] s[i]) ==> q(s[i]),
    ensures
        count_where(s, p) <= count_where(s, q),
        (exists|i: int| 0 <= i < s.len() && q(#[trigger] s[i]) && !p(s[i])) ==> count_where(s, p)
            < count_where(s, q),
    decreases s.len(),
{
    if s.len() > 0 {
        let t = s.drop_last();
        assert forall|i: int| 0 <= i < t.len() && p(#[trigger] t[i]) implies q(t[i]) by {
            assert(t[i] == s[i]);
        }
        lemma_count_mono(t, p, q);
        if exists|i: int| 0 <= i < s.len() && q(#[trigger] s[i]) && !p(s[i]) {
            let i = choose|i: int| 0 <= i < s.len() && q(#[trigger] s[i]) && !p(s[i]);
            if i < t.len() {
                assert(t[i] == s[i]);
            } else {
                assert(s[i] == s.last());
            }
        }
    }
}

/// Pruning keeps every pinned record, and every unpinned record it keeps
/// is listed before every unpinned record it removes.
pub proof fn law_prune_keeps_newest(rows: Seq<ClipRecord>, last_id: int, capacity: int, x: int, y: int)
    requires
        rows_wf(rows, last_id),
        capacity > 0,
        0 <= x < rows.len(),
        0 <= y < rows.len(),
        survives_prune(rows, capacity)(rows[x]),
        !rows[x].item.pinned,
        !survives_prune(rows, capacity)(rows[y]),
    ensures
        !rows[y].item.pinned,
        ranks_before(rows[x].item, rows[y].item),
{
    if !ranks_before(rows[x].item, rows[y].item) {
        assert(x != y);
        assert(rows[x].item.id != rows[y].item.id);
        assert(ranks_before(rows[y].item, rows[x].item));
        let py = ahead_of(rows[y]);
        let px = ahead_of(rows[x]);
        assert forall|i: int| 0 <= i < rows.len() && py(#[trigger] rows[i]) implies px(rows[i]) by {}
        assert(px(rows[y]) && !py(rows[y]));
        lemma_count_mono(rows, py, px);
    }
}


pub open spec fn is_unpinned() -> spec_fn(ClipRecord) -> bool {
    |x: ClipRecord| !x.item.pinned
}

proof fn lemma_count_push(s: Seq<ClipRecord>, e: ClipRecord, p: spec_fn(ClipRecord) -> bool)
    ensures
        count_where(s.push(e), p) == count_where(s, p) + if p(e) {
            1nat
        } else {
            0nat
        },
{
    assert(s.push(e).drop_last() =~= s);
}

/// Counting over a filtered sequence, when everything counted passes the filter.
proof fn lemma_count_filter(s: Seq<ClipRecord>, f: spec_fn(ClipRecord) -> bool, p: spec_fn(ClipRecord) -> bool)
    requires
        forall|i: int| 0 <= i < s.len() && p(#[trigger] s[i]) ==> f(s[i]),
    ensures
        count_where(s.filter(f), p) == count_where(s, p),
    decreases s.len(),
{
    reveal(Seq::filter);
    if s.len() > 0 {
        let t = s.drop_last();
        assert forall|i: int| 0 <= i < t.len() && p(#[trigger] t[i]) implies f(t[i]) by {
            assert(t[i] == s[i]);
        }
        lemma_count_filter(t, f, p);
        assert(s.last() == s[s.len() - 1]);
        if f(s.last()) {
            lemma_count_push(t.filter(f), s.last(), p);
        }
    }
}

/// Filtering by a predicate that every element satisfies changes nothing.
proof fn lemma_filter_all(s: Seq<ClipRecord>, f: spec_fn(ClipRecord) -> bool)
    requires
        forall|i: int| 0 <= i < s.len() ==> f(#[trigger] s[i]),
    ensures
        s.filter(f) == s,
    decreases s.len(),
{
    reveal(Seq::filter);
    if s.len() > 0 {
        let t = s.drop_last();
        assert forall|i: int| 0 <= i < t.len() implies f(#[trigger] t[i]) by {
            assert(t[i] == s[i]);
        }
        lemma_filter_all(t, f);
        assert(s.last() == s[s.len() - 1]);
        assert(t.push(s.last()) =~= s);
    }
}

/// An unpinned record ranked before a record has fewer unpinned records
/// ahead of it.
proof fn lemma_ahead_fewer(rows: Seq<ClipRecord>, x: ClipRecord, y: int)
    requires
        0 <= y < rows.len(),
        !rows[y].item.pinned,
        ranks_before(rows[y].item, x.item),
    ensures
        count_where(rows, ahead_of(rows[y])) < count_where(rows, ahead_of(x)),
{
    let py = ahead_of(rows[y]);
    let px = ahead_of(x);
    assert forall|i: int| 0 <= i < rows.len() && py(#[trigger] rows[i]) implies px(rows[i]) by {}
    assert(px(rows[y]) && !py(rows[y]));
    lemma_count_mono(rows, py, px);
}

/// Pruning twice to the same capacity prunes no more than once.
pub proof fn law_prune_idempotent(rows: Seq<ClipRecord>, last_id: int, capacity: int)
    requires
        rows_wf(rows, last_id),
        capacity > 0,
    ensures
        rows.filter(survives_prune(rows, capacity)).filter(
            survives_prune(rows.filter(survives_prune(rows, capacity)), capacity),
        ) == rows.filter(survives_prune(rows, capacity)),
{
    broadcast use vstd::seq_lib::group_filter_ensures;

    let f = survives_prune(rows, capacity);
    let kept = rows.filter(f);
    assert forall|i: int| 0 <= i < kept.len() implies survives_prune(kept, capacity)(
        #[trigger] kept[i],
    ) by {
        let z = kept[i];
        assert(f(z));
        if !z.item.pinned {
            let pz = ahead_of(z);
            assert forall|j: int| 0 <= j < rows.len() && pz(#[trigger] rows[j]) implies f(rows[j]) by {
                lemma_ahead_fewer(rows, z, j);
            }
            lemma_count_filter(rows, f, pz);
        }
    }
    lemma_filter_all(kept, survives_prune(kept, capacity));
}

/// With no more unpinned records than the capacity, pruning removes nothing.
pub proof fn law_prune_within_capacity(rows: Seq<ClipRecord>, last_id: int, capacity: int)
    requires
        rows_wf(rows, last_id),
        capacity > 0,
        count_where(rows, is_unpinned()) <= capacity,
    ensures
        rows.filter(survives_prune(rows, capacity)) == rows,
{
    assert forall|i: int| 0 <= i < rows.len() implies survives_prune(rows, capacity)(#[trigger] rows[i]) by {
        let x = rows[i];
        if !x.item.pinned {
            let px = ahead_of(x);
            let pu = is_unpinned();
            assert forall|j: int| 0 <= j < rows.len() && px(#[trigger] rows[j]) implies pu(rows[j]) by {}
            assert(pu(rows[i]) && !px(rows[i]));
            lemma_count_mono(rows, px, pu);
        }
    }
    lemma_filter_all(rows, survives_prune(rows, capacity));
}


/// Unpinned records that survive pruning to `capacity`.
pub open spec fn kept_unpinned(rows: Seq<ClipRecord>, capacity: int) -> spec_fn(ClipRecord) -> bool {
    |x: ClipRecord| !x.item.pinned && survives_prune(rows, capacity)(x)
}

proof fn lemma_filter_len_count(s: Seq<ClipRecord>, p: spec_fn(ClipRecord) -> bool)
    ensures
        s.filter(p).len() == count_where(s, p),
    decreases s.len(),
{
    reveal(Seq::filter);
    if s.len() > 0 {
        lemma_filter_len_count(s.drop_last(), p);
    }
}

/// The listing ranks of the records in `s` among the unpinned records of `rows`.
pub open spec fn ranks_in(rows: Seq<ClipRecord>, s: Seq<ClipRecord>) -> Seq<int> {
    s.map_values(|x: ClipRecord| count_where(rows, ahead_of(x)) as int)
}

/// Distinct records of `rows` have distinct ranks, so the ranks of a
/// filtered sequence are as many as its records.
proof fn lemma_ranks_distinct(rows: Seq<ClipRecord>, last_id: int, f: spec_fn(ClipRecord) -> bool)
    requires
        rows_wf(rows, last_id),
        forall|x: ClipRecord| #[trigger] f(x) ==> !x.item.pinned,
    ensures
        ranks_in(rows, rows.filter(f)).no_duplicates(),
        ranks_in(rows, rows.filter(f)).to_set().len() == count_where(rows, f),
        ranks_in(rows, rows.filter(f)).to_set().finite(),
{
    broadcast use vstd::seq_lib::group_filter_ensures;

    let k = rows.filter(f);
    lemma_filter_distinct(rows, f);
    let ranks = ranks_in(rows, k);
    assert forall|i: int, j: int| 0 <= i < ranks.len() && 0 <= j < ranks.len() && i != j implies ranks[i]
        != ranks[j] by {
        let a = k[i];
        let b = k[j];
        assert(rows.contains(a) && rows.contains(b));
        let ia = choose|x: int| 0 <= x < rows.len() && rows[x] == a;
        let ib = choose|x: int| 0 <= x < rows.len() && rows[x] == b;
        assert(f(a) && f(b));
        assert(a.item.id != b.item.id);
        if ranks_before(a.item, b.item) {
            lemma_ahead_fewer(rows, b, ia);
        } else {
            lemma_ahead_fewer(rows, a, ib);
        }
    }
    assert(ranks.no_duplicates());
    ranks.unique_seq_to_set();
    lemma_filter_len_count(rows, f);
    vstd::seq_lib::seq_to_set_is_finite(ranks);
}

/// Pruning to `capacity` leaves exactly `min(capacity, u)` unpinned records,
/// where `u` is the number of unpinned records before.
pub proof fn law_prune_count(rows: Seq<ClipRecord>, last_id: int, capacity: int)
    requires
        rows_wf(rows, last_id),
        capacity > 0,
    ensures
        count_where(rows, kept_unpinned(rows, capacity)) == if capacity < count_where(rows, is_unpinned()) {
            capacity
        } else {
            count_where(rows, is_unpinned()) as int
        },
{
    broadcast use vstd::seq_lib::group_filter_ensures;

    let pu = is_unpinned();
    let pk = kept_unpinned(rows, capacity);
    let u = count_where(rows, pu) as int;
    let m = if capacity < u {
        capacity
    } else {
        u
    };
    let uset = ranks_in(rows, rows.filter(pu)).to_set();
    let kset = ranks_in(rows, rows.filter(pk)).to_set();
    lemma_ranks_distinct(rows, last_id, pu);
    lemma_ranks_distinct(rows, last_id, pk);
    vstd::set_lib::lemma_int_range(0, u);
    vstd::set_lib::lemma_int_range(0, m);
    let ur = rows.filter(pu);
    let kr = rows.filter(pk);
    // every unpinned record has fewer than u unpinned records ahead of it
    assert forall|v: int| uset.contains(v) implies vstd::set_lib::set_int_range(0, u).contains(v) by {
        let i = choose|i: int| 0 <= i < ur.len() && ranks_in(rows, ur)[i] == v;
        let x = ur[i];
        assert(pu(x));
        let px = ahead_of(x);
        assert forall|j: int| 0 <= j < rows.len() && px(#[trigger] rows[j]) implies pu(rows[j]) by {}
        assert(ur.contains(x));
        rows.lemma_filter_contains_rev(pu, x);
        let ix = choose|j: int| 0 <= j < rows.len() && rows[j] == x;
        assert(pu(rows[ix]) && !px(rows[ix]));
        lemma_count_mono(rows, px, pu);
    }
    vstd::set_lib::lemma_subset_equality(uset, vstd::set_lib::set_int_range(0, u));
    assert forall|v: int| kset.contains(v) <==> vstd::set_lib::set_int_range(0, m).contains(v) by {
        if kset.contains(v) {
            let i = choose|i: int| 0 <= i < kr.len() && ranks_in(rows, kr)[i] == v;
            let x = kr[i];
            assert(pk(x));
            assert(kr.contains(x));
            rows.lemma_filter_contains_rev(pk, x);
            let ix = choose|j: int| 0 <= j < rows.len() && rows[j] == x;
            assert(pu(rows[ix]));
            assert(ur.contains(x));
            let iu = choose|j: int| 0 <= j < ur.len() && ur[j] == x;
            assert(ranks_in(rows, ur)[iu] == v);
            assert(uset.contains(v));
        }
        if vstd::set_lib::set_int_range(0, m).contains(v) {
            assert(uset.contains(v));
            let i = choose|i: int| 0 <= i < ur.len() && ranks_in(rows, ur)[i] == v;
            let x = ur[i];
            assert(pu(x));
            assert(ur.contains(x));
            rows.lemma_filter_contains_rev(pu, x);
            let ix = choose|j: int| 0 <= j < rows.len() && rows[j] == x;
            assert(pk(rows[ix]));
            assert(kr.contains(x));
            let ik = choose|j: int| 0 <= j < kr.len() && kr[j] == x;
            assert(ranks_in(rows, kr)[ik] == v);
        }
    }
    assert(kset =~= vstd::set_lib::set_int_range(0, m));
}


/// The items of the records.
pub open spec fn items_of(rows: Seq<ClipRecord>) -> Seq<ClipItem> {
    rows.map_values(|x: ClipRecord| x.item)
}

/// A listing repeats no item, and all its items come from the records.
proof fn lemma_listing_items(rows: Seq<ClipRecord>, q: Option<Seq<char>>, limit: int, r: Seq<ClipItem>)
    requires
        is_listing(rows, q, limit, r),
    ensures
        r.no_duplicates(),
        r.to_set().subset_of(items_of(rows).to_set()),
        r.to_set().len() == r.len(),
        items_of(rows).to_set().len() <= rows.len(),
        items_of(rows).to_set().finite(),
{
    assert forall|i: int, j: int| 0 <= i < r.len() && 0 <= j < r.len() && i != j implies r[i] != r[j] by {
        if i < j {
            assert(ranks_before(r[i], r[j]));
        } else {
            assert(ranks_before(r[j], r[i]));
        }
    }
    r.unique_seq_to_set();
    assert forall|x: ClipItem| r.to_set().contains(x) implies items_of(rows).to_set().contains(x) by {
        let i = choose|i: int| 0 <= i < r.len() && r[i] == x;
        let k = choose|k: int|
            0 <= k < rows.len() && rows[k].item == #[trigger] r[i] && matches_query(rows[k].item, q);
        assert(items_of(rows)[k] == x);
    }
    items_of(rows).lemma_cardinality_of_set();
    vstd::seq_lib::seq_to_set_is_finite(items_of(rows));
}

/// A listing whose bound is at least the number of records (or that has no
/// bound) shows every record that passes the search.
pub proof fn law_listing_complete(rows: Seq<ClipRecord>, q: Option<Seq<char>>, limit: int, r: Seq<ClipItem>)
    requires
        is_listing(rows, q, limit, r),
        limit < 0 || rows.len() <= limit,
    ensures
        forall|k: int|
            0 <= k < rows.len() && matches_query(#[trigger] rows[k].item, q) ==> r.contains(rows[k].item),
{
    lemma_listing_items(rows, q, limit, r);
    assert forall|k: int| 0 <= k < rows.len() && matches_query(#[trigger] rows[k].item, q) implies r.contains(
        rows[k].item,
    ) by {
        if !r.contains(rows[k].item) {
            assert(limit >= 0 && r.len() == limit);
            vstd::set_lib::lemma_len_subset(r.to_set(), items_of(rows).to_set());
            vstd::set_lib::lemma_subset_equality(r.to_set(), items_of(rows).to_set());
            assert(items_of(rows)[k] == rows[k].item);
            assert(items_of(rows).to_set().contains(rows[k].item));
            assert(r.to_set().contains(rows[k].item));
        }
    }
}

/// The search looks at every record's text, whatever its kind or pinned
/// state: an unbounded listing for `q` holds every record whose text
/// contains `q` (ASCII case aside).
pub proof fn law_search_lists_every_occurrence(rows: Seq<ClipRecord>, q: Seq<char>, r: Seq<ClipItem>, k: int, i: int)
    requires
        is_listing(rows, Some(q), -1, r),
        0 <= k < rows.len(),
        crate::text::occurs_at(q, rows[k].item.text@, i),
    ensures
        r.contains(rows[k].item),
{
    crate::text::law_search_finds_occurrence(q, rows[k].item.text@, i);
    assert(matches_query(rows[k].item, Some(q)));
    law_listing_complete(rows, Some(q), -1, r);
}

/// A listing without a query whose bound is at least the number of records
/// shows every record.
pub proof fn law_listing_shows_all(rows: Seq<ClipRecord>, limit: int, r: Seq<ClipItem>)
    requires
        is_listing(rows, None, limit, r),
        limit < 0 || rows.len() <= limit,
    ensures
        forall|k: int| 0 <= k < rows.len() ==> r.contains(#[trigger] rows[k].item),
{
    law_listing_complete(rows, None, limit, r);
    assert forall|k: int| 0 <= k < rows.len() implies r.contains(#[trigger] rows[k].item) by {
        assert(matches_query(rows[k].item, None));
    }
}

proof fn law_listing_shows_all_or_search(rows: Seq<ClipRecord>, q: Option<Seq<char>>, limit: int, r: Seq<ClipItem>)
    requires
        is_listing(rows, q, limit, r),
        limit < 0,
    ensures
        q is None ==> forall|k: int| 0 <= k < rows.len() ==> r.contains(#[trigger] rows[k].item),
        forall|k: int, i: int|
            0 <= k < rows.len() && q is Some && #[trigger] crate::text::occurs_at(q->0, rows[k].item.text@, i)
                ==> r.contains(rows[k].item),
{
    if q is None {
        law_listing_shows_all(rows, limit, r);
    }
    law_listing_complete(rows, q, limit, r);
    assert forall|k: int, i: int|
        0 <= k < rows.len() && q is Some && #[trigger] crate::text::occurs_at(q->0, rows[k].item.text@, i)
            implies r.contains(rows[k].item) by {
        crate::text::law_search_finds_occurrence(q->0, rows[k].item.text@, i);
        assert(matches_query(rows[k].item, q));
    }
}

/// Deleting an id leaves no record with that id, pinned or not, and keeps
/// every other record in order.
pub proof fn law_delete_removes(rows: Seq<ClipRecord>, id: i64)
    ensures
        forall|k: int|
            0 <= k < rows.filter(id_differs(id)).len() ==> (#[trigger] rows.filter(id_differs(id))[k]).item.id
                != id,
        forall|k: int|
            0 <= k < rows.len() && (#[trigger] rows[k]).item.id != id ==> rows.filter(id_differs(id)).contains(
                rows[k],
            ),
        forall|k: int|
            0 <= k < rows.filter(id_differs(id)).len() ==> rows.contains(#[trigger] rows.filter(id_differs(id))[k]),
{
    broadcast use vstd::seq_lib::group_filter_ensures;

    let f = rows.filter(id_differs(id));
    assert forall|k: int| 0 <= k < f.len() implies rows.contains(#[trigger] f[k]) by {
        assert(f.contains(f[k]));
        rows.lemma_filter_contains_rev(id_differs(id), f[k]);
    }
}

/// Clearing the history leaves only pinned records, keeps every pinned
/// record, and reports the hash of every record it removed, whatever its kind.
pub proof fn law_clear_leaves_pinned(rows: Seq<ClipRecord>)
    ensures
        forall|k: int|
            0 <= k < rows.filter(is_pinned()).len() ==> (#[trigger] rows.filter(is_pinned())[k]).item.pinned,
        forall|k: int|
            0 <= k < rows.len() && (#[trigger] rows[k]).item.pinned ==> rows.filter(is_pinned()).contains(rows[k]),
        forall|k: int|
            0 <= k < rows.len() && !(#[trigger] rows[k]).item.pinned ==> hash_list(
                rows.filter(negate(is_pinned())),
            ).contains(rows[k].item.hash),
{
    broadcast use vstd::seq_lib::group_filter_ensures;

    let f = rows.filter(is_pinned());
    assert forall|k: int| 0 <= k < f.len() implies (#[trigger] f[k]).item.pinned by {
        assert(is_pinned()(f[k]));
    }
    let g = rows.filter(negate(is_pinned()));
    assert forall|k: int|
        0 <= k < rows.len() && !(#[trigger] rows[k]).item.pinned implies hash_list(g).contains(
        rows[k].item.hash,
    ) by {
        assert(negate(is_pinned())(rows[k]));
        assert(g.contains(rows[k]));
        let j = choose|j: int| 0 <= j < g.len() && g[j] == rows[k];
        assert(hash_list(g)[j] == rows[k].item.hash);
    }
}

} // verus!
