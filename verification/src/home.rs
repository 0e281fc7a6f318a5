//! Arranging the app tiles of the home screen into pages.
//!
//! Stored tiles come first (a name may be stored once; a later tile on the same slot
//! replaces an earlier one), then every kind of app the screen offers that is not stored
//! yet takes the lowest free slot from a moving cursor. Pages of `app_limit` slots that
//! hold no tile are then dropped and the later tiles move up by the pages dropped.
use std::collections::HashMap;
use vstd::prelude::*;
use vstd::arithmetic::div_mod::lemma_fundamental_div_mod_converse;
use crate::apps::{app_type_name, get_app_type, kind_name, type_of_name, AppData, AppTypes};

verus! {

broadcast use vstd::std_specs::hash::group_hash_axioms;

/// A tile as the database stores it: the app's name and its slot.
pub struct AppSlot {
    pub app_name: String,
    pub slot: i32,
}

/// The arranged home screen: the tiles in slot order and the index of the last page.
pub struct HomeLayout {
    pub apps: Vec<AppData>,
    pub page_num: i32,
}

/// The names held by a list of strings.
pub open spec fn names_of(v: Seq<String>) -> Set<Seq<char>> {
    Set::new(|n: Seq<char>| exists|j: int| 0 <= j < v.len() && #[trigger] v[j]@ == n)
}

/// The slot map of a map of strings, by the strings' text.
pub open spec fn slot_names(m: Map<i32, String>) -> Map<i32, Seq<char>> {
    m.map_values(|s: String| s@)
}

/// The slots and names taken by the stored tiles: a name counts once, at its first
/// occurrence; a later tile with a new name on a taken slot replaces the tile there.
pub open spec fn stored_tiles(rows: Seq<AppSlot>) -> (Map<i32, Seq<char>>, Set<Seq<char>>)
    decreases rows.len(),
{
    if rows.len() == 0 {
        (Map::empty(), Set::empty())
    } else {
        let (m, seen) = stored_tiles(rows.drop_last());
        let row = rows.last();
        if seen.contains(row.app_name@) {
            (m, seen)
        } else {
            (m.insert(row.slot, row.app_name@), seen.insert(row.app_name@))
        }
    }
}

/// `k` is the lowest free slot at or after `from`, and lies below `i32::MAX`.
pub open spec fn is_first_free(m: Map<i32, Seq<char>>, from: i32, k: i32) -> bool {
    &&& from <= k < i32::MAX
    &&& !m.contains_key(k)
    &&& forall|j: i32| from <= j < k ==> m.contains_key(j)
}

/// The lowest free slot at or after `from`; `None` when no slot below `i32::MAX` is free there.
pub open spec fn first_free(m: Map<i32, Seq<char>>, from: i32) -> Option<i32> {
    if exists|k: i32| is_first_free(m, from, k) {
        Some(choose|k: i32| is_first_free(m, from, k))
    } else {
        None
    }
}

/// Slots, names and cursor after placing the offered apps; `None` when the cursor would
/// pass `i32::MAX`.
pub open spec fn placed_tiles(
    offered: Seq<AppData>,
    start: (Map<i32, Seq<char>>, Set<Seq<char>>, i32),
) -> Option<(Map<i32, Seq<char>>, Set<Seq<char>>, i32)>
    decreases offered.len(),
{
    if offered.len() == 0 {
        Some(start)
    } else {
        match placed_tiles(offered.drop_last(), start) {
            None => None,
            Some((m, seen, next)) => {
                let app = offered.last();
                let name = kind_name(app.app_type);
                if app.app_type == AppTypes::NoApp || seen.contains(name) {
                    Some((m, seen, next))
                } else {
                    match first_free(m, next) {
                        None => None,
                        Some(k) => Some((m.insert(k, name), seen.insert(name), (k + 1) as i32)),
                    }
                }
            },
        }
    }
}

/// The full slot map: stored tiles, then the offered apps not stored yet.
pub open spec fn home_tiles(rows: Seq<AppSlot>, offered: Seq<AppData>) -> Option<Map<i32, Seq<char>>> {
    let (m, seen) = stored_tiles(rows);
    match placed_tiles(offered, (m, seen, 0)) {
        None => None,
        Some((m2, _, _)) => Some(m2),
    }
}

fn contains_name(seen: &Vec<String>, name: &String) -> (r: bool)
    ensures
        r == names_of(seen@).contains(name@),
{
    let mut i: usize = 0;
    while i < seen.len()
        invariant
            i <= seen.len(),
            forall|j: int| 0 <= j < i ==> seen@[j]@ != name@,
        decreases seen.len() - i,
    {
        if seen[i] == *name {
            assert(seen@[i as int]@ == name@);
            return true;
        }
        i += 1;
    }
    false
}

proof fn lemma_names_push(v: Seq<String>, s: String)
    ensures
        names_of(v.push(s)) == names_of(v).insert(s@),
{
    assert forall|n: Seq<char>| names_of(v.push(s)).contains(n) <==> names_of(v).insert(s@).contains(n) by {
        if names_of(v.push(s)).contains(n) {
            let j = choose|j: int| 0 <= j < v.push(s).len() && #[trigger] v.push(s)[j]@ == n;
            if j < v.len() {
                assert(v[j]@ == n);
            }
        }
        if names_of(v).contains(n) {
            let j = choose|j: int| 0 <= j < v.len() && #[trigger] v[j]@ == n;
            assert(v.push(s)[j]@ == n);
        }
        if n == s@ {
            assert(v.push(s)[v.len() as int]@ == n);
        }
    }
    assert(names_of(v.push(s)) =~= names_of(v).insert(s@));
}

proof fn lemma_slot_names_insert(m: Map<i32, String>, k: i32, s: String)
    ensures
        slot_names(m.insert(k, s)) == slot_names(m).insert(k, s@),
{
    assert(slot_names(m.insert(k, s)) =~= slot_names(m).insert(k, s@));
}

proof fn lemma_placing_fails_for_longer(
    offered: Seq<AppData>,
    start: (Map<i32, Seq<char>>, Set<Seq<char>>, i32),
    n: int,
)
    requires
        0 <= n <= offered.len(),
        placed_tiles(offered.take(n), start) is None,
    ensures
        placed_tiles(offered, start) is None,
    decreases offered.len() - n,
{
    if n < offered.len() {
        assert(offered.take(n + 1).drop_last() == offered.take(n));
        lemma_placing_fails_for_longer(offered, start, n + 1);
    } else {
        assert(offered.take(n) == offered);
    }
}

/// Builds the slot map of the stored tiles and the offered apps; `None` when the cursor
/// would pass `i32::MAX`.
#[verifier::loop_isolation(false)]
fn collect_tiles(rows: &Vec<AppSlot>, offered: &Vec<AppData>) -> (r: Option<HashMap<i32, String>>)
    ensures
        match r {
            None => home_tiles(rows@, offered@) is None,
            Some(m) => home_tiles(rows@, offered@) == Some(slot_names(m@)),
        },
{
    let mut app_map: HashMap<i32, String> = HashMap::new();
    let mut seen: Vec<String> = Vec::new();
    for i in 0..rows.len()
        invariant
            (slot_names(app_map@), names_of(seen@)) == stored_tiles(rows@.take(i as int)),
    {
        let row = &rows[i];
        proof {
            assert(rows@.take(i + 1).drop_last() == rows@.take(i as int));
        }
        if !contains_name(&seen, &row.app_name) {
            proof {
                lemma_names_push(seen@, row.app_name);
                lemma_slot_names_insert(app_map@, row.slot, row.app_name);
            }
            seen.push(row.app_name.clone());
            app_map.insert(row.slot, row.app_name.clone());
        }
    }
    proof {
        assert(rows@.take(rows.len() as int) == rows@);
    }
    let ghost base = stored_tiles(rows@);
    let mut next_slot: i32 = 0;
    for i in 0..offered.len()
        invariant
            base == stored_tiles(rows@),
            placed_tiles(offered@.take(i as int), (base.0, base.1, 0))
                == Some((slot_names(app_map@), names_of(seen@), next_slot)),
    {
        let app = offered[i];
        proof {
            assert(offered@.take(i + 1).drop_last() == offered@.take(i as int));
        }
        if app.app_type != AppTypes::NoApp {
            let val = app_type_name(app.app_type);
            if !contains_name(&seen, &val) {
                let ghost from = next_slot;
                while app_map.contains_key(&next_slot)
                    invariant
                        from <= next_slot,
                        forall|j: i32| from <= j < next_slot ==> app_map@.contains_key(j),
                    decreases i32::MAX - next_slot,
                {
                    if next_slot == i32::MAX {
                        proof {
                            assert(!exists|k: i32| is_first_free(slot_names(app_map@), from, k));
                            lemma_placing_fails_for_longer(offered@, (base.0, base.1, 0), i + 1);
                        }
                        return None;
                    }
                    next_slot += 1;
                }
                if next_slot == i32::MAX {
                    proof {
                        assert(!exists|k: i32| is_first_free(slot_names(app_map@), from, k));
                        lemma_placing_fails_for_longer(offered@, (base.0, base.1, 0), i + 1);
                    }
                    return None;
                }
                proof {
                    let m = slot_names(app_map@);
                    assert(is_first_free(m, from, next_slot));
                    let k = choose|k: i32| is_first_free(m, from, k);
                    assert(k == next_slot) by {
                        if k < next_slot {
                            assert(m.contains_key(k));
                        }
                        if k > next_slot {
                            assert(m.contains_key(next_slot));
                        }
                    }
                    lemma_names_push(seen@, val);
                    lemma_slot_names_insert(app_map@, next_slot, val);
                }
                seen.push(val.clone());
                app_map.insert(next_slot, val);
                next_slot += 1;
            }
        }
    }
    proof {
        assert(offered@.take(offered.len() as int) == offered@);
    }
    Some(app_map)
}

/// Integer division rounded toward zero, as `/` on Rust integers rounds.
pub open spec fn div_toward_zero(a: int, b: int) -> int {
    if b > 0 {
        if a >= 0 { a / b } else { -((-a) / b) }
    } else {
        if a >= 0 { -(a / (-b)) } else { (-a) / (-b) }
    }
}

/// The page a slot belongs to: its slot number divided by the page size.
pub open spec fn page_of(k: int, limit: int) -> int {
    div_toward_zero(k, limit)
}

/// `k` is the highest taken slot.
pub open spec fn is_top_slot(m: Map<i32, Seq<char>>, k: i32) -> bool {
    m.contains_key(k) && forall|j: i32| m.contains_key(j) ==> j <= k
}

/// The highest taken slot, or 0 when no slot is taken.
pub open spec fn top_slot(m: Map<i32, Seq<char>>) -> int {
    if exists|k: i32| is_top_slot(m, k) {
        (choose|k: i32| is_top_slot(m, k)) as int
    } else {
        0
    }
}

/// The number of pages: up to the page of the highest taken slot.
pub open spec fn page_count(m: Map<i32, Seq<char>>, limit: int) -> int {
    page_of(top_slot(m), limit) + 1
}

/// The slot map can be laid out in pages of `limit` slots without an `i32` overflow or
/// an out-of-range page: the page size is not zero, the page of the highest slot and the
/// page count are `i32` values, every taken slot lies on one of the counted pages, and
/// the slot bounds of the counted pages are `i32` values.
pub open spec fn layout_fits(m: Map<i32, Seq<char>>, limit: int) -> bool {
    &&& limit != 0
    &&& !(limit == -1 && top_slot(m) <= i32::MIN + 1)
    &&& forall|k: i32| m.contains_key(k) ==> 0 <= page_of(k as int, limit) < page_count(m, limit)
    &&& (exists|k: i32| m.contains_key(k)) ==> i32::MIN <= limit * page_count(m, limit) <= i32::MAX
}

/// Some taken slot lies on page `p`.
pub open spec fn page_active(m: Map<i32, Seq<char>>, limit: int, p: int) -> bool {
    exists|k: i32| m.contains_key(k) && page_of(k as int, limit) == p
}

/// How many of the pages before `p` hold no taken slot.
pub open spec fn pages_dropped_before(m: Map<i32, Seq<char>>, limit: int, p: nat) -> nat
    decreases p,
{
    if p == 0 {
        0
    } else {
        pages_dropped_before(m, limit, (p - 1) as nat) + if page_active(m, limit, p - 1) { 0nat } else { 1nat }
    }
}

/// How many of the pages before `p` hold a taken slot.
pub open spec fn pages_kept_before(m: Map<i32, Seq<char>>, limit: int, p: nat) -> nat
    decreases p,
{
    if p == 0 {
        0
    } else {
        pages_kept_before(m, limit, (p - 1) as nat) + if page_active(m, limit, p - 1) { 1nat } else { 0nat }
    }
}

/// The tiles shown for the slots below `n`, in slot order: each taken slot whose name
/// is a known kind of app, moved up by one page for every empty page before its own.
pub open spec fn shown_tiles(m: Map<i32, Seq<char>>, limit: int, n: nat) -> Seq<AppData>
    decreases n,
{
    if n == 0 {
        seq![]
    } else {
        let s = n - 1;
        let rest = shown_tiles(m, limit, (n - 1) as nat);
        if s <= i32::MAX && m.contains_key(s as i32) && type_of_name(m[s as i32]) is Some {
            rest.push(
                AppData {
                    app_type: type_of_name(m[s as i32]).unwrap(),
                    slot: (s - limit * pages_dropped_before(m, limit, (s / limit) as nat)) as i32,
                },
            )
        } else {
            rest
        }
    }
}

/// The number of pages that hold a taken slot.
pub open spec fn pages_kept(m: Map<i32, Seq<char>>, limit: int) -> nat {
    pages_kept_before(m, limit, page_count(m, limit) as nat)
}

/// The tiles of the arranged home screen; a negative page size makes every page's slot
/// range empty, so no tile is shown.
pub open spec fn arranged_tiles(m: Map<i32, Seq<char>>, limit: int) -> Seq<AppData> {
    if limit > 0 {
        shown_tiles(m, limit, (limit * page_count(m, limit)) as nat)
    } else {
        seq![]
    }
}

/// The index of the last page of the arranged home screen.
pub open spec fn last_page(m: Map<i32, Seq<char>>, limit: int) -> int {
    if pages_kept(m, limit) > 0 { pages_kept(m, limit) - 1 } else { 0 }
}

proof fn lemma_page_in_range(s: int, limit: int, p: int)
    requires
        limit > 0,
        limit * p <= s < limit * (p + 1),
    ensures
        s / limit == p,
{
    assert(limit * (p + 1) == limit * p + limit && p * limit == limit * p) by (nonlinear_arith);
    lemma_fundamental_div_mod_converse(s, limit, p, s - limit * p);
}

proof fn lemma_dropped_at_most(m: Map<i32, Seq<char>>, limit: int, p: nat)
    ensures
        pages_dropped_before(m, limit, p) <= p,
        pages_kept_before(m, limit, p) <= p,
        pages_dropped_before(m, limit, p) + pages_kept_before(m, limit, p) == p,
    decreases p,
{
    if p > 0 {
        lemma_dropped_at_most(m, limit, (p - 1) as nat);
    }
}

proof fn lemma_shown_unchanged(m: Map<i32, Seq<char>>, limit: int, a: nat, b: nat)
    requires
        a <= b,
        forall|s: i32| a <= s < b ==> !m.contains_key(s),
    ensures
        shown_tiles(m, limit, b) == shown_tiles(m, limit, a),
    decreases b - a,
{
    if a < b {
        lemma_shown_unchanged(m, limit, a, (b - 1) as nat);
    }
}

fn page_index(k: i32, limit: i32) -> (r: i64)
    requires
        limit != 0,
    ensures
        r == page_of(k as int, limit as int),
{
    let a = k as i64;
    let b = limit as i64;
    if b > 0 {
        if a >= 0 { a / b } else { -((-a) / b) }
    } else {
        if a >= 0 { -(a / (-b)) } else { (-a) / (-b) }
    }
}

/// The taken slots of the map, each listed at least once.
fn taken_slots(app_map: &HashMap<i32, String>) -> (slots: Vec<i32>)
    ensures
        forall|j: int| 0 <= j < slots.len() ==> app_map@.contains_key(#[trigger] slots@[j]),
        forall|k: i32| app_map@.contains_key(k) ==> slots@.contains(k),
{
    let ghost m = slot_names(app_map@);
    let mut slots: Vec<i32> = Vec::new();
    for k in it: app_map.keys()
        invariant
            m == slot_names(app_map@),
            slots@ == it.seq().take(it.index()).unref(),
            forall|k: i32| #[trigger] app_map@.contains_key(k) ==> slots@.contains(k) || exists|j: int| it.index() <= j < it.seq().len() && *it.seq()[j] == k,
            forall|j: int| 0 <= j < slots.len() ==> app_map@.contains_key(#[trigger] slots@[j]),
    {
        let ghost before = slots@;
        slots.push(*k);
        proof {
            assert(slots@[slots.len() - 1] == *k);
            assert forall|j: int| 0 <= j < before.len() implies slots@[j] == before[j] by {}
            assert(*k == *it.seq()[it.index()]);
            assert forall|k: i32| #[trigger] app_map@.contains_key(k) implies slots@.contains(k) || exists|j: int| it.index() + 1 <= j < it.seq().len() && *it.seq()[j] == k by {
                if !before.contains(k) {
                    let j = choose|j: int| it.index() <= j < it.seq().len() && *it.seq()[j] == k;
                    if j == it.index() {
                        assert(slots@[slots.len() - 1] == k);
                    }
                } else {
                    let j = choose|j: int| 0 <= j < before.len() && before[j] == k;
                    assert(slots@[j] == k);
                }
            }
        }
    }
    slots
}

/// Lays the slot map out in pages; `None` exactly when it does not fit.
#[verifier::loop_isolation(false)]
fn arrange_pages(app_map: &HashMap<i32, String>, app_limit: i32) -> (r: Option<HomeLayout>)
    ensures
        r is Some <==> layout_fits(slot_names(app_map@), app_limit as int),
        r matches Some(h) ==> h.apps@ == arranged_tiles(slot_names(app_map@), app_limit as int)
            && h.page_num == last_page(slot_names(app_map@), app_limit as int),
{
    let ghost m = slot_names(app_map@);
    let ghost lim = app_limit as int;
    if app_limit == 0 {
        return None;
    }
    let slots = taken_slots(app_map);
    // The highest taken slot.
    let mut max_slot: Option<i32> = None;
    let mut i: usize = 0;
    while i < slots.len()
        invariant
            i <= slots.len(),
            match max_slot {
                None => i == 0,
                Some(x) => m.contains_key(x) && forall|j: int| 0 <= j < i ==> slots@[j] <= x,
            },
        decreases slots.len() - i,
    {
        let k = slots[i];
        max_slot = match max_slot {
            None => Some(k),
            Some(x) => if k > x { Some(k) } else { Some(x) },
        };
        i += 1;
    }
    let top: i32 = match max_slot {
        None => 0,
        Some(x) => x,
    };
    proof {
        match max_slot {
            None => {
                assert(slots.len() == 0);
                assert(!exists|k: i32| m.contains_key(k)) by {
                    if exists|k: i32| m.contains_key(k) {
                        let k = choose|k: i32| m.contains_key(k);
                        assert(slots@.contains(k));
                    }
                }
                assert(!exists|k: i32| is_top_slot(m, k));
            },
            Some(x) => {
                assert forall|k: i32| m.contains_key(k) implies k <= x by {
                    assert(slots@.contains(k));
                }
                assert(is_top_slot(m, x));
                let t = choose|k: i32| is_top_slot(m, k);
                assert(t == x);
            },
        }
        assert(top_slot(m) == top as int);
    }
    if app_limit == -1 && top <= i32::MIN + 1 {
        return None;
    }
    let top_page: i64 = page_index(top, app_limit);
    // Every taken slot must lie on a counted page.
    let mut i: usize = 0;
    while i < slots.len()
        invariant
            i <= slots.len(),
            forall|j: int| 0 <= j < i ==> 0 <= #[trigger] page_of(slots@[j] as int, lim) <= top_page,
        decreases slots.len() - i,
    {
        let page = page_index(slots[i], app_limit);
        if page < 0 || page > top_page {
            proof {
                assert(m.contains_key(slots@[i as int]));
            }
            return None;
        }
        i += 1;
    }
    assert forall|k: i32| m.contains_key(k) implies 0 <= page_of(k as int, lim) < page_count(m, lim) by {
        assert(slots@.contains(k));
        let j = choose|j: int| 0 <= j < slots.len() && slots@[j] == k;
        assert(0 <= page_of(slots@[j] as int, lim) <= top_page);
    }
    assert(0 <= top_page) by {
        if max_slot.is_some() {
            assert(slots@.contains(top));
            let j = choose|j: int| 0 <= j < slots.len() && slots@[j] == top;
            assert(0 <= page_of(slots@[j] as int, lim) <= top_page);
        }
    }
    assert(-0x8000_0000 <= top_page <= 0x8000_0000) by {
        if app_limit > 0 {
            if top >= 0 {
                vstd::arithmetic::div_mod::lemma_div_is_ordered_by_denominator(top as int, 1, app_limit as int);
            }
        } else {
            if top >= 0 {
                vstd::arithmetic::div_mod::lemma_div_is_ordered_by_denominator(top as int, 1, -(app_limit as int));
            } else {
                vstd::arithmetic::div_mod::lemma_div_is_ordered_by_denominator(-(top as int), 1, -(app_limit as int));
            }
        }
    }
    if max_slot.is_some() {
        assert(-0x8000_0000 * 0x8000_0001 <= (app_limit as int) * (top_page as int + 1) <= 0x8000_0000 * 0x8000_0001) by (nonlinear_arith)
            requires
                0 <= top_page as int + 1 <= 0x8000_0001,
                -0x8000_0000 <= app_limit <= 0x7fff_ffff;
        let bound = (app_limit as i64) * (top_page + 1);
        if bound < i32::MIN as i64 || bound > i32::MAX as i64 {
            return None;
        }
    }
    assert(layout_fits(m, lim));
    assert(top_page < i32::MAX) by {
        if max_slot.is_some() {
            if app_limit > 0 {
                assert((top_page as int + 1) <= (top_page as int + 1) * (app_limit as int)) by (nonlinear_arith)
                    requires top_page as int + 1 >= 0, app_limit >= 1;
            } else if app_limit < -1 {
                assert(2 * (top_page as int + 1) <= -((top_page as int + 1) * (app_limit as int))) by (nonlinear_arith)
                    requires top_page as int + 1 >= 0, app_limit <= -2;
            }
        }
    }
    let total_pages: i32 = (top_page + 1) as i32;
    // Which pages hold a taken slot.
    let mut page_status: Vec<bool> = Vec::new();
    while page_status.len() < total_pages as usize
        invariant
            page_status.len() <= total_pages,
            forall|p: int| 0 <= p < page_status.len() ==> !page_status@[p],
        decreases total_pages - page_status.len(),
    {
        page_status.push(false);
    }
    let mut i: usize = 0;
    while i < slots.len()
        invariant
            i <= slots.len(),
            page_status.len() == total_pages,
            forall|p: int| 0 <= p < total_pages ==> (page_status@[p] <==> exists|j: int| 0 <= j < i && page_of(slots@[j] as int, lim) == p),
        decreases slots.len() - i,
    {
        let k = slots[i];
        assert(m.contains_key(k));
        let page = page_index(k, app_limit);
        assert(0 <= page_of(slots@[i as int] as int, lim) <= top_page);
        page_status.set(page as usize, true);
        proof {
            assert forall|p: int| 0 <= p < total_pages implies (page_status@[p] <==> exists|j: int| 0 <= j < i + 1 && page_of(slots@[j] as int, lim) == p) by {
                if p == page as int {
                    assert(page_of(slots@[i as int] as int, lim) == p);
                }
                if exists|j: int| 0 <= j < i + 1 && page_of(slots@[j] as int, lim) == p {
                    let j = choose|j: int| 0 <= j < i + 1 && page_of(slots@[j] as int, lim) == p;
                    if j < i {
                        assert(exists|j: int| 0 <= j < i && page_of(slots@[j] as int, lim) == p);
                    }
                }
            }
        }
        i += 1;
    }
    assert forall|p: int| 0 <= p < total_pages implies (page_status@[p] <==> page_active(m, lim, p)) by {
        if page_status@[p] {
            let j = choose|j: int| 0 <= j < slots.len() && page_of(slots@[j] as int, lim) == p;
            assert(m.contains_key(slots@[j]));
        }
        if page_active(m, lim, p) {
            let k = choose|k: i32| m.contains_key(k) && page_of(k as int, lim) == p;
            assert(slots@.contains(k));
            let j = choose|j: int| 0 <= j < slots.len() && slots@[j] == k;
            assert(page_of(slots@[j] as int, lim) == p);
        }
    }
    // The tiles of the kept pages, moved up past the dropped pages.
    let mut final_apps: Vec<AppData> = Vec::new();
    let mut empty_pages: i32 = 0;
    let mut page_idx: i32 = 0;
    while page_idx < total_pages
        invariant
            0 <= page_idx <= total_pages,
            0 <= empty_pages <= page_idx,
            empty_pages == pages_dropped_before(m, lim, page_idx as nat),
            lim > 0 ==> final_apps@ == shown_tiles(m, lim, (lim * page_idx) as nat),
            lim > 0 ==> 0 <= lim * page_idx,
            lim < 0 ==> final_apps@ == Seq::<AppData>::empty(),
        decreases total_pages - page_idx,
    {
        proof {
            lemma_dropped_at_most(m, lim, page_idx as nat);
            if lim > 0 {
                assert(0 <= lim * (page_idx + 1)) by (nonlinear_arith)
                    requires lim > 0, page_idx >= 0;
                assert(lim * page_idx <= lim * (page_idx + 1)) by (nonlinear_arith)
                    requires lim > 0;
            }
        }
        if page_status[page_idx as usize] {
            proof {
                let k = choose|k: i32| m.contains_key(k) && page_of(k as int, lim) == page_idx;
                if lim > 0 {
                    assert(lim * (page_idx + 1) <= lim * page_count(m, lim)) by (nonlinear_arith)
                        requires lim > 0, page_idx + 1 <= page_count(m, lim);
                    assert(lim * page_idx <= lim * (page_idx + 1)) by (nonlinear_arith)
                        requires lim > 0;
                    assert(lim * empty_pages <= lim * page_idx) by (nonlinear_arith)
                        requires lim > 0, empty_pages <= page_idx;
                } else {
                    assert(lim * page_count(m, lim) <= lim * (page_idx + 1) <= lim * page_idx <= 0) by (nonlinear_arith)
                        requires lim < 0, 0 <= page_idx, page_idx + 1 <= page_count(m, lim);
                }
            }
            let start_slot = app_limit * page_idx;
            let end_slot = app_limit * (page_idx + 1);
            let mut slot = start_slot;
            while slot < end_slot
                invariant
                    lim > 0 ==> start_slot <= slot <= end_slot,
                    lim < 0 ==> slot == start_slot && end_slot <= start_slot,
                    lim > 0 ==> final_apps@ == shown_tiles(m, lim, slot as nat),
                    lim < 0 ==> final_apps@ == Seq::<AppData>::empty(),
                decreases end_slot - slot,
            {
                proof {
                    lemma_page_in_range(slot as int, lim, page_idx as int);
                }
                match app_map.get(&slot) {
                    Some(v) => {
                        match get_app_type(v) {
                            Some(app_type) => {
                                final_apps.push(AppData { app_type, slot: slot - app_limit * empty_pages });
                            },
                            None => {},
                        }
                    },
                    None => {},
                }
                slot += 1;
            }
        } else {
            proof {
                if lim > 0 {
                    assert forall|s: i32| lim * page_idx <= s < lim * (page_idx + 1) implies !m.contains_key(s) by {
                        lemma_page_in_range(s as int, lim, page_idx as int);
                        if m.contains_key(s) {
                            assert(page_of(s as int, lim) == page_idx);
                        }
                    }
                    lemma_shown_unchanged(m, lim, (lim * page_idx) as nat, (lim * (page_idx + 1)) as nat);
                }
            }
            empty_pages += 1;
        }
        page_idx += 1;
    }
    // How many pages are kept.
    let mut active_pages: usize = 0;
    let mut p: usize = 0;
    while p < total_pages as usize
        invariant
            p <= total_pages,
            active_pages == pages_kept_before(m, lim, p as nat),
            active_pages <= p,
        decreases total_pages - p,
    {
        proof {
            lemma_dropped_at_most(m, lim, (p + 1) as nat);
        }
        if page_status[p] {
            active_pages += 1;
        }
        p += 1;
    }
    let page_num: i32 = if active_pages > 0 { (active_pages - 1) as i32 } else { 0 };
    Some(HomeLayout { apps: final_apps, page_num })
}

/// The arranged home screen for the stored tiles, the offered apps and the page size:
/// its tiles and the index of its last page; `None` when arranging would overflow an
/// `i32`, divide by a zero page size, or index a page outside the page list.
pub open spec fn arranged_home(rows: Seq<AppSlot>, offered: Seq<AppData>, limit: int) -> Option<(Seq<AppData>, int)> {
    match home_tiles(rows, offered) {
        None => None,
        Some(m) => if layout_fits(m, limit) {
            Some((arranged_tiles(m, limit), last_page(m, limit)))
        } else {
            None
        },
    }
}

/// Arranges the home screen from the stored tiles `app_db`, the apps the screen offers
/// `ui_apps` and the number of slots per page `app_limit`.
pub fn setup_home(app_db: &Vec<AppSlot>, ui_apps: &Vec<AppData>, app_limit: i32) -> (r: Option<HomeLayout>)
    ensures
        match r {
            None => arranged_home(app_db@, ui_apps@, app_limit as int) is None,
            Some(h) => arranged_home(app_db@, ui_apps@, app_limit as int) == Some((h.apps@, h.page_num as int)),
        },
        r matches Some(h) ==> home_tiles(app_db@, ui_apps@) matches Some(m)
            && layout_fits(m, app_limit as int)
            && h.apps@ == arranged_tiles(m, app_limit as int)
            && h.page_num == last_page(m, app_limit as int),
        r is None ==> home_tiles(app_db@, ui_apps@) is None
            || !layout_fits(home_tiles(app_db@, ui_apps@).unwrap(), app_limit as int),
{
    match collect_tiles(app_db, ui_apps) {
        None => None,
        Some(app_map) => arrange_pages(&app_map, app_limit),
    }
}

} // verus!
