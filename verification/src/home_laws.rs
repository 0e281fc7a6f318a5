//! Properties of every arranged home screen.
use vstd::prelude::*;
use vstd::arithmetic::div_mod::{lemma_div_is_ordered, lemma_fundamental_div_mod};
use crate::apps::{kind_name, lemma_kind_name_injective, lemma_name_round_trip, type_of_name, AppData, AppTypes};
use vstd::arithmetic::div_mod::lemma_fundamental_div_mod_converse;
use crate::home::{
    arranged_home, arranged_tiles, home_tiles, is_top_slot, last_page, layout_fits, page_active,
    first_free, is_first_free, page_count, page_of, pages_dropped_before, pages_kept,
    pages_kept_before, placed_tiles,
    shown_tiles, stored_tiles, top_slot, AppSlot,
};

verus! {

/// No two slots of the map hold the same name, and every name held was seen.
spec fn names_unique(m: Map<i32, Seq<char>>, seen: Set<Seq<char>>) -> bool {
    &&& forall|k1: i32, k2: i32| m.contains_key(k1) && m.contains_key(k2) && k1 != k2 ==> m[k1] != m[k2]
    &&& forall|k: i32| m.contains_key(k) ==> seen.contains(#[trigger] m[k])
}

proof fn lemma_stored_unique(rows: Seq<AppSlot>)
    ensures
        names_unique(stored_tiles(rows).0, stored_tiles(rows).1),
    decreases rows.len(),
{
    if rows.len() > 0 {
        lemma_stored_unique(rows.drop_last());
    }
}

proof fn lemma_placed_unique(
    offered: Seq<AppData>,
    start: (Map<i32, Seq<char>>, Set<Seq<char>>, i32),
)
    requires
        names_unique(start.0, start.1),
    ensures
        placed_tiles(offered, start) matches Some(r) ==> names_unique(r.0, r.1),
    decreases offered.len(),
{
    if offered.len() > 0 {
        lemma_placed_unique(offered.drop_last(), start);
    }
}

proof fn lemma_home_unique(rows: Seq<AppSlot>, offered: Seq<AppData>)
    requires
        home_tiles(rows, offered) is Some,
    ensures
        forall|k1: i32, k2: i32|
            #![trigger home_tiles(rows, offered).unwrap()[k1], home_tiles(rows, offered).unwrap()[k2]]
            home_tiles(rows, offered).unwrap().contains_key(k1)
                && home_tiles(rows, offered).unwrap().contains_key(k2) && k1 != k2
                ==> home_tiles(rows, offered).unwrap()[k1] != home_tiles(rows, offered).unwrap()[k2],
{
    let (m, seen) = stored_tiles(rows);
    lemma_stored_unique(rows);
    lemma_placed_unique(offered, (m, seen, 0));
}

/// The slot a tile moves to: its slot less one page for every empty page before its own.
spec fn moved_slot(m: Map<i32, Seq<char>>, limit: int, s: int) -> int {
    s - limit * pages_dropped_before(m, limit, (s / limit) as nat)
}

/// A slot that `shown_tiles` turns into a tile.
spec fn shown_slot(m: Map<i32, Seq<char>>, s: int) -> bool {
    0 <= s <= i32::MAX && m.contains_key(s as i32) && type_of_name(m[s as i32]) is Some
}

proof fn lemma_pages_counted(m: Map<i32, Seq<char>>, limit: int, p1: nat, p2: nat)
    requires
        p1 <= p2,
    ensures
        pages_dropped_before(m, limit, p1) <= pages_dropped_before(m, limit, p2),
        pages_kept_before(m, limit, p1) <= pages_kept_before(m, limit, p2),
        pages_dropped_before(m, limit, p2) + pages_kept_before(m, limit, p2) == p2,
        p1 < p2 && page_active(m, limit, p1 as int) ==>
            pages_dropped_before(m, limit, p2) + 1 <= pages_dropped_before(m, limit, p1) + (p2 - p1),
    decreases p2,
{
    if p2 > p1 {
        lemma_pages_counted(m, limit, p1, (p2 - 1) as nat);
    } else if p2 > 0 {
        lemma_pages_counted(m, limit, 0, (p2 - 1) as nat);
    }
}

proof fn lemma_slot_bounds(limit: int, s: int)
    requires
        limit > 0,
        s >= 0,
    ensures
        limit * (s / limit) <= s < limit * (s / limit + 1),
        s / limit >= 0,
{
    lemma_fundamental_div_mod(s, limit);
    assert(limit * (s / limit + 1) == limit * (s / limit) + limit) by (nonlinear_arith);
    assert(s / limit >= 0) by (nonlinear_arith)
        requires limit > 0, s >= 0, limit * (s / limit) <= s, s < limit * (s / limit) + limit;
}

proof fn lemma_moved_slot_range(m: Map<i32, Seq<char>>, limit: int, s: int)
    requires
        limit > 0,
        s >= 0,
        m.contains_key(s as i32),
        s <= i32::MAX,
    ensures
        0 <= moved_slot(m, limit, s) <= s,
        moved_slot(m, limit, s) < limit * (pages_kept_before(m, limit, (s / limit + 1) as nat)),
{
    let p = s / limit;
    lemma_slot_bounds(limit, s);
    lemma_pages_counted(m, limit, p as nat, p as nat);
    let d = pages_dropped_before(m, limit, p as nat);
    assert(page_of(s, limit) == p);
    assert(page_active(m, limit, p));
    assert(pages_kept_before(m, limit, (p + 1) as nat) == pages_kept_before(m, limit, p as nat) + 1);
    assert(limit * d <= limit * p) by (nonlinear_arith)
        requires limit > 0, d <= p;
    assert(limit * (p + 1) - limit * d == limit * (p - d + 1)) by (nonlinear_arith);
}

proof fn lemma_moved_slots_increase(m: Map<i32, Seq<char>>, limit: int, s1: int, s2: int)
    requires
        limit > 0,
        0 <= s1 < s2 <= i32::MAX,
        m.contains_key(s1 as i32),
        m.contains_key(s2 as i32),
    ensures
        moved_slot(m, limit, s1) < moved_slot(m, limit, s2),
{
    let p1 = s1 / limit;
    let p2 = s2 / limit;
    lemma_slot_bounds(limit, s1);
    lemma_slot_bounds(limit, s2);
    lemma_div_is_ordered(s1, s2, limit);
    let d1 = pages_dropped_before(m, limit, p1 as nat);
    let d2 = pages_dropped_before(m, limit, p2 as nat);
    if p1 < p2 {
        assert(page_of(s1, limit) == p1);
        assert(page_active(m, limit, p1));
        lemma_pages_counted(m, limit, p1 as nat, p2 as nat);
        assert(limit * (d2 - d1) <= limit * (p2 - p1 - 1)) by (nonlinear_arith)
            requires limit > 0, d2 - d1 <= p2 - p1 - 1;
        assert(limit * (p2 - p1 - 1) == limit * p2 - limit * (p1 + 1)) by (nonlinear_arith);
        assert(limit * (d2 - d1) == limit * d2 - limit * d1) by (nonlinear_arith);
    }
}

#[verifier::spinoff_prover]
proof fn lemma_shown_structure(m: Map<i32, Seq<char>>, limit: int, n: nat)
    requires
        limit > 0,
        forall|k1: i32, k2: i32| m.contains_key(k1) && m.contains_key(k2) && k1 != k2 ==> m[k1] != m[k2],
    ensures
        forall|i: int, j: int| 0 <= i < j < shown_tiles(m, limit, n).len() ==>
            shown_tiles(m, limit, n)[i].slot < shown_tiles(m, limit, n)[j].slot,
        forall|i: int, j: int| 0 <= i < j < shown_tiles(m, limit, n).len() ==>
            shown_tiles(m, limit, n)[i].app_type != shown_tiles(m, limit, n)[j].app_type,
        forall|i: int, t: int| 0 <= i < shown_tiles(m, limit, n).len() && n <= t && shown_slot(m, t) ==>
            shown_tiles(m, limit, n)[i].slot < moved_slot(m, limit, t)
            && Some(shown_tiles(m, limit, n)[i].app_type) != type_of_name(m[t as i32]),
    decreases n,
{
    if n > 0 {
        let s = n - 1;
        lemma_shown_structure(m, limit, (n - 1) as nat);
        let prev = shown_tiles(m, limit, (n - 1) as nat);
        if shown_slot(m, s) {
            lemma_moved_slot_range(m, limit, s);
            let tile = AppData {
                app_type: type_of_name(m[s as i32]).unwrap(),
                slot: moved_slot(m, limit, s) as i32,
            };
            assert(shown_tiles(m, limit, n) == prev.push(tile));
            assert forall|i: int, t: int| 0 <= i < prev.len() + 1 && n <= t && shown_slot(m, t) implies
                prev.push(tile)[i].slot < moved_slot(m, limit, t)
                && Some(prev.push(tile)[i].app_type) != type_of_name(m[t as i32]) by {
                if i == prev.len() {
                    lemma_moved_slots_increase(m, limit, s, t);
                    assert(m[s as i32] != m[t as i32]);
                } else {
                    assert(prev.push(tile)[i] == prev[i]);
                }
            }
            assert forall|i: int, j: int| 0 <= i < j < prev.len() + 1 implies
                prev.push(tile)[i].slot < prev.push(tile)[j].slot
                && prev.push(tile)[i].app_type != prev.push(tile)[j].app_type by {
                if j == prev.len() {
                    assert(prev.push(tile)[i] == prev[i]);
                } else {
                    assert(prev.push(tile)[i] == prev[i]);
                    assert(prev.push(tile)[j] == prev[j]);
                }
            }
        } else {
            assert(shown_tiles(m, limit, n) == prev);
        }
    }
}

/// Every shown tile comes from a taken slot below `n` with a known kind of app.
proof fn lemma_shown_origin(m: Map<i32, Seq<char>>, limit: int, n: nat, i: int)
    requires
        0 <= i < shown_tiles(m, limit, n).len(),
    ensures
        exists|s: int| #![trigger moved_slot(m, limit, s)]
            0 <= s < n && shown_slot(m, s) && shown_tiles(m, limit, n)[i].slot == moved_slot(m, limit, s) as i32,
    decreases n,
{
    let s = n - 1;
    let prev = shown_tiles(m, limit, (n - 1) as nat);
    if i < prev.len() {
        lemma_shown_origin(m, limit, (n - 1) as nat, i);
        if shown_slot(m, s) {
            let tile = AppData {
                app_type: type_of_name(m[s as i32]).unwrap(),
                slot: moved_slot(m, limit, s) as i32,
            };
            assert(shown_tiles(m, limit, n) == prev.push(tile));
            assert(shown_tiles(m, limit, n)[i] == prev[i]);
        }
    } else {
        assert(shown_slot(m, s));
        assert(shown_tiles(m, limit, n)[i].slot == moved_slot(m, limit, s) as i32);
    }
}

/// The tiles of an arranged home screen lie in strictly increasing slots, so no two
/// share a slot.
pub proof fn lemma_home_slots_increase(rows: Seq<AppSlot>, offered: Seq<AppData>, limit: int)
    requires
        arranged_home(rows, offered, limit) is Some,
    ensures
        forall|i: int, j: int| 0 <= i < j < arranged_home(rows, offered, limit).unwrap().0.len() ==>
            arranged_home(rows, offered, limit).unwrap().0[i].slot < arranged_home(rows, offered, limit).unwrap().0[j].slot,
{
    let m = home_tiles(rows, offered).unwrap();
    if limit > 0 {
        lemma_home_unique(rows, offered);
        lemma_shown_structure(m, limit, (limit * page_count(m, limit)) as nat);
    }
}

/// An arranged home screen shows each kind of app at most once.
pub proof fn lemma_home_kinds_distinct(rows: Seq<AppSlot>, offered: Seq<AppData>, limit: int)
    requires
        arranged_home(rows, offered, limit) is Some,
    ensures
        forall|i: int, j: int| 0 <= i < j < arranged_home(rows, offered, limit).unwrap().0.len() ==>
            arranged_home(rows, offered, limit).unwrap().0[i].app_type != arranged_home(rows, offered, limit).unwrap().0[j].app_type,
{
    let m = home_tiles(rows, offered).unwrap();
    if limit > 0 {
        lemma_home_unique(rows, offered);
        lemma_shown_structure(m, limit, (limit * page_count(m, limit)) as nat);
    }
}

/// After arranging, every tile lies on one of the pages up to the last page: its slot is
/// at least zero and below `limit * (page_num + 1)`; empty pages are gone.
pub proof fn lemma_home_pages_compact(rows: Seq<AppSlot>, offered: Seq<AppData>, limit: int)
    requires
        arranged_home(rows, offered, limit) is Some,
    ensures
        forall|i: int| 0 <= i < arranged_home(rows, offered, limit).unwrap().0.len() ==>
            0 <= #[trigger] arranged_home(rows, offered, limit).unwrap().0[i].slot
            < limit * (arranged_home(rows, offered, limit).unwrap().1 + 1),
{
    let m = home_tiles(rows, offered).unwrap();
    if limit > 0 {
        let pc = page_count(m, limit);
        let n = (limit * pc) as nat;
        assert(pc >= 1) by {
            if exists|k: i32| crate::home::is_top_slot(m, k) {
                let k = choose|k: i32| crate::home::is_top_slot(m, k);
                assert(m.contains_key(k));
            }
        }
        assert(limit * pc >= 0) by (nonlinear_arith)
            requires limit > 0, pc >= 1;
        lemma_home_unique(rows, offered);
        lemma_shown_structure(m, limit, n);
        let tiles = shown_tiles(m, limit, n);
        assert forall|i: int| 0 <= i < tiles.len() implies 0 <= #[trigger] tiles[i].slot < limit * (last_page(m, limit) + 1) by {
            lemma_shown_origin(m, limit, n, i);
            let s = choose|s: int| #![trigger moved_slot(m, limit, s)] 0 <= s < n && shown_slot(m, s) && tiles[i].slot == moved_slot(m, limit, s) as i32;
            lemma_moved_slot_range(m, limit, s);
            lemma_slot_bounds(limit, s);
            assert(s / limit < pc) by (nonlinear_arith)
                requires limit > 0, s < limit * pc, limit * (s / limit) <= s;
            lemma_pages_counted(m, limit, (s / limit + 1) as nat, pc as nat);
            assert(pages_kept(m, limit) >= 1);
            let kb = pages_kept_before(m, limit, (s / limit + 1) as nat);
            assert(limit * kb <= limit * pages_kept(m, limit)) by (nonlinear_arith)
                requires limit > 0, kb <= pages_kept(m, limit);
        }
    }
}

/// Tiles stored under their kinds' names and slots are read back as stored: when the
/// tiles hold distinct kinds of app (none of them empty) on distinct slots, the stored
/// slot map holds exactly their slots, each with the name of its tile's kind, and that
/// name is read back as the same kind.
pub proof fn lemma_stored_tiles_read_back(rows: Seq<AppSlot>, apps: Seq<AppData>)
    requires
        rows.len() == apps.len(),
        forall|i: int| #![trigger rows[i]] 0 <= i < rows.len() ==>
            rows[i].app_name@ == kind_name(apps[i].app_type) && rows[i].slot == apps[i].slot,
        forall|i: int| 0 <= i < apps.len() ==> #[trigger] apps[i].app_type != AppTypes::NoApp,
        forall|i: int, j: int| 0 <= i < j < apps.len() ==>
            #[trigger] apps[i].app_type != #[trigger] apps[j].app_type && apps[i].slot != apps[j].slot,
    ensures
        forall|i: int| #![trigger apps[i]] 0 <= i < apps.len() ==> {
            &&& stored_tiles(rows).0.contains_key(apps[i].slot)
            &&& stored_tiles(rows).0[apps[i].slot] == kind_name(apps[i].app_type)
            &&& type_of_name(stored_tiles(rows).0[apps[i].slot]) == Some(apps[i].app_type)
        },
        forall|k: i32| stored_tiles(rows).0.contains_key(k) ==> exists|i: int| 0 <= i < apps.len() && #[trigger] apps[i].slot == k,
    decreases rows.len(),
{
    if rows.len() > 0 {
        let n = rows.len() - 1;
        lemma_stored_tiles_read_back(rows.drop_last(), apps.drop_last());
        let (m, seen) = stored_tiles(rows.drop_last());
        lemma_stored_seen(rows.drop_last());
        assert(!seen.contains(rows.last().app_name@)) by {
            if seen.contains(rows.last().app_name@) {
                let j = choose|j: int| 0 <= j < n && #[trigger] rows.drop_last()[j].app_name@ == rows.last().app_name@;
                assert(rows.drop_last()[j] == rows[j]);
                lemma_kind_name_injective(apps[j].app_type, apps[n].app_type);
            }
        }
        assert forall|i: int| #![trigger apps[i]] 0 <= i < apps.len() implies {
            &&& stored_tiles(rows).0.contains_key(apps[i].slot)
            &&& stored_tiles(rows).0[apps[i].slot] == kind_name(apps[i].app_type)
            &&& type_of_name(stored_tiles(rows).0[apps[i].slot]) == Some(apps[i].app_type)
        } by {
            lemma_name_round_trip(apps[i].app_type);
            if i < n {
                assert(apps.drop_last()[i] == apps[i]);
            }
        }
        assert forall|k: i32| stored_tiles(rows).0.contains_key(k) implies exists|i: int| 0 <= i < apps.len() && #[trigger] apps[i].slot == k by {
            if k != apps[n].slot {
                assert(m.contains_key(k));
                let i = choose|i: int| 0 <= i < apps.drop_last().len() && #[trigger] apps.drop_last()[i].slot == k;
                assert(apps[i].slot == k);
            }
        }
    }
}

/// The names seen while storing tiles are exactly the names of the rows.
proof fn lemma_stored_seen(rows: Seq<AppSlot>)
    ensures
        forall|name: Seq<char>| stored_tiles(rows).1.contains(name) <==>
            exists|j: int| 0 <= j < rows.len() && #[trigger] rows[j].app_name@ == name,
    decreases rows.len(),
{
    if rows.len() > 0 {
        lemma_stored_seen(rows.drop_last());
        let n = rows.len() - 1;
        assert forall|name: Seq<char>| stored_tiles(rows).1.contains(name) <==>
            exists|j: int| 0 <= j < rows.len() && #[trigger] rows[j].app_name@ == name by {
            if exists|j: int| 0 <= j < rows.len() && #[trigger] rows[j].app_name@ == name {
                let j = choose|j: int| 0 <= j < rows.len() && #[trigger] rows[j].app_name@ == name;
                if j < n {
                    assert(rows.drop_last()[j] == rows[j]);
                }
            }
            if stored_tiles(rows.drop_last()).1.contains(name) {
                let j = choose|j: int| 0 <= j < n && #[trigger] rows.drop_last()[j].app_name@ == name;
                assert(rows.drop_last()[j] == rows[j]);
            }
        }
    }
}

proof fn lemma_shown_kinds_real(m: Map<i32, Seq<char>>, limit: int, n: nat)
    ensures
        forall|i: int| 0 <= i < shown_tiles(m, limit, n).len() ==> #[trigger] shown_tiles(m, limit, n)[i].app_type != AppTypes::NoApp,
    decreases n,
{
    if n > 0 {
        lemma_shown_kinds_real(m, limit, (n - 1) as nat);
    }
}

/// Offered apps whose names are all seen already are not placed again.
proof fn lemma_nothing_new_placed(
    offered: Seq<AppData>,
    start: (Map<i32, Seq<char>>, Set<Seq<char>>, i32),
)
    requires
        forall|j: int| 0 <= j < offered.len() && #[trigger] offered[j].app_type != AppTypes::NoApp
            ==> start.1.contains(kind_name(offered[j].app_type)),
    ensures
        placed_tiles(offered, start) == Some(start),
    decreases offered.len(),
{
    if offered.len() > 0 {
        assert forall|j: int| 0 <= j < offered.drop_last().len() && #[trigger] offered.drop_last()[j].app_type != AppTypes::NoApp
            implies start.1.contains(kind_name(offered.drop_last()[j].app_type)) by {
            assert(offered.drop_last()[j] == offered[j]);
        }
        lemma_nothing_new_placed(offered.drop_last(), start);
        assert(offered.last() == offered[offered.len() - 1]);
    }
}

/// Some tile lies on page `p` of `limit` slots.
pub open spec fn page_holds_tile(tiles: Seq<AppData>, limit: int, p: int) -> bool {
    exists|i: int| 0 <= i < tiles.len() && #[trigger] tiles[i].slot as int / limit == p
}

/// Some stored row lies on page `p` of `limit` slots.
pub open spec fn page_holds_row(rows: Seq<AppSlot>, limit: int, p: int) -> bool {
    exists|i: int| 0 <= i < rows.len() && #[trigger] rows[i].slot as int / limit == p
}

/// How many of the sorted tiles lie below slot `n`.
spec fn tiles_below(tiles: Seq<AppData>, n: nat) -> nat
    decreases n,
{
    if n == 0 {
        0
    } else {
        tiles_below(tiles, (n - 1) as nat) + if exists|i: int| 0 <= i < tiles.len() && tiles[i].slot == n - 1 { 1nat } else { 0nat }
    }
}

proof fn lemma_tiles_below(tiles: Seq<AppData>, n: nat)
    requires
        forall|i: int, j: int| 0 <= i < j < tiles.len() ==> tiles[i].slot < tiles[j].slot,
        forall|i: int| 0 <= i < tiles.len() ==> tiles[i].slot >= 0,
    ensures
        tiles_below(tiles, n) <= tiles.len(),
        forall|i: int| 0 <= i < tiles_below(tiles, n) ==> tiles[i].slot < n,
        forall|i: int| tiles_below(tiles, n) <= i < tiles.len() ==> tiles[i].slot >= n,
    decreases n,
{
    if n > 0 {
        lemma_tiles_below(tiles, (n - 1) as nat);
        let c = tiles_below(tiles, (n - 1) as nat);
        if exists|i: int| 0 <= i < tiles.len() && tiles[i].slot == n - 1 {
            let i = choose|i: int| 0 <= i < tiles.len() && tiles[i].slot == n - 1;
            assert(i == c) by {
                if i < c {
                } else if i > c {
                    assert(tiles[c as int].slot < tiles[i].slot);
                }
            }
        }
    }
}

/// A map holding exactly the slots of sorted tiles that fill every page up to `last`,
/// with their kinds' names, is laid out as those very tiles on those pages.
proof fn lemma_full_pages_laid_out(m: Map<i32, Seq<char>>, limit: int, tiles: Seq<AppData>, last: int)
    requires
        limit > 0,
        0 <= last,
        limit * (last + 1) <= i32::MAX,
        tiles.len() > 0,
        forall|i: int, j: int| 0 <= i < j < tiles.len() ==> tiles[i].slot < tiles[j].slot,
        forall|i: int| 0 <= i < tiles.len() ==> 0 <= #[trigger] tiles[i].slot < limit * (last + 1),
        forall|i: int| #![trigger tiles[i]] 0 <= i < tiles.len() ==>
            m.contains_key(tiles[i].slot) && type_of_name(m[tiles[i].slot]) == Some(tiles[i].app_type),
        forall|k: i32| m.contains_key(k) ==> exists|i: int| 0 <= i < tiles.len() && #[trigger] tiles[i].slot == k,
        forall|p: int| 0 <= p <= last ==> #[trigger] page_holds_tile(tiles, limit, p),
    ensures
        layout_fits(m, limit),
        arranged_tiles(m, limit) == tiles,
        last_page(m, limit) == last,
{
    let n = tiles.len() - 1;
    let top = tiles[n].slot;
    // The highest slot is the last tile's, on the last page.
    assert(is_top_slot(m, top)) by {
        assert forall|j: i32| m.contains_key(j) implies j <= top by {
            let i = choose|i: int| 0 <= i < tiles.len() && #[trigger] tiles[i].slot == j;
            if i < n {
                assert(tiles[i].slot < tiles[n].slot);
            }
        }
    }
    assert(top_slot(m) == top as int);
    assert(page_holds_tile(tiles, limit, last));
    let q = choose|i: int| 0 <= i < tiles.len() && #[trigger] tiles[i].slot as int / limit == last;
    assert(tiles[q].slot <= top) by {
        if q < n {
            assert(tiles[q].slot < tiles[n].slot);
        }
    }
    lemma_slot_bounds(limit, tiles[q].slot as int);
    lemma_slot_bounds(limit, top as int);
    assert(top as int / limit == last) by {
        assert(limit * last <= top) by (nonlinear_arith)
            requires limit * (tiles[q].slot as int / limit) <= tiles[q].slot, tiles[q].slot as int / limit == last, tiles[q].slot <= top;
        assert(limit * (last + 1) == limit * last + limit && last * limit == limit * last) by (nonlinear_arith);
        lemma_fundamental_div_mod_converse(top as int, limit, last, top - limit * last);
    }
    assert(page_count(m, limit) == last + 1);
    // Every page up to the last holds a tile.
    assert forall|p: int| 0 <= p <= last implies #[trigger] page_active(m, limit, p) by {
        assert(page_holds_tile(tiles, limit, p));
        let i = choose|i: int| 0 <= i < tiles.len() && #[trigger] tiles[i].slot as int / limit == p;
        assert(m.contains_key(tiles[i].slot));
        assert(page_of(tiles[i].slot as int, limit) == p);
    }
    lemma_no_page_dropped(m, limit, last);
    assert forall|k: i32| m.contains_key(k) implies 0 <= page_of(k as int, limit) < page_count(m, limit) by {
        let i = choose|i: int| 0 <= i < tiles.len() && #[trigger] tiles[i].slot == k;
        assert(tiles[i].slot <= top) by {
            if i < n {
                assert(tiles[i].slot < tiles[n].slot);
            }
        }
        vstd::arithmetic::div_mod::lemma_div_is_ordered(k as int, top as int, limit);
        lemma_slot_bounds(limit, k as int);
    }
    assert(layout_fits(m, limit));
    // The tiles are shown in slot order, each on its own slot.
    let bound = (limit * (last + 1)) as nat;
    lemma_shown_sorted_tiles(m, limit, tiles, last, bound);
    lemma_tiles_below(tiles, bound);
    assert(tiles_below(tiles, bound) == tiles.len()) by {
        if tiles_below(tiles, bound) < tiles.len() {
            assert(tiles[tiles_below(tiles, bound) as int].slot >= bound);
        }
    }
    assert(tiles.take(tiles.len() as int) =~= tiles);
    lemma_pages_counted(m, limit, 0, (last + 1) as nat);
}

proof fn lemma_no_page_dropped(m: Map<i32, Seq<char>>, limit: int, last: int)
    requires
        0 <= last,
        forall|p: int| 0 <= p <= last ==> #[trigger] page_active(m, limit, p),
    ensures
        forall|p: nat| p <= last + 1 ==> #[trigger] pages_dropped_before(m, limit, p) == 0,
{
    assert forall|p: nat| p <= last + 1 implies #[trigger] pages_dropped_before(m, limit, p) == 0 by {
        lemma_dropped_zero_upto(m, limit, last, p);
    }
}

proof fn lemma_dropped_zero_upto(m: Map<i32, Seq<char>>, limit: int, last: int, p: nat)
    requires
        p <= last + 1,
        forall|q: int| 0 <= q <= last ==> #[trigger] page_active(m, limit, q),
    ensures
        pages_dropped_before(m, limit, p) == 0,
    decreases p,
{
    if p > 0 {
        lemma_dropped_zero_upto(m, limit, last, (p - 1) as nat);
        assert(page_active(m, limit, p - 1));
    }
}

proof fn lemma_shown_sorted_tiles(m: Map<i32, Seq<char>>, limit: int, tiles: Seq<AppData>, last: int, n: nat)
    requires
        limit > 0,
        0 <= last,
        n <= limit * (last + 1) <= i32::MAX,
        forall|i: int, j: int| 0 <= i < j < tiles.len() ==> tiles[i].slot < tiles[j].slot,
        forall|i: int| 0 <= i < tiles.len() ==> 0 <= #[trigger] tiles[i].slot < limit * (last + 1),
        forall|i: int| #![trigger tiles[i]] 0 <= i < tiles.len() ==>
            m.contains_key(tiles[i].slot) && type_of_name(m[tiles[i].slot]) == Some(tiles[i].app_type),
        forall|k: i32| m.contains_key(k) ==> exists|i: int| 0 <= i < tiles.len() && #[trigger] tiles[i].slot == k,
        forall|p: nat| p <= last + 1 ==> #[trigger] pages_dropped_before(m, limit, p) == 0,
    ensures
        shown_tiles(m, limit, n) == tiles.take(tiles_below(tiles, n) as int),
    decreases n,
{
    lemma_tiles_below(tiles, n);
    if n > 0 {
        let s = n - 1;
        lemma_shown_sorted_tiles(m, limit, tiles, last, (n - 1) as nat);
        lemma_tiles_below(tiles, (n - 1) as nat);
        let c = tiles_below(tiles, (n - 1) as nat);
        if exists|i: int| 0 <= i < tiles.len() && tiles[i].slot == s {
            let i = choose|i: int| 0 <= i < tiles.len() && tiles[i].slot == s;
            assert(i == c) by {
                if i > c {
                    assert(tiles[c as int].slot < tiles[i].slot);
                }
            }
            assert(m.contains_key(s as i32));
            lemma_slot_bounds(limit, s);
            assert(s / limit <= last) by (nonlinear_arith)
                requires limit > 0, s < limit * (last + 1), limit * (s / limit) <= s;
            assert(pages_dropped_before(m, limit, (s / limit) as nat) == 0);
            assert(limit * 0 == 0);
            assert(tiles.take(c as int + 1) =~= tiles.take(c as int).push(tiles[c as int]));
        } else {
            assert(!m.contains_key(s as i32)) by {
                if m.contains_key(s as i32) {
                    let i = choose|i: int| 0 <= i < tiles.len() && #[trigger] tiles[i].slot == s as i32;
                }
            }
        }
    } else {
        assert(tiles.take(0) =~= Seq::<AppData>::empty());
    }
}

/// A home screen whose every page up to the last holds a tile and that shows every kind
/// of app offered, once stored and loaded again with the same offered apps and page
/// size, is arranged exactly as before.
pub proof fn lemma_layout_reloads_unchanged(
    rows: Seq<AppSlot>,
    offered: Seq<AppData>,
    limit: int,
    stored: Seq<AppSlot>,
)
    requires
        arranged_home(rows, offered, limit) is Some,
        stored.len() == arranged_home(rows, offered, limit).unwrap().0.len(),
        forall|i: int| #![trigger stored[i]] 0 <= i < stored.len() ==>
            stored[i].app_name@ == kind_name(arranged_home(rows, offered, limit).unwrap().0[i].app_type)
            && stored[i].slot == arranged_home(rows, offered, limit).unwrap().0[i].slot,
        forall|p: int| 0 <= p <= arranged_home(rows, offered, limit).unwrap().1 ==>
            #[trigger] page_holds_row(stored, limit, p),
        forall|j: int| 0 <= j < offered.len() && #[trigger] offered[j].app_type != AppTypes::NoApp ==>
            exists|i: int| 0 <= i < stored.len()
                && arranged_home(rows, offered, limit).unwrap().0[i].app_type == #[trigger] offered[j].app_type,
    ensures
        arranged_home(stored, offered, limit) == arranged_home(rows, offered, limit),
{
    let tiles = arranged_home(rows, offered, limit).unwrap().0;
    let last = arranged_home(rows, offered, limit).unwrap().1;
    let m = home_tiles(rows, offered).unwrap();
    lemma_home_slots_increase(rows, offered, limit);
    lemma_home_kinds_distinct(rows, offered, limit);
    lemma_home_pages_compact(rows, offered, limit);
    // Some tile exists: the first page holds one.
    assert(page_holds_row(stored, limit, 0));
    assert(tiles.len() > 0);
    assert(limit > 0);
    lemma_shown_kinds_real(m, limit, (limit * page_count(m, limit)) as nat);
    assert forall|i: int| 0 <= i < tiles.len() implies #[trigger] tiles[i].app_type != AppTypes::NoApp by {}
    // The stored rows load back as the tiles.
    assert forall|i: int, j: int| 0 <= i < j < tiles.len() implies
        #[trigger] tiles[i].app_type != #[trigger] tiles[j].app_type && tiles[i].slot != tiles[j].slot by {}
    lemma_stored_tiles_read_back(stored, tiles);
    let (m2, seen2) = stored_tiles(stored);
    lemma_stored_seen(stored);
    assert forall|j: int| 0 <= j < offered.len() && #[trigger] offered[j].app_type != AppTypes::NoApp
        implies seen2.contains(kind_name(offered[j].app_type)) by {
        let i = choose|i: int| 0 <= i < stored.len() && tiles[i].app_type == #[trigger] offered[j].app_type;
        assert(stored[i].app_name@ == kind_name(offered[j].app_type));
    }
    lemma_nothing_new_placed(offered, (m2, seen2, 0));
    assert(home_tiles(stored, offered) == Some(m2));
    // The pages of the first layout bound the tiles' slots.
    let pc = page_count(m, limit);
    lemma_pages_counted(m, limit, 0, pc as nat);
    assert(pc >= 1) by {
        if exists|k: i32| is_top_slot(m, k) {
            let k = choose|k: i32| is_top_slot(m, k);
            assert(m.contains_key(k));
        }
    }
    assert(last + 1 <= pc);
    assert(exists|k: i32| m.contains_key(k)) by {
        lemma_shown_origin(m, limit, (limit * pc) as nat, 0);
        let s = choose|s: int| #![trigger moved_slot(m, limit, s)] 0 <= s < (limit * pc) as nat && shown_slot(m, s)
            && tiles[0].slot == moved_slot(m, limit, s) as i32;
        assert(m.contains_key(s as i32));
    }
    assert(limit * (last + 1) <= limit * pc) by (nonlinear_arith)
        requires limit > 0, last + 1 <= pc;
    assert forall|p: int| 0 <= p <= last implies #[trigger] page_holds_tile(tiles, limit, p) by {
        assert(page_holds_row(stored, limit, p));
        let i = choose|i: int| 0 <= i < stored.len() && #[trigger] stored[i].slot as int / limit == p;
        assert(tiles[i].slot as int / limit == p);
    }
    assert forall|i: int| 0 <= i < tiles.len() implies 0 <= #[trigger] tiles[i].slot < limit * (last + 1) by {}
    lemma_full_pages_laid_out(m2, limit, tiles, last);
}


/// What holds after placing the offered apps into `m0` (names `seen0`), giving `m`,
/// `seen` and cursor `next`.
spec fn placing_ok(
    offered: Seq<AppData>,
    m0: Map<i32, Seq<char>>,
    seen0: Set<Seq<char>>,
    m: Map<i32, Seq<char>>,
    seen: Set<Seq<char>>,
    next: i32,
) -> bool {
    &&& 0 <= next
    &&& forall|j: i32| 0 <= j < next ==> m.contains_key(j)
    &&& forall|k: i32| m.contains_key(k) && !seen0.contains(#[trigger] m[k]) ==> 0 <= k < next
    &&& forall|k: i32| #[trigger] m0.contains_key(k) ==> m.contains_key(k) && m[k] == m0[k]
    &&& forall|k: i32| m.contains_key(k) ==> seen.contains(#[trigger] m[k])
    &&& forall|n: Seq<char>| seen0.contains(n) ==> #[trigger] seen.contains(n)
    &&& forall|i: int| 0 <= i < offered.len() && #[trigger] offered[i].app_type != AppTypes::NoApp
        ==> seen.contains(kind_name(offered[i].app_type))
    &&& forall|n: Seq<char>| #[trigger] seen.contains(n) && !seen0.contains(n) ==>
        (exists|k: i32| m.contains_key(k) && #[trigger] m[k] == n)
        && (exists|i: int| 0 <= i < offered.len() && offered[i].app_type != AppTypes::NoApp
            && #[trigger] kind_name(offered[i].app_type) == n)
}

/// What placing the offered apps keeps true, starting from a slot map whose names were
/// all seen already, with the cursor at slot 0.
proof fn lemma_placing_invariants(offered: Seq<AppData>, m0: Map<i32, Seq<char>>, seen0: Set<Seq<char>>)
    requires
        forall|k: i32| m0.contains_key(k) ==> seen0.contains(#[trigger] m0[k]),
    ensures
        placed_tiles(offered, (m0, seen0, 0)) matches Some((m, seen, next))
            ==> placing_ok(offered, m0, seen0, m, seen, next),
    decreases offered.len(),
{
    if offered.len() > 0 {
        let prev = offered.drop_last();
        lemma_placing_invariants(prev, m0, seen0);
        let app = offered.last();
        let last = offered.len() - 1;
        assert(app == offered[last]);
        assert forall|i: int| 0 <= i < prev.len() implies #[trigger] prev[i] == offered[i] by {}
        match placed_tiles(prev, (m0, seen0, 0)) {
            None => {},
            Some((m, seen, next)) => {
                let name = kind_name(app.app_type);
                if app.app_type == AppTypes::NoApp || seen.contains(name) {
                    assert forall|i: int| 0 <= i < offered.len() && #[trigger] offered[i].app_type != AppTypes::NoApp
                        implies seen.contains(kind_name(offered[i].app_type)) by {
                        if i < last {
                            assert(prev[i].app_type != AppTypes::NoApp);
                        }
                    }
                    assert forall|n: Seq<char>| #[trigger] seen.contains(n) && !seen0.contains(n) implies
                        exists|i: int| 0 <= i < offered.len() && offered[i].app_type != AppTypes::NoApp
                            && #[trigger] kind_name(offered[i].app_type) == n by {
                        let i = choose|i: int| 0 <= i < prev.len() && prev[i].app_type != AppTypes::NoApp
                            && #[trigger] kind_name(prev[i].app_type) == n;
                        assert(offered[i] == prev[i]);
                    }
                    assert(placing_ok(offered, m0, seen0, m, seen, next));
                } else {
                    match first_free(m, next) {
                        None => {},
                        Some(k) => {
                            assert(exists|k: i32| is_first_free(m, next, k));
                            assert(is_first_free(m, next, k));
                            let m2 = m.insert(k, name);
                            let seen2 = seen.insert(name);
                            assert forall|i: int| 0 <= i < offered.len() && #[trigger] offered[i].app_type != AppTypes::NoApp
                                implies seen2.contains(kind_name(offered[i].app_type)) by {
                                if i < last {
                                    assert(prev[i].app_type != AppTypes::NoApp);
                                }
                            }
                            assert forall|j: i32| 0 <= j < k + 1 implies m2.contains_key(j) by {
                                if j < next {
                                } else if j < k {
                                    assert(m.contains_key(j));
                                }
                            }
                            assert forall|n: Seq<char>| #[trigger] seen2.contains(n) && !seen0.contains(n) implies
                                (exists|k2: i32| m2.contains_key(k2) && #[trigger] m2[k2] == n)
                                && (exists|i: int| 0 <= i < offered.len() && offered[i].app_type != AppTypes::NoApp
                                    && #[trigger] kind_name(offered[i].app_type) == n) by {
                                if n == name {
                                    assert(m2[k] == n);
                                    assert(kind_name(offered[last].app_type) == n);
                                } else {
                                    let k2 = choose|k2: i32| m.contains_key(k2) && #[trigger] m[k2] == n;
                                    assert(m2[k2] == n);
                                    let i = choose|i: int| 0 <= i < prev.len() && prev[i].app_type != AppTypes::NoApp
                                        && #[trigger] kind_name(prev[i].app_type) == n;
                                    assert(offered[i] == prev[i]);
                                }
                            }
                            assert forall|k2: i32| m2.contains_key(k2) && !seen0.contains(#[trigger] m2[k2]) implies
                                0 <= k2 < k + 1 by {
                                if k2 != k {
                                    assert(m2[k2] == m[k2]);
                                }
                            }
                            assert forall|k2: i32| #[trigger] m0.contains_key(k2) implies
                                m2.contains_key(k2) && m2[k2] == m0[k2] by {
                                assert(k2 != k);
                            }
                            assert forall|k2: i32| m2.contains_key(k2) implies seen2.contains(#[trigger] m2[k2]) by {
                                if k2 != k {
                                    assert(m2[k2] == m[k2]);
                                }
                            }
                            assert(placing_ok(offered, m0, seen0, m2, seen2, (k + 1) as i32));
                        },
                    }
                }
            },
        }
    }
}

/// The name `n` is the name of a stored row.
pub open spec fn is_stored_name(rows: Seq<AppSlot>, n: Seq<char>) -> bool {
    exists|j: int| 0 <= j < rows.len() && #[trigger] rows[j].app_name@ == n
}

/// Offered apps that are not stored take the lowest free slots: in the resulting slot map,
/// every tile whose name is not a stored name lies on a slot at or above zero with every
/// slot from zero up to it taken; it is the tile of an offered app; and every offered app
/// (other than an empty tile) whose name is not stored gets a tile. Stored tiles keep
/// their slots and names.
pub proof fn lemma_new_tiles_take_lowest_free_slots(rows: Seq<AppSlot>, offered: Seq<AppData>)
    requires
        home_tiles(rows, offered) is Some,
    ensures
        forall|k: i32| #![trigger home_tiles(rows, offered).unwrap()[k]]
            home_tiles(rows, offered).unwrap().contains_key(k)
                && !is_stored_name(rows, home_tiles(rows, offered).unwrap()[k]) ==> {
                &&& 0 <= k
                &&& forall|j: i32| 0 <= j < k ==> home_tiles(rows, offered).unwrap().contains_key(j)
                &&& exists|i: int| 0 <= i < offered.len() && offered[i].app_type != AppTypes::NoApp
                    && #[trigger] kind_name(offered[i].app_type) == home_tiles(rows, offered).unwrap()[k]
            },
        forall|i: int| 0 <= i < offered.len() && #[trigger] offered[i].app_type != AppTypes::NoApp
            && !is_stored_name(rows, kind_name(offered[i].app_type)) ==>
            exists|k: i32| home_tiles(rows, offered).unwrap().contains_key(k)
                && #[trigger] home_tiles(rows, offered).unwrap()[k] == kind_name(offered[i].app_type),
        forall|k: i32| #[trigger] stored_tiles(rows).0.contains_key(k) ==>
            home_tiles(rows, offered).unwrap().contains_key(k)
                && home_tiles(rows, offered).unwrap()[k] == stored_tiles(rows).0[k],
{
    let (m0, seen0) = stored_tiles(rows);
    lemma_stored_unique(rows);
    lemma_stored_seen(rows);
    lemma_placing_invariants(offered, m0, seen0);
    let (m, seen, next) = placed_tiles(offered, (m0, seen0, 0)).unwrap();
    assert(placing_ok(offered, m0, seen0, m, seen, next));
    assert(home_tiles(rows, offered).unwrap() == m);
    assert forall|n: Seq<char>| seen0.contains(n) <==> is_stored_name(rows, n) by {}
    assert forall|i: int| 0 <= i < offered.len() && #[trigger] offered[i].app_type != AppTypes::NoApp
        && !is_stored_name(rows, kind_name(offered[i].app_type)) implies
        exists|k: i32| m.contains_key(k) && #[trigger] m[k] == kind_name(offered[i].app_type) by {
        assert(seen.contains(kind_name(offered[i].app_type)));
    }
    assert forall|k: i32| #![trigger m[k]] m.contains_key(k) && !is_stored_name(rows, m[k]) implies {
    &&& 0 <= k
    &&& forall|j: i32| 0 <= j < k ==> m.contains_key(j)
    &&& exists|i: int| 0 <= i < offered.len() && offered[i].app_type != AppTypes::NoApp
            && #[trigger] kind_name(offered[i].app_type) == m[k]
    } by {
        assert(!seen0.contains(m[k]));
        assert(seen.contains(m[k]));
    }
}

} // verus!
