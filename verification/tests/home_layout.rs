use dashboard::apps::{app_type_name, get_app_type, AppData, AppTypes};
use dashboard::home::{setup_home, AppSlot};

fn row(name: &str, slot: i32) -> AppSlot {
    AppSlot { app_name: name.to_string(), slot }
}

fn app(app_type: AppTypes, slot: i32) -> AppData {
    AppData { app_type, slot }
}

#[test]
fn stored_names_are_debug_names() {
    assert_eq!(app_type_name(AppTypes::RoomTemp), "RoomTemp");
    assert_eq!(app_type_name(AppTypes::Other), "Other");
    assert_eq!(app_type_name(AppTypes::NoApp), "None");
}

#[test]
fn names_read_back_as_kinds() {
    assert_eq!(get_app_type(&"RoomTemp".to_string()), Some(AppTypes::RoomTemp));
    assert_eq!(get_app_type(&"Other".to_string()), Some(AppTypes::Other));
    assert_eq!(get_app_type(&"None".to_string()), None);
    assert_eq!(get_app_type(&"roomtemp".to_string()), None);
    assert_eq!(get_app_type(&String::new()), None);
    for t in [AppTypes::RoomTemp, AppTypes::Other] {
        assert_eq!(get_app_type(&app_type_name(t)), Some(t));
    }
}

#[test]
fn fresh_screen_places_offered_apps_in_order() {
    let offered = vec![app(AppTypes::RoomTemp, 7), app(AppTypes::NoApp, 0), app(AppTypes::Other, 3)];
    let h = setup_home(&vec![], &offered, 4).unwrap();
    assert_eq!(h.apps, vec![app(AppTypes::RoomTemp, 0), app(AppTypes::Other, 1)]);
    assert_eq!(h.page_num, 0);
}

#[test]
fn stored_tiles_keep_their_slots() {
    let rows = vec![row("RoomTemp", 5), row("Other", 0)];
    let offered = vec![app(AppTypes::RoomTemp, 0), app(AppTypes::Other, 1)];
    let h = setup_home(&rows, &offered, 4).unwrap();
    assert_eq!(h.apps, vec![app(AppTypes::Other, 0), app(AppTypes::RoomTemp, 5)]);
    assert_eq!(h.page_num, 1);
}

#[test]
fn empty_pages_are_dropped() {
    let rows = vec![row("RoomTemp", 9)];
    let h = setup_home(&rows, &vec![], 4).unwrap();
    assert_eq!(h.apps, vec![app(AppTypes::RoomTemp, 1)]);
    assert_eq!(h.page_num, 0);
    let rows = vec![row("Other", 1), row("RoomTemp", 13)];
    let h = setup_home(&rows, &vec![], 4).unwrap();
    assert_eq!(h.apps, vec![app(AppTypes::Other, 1), app(AppTypes::RoomTemp, 5)]);
    assert_eq!(h.page_num, 1);
}

#[test]
fn a_name_is_stored_once() {
    let rows = vec![row("RoomTemp", 1), row("RoomTemp", 3)];
    let h = setup_home(&rows, &vec![app(AppTypes::RoomTemp, 0)], 4).unwrap();
    assert_eq!(h.apps, vec![app(AppTypes::RoomTemp, 1)]);
}

#[test]
fn a_later_tile_replaces_the_slot() {
    let rows = vec![row("RoomTemp", 2), row("Other", 2)];
    let h = setup_home(&rows, &vec![app(AppTypes::RoomTemp, 0)], 4).unwrap();
    assert_eq!(h.apps, vec![app(AppTypes::Other, 2)]);
}

#[test]
fn unknown_names_take_slots_but_are_not_shown() {
    let rows = vec![row("Clock", 0)];
    let h = setup_home(&rows, &vec![app(AppTypes::RoomTemp, 0)], 4).unwrap();
    assert_eq!(h.apps, vec![app(AppTypes::RoomTemp, 1)]);
    // a page holding only an unknown name is kept
    let rows = vec![row("Clock", 4), row("Other", 9)];
    let h = setup_home(&rows, &vec![], 4).unwrap();
    assert_eq!(h.apps, vec![app(AppTypes::Other, 5)]);
    assert_eq!(h.page_num, 1);
}

#[test]
fn zero_page_size_is_refused() {
    assert!(setup_home(&vec![], &vec![], 0).is_none());
}

#[test]
fn slots_below_zero() {
    assert!(setup_home(&vec![row("RoomTemp", -5)], &vec![], 4).is_none());
    assert!(setup_home(&vec![row("RoomTemp", -4)], &vec![], 4).is_none());
    let h = setup_home(&vec![row("RoomTemp", -3)], &vec![app(AppTypes::Other, 0)], 4).unwrap();
    assert_eq!(h.apps, vec![app(AppTypes::Other, 0)]);
    assert_eq!(h.page_num, 0);
}

#[test]
fn negative_page_size_shows_nothing() {
    let h = setup_home(&vec![], &vec![], -3).unwrap();
    assert!(h.apps.is_empty());
    assert_eq!(h.page_num, 0);
    let h = setup_home(&vec![row("RoomTemp", 0)], &vec![], -3).unwrap();
    assert!(h.apps.is_empty());
    assert_eq!(h.page_num, 0);
    assert!(setup_home(&vec![row("RoomTemp", 5)], &vec![], -3).is_none());
    assert!(setup_home(&vec![row("RoomTemp", -7), row("Other", 0)], &vec![], -3).is_none());
    let h = setup_home(&vec![row("RoomTemp", -7), row("Other", -8)], &vec![], -3).unwrap();
    assert!(h.apps.is_empty());
    assert_eq!(h.page_num, 0);
    assert!(setup_home(&vec![row("RoomTemp", i32::MIN)], &vec![], -1).is_none());
    assert!(setup_home(&vec![row("RoomTemp", i32::MIN + 1)], &vec![], -1).is_none());
}

#[test]
fn last_page_beyond_i32_is_refused() {
    assert!(setup_home(&vec![row("RoomTemp", i32::MAX)], &vec![], 1).is_none());
    assert!(setup_home(&vec![row("RoomTemp", i32::MAX - 3)], &vec![], 4).is_none());
}

#[test]
fn tiles_are_sorted_and_distinct() {
    let rows = vec![row("Other", 6), row("Clock", 12), row("RoomTemp", 13)];
    let offered = vec![app(AppTypes::RoomTemp, 0), app(AppTypes::Other, 0)];
    let h = setup_home(&rows, &offered, 3).unwrap();
    for w in h.apps.windows(2) {
        assert!(w[0].slot < w[1].slot);
        assert_ne!(w[0].app_type, w[1].app_type);
    }
    for a in &h.apps {
        assert!(a.slot >= 0 && a.slot < 3 * (h.page_num + 1));
    }
    assert_eq!(h.apps, vec![app(AppTypes::Other, 0), app(AppTypes::RoomTemp, 4)]);
    assert_eq!(h.page_num, 1);
}

#[test]
fn stored_layout_reloads_unchanged() {
    let rows = vec![row("Other", 6), row("RoomTemp", 13)];
    let offered = vec![app(AppTypes::RoomTemp, 0), app(AppTypes::Other, 0)];
    let first = setup_home(&rows, &offered, 3).unwrap();
    let stored = dashboard::db::tiles_to_rows(&first.apps);
    let again = setup_home(&stored, &offered, 3).unwrap();
    assert_eq!(again.apps, first.apps);
    assert_eq!(again.page_num, first.page_num);
}
