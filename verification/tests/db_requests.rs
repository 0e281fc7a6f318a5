use dashboard::apps::{AppData, AppTypes};
use dashboard::db::{db_path, db_url, plan_request, tiles_to_rows, Date, DbAction, DbRequest, ReadingsPresent};
use dashboard::history::temp_history_window;

fn window(y: i32, m: u32, d: u32) -> Option<(String, String)> {
    temp_history_window(Date(y, m, d)).map(|w| (w.start, w.end))
}

fn pair(a: &str, b: &str) -> Option<(String, String)> {
    Some((a.to_string(), b.to_string()))
}

#[test]
fn history_window_of_a_day() {
    assert_eq!(window(2026, 5, 16), pair("2026-05-16 00:00:00", "2026-05-17 00:00:00"));
}

#[test]
fn history_window_crosses_month_and_year() {
    assert_eq!(window(2024, 2, 29), pair("2024-02-29 00:00:00", "2024-03-01 00:00:00"));
    assert_eq!(window(2023, 2, 28), pair("2023-02-28 00:00:00", "2023-03-01 00:00:00"));
    assert_eq!(window(2025, 12, 31), pair("2025-12-31 00:00:00", "2026-01-01 00:00:00"));
    assert_eq!(window(2000, 2, 29), pair("2000-02-29 00:00:00", "2000-03-01 00:00:00"));
}

#[test]
fn history_window_of_unusual_years() {
    assert_eq!(window(12345, 6, 30), pair("+12345-06-30 00:00:00", "+12345-07-01 00:00:00"));
    assert_eq!(window(-5, 1, 1), pair("-0005-01-01 00:00:00", "-0005-01-02 00:00:00"));
    assert_eq!(window(7, 4, 9), pair("0007-04-09 00:00:00", "0007-04-10 00:00:00"));
    assert_eq!(window(9999, 12, 31), pair("9999-12-31 00:00:00", "+10000-01-01 00:00:00"));
}

#[test]
fn history_window_refuses_dates_that_do_not_exist() {
    assert_eq!(window(2025, 2, 29), None);
    assert_eq!(window(1900, 2, 29), None);
    assert_eq!(window(2025, 13, 1), None);
    assert_eq!(window(2025, 0, 1), None);
    assert_eq!(window(2025, 4, 31), None);
    assert_eq!(window(2025, 4, 0), None);
}

#[test]
fn history_window_at_the_ends_of_chrono_range() {
    assert_eq!(window(-262_143, 1, 1), None);
    assert_eq!(window(-262_143, 1, 2), pair("-262143-01-02 00:00:00", "-262143-01-03 00:00:00"));
    assert_eq!(window(-262_144, 6, 1), None);
    assert_eq!(window(262_142, 12, 31), pair("+262142-12-31 00:00:00", "+262143-01-01 00:00:00"));
    assert_eq!(window(262_143, 1, 1), None);
}

#[test]
fn samples_without_readings_are_skipped() {
    let none = ReadingsPresent { temp: false, humidity: false, pressure: false };
    assert!(matches!(plan_request(DbRequest::SetTemp(none)), DbAction::Skip));
    let some = ReadingsPresent { temp: false, humidity: true, pressure: false };
    assert!(matches!(plan_request(DbRequest::SetTemp(some)), DbAction::InsertReading));
}

#[test]
fn history_requests_are_answered_with_the_window() {
    match plan_request(DbRequest::GetTemp(Date(2026, 5, 16))) {
        DbAction::QueryHistory { start, end } => {
            assert_eq!(start, "2026-05-16 00:00:00");
            assert_eq!(end, "2026-05-17 00:00:00");
        }
        _ => panic!("expected a history query"),
    }
    assert!(matches!(plan_request(DbRequest::GetTemp(Date(2026, 2, 30))), DbAction::RejectDate));
}

#[test]
fn tile_requests() {
    assert!(matches!(plan_request(DbRequest::SetApps(vec![])), DbAction::Stop));
    assert!(matches!(plan_request(DbRequest::GetApps), DbAction::LoadApps));
    let tiles = vec![
        AppData { app_type: AppTypes::Other, slot: 3 },
        AppData { app_type: AppTypes::RoomTemp, slot: 0 },
    ];
    match plan_request(DbRequest::SetApps(tiles.clone())) {
        DbAction::StoreApps(rows) => {
            assert_eq!(rows.len(), 2);
            assert_eq!(rows[0].app_name, "Other");
            assert_eq!(rows[0].slot, 3);
            assert_eq!(rows[1].app_name, "RoomTemp");
            assert_eq!(rows[1].slot, 0);
        }
        _ => panic!("expected rows to store"),
    }
    let rows = tiles_to_rows(&vec![AppData { app_type: AppTypes::NoApp, slot: 1 }]);
    assert_eq!(rows[0].app_name, "None");
}

#[test]
fn stored_tiles_load_back() {
    let tiles = vec![
        AppData { app_type: AppTypes::Other, slot: 0 },
        AppData { app_type: AppTypes::RoomTemp, slot: 2 },
    ];
    let rows = tiles_to_rows(&tiles);
    let h = dashboard::home::setup_home(&rows, &vec![], 4).unwrap();
    assert_eq!(h.apps, tiles);
}

#[test]
fn database_location() {
    assert_eq!(db_path(true), "db/local.db");
    assert_eq!(db_path(false), "/var/lib/dashboard/local.db");
    assert_eq!(db_url(&db_path(true)), "sqlite:db/local.db");
    assert_eq!(db_url("/tmp/x.db"), "sqlite:/tmp/x.db");
}
