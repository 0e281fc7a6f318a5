//! What the database worker does with each request it receives, and where its database
//! lives.
use vstd::prelude::*;
use vstd::string::*;
use crate::apps::{app_type_name, kind_name, AppData};
use crate::history::{history_date_ok, temp_history_window};
use crate::calendar::{midnight, next_date};
use crate::home::AppSlot;
use crate::text::datetime_text;

verus! {

/// A calendar date: year, month and day.
#[derive(Debug, Clone, Copy, PartialEq, Eq, Structural)]
pub struct Date(pub i32, pub u32, pub u32);

/// Which readings a room sensor sample holds.
#[derive(Debug, Clone, Copy, PartialEq, Eq, Structural)]
pub struct ReadingsPresent {
    pub temp: bool,
    pub humidity: bool,
    pub pressure: bool,
}

/// A request to the database worker.
pub enum DbRequest {
    /// Store a room sensor sample.
    SetTemp(ReadingsPresent),
    /// Send back the history of a day.
    GetTemp(Date),
    /// Store the positions of the app tiles.
    SetApps(Vec<AppData>),
    /// Send back the stored app tiles.
    GetApps,
}

/// What the database worker does for a request.
pub enum DbAction {
    /// Nothing; wait for the next request.
    Skip,
    /// Insert the sample as a new reading.
    InsertReading,
    /// Query the readings from `start` (inclusive) to `end` (exclusive), the first of each
    /// hour, oldest first, and send them back.
    QueryHistory { start: String, end: String },
    /// The date is not one the history can be computed for; the worker fails.
    RejectDate,
    /// Stop the worker.
    Stop,
    /// Insert these tiles, replacing the slot of a tile whose app name is stored already.
    StoreApps(Vec<AppSlot>),
    /// Load every stored tile and send them back.
    LoadApps,
}

/// The stored form of the tiles: each tile's app name and slot, in order.
pub fn tiles_to_rows(apps: &Vec<AppData>) -> (rows: Vec<AppSlot>)
    ensures
        rows.len() == apps.len(),
        forall|i: int| #![trigger rows@[i]] 0 <= i < apps.len() ==> rows@[i].app_name@ == kind_name(apps@[i].app_type)
            && rows@[i].slot == apps@[i].slot,
{
    let mut rows: Vec<AppSlot> = Vec::new();
    for i in 0..apps.len()
        invariant
            rows.len() == i,
            forall|j: int| #![trigger rows@[j]] 0 <= j < i ==> rows@[j].app_name@ == kind_name(apps@[j].app_type)
                && rows@[j].slot == apps@[j].slot,
    {
        let app = apps[i];
        rows.push(AppSlot { app_name: app_type_name(app.app_type), slot: app.slot });
    }
    rows
}

/// Decides what the database worker does for a request: a sample without any reading is
/// skipped; a history request is answered for the day's window in Japan Standard Time,
/// or refused when the date has no window; an empty list of tiles stops the worker.
pub fn plan_request(req: DbRequest) -> (action: DbAction)
    ensures
        match req {
            DbRequest::SetTemp(r) => if !r.temp && !r.humidity && !r.pressure {
                action is Skip
            } else {
                action is InsertReading
            },
            DbRequest::GetTemp(date) => if history_date_ok(date) {
                action matches DbAction::QueryHistory { start, end }
                    && start@ == datetime_text(midnight(date.0 as int, date.1 as int, date.2 as int))
                    && end@ == datetime_text(midnight(
                        next_date(date.0 as int, date.1 as int, date.2 as int).0,
                        next_date(date.0 as int, date.1 as int, date.2 as int).1,
                        next_date(date.0 as int, date.1 as int, date.2 as int).2,
                    ))
            } else {
                action is RejectDate
            },
            DbRequest::SetApps(apps) => if apps.len() == 0 {
                action is Stop
            } else {
                action matches DbAction::StoreApps(rows) && rows.len() == apps.len()
                    && forall|i: int| #![trigger rows@[i]] 0 <= i < apps.len() ==> rows@[i].app_name@ == kind_name(apps@[i].app_type)
                        && rows@[i].slot == apps@[i].slot
            },
            DbRequest::GetApps => action is LoadApps,
        },
{
    match req {
        DbRequest::SetTemp(r) => {
            if !r.temp && !r.humidity && !r.pressure {
                DbAction::Skip
            } else {
                DbAction::InsertReading
            }
        },
        DbRequest::GetTemp(date) => match temp_history_window(date) {
            Some(w) => DbAction::QueryHistory { start: w.start, end: w.end },
            None => DbAction::RejectDate,
        },
        DbRequest::SetApps(apps) => {
            if apps.len() == 0 {
                DbAction::Stop
            } else {
                DbAction::StoreApps(tiles_to_rows(&apps))
            }
        },
        DbRequest::GetApps => DbAction::LoadApps,
    }
}

/// The database file: a path relative to the working directory in a debug build, and
/// the system's state directory otherwise.
pub fn db_path(debug_build: bool) -> (path: String)
    ensures
        debug_build ==> path@ == "db/local.db"@,
        !debug_build ==> path@ == "/var/lib/dashboard/local.db"@,
{
    if debug_build {
        String::from_str("db/local.db")
    } else {
        String::from_str("/var/lib/dashboard/local.db")
    }
}

/// The SQLite connection URL of a database file.
pub fn db_url(path: &str) -> (url: String)
    ensures
        url@ == "sqlite:"@ + path@,
{
    let mut url = String::from_str("sqlite:");
    url.append(path);
    url
}

} // verus!
