//! The kinds of app a dashboard page can hold, and their stored names.
use vstd::prelude::*;
use vstd::string::*;

verus! {

/// A kind of app tile; `NoApp` marks an empty tile (its stored name is "None").
#[derive(Clone, Copy, Debug, PartialEq, Eq, Structural)]
pub enum AppTypes {
    NoApp,
    RoomTemp,
    Other,
}

/// One app tile: its kind and the slot it occupies.
#[derive(Clone, Copy, Debug, PartialEq, Eq, Structural)]
pub struct AppData {
    pub app_type: AppTypes,
    pub slot: i32,
}

/// The name under which a kind of app is stored (its debug name).
pub open spec fn kind_name(t: AppTypes) -> Seq<char> {
    match t {
        AppTypes::NoApp => seq!['N', 'o', 'n', 'e'],
        AppTypes::RoomTemp => seq!['R', 'o', 'o', 'm', 'T', 'e', 'm', 'p'],
        AppTypes::Other => seq!['O', 't', 'h', 'e', 'r'],
    }
}

/// The kind of app that a stored name denotes; only real apps are recognised.
pub open spec fn type_of_name(name: Seq<char>) -> Option<AppTypes> {
    if name == kind_name(AppTypes::RoomTemp) {
        Some(AppTypes::RoomTemp)
    } else if name == kind_name(AppTypes::Other) {
        Some(AppTypes::Other)
    } else {
        None
    }
}

/// The stored name of a kind of app.
pub fn app_type_name(t: AppTypes) -> (name: String)
    ensures
        name@ == kind_name(t),
{
    match t {
        AppTypes::NoApp => {
            proof {
                reveal_strlit("None");
            }
            String::from_str("None")
        },
        AppTypes::RoomTemp => {
            proof {
                reveal_strlit("RoomTemp");
            }
            String::from_str("RoomTemp")
        },
        AppTypes::Other => {
            proof {
                reveal_strlit("Other");
            }
            String::from_str("Other")
        },
    }
}

/// The kind of app a stored name denotes, if it is one the dashboard can show.
pub fn get_app_type(name: &String) -> (t: Option<AppTypes>)
    ensures
        t == type_of_name(name@),
{
    if *name == app_type_name(AppTypes::RoomTemp) {
        return Some(AppTypes::RoomTemp);
    } else if *name == app_type_name(AppTypes::Other) {
        return Some(AppTypes::Other);
    }
    None
}

/// Reading back a stored name gives the kind of app that was stored, for every kind
/// the dashboard shows; the placeholder kind is never read back.
pub proof fn lemma_name_round_trip(t: AppTypes)
    ensures
        t != AppTypes::NoApp ==> type_of_name(kind_name(t)) == Some(t),
        t == AppTypes::NoApp ==> type_of_name(kind_name(t)) is None,
{
    assert(kind_name(AppTypes::RoomTemp) != kind_name(AppTypes::Other)) by {
        assert(kind_name(AppTypes::RoomTemp).len() != kind_name(AppTypes::Other).len());
    }
    assert(kind_name(AppTypes::NoApp) != kind_name(AppTypes::RoomTemp)) by {
        assert(kind_name(AppTypes::NoApp).len() != kind_name(AppTypes::RoomTemp).len());
    }
    assert(kind_name(AppTypes::NoApp) != kind_name(AppTypes::Other)) by {
        assert(kind_name(AppTypes::NoApp).len() != kind_name(AppTypes::Other).len());
    }
}

/// Different kinds of app are stored under different names.
pub proof fn lemma_kind_name_injective(a: AppTypes, b: AppTypes)
    ensures
        kind_name(a) == kind_name(b) ==> a == b,
{
    lemma_name_round_trip(a);
    lemma_name_round_trip(b);
    if kind_name(a) == kind_name(b) && a != b {
        assert(kind_name(a).len() != kind_name(b).len() || kind_name(a)[0] != kind_name(b)[0]);
    }
}

} // verus!
