//! The room-sensor text shown on screen.
use vstd::prelude::*;
use vstd::string::*;

verus! {

/// The sensor text: temperature, humidity and pressure.
pub struct WeatherDataUi {
    pub temp: String,
    pub humidity: String,
    pub pressure: String,
}

/// The text shown for a missing reading.
pub open spec fn missing_text() -> Seq<char> {
    seq!['-', '-']
}

/// The text of one reading: its one-decimal text, or `--` when it is missing.
pub open spec fn reading_text(value: Option<Seq<char>>) -> Seq<char> {
    match value {
        Some(t) => t,
        None => missing_text(),
    }
}

fn reading_or_missing(value: Option<String>) -> (text: String)
    ensures
        text@ == reading_text(match value { Some(t) => Some(t@), None => None }),
{
    match value {
        Some(t) => t,
        None => {
            proof {
                reveal_strlit("--");
            }
            String::from_str("--")
        },
    }
}

/// The sensor text from the one-decimal texts of the readings that are present.
pub fn to_ui_weather_data(temp: Option<String>, humidity: Option<String>, pressure: Option<String>) -> (ui: WeatherDataUi)
    ensures
        ui.temp@ == reading_text(match temp { Some(t) => Some(t@), None => None }),
        ui.humidity@ == reading_text(match humidity { Some(t) => Some(t@), None => None }),
        ui.pressure@ == reading_text(match pressure { Some(t) => Some(t@), None => None }),
{
    WeatherDataUi {
        temp: reading_or_missing(temp),
        humidity: reading_or_missing(humidity),
        pressure: reading_or_missing(pressure),
    }
}

} // verus!
