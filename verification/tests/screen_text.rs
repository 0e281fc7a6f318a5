use dashboard::clock::{clock_system, SecondTick};
use dashboard::datetime::{to_ui_datetime, wait_millis, ClockTime};
use dashboard::weather::to_ui_weather_data;

#[test]
fn clock_text_pads_minutes_and_seconds() {
    let s = to_ui_datetime(ClockTime { hour: 9, minute: 5, second: 7 });
    assert_eq!((s.h.as_str(), s.m.as_str(), s.s.as_str()), ("9", "05", "07"));
    let s = to_ui_datetime(ClockTime { hour: 23, minute: 59, second: 0 });
    assert_eq!((s.h.as_str(), s.m.as_str(), s.s.as_str()), ("23", "59", "00"));
    let s = to_ui_datetime(ClockTime { hour: 0, minute: 10, second: 45 });
    assert_eq!((s.h.as_str(), s.m.as_str(), s.s.as_str()), ("0", "10", "45"));
}

#[test]
fn wait_until_the_next_second() {
    assert_eq!(wait_millis(0), Some(1000));
    assert_eq!(wait_millis(500_000_000), Some(500));
    assert_eq!(wait_millis(123_456_789), Some(876));
    assert_eq!(wait_millis(999_000_001), None);
    assert_eq!(wait_millis(999_999_999), None);
    assert_eq!(wait_millis(998_999_999), Some(1));
    assert_eq!(wait_millis(1_000_000_000), None);
}

#[test]
fn each_second_ticks_once() {
    let mut last = None;
    assert_eq!(clock_system(&mut last, 12), Some(SecondTick(12)));
    assert_eq!(last, Some(12));
    assert_eq!(clock_system(&mut last, 12), None);
    assert_eq!(last, Some(12));
    assert_eq!(clock_system(&mut last, 13), Some(SecondTick(13)));
    assert_eq!(clock_system(&mut last, 0), Some(SecondTick(0)));
    assert_eq!(last, Some(0));
}

#[test]
fn missing_readings_show_dashes() {
    let ui = to_ui_weather_data(Some("23.4".to_string()), None, Some("1013.2".to_string()));
    assert_eq!(ui.temp, "23.4");
    assert_eq!(ui.humidity, "--");
    assert_eq!(ui.pressure, "1013.2");
    let ui = to_ui_weather_data(None, None, None);
    assert_eq!((ui.temp.as_str(), ui.humidity.as_str(), ui.pressure.as_str()), ("--", "--", "--"));
}
