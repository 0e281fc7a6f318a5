# dashboard

The verified core of a Raspberry Pi desk dashboard that shows the time, the room's
temperature, humidity and pressure from a BME280 sensor, and a grid of app tiles.

- `src/` is the library, verified with Verus:
  - `apps`: the kinds of app tile and the names they are stored under;
  - `home`: arranging the stored and offered tiles into pages, dropping empty pages;
    `home_laws` states what every arrangement satisfies;
  - `db`: what the database worker does for each request;
  - `history`: the day window of the temperature history in Japan Standard Time,
    computed with `chrono`; `calendar` and `text` give the calendar and the text it is
    checked against;
  - `datetime`, `weather`, `clock`: the text on screen and the once-a-second tick.
- `app/` is the program around it: the sensor, the scheduler, SQLite through `sea-orm`,
  and a plain stand-in for the screen.
- `tests/` runs the library on concrete values.
