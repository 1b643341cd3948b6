# check_ru

A terminal viewer for the menus of the University of São Paulo's
restaurants (RU), with its logic verified by Verus.

- `src/` is the verified library:
  - `text.rs`: the string operations the logic needs (search, split, replace,
    trim, numerals, UTF-8 byte positions), each specified over `Seq<char>`;
  - `menu.rs`: the menu model (restaurant, days, meals) and day lookup;
  - `fetcher.rs`: reading the menu service's replies (field extraction,
    `\uXXXX` escapes, meal text analysis, the week in weekday order, the
    restaurant's name) and the service requests;
  - `theme.rs`: colour themes, colour parsing and the settings;
  - `app.rs`: the interface state machine (theme list, selected day and
    theme, help, animation tick, keys) and the scrolling of long text;
  - `display.rs`: terminal colour codes, meal rows and the boxed daily print.
- `app/` is the program around it: file and network I/O, the JSON files,
  the ratatui interface and the event loop.
- `tests/` runs the library on concrete values.
