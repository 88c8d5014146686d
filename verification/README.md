# monitor_layout

A verified library for arranging GNOME/Mutter monitor layouts: the model
of monitors, modes and logical displays, validation and normalization of a
layout, snapping and settling on the arrangement canvas, mirror groups,
saved profiles and their resolution against connected monitors, the wire
format of `org.gnome.Mutter.DisplayConfig`, user preferences, and the
decisions of the preview watchdog.

Everything under `src/` is written in Verus; each public function states
its result in `ensures` and is proved against it. Properties that relate
several operations (normalizing fixes exactly the origin, a merge only
commits clean layouts, profile resolution never claims a monitor twice,
wire values round-trip, and so on) are public proof functions next to the
code they speak of.

- `src/`: the library, one module per concern (`geometry`, `layout`,
  `validation`, `snap`, `mirror`, `layout_ops`, `profile`, `parse`,
  `serialize`, `watchdog`, `editor`, ...).
- `tests/`: tests of the library on concrete values.
- `app/`: the command-line tool around the library: D-Bus access to Mutter
  and the shell, JSON storage, the preview helper process.

The graphical editor is not part of this crate: it is widget code for
GTK 4 and libadwaita, and its drawing works in floating point. What the editor decides stands in `src/`:
moving, nudging and settling displays (`editor`), the settings panel's
choices (`panel`), the descriptions it shows (`describe`, `ui_state`),
loading and managing profiles (`loading`), and the preview watchdog
(`watchdog`).
