# haremal-ctrl

The settings panel of the haremal desktop (niri compositor, fontconfig, rio
terminal, GNOME interface settings, Bluetooth and udev devices, pacman
updates), split in two:

- `src/` is a library verified with Verus. It holds what the panel decides:
  how each configuration line is read and written (`ConfigEdit`), how an
  edit changes the lines of a file (`config_lines`), the
  labels and choices it shows, the ordering of the devices table, the
  dashboard columns, the shader blocks, and the update console as a state
  machine. Each public function states its result in its `ensures`; the
  proof functions named `law_*` state what holds across functions, such as
  that a value saved by the panel reads back as that value.
- `app/` is the Dioxus program around it: the components of each tab, the
  commands it runs, the files it reads and the configuration files it edits.
- `tests/` runs the library on concrete values.

Calls into std or outside crates whose behaviour vstd does not give are
gathered in `src/std_calls.rs`, each with the contract it is believed to meet.
