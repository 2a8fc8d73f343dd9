# waybar_widgets

Three custom modules for the waybar status bar, each printing one JSON object per
line:

- **diagnostics** (`desktop` or `laptop`): low bluetooth batteries, a disk above
  80 % use, no internet connection, a live stream;
- **resources** (`CPU` or `GPU`): use, temperature and memory in percent;
- **workspaces** (a screen name): the screen's sway workspaces, each shown by the
  icons of its windows.

`src/` is the library, verified with Verus: it reads the command output the
widgets collect (`upower`, `df`, `curl`, `rocm-smi` through `jq`, the sway
workspace listing) and builds the lines they print, with contracts stated over
character sequences. `src/text.rs` and `src/number.rs` hold the string and
integer operations it needs, each proved against a specification of the matching
`str` or integer method. `app/` runs the commands, reads the system state through
`sysinfo`, and loops; run it under a widget's name, or give the widget's name as
the first argument.
