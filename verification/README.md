# indigo

A small system-monitor widget for Linux desktops (GTK3, cairo, a tray icon),
whose logic is a library verified with Verus.

- `src/` — the verified library: text parsing of /proc and /sys files, the
  top-process lists, the fan channel model and its sysfs writes, the
  settings store and its write throttle, the display signature and the
  emit gate of the sampling tick, fan hold deadlines, the autostart entry,
  the update check (versions, assets, SHA256SUMS, install target) and the
  tray icon's pixel order.
- `tests/` — tests of the library on concrete values.
- `app/` — the program around it: GTK window and drawing, the sampler
  thread, file and network I/O, sysinfo and NVML, the tray service.

The fonts and the tray icon are read at run time from an `assets/`
directory beside the binary.
