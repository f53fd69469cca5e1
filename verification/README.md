# Hyperion

A system monitor for Linux desktops (CPU, memory, drives, network, GPUs) with a
tile dashboard whose tiles can be rearranged, resized and popped out into windows
of their own, and colour themes that can be shared as TOML files.

## Layout

- `src/` is the library, verified with Verus: the parsers for the kernel's files
  (`/proc/stat`, `/proc/meminfo`, `/proc/diskstats`, `/proc/net/dev`, mounts,
  udev entries, DRM fdinfo, `pci.ids`), the sampler's schedule, which sensor and
  which cards to read, the metric catalogue, the dashboard's layout (tile order,
  spans, auto-placement, which tiles exist, dragging), the Hyprland commands and
  how the dialect is found, the themes, and the text the interface shows.
  Each public function states what it returns in its contract; the `lemma_*`
  proof functions state what holds across calls.
- `app/` is the program around it: reading the files, the sampler thread, talking
  to Hyprland's socket and NVML, the egui interface, floating-point geometry and
  rates, and reading and writing the config and theme files.
- `tests/` runs the library on concrete inputs.
