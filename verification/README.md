# tuxkitchen

The verified core of an Android firmware kitchen. `src/` is a Verus
library: every function carries a contract over a mathematical model of
what it reads and produces, and Verus proves the code meets it.

- `vbmeta`, `cpio`, `dtbo`, `payload`, `sdat`: the binary formats (AVB
  vbmeta headers, newc ramdisks, device tree overlay tables, OTA
  `payload.bin` manifests, block transfer lists).
- `fsconfig`, `ikconfig`, `imaging`: building images — fs_config records,
  file_contexts coverage and debugfs scripts, kernel config support,
  mkfs/lpmake command lines.
- `device`: adb/fastboot output and the flashing guard rails.
- `compare`, `workspace`, `paths`, `props`, `tools`, `unpack`: workspace
  operations — tree comparison, reversible removal and restore, path
  confinement, prop files, tool lookup, ROM unpacking.
- `text`, `bytes`: the text and byte-level building blocks.

Proved properties include: a written ramdisk reads back as the same
members; a packed dtbo parses back to its blobs; restoring a backed-up
path puts it back where it was (for any workspace that does not itself
lie inside a `.tuxkitchen/removed` folder); rebuilding an unchanged ramdisk gives
back its members; no opt-in lifts a flash blocker; patching vbmeta twice
equals patching once.

`app/` is the command-line front end that does the file and process I/O
around the library; `tests/` exercise the library on concrete values.
