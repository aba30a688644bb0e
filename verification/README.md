# avm_android

The Android SDK provider for avm, split in two:

- `src/` — the library, each function with a proved contract: reading
  Google's SDK repository index (`versions`), resolving build-tools and
  system-image packages from an `sdkmanager --list` listing, checking the
  cmdline-tools download, and the names, URLs and scripts of an install
  (`install`), the `avd` subcommand's command line, create wizard,
  `avdmanager list device` output and the `.ini` `target=` repair (`avd`),
  the `tools.java` pin in the text of `~/.avm.json` (`config`), and the
  provider's environment (`provider`). `text` and `numbers` model the `str`
  and integer parsing operations these rely on.
- `app/` — the executable: avm's plugin protocol, downloads, child
  processes, the file system and the environment.
