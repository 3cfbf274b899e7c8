# hd2mm

The verified core of a Helldivers 2 mod manager for Linux, written in Verus.

- `src/` is the library, every function of it verified: which archive entries
  may be extracted, which files are patch files, how a mod's patch files group
  into triplets and which files a deployment writes, which directories each
  installed mod contributes, how settings and a game path are checked, where
  Steam keeps its libraries, and how a path is matched against the disk
  ignoring case.
- `app/` is the unverified side: reading and writing files, archives,
  settings and the environment, and carrying out what the library decides.
- `tests/` runs the library on concrete values.

Paths are read the way `std::path::Path` reads them on Unix (`/` is the only
separator, and there are no drive or UNC prefixes). The one exception is the
traversal guard for archive entries, which also reads Windows paths when the
platform uses `\` as a separator, so that an entry such as `..\evil` or `C:\x`
is refused there.
