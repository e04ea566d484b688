# ClutterCutter

Shows where the space on a disk went: scans drives and folders, ranks and searches
what it found, and moves what is not wanted to the Recycle Bin.

- `src/` is the library, verified with Verus: reading NTFS file tables, walking
  folders, sorting, searching, numbering and deleting in scanned trees, formatting
  sizes and dates, settings, and what the windows show and where.
- `tests/` runs the library on concrete values.
- `app/` is the program around it: a console tool, a portable window, and a native
  window on Windows.
