# haucet

Tools for Huawei and HarmonyOS firmware, verified with Verus.

The library under `src/` works on values in memory: bytes, text, and what a
system or a device reported. Every function states in its contract what it
returns, and Verus proves it.

- `erofs` builds EROFS filesystem images: build options, metadata from recorded
  files, configuration and patterns, hard links, extended attributes, directories,
  compressed and inline data, inode slots and superblocks. It also checks images
  that were read.
- `formats` reads partition tables, signed images with their certificates, and
  the workspaces in which extracted EROFS images are kept.
- `oeminfo` reads OEMINFO partitions and plans the replacement of a boot logo.
- `splituapp` reads UPDATE.APP packages.
- `flash` checks flash scripts and runs them step by step.
- `fastboot` holds the commands and the memory lists of fastboot devices.
- `jobs` keeps the jobs of a user interface apart, with their results, and the
  state of the window around them.
- `bytes`, `names`, `shell` and `text` are what the others share.

What an outside crate computes (digests, checksums, patterns, certificates,
gzip, BMP, shell words, hexadecimal digits) stands behind small trusted
functions, each with a comment that says what is claimed of it. The LZ4
compressor and the test for high entropy are passed in by the caller, and the
library is proved for every answer that they may give.

The public proof functions whose names begin with `law_` state what holds of the
library as a whole, such as that every file, link and directory of a built image
reads back, with its attributes and metadata, and that a logo that was replaced
is the active one.

`tests/` runs the library. `app/` is the command line program around it: files,
locks, the LZ4 library, JSON, ZIP archives and terminals.
