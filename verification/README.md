# object_store

The logic of a paged object store: objects are kept as files of an ext4 or ext2 file system, or of a
FAT file system whose chunks are encrypted, and their pages are moved straight between the device
and physical memory.

- `src/` is the verified library. It decides and computes, and never does input or output. Work that
  alternates with device or file-system calls is a step machine: the library says what to do next,
  the caller does it and hands the answer back.
  - `paged_object_store`: runs of pages on the device, physical memory, page requests.
  - `extents`: the cache of what lies where, per object, with its invalidation.
  - `ext4`: block-map walks, directories and paths, external files, removing and renaming, caches,
    meters.
  - `ext2`: paths, errors and block arithmetic.
  - `lethe_object_store`: file names, chunk encryption, and keeping the key file through a crash.
- `tests/` runs the library.
- `app/` is the ordinary Rust around it: traits for devices and stores, locks, statics, and the
  calls into the file systems.
