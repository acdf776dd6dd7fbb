# fs2iso

Packs files and directories into an ISO 9660 (+Joliet) image for BMC virtual
media and the UEFI shell. Every payload file and directory also goes into a FAT
container (`esp.img`) that the El Torito boot entry points at, so that firmware
without an ISO 9660 driver sees them.

```text
fs2iso [OPTIONS] <OUTPUT.iso> <PATH>...
```

- `src/` is the library, verified with Verus: what a function returns is stated
  in its contract, and what holds of several functions together in public proof
  functions. The proofs rest on the contracts of the wrappers, which Verus takes
  as they stand: `fat` wraps calls into the `fatfs` crate, `paths` and `text`
  wrap functions of std. Each wrapper's doc comment says what is claimed.
- `app/` is the command line, and what touches the file system. It performs the
  steps that the library asks for.
- `tests/` runs the library, down to whole discs that are read back.

| module      | what it is about                                               |
|-------------|----------------------------------------------------------------|
| `job`       | the course of a build, step by step                            |
| `image`     | options, labels, settings, errors and summary of a build       |
| `collect`   | walking the inputs into the tree of the image                  |
| `collected` | the walk of `collect` is a recursion over the directories      |
| `esp`       | the FAT container (`fat` wraps the FAT file system)            |
| `artifacts` | hiding the container and the boot catalog in a finished image  |
| `gather`    | walking the inputs into an arena of nodes                      |
| `gathered`  | the walk of `gather` is a recursion over the directories       |
| `tree`      | the arena, its order and its identifiers                       |
| `names`     | identifiers of both namespaces, labels                         |
| `layout`    | where everything lies on a volume                              |
| `render`    | the bytes of a volume                                          |
| `readback`  | what a reader finds on a volume                                |
| `iso_fix`   | path tables and both-endian fields for images that lack them   |
| `timeutil`  | dates                                                          |
| `walk`, `runs`, `order`, `bytes`, `text`, `paths` | traversals, runs, sorting, integers in bytes, text, file names |
