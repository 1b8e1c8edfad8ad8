# macfs

Read and write MFS (Macintosh File System) floppy disk images — the flat
filesystem the 1984 Macintosh used on its 400K single-sided floppies — with
contracts that Verus proves.

Images may be bare sector dumps or DiskCopy 4.2 containers; the container is
autodetected on open and written back in the same shape. Anything the crate does
not interpret is preserved verbatim — boot blocks, reserved MDB and directory
fields, DiskCopy 4.2 tags — so opening an image and saving it again without
changes reproduces its bytes exactly. HFS volumes are detected and reported as
unsupported.

## Layout

| Module      | What it holds |
|-------------|---------------|
| `volume`    | `MfsVolume`, the public API |
| `model`     | the state of a volume, and what each operation makes of it |
| `report`    | what a check reports, and what a consistent volume is |
| `laws`      | opening, saving, writing and reading taken together |
| `upkeep`    | what every operation keeps: consistency, names, file numbers, locks |
| `history`   | what holds of a volume after any sequence of operations |
| `mkfs`      | the layout of a new volume, and formatting |
| `mdb`, `blockmap`, `dir` | the on-disk structures |
| `dc42`      | the DiskCopy 4.2 container |
| `macroman`, `timestamp`, `text`, `util` | names, dates, messages and big-endian numbers |
| `error`     | `MfsError` |
| `args`, `cli` | the command line of `mfs`, and what its commands do and print |

`app/` is the `mfs` program around the library: arguments, files and standard
output.

## What is proved

Every function states what it returns for every input, error texts included, as
far as that does not rest on what is believed. Among the laws: opening and saving
an image reproduces it; reading a fork gives back what was written to it, also
from a saved image, and writing leaves every other fork alone; deleting a file
gives back exactly its blocks; an operation that fails changes nothing; a floppy
disk stays consistent from the moment it was formatted, whatever is done to it,
and a check reports nothing if and only if the volume is consistent; no file
number is given out twice; a changed byte in a DiskCopy 4.2 container is noticed.

What is believed rather than proved is marked in the source: the clock, the
texts of I/O and layout errors, Unicode upper case, and the quoting of names in
messages.
