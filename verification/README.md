# composefs

The file formats of composefs, as a Verus library: split streams, dumpfiles, and the decisions of
a download. Each function has a contract, and what is promised of several functions together is
proved in the modules whose names end in `laws`, or beside the functions.

- `src/` is the library.
  - `splitstream`, `digestmap`: writing and reading split streams. A stream starts with a digest
    map, and goes on with inline content and references to objects, each after its size (a size of
    zero stands before a reference). It is stored under zstd compression.
  - `dumpfile`, `dumpfile_parse`, `dumpfile_read`, `tree`, `path`, `text`: file system trees, and
    the text form that has a line for each name. A leaf that has more than one name is kept once,
    under a number, and each name in a directory leads to the number.
  - `filesystem_ops`: operations on whole trees, with the making and storing of images handed in.
  - `download`: which streams and objects are needed, how many are asked for at a time, and
    whether what arrives is accepted.
  - `hash`, `compress`, `fsverity`: SHA-256, zstd and hexadecimal text, each through a few trusted
    functions that call `sha2`, `zstd` and `hex`. `dumpfile` has one such function, for `rustix`,
    and `download` two, for `reqwest` and for strings of the standard library.
- `tests/` are tests of the library.
- `app/` is ordinary Rust around the library: repositories, standard output and HTTP.

What is not read back from a dumpfile: sockets, times before the epoch, mode bits outside of
`07777`, extended attributes with an empty name or value, empty symlink targets, and content or
symlink targets that are a lone dash, which the format takes for nothing.
