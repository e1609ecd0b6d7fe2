# bundle_link

Turns plugin static archives into a macOS loadable bundle (VST3, CLAP, VST2).

A bundle's loader accepts a Mach-O bundle only, so the archive is linked through
`clang -bundle`. Before that, byte-identical duplicate members are dropped from
the archive, while different members that share a name are all kept.

- `src/` is the verified library. It decides, and touches no file:
  - `text`: decimal numbers, padding, decoding of bytes
  - `archive`: reading `ar` archives, BSD and GNU
  - `dedupe`: which members to keep, one step at a time
  - `link`: the arguments for `clang`, and the plan for several architectures
  - `tool`: tool arguments
  - `archive_laws`, `dedupe_laws`, `link_laws`: what holds of reading, deduplicating and
    linking as a whole
- `app/` runs the tools and works on the files.
- `tests/` exercises the library on concrete values.
