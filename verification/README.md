# aulua

A build and install tool for AviUtl2 Lua scripts. Script sources go through
include expansion, variable expansion (`${NAME}`), UI-control conversion
(`---$track:` and friends) and module embedding (`---$embed`), and are then
concatenated into the scripts listed in `aulua.yaml`; built scripts can be
installed or packed into an `.au2pkg.zip`.

Layout:

- `src/` — the verified library (Verus):
  - `text_utils` — the string operations everything else uses (trim, split,
    join, replace, ...), each proved against a short specification;
  - `ui_control` — finding UI-control declarations and rewriting them;
  - `config` — the configuration model, defaults and paths, package templates;
  - `pack` — `package.ini`, CRLF conversion, checks on paths inside packages,
    and the plan of what goes into a package, in order;
  - `embed` — `require` statements and module embedding;
  - `inclusion` — `---$include` directives and the chain of files being included;
  - `script_build` — variable expansion and concatenation of sources;
  - `codeblock_title` — the documentation helper that renders titled code blocks.
- `app/` — the command-line program: file I/O, YAML and JSON schema, zip
  writing, and the loops that interleave reading files with the library's steps.
- `tests/` — tests of the library.
