# scan-moodle

Inspection of a Moodle codebase: the internal paths its PHP files refer to, the components (core,
subsystems, plugins and subplugins) it is made of, and the files that must live at a fixed location
rather than being found via `core\component`. Path references can be rewritten so that they no longer
rely on `$CFG->dirroot` and `$CFG->libdir`, and the codebase can be split into self-contained Composer
packages.

The library is written in Verus: every function states what it returns in its contract, and the
contracts are proved.

## Layout

- `src/` is the verified library.
  - `text`, `collections`: string operations and ordered maps and sets of texts.
  - `path_finder`: finds the path references in a PHP file. `syntax` holds syntax trees, `expression`
    says which expressions are paths and which paths they stand for, `literal` resolves escapes that make
    no text, `finder` walks a file, `notation`
    resolves and renders paths.
  - `moodle`: components and their discovery, the resolver from paths to components, the bootstrap
    sequence (`graph`, `entrypoints`), the categories of references, third-party libraries, and scans
    of a whole codebase.
  - `report`: CSV documents and summaries.
  - `rewrite`: what each reference is rewritten to (`decide`), the edits of files (`splice`), the
    patches that come first, the audit trail and the steps of the whole process.
  - `extract_packages`: where each file is copied to, the `composer.json` of each package, the git
    commands and the steps of the whole process.
  - `progress`: processes that take one step after the other.
- `tests/` are tests of the compiled library.
- `app/` is the command line tool: arguments, files, threads and git.
- `extras/` holds a script that packs the patches.

What the proofs rest on, besides Verus: the contracts of `String::push` and of `==` on `str`, and those
of the functions that call `mago_syntax`, `csv`, `roxmltree`, `serde_json`, `tar`, `zstd` and
`String::from_utf8_lossy`. Each says in its doc comment what it claims.

The crates of the PHP parser, `mago-*`, are held at one release, those that only the parser itself needs
included: later releases do not build with the compiler that goes with Verus.

## Commands

`find-paths`, `find-components` and `find-entrypoints` write CSV to stdout, or to the file given with
`-o`. `rewrite-moodle` rewrites a codebase in place, after applying the patches in `patches.tar.zst`
beside the executable (`extras/pack_patches.sh` makes that archive). `extract-packages` does the same and then copies the result into one directory
per package.
