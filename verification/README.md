# snippet_library

The verified core of a snippet library for a text expander: snippets are kept
in YAML match files, and files that start with a managed header line can be
edited from a native window.

- `src/` is verified with Verus:
  - `text.rs`: whitespace trimming, decimal numbers, joining and replacement,
    each against a specification on character sequences.
  - `header.rs`: the managed header line and the framing of written files.
  - `yaml.rs`: the in-memory YAML document (ordered mappings, tags looked
    through), its mathematical model, and the calls into `serde_norway`
    that parse and write YAML text.
  - `paths.rs`: the default managed file, collection names relative to the
    match directory, and path comparison, over `std::path`.
  - `snippet.rs`: how a match item is shown as a snippet and how an edited
    snippet is written back into it.
  - `store.rs`: the loaded files and snippets, and the steps of loading,
    saving and deleting.
  - `edit.rs`: saving and deleting as a sequence of steps; the library
    decides each step and the caller does the file work it asks for.
  - `store_laws.rs`: the laws that keep the snippet list in step with the
    documents of the files, that ids find their snippets and are never
    handed out twice.
  - `service.rs`: the LaunchAgent plist and the escaping of its values.
  - `modulo.rs`: the data of the library window, the decoding of its requests
    and the reply buffer it reads.
  - `cli.rs`: the `library` subcommand.
- `app/` holds what touches the outside world: reading and writing match
  files as the library's steps ask, launchd, and the native window.
- `tests/` runs the library on concrete inputs.
