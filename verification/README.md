# vesper

Vesper is a language server for dusk, a small systems language. The diagnostics,
highlighting, and navigation an editor shows come from the same lexer, parser, and
type rules that build a program.

The library under `src/` holds what the server decides and computes, with contracts
that Verus proves. The program under `app/` reads files, runs the dusk front end, and
speaks the Language Server Protocol over stdio.

## The library

- `position`: byte offsets and protocol positions, counted in UTF-16 code units.
- `text`: character widths, slices, order, and search over strings.
- `compiler::guard`: holds a buffer back from the parser when its shape would drive
  the parser too deep.
- `compiler::tokens`, `compiler::sort`: semantic tokens for highlighting, comments
  included, in the protocol's delta form.
- `compiler::render`, `compiler::spelling`: signatures and types in their dusk
  spelling, and the proof that a type's spelling reads back as that type.
- `compiler::symbols`: the symbols a document declares, hover, and definition.
- `compiler::analyze`: which pass runs next on a buffer or a program, and what its
  reports look like to an editor, file by file.
- `store`, `document`: the open documents.
- `workspace`: a project wide index of declarations and mentions.
- `server`: what each notification changes, and what is published.
- `config`, `memory`: client settings, and the cap on the address space.
- `protocol`, `compiler::token`, `compiler::ast`: the plain types they speak in.

Functions named `law_...` state what holds of several functions together: that
offsets round trip, that every report is shown once in its own file, that a stale
result steps aside.

A text must be small enough for 32 bit byte offsets, which the dusk compiler's spans
are. The server's maps are `dashmap` maps; what each call does to a map is stated
where the call stands and taken on trust there, as are `str::to_lowercase` and
`Url::to_file_path`.

## Settings

- `duskHome` in the editor's initialization options, or `DUSK_HOME`: a dusk checkout,
  so that the standard library resolves.
- `VESPER_MEMORY_CAP_MB`: the cap on the address space, in mebibytes; `0` lifts it.
- `VESPER_LOG`: the log filter.
