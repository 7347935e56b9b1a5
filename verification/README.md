# bear-to-markdown

Exports every note stored in [Bear.app](https://bear.app)'s database into a
directory structure of plain Markdown files, together with the files embedded
in them.

- `src/` is the library, verified with [Verus](https://github.com/verus-lang/verus).
  It decides which notes are exported, how their files and directories are
  called, what the files hold, where links lead, and what happens to files
  that are already in the output directory.
- `app/` is the command-line tool around it: arguments, the database, and the
  work on disk.
- `tests/` runs the library.

## How the library is laid out

| Module | What it is about |
| ------ | ---------------- |
| `text` | character classes and string operations |
| `patterns` | finding tags, Bear tokens and Markdown links in a text |
| `tags`, `titles`, `timestamps`, `notes` | from rows of the database to notes |
| `front_matter` | the YAML at the start of a note's file |
| `paths` | file names and relative paths |
| `links` | percent-encoded link destinations |
| `placement` | free names, the modes, and the files that mirroring deletes |
| `rewriting` | attachment references as standard Markdown links |
| `import` | copying the attachments of a note |
| `export`, `note_export` | the export of a note from start to end |

What the library cannot do itself it asks for: `note_export::NoteExport` and
`import::Import` are state machines whose state says what has to be done on
disk next, one directory and one file at a time. They also say which attachment
is referenced but missing on disk, so that a warning can be printed for it.

## Modes

| Mode | Meaning |
| ---- | ------- |
| `copy` (default) | Never overwrite; write to a copy with a numerical suffix (` (2)`, ` (3)`, …) instead. |
| `update` | Overwrite existing files in place, but leave any other files alone. |
| `mirror` | Overwrite existing files in place and delete notes and attachments that no longer correspond to anything in Bear. |

In every mode, two notes of one export never end up in the same file.
Mirroring takes a Markdown file that is not hidden for a note, and a file in
`assets/<note name>/` for an attachment; it deletes nothing in hidden
directories.
