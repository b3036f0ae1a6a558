# agents_md

Finding, reading and rendering of `AGENTS.md` instruction files, verified with Verus.

The library decides everything and touches nothing: where it needs the file system it asks one
question at a time and takes the answer as a plain value. Three such dialogues exist:

- `discovery::Discovery` looks for the project root and for the instruction files between the root
  and the working directory.
- `reader::InstructionReader` reads those files, and the files that they reference with `@path`,
  within limits on bytes, on the number of references and on their depth.
- `home::HomeLoad` reads the instructions of the user from a home directory.

| Module          | What it holds                                                           |
|-----------------|-------------------------------------------------------------------------|
| `text`          | white space, lines, searching and slicing of text by byte offsets       |
| `markdown`      | references in Markdown, outside of code and comments                    |
| `paths`         | paths as plain values, and which files references may lead to           |
| `discovery`     | where instruction files are looked for                                  |
| `discovery_run` | what a whole search finds in a file system that does not change         |
| `reader`        | what is read, in which order, and where reading stops                   |
| `reader_run`    | what is read as a whole from a file system that does not change         |
| `loaded`        | the instructions that were read, their text and their sources           |
| `home`          | the instructions of the user                                            |
| `errors`        | what went wrong in the file system                                      |
| `stdlib`        | the two functions of the standard library that are relied on            |

Each dialogue is specified by a state machine over mathematical values; the `_run` modules prove
that a dialogue with one file system ends, and what it ends with. Proof functions whose names begin
with `law_` state what holds of the library as a whole.

`app/` is ordinary Rust around the library: it asks file systems and configurations, through a few
traits that a host implements, and hands the answers over.
