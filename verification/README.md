# sonar

Full-text search over the transcripts of past agent sessions and over source
code, served from memory-mapped indexes.

`src/` is the library. Its functions are verified with Verus against the contracts
that they state, except for the small wrappers around calls into other crates and
std, whose contracts are believed:

- `parse` reads the lines of a transcript, `daemon` decides what is indexed and
  when, `index` holds the schema, the documents and the searches.
- `code` does the same for the files of a repository.
- `snippet` makes the excerpts that results are shown with.
- `install` plans the changes to an agent's configuration files and how to take
  them back; `mcp` and `cli` decide what the server and the command line answer.
- `wording` tells how deep a query nests, which is bounded, and whether it is plain
  words, all of which a document then has to hold.
- `json`, `clock`, `store`, `paths`, `text` and `lists` are what these are stated
  over. What is believed of `serde_json`, `chrono`, `tantivy` and `dirs` is written
  down where they are called, in `json`, `clock`, `store` and `paths`, and what is
  believed of std in `text`.

The names of proof functions that begin with `law_` are what the library promises
as a whole: that indexing again replaces, that a dry run writes nothing, that
uninstalling restores, and so on.

`app/` is the program around it: arguments, files, the index on disk, the file
watcher and the server. It works for any agent that keeps its files in a
directory of its own name, with a dot in front, in the home directory: the one
named with `--agent` or in `SONAR_AGENT`, or else the only one that has transcripts.
A repository is indexed again with `sonar code index`, by hand or from a git hook of
your own.
