# goz

An instant file-name search for NTFS volumes, with the parts that interpret
bytes or decide something verified with [Verus](https://github.com/verus-lang/verus).

A server with the rights to do so reads the records of all files of a volume,
keeps an index of their names in memory and follows the change journal. A
client sends a query over a named pipe and prints what comes back, with the
arguments, the CSV output and the exit codes that users of `es.exe` know.

## Layout

- `src/` is the library. `wtf8`, `fold`, `text` and `le` are about characters
  and bytes; `usn` and `layout` read what the file system reports; `index` is
  the index of one volume; `query` and `escompat` read what users type;
  `proto` is the wire protocol; `output` is what is printed; `winfs`, `daemon`
  and `cli` decide what is asked of the operating system, how indexes are
  filled and how a run of the client proceeds.
- `app/` is the program around it: the calls into Windows, JSON, the streams.
- `tests/` runs the library.

## What is proved

Every function of `src/` states what it returns for every input it accepts and
does not panic on any of them. The larger claims are public proof functions
whose names begin with `law_`. Some of them:

- The index mirrors the files of the volume, whatever order their records came
  in, and the paths it tells are those of the files
  (`index/laws.rs`, `index/volume/read.rs`, `index/volume/paths.rs`).
- A batch of changes applied twice leaves the index as applied once, whatever it
  held before (`index/replay.rs`, `index/volume/paths.rs`).
- Buffers of the file system read back as the records and files laid out in
  them (`usn/laws.rs`, `layout/laws.rs`).
- Pages of results arrive as they were sent, however the stream is cut; a page
  cut short is an error (`proto/binary.rs`, `proto/frame.rs`, `cli/client.rs`).
- A switch is the same one whichever inner dashes are left out
  (`escompat/spelling.rs`).
- UTF-16 names, unpaired surrogates included, are kept exactly (`wtf8.rs`).
- A CSV document is read back field by field (`output/reading.rs`).
- Nothing is sent to a server that is not known to be the trusted one
  (`cli/session.rs`).

What is believed without proof are short contracts for calls into
`unicode-normalization`, `smallvec`, `hashbrown`, `rustc-hash`, `zerocopy`,
`jiff` and a few functions of the standard library. Each stands at a function
marked `external_body` or an `assume_specification`, with a comment that says
what it claims.
