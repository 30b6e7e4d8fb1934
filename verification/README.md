# cryo-vault

An append-only archive of chat sessions, written in Verus.

Sessions are stored in numbered segments. A segment is a pair of files:
`data_NNN.cryo` holds length-prefixed zstd blocks of bincode records, and
`index_NNN.cryo` holds one entry for each block (the ids in it, its time range
and a Bloom filter over its words). Streamed events wait in `pending.bin` until
their session is finalised.

- `src/` is the library. Every function has a contract that Verus proves.
  - `storage/` reads, writes, searches, counts, reindexes and compacts an
    archive that is held as a list of named files.
  - `laws/` states what holds of several operations together: what was appended
    is scanned, looked up and found again; reindexing and compaction keep every
    session; a second flush changes nothing; statistics and block counts grow by
    what is added.
  - `pattern` tells text from regular expressions in queries.
  - `frames`, `text`, `codec`, `index`, `metadata` and `schema` are the formats
    that the storage engine is built on.
  - `import`, `chatgpt`, `rpc` and `cli` decide what the programs do and say.
- `app/` is the program around it: files, the lock file, JSON, arguments and
  output. Under the name `cryo-vault-mcp` it serves tools over JSON-RPC.
- `tests/` runs the library with the real compression and encoding crates.

What is not proved is marked `external_body` or `assume_specification`: calls
into bincode, zstd, fastbloom, regex, serde_json, chrono and uuid, and three
functions of the standard library. The comment above each says what is claimed of it.
