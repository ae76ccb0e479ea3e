# claude_agent_rust_sdk

The session layer of an agent SDK: keys of sessions, transcripts on disk and in
stores, summaries, forks, mirrors, imports and resumes, together with the
streaming and batch rules of the messages API. The library is written in
Verus: what each function does is stated in its contract and proved.

## Layout

- `src/` is the verified library.
  - `text`, `time`, `unicode`, `json`: texts as sequences of characters, points
    in time, normal forms, and JSON values.
  - `sessions/`: the session layer. `key`, `path` and `windows` name
    transcripts, `lite`, `prompt`, `transcript`, `jsonl` and `listing` read
    them, `summary` and `store` keep them, `store_queries` answers from a store,
    `mutations`, `fork` and `shown` change them and say what is then listed,
    `mirror`, `import` and `resume` move them between the disk and a store.
  - `streaming`, `transport`, `types`, `agent`, `error`: server-sent events, the
    polling of batches, the data types, and the options of a run.
- `tests/` runs the library on concrete values.
- `app/` is ordinary Rust around it: files, processes, the network, async
  stores and transports, and the JSON forms of the types.
  `environment::set_program` names the agent's program, and with it the
  directory and the files in the home directory that are read.

## What is proved, and what is believed

Contracts speak of mathematical models: a text is a `Seq<char>`, a JSON value is
a `Json`, a store is what it holds for each key. General laws are public proof
functions whose names begin with `law_`.

Calls into other crates and into parts of `std` go through a few trusted
functions. Each has a doc comment that says what is claimed of the outside
function: most are in `src/json.rs` (`serde_json`) and `src/unicode.rs`
(`unicode-normalization`).
