# libvrs

The core of the vrs runtime as a Verus library: each module states its
behaviour in `requires`/`ensures` contracts over mathematical models
(`Seq`, `Set`, `Map` and views of its types), and Verus proves them.

- `src/` is the verified library:
  - `endpoint`, `peer`: node endpoints (`tcp://`, `ssh://`) and the peer
    manager's decisions: one link per pair of nodes, sessions, routing.
  - `registry`: the versioned service registry, local and remote entries,
    checkpoints and the changes that nodes exchange.
  - `remote`: evaluations and client sessions carried over node links.
  - `service`, `bindings`: what the native bindings make of their arguments
    and the Lyric forms that services are built from.
  - `mailbox`, `term`, `client`, `pubsub`, `kernel`, `process`: the state
    machines behind mailboxes, terminals, clients, publications and processes.
  - `fuzzy`: ranking by fuzzy match and match excerpts (scoring by nucleo,
    graphemes by unicode-segmentation).
  - `history`, `jsonform`: the bounded observation history and its records
    as Lyric data.
  - `value`, `wire`, `pid`, `text`, `textset`: values, their node-crossing
    form, process ids, text helpers and sets of texts.
- `tests/` runs the library on concrete values.
- `app/` is the plumbing that Verus does not see: the tasks that own the
  mailbox, publications, the registry and the node link manager, the loop
  of one link session over already decoded messages, the wait of a `call`,
  host work (programs, files, sleeping), the runtime's socket path and the
  JSON forms of messages. Listeners, connections and the Lyric evaluator
  are not part of this crate.

Notes on choices:

- A registry entry is identified by the number it was observed as
  (`EntryId`), not by a random text: the numbers already order the entries,
  are never reused within a registry, and let the exit of a replaced entry
  be told apart from that of its successor without drawing randomness.
- Node endpoints without `:PORT` name port 8773 in every build; the port a
  node listens on depends on the build (`default_node_port`), so a debug
  build listens on 8774 and is reached with an explicit port.

Laws that relate several calls are public proof functions whose names start
with `law_`; each doc comment states its law in words.
