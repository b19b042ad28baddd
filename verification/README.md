# raftfwk

A framework for building replicated services on the Raft consensus
algorithm, on top of the `raft` crate, with a log store on LevelDB and a gRPC
transport between nodes.

The crate is written in Verus. `src/` is the verified library:

- `eraftpb` – the values a raft log is made of (entries, hard state,
  membership, snapshots), held as plain values.
- `level_storage` – the log store: appending, compacting, snapshotting,
  reading entries and terms (cut to a size limit as raft does), the bytes
  each change writes to the disk (raft's protobuf encoding), and the steps
  of loading the store back from those bytes; with the laws that tie these
  together (reading back what was appended, compaction, snapshots), and
  laws over the disk as a map from keys to stored bytes: what the writes of
  an append or a snapshot leave there, and what loading it gives back. The
  loop that reads the database itself runs in `app/`.
- `server` – the decisions of a node: its configuration, whom it knows of,
  what it does with committed entries and membership changes, how it answers
  join requests and takes the answers to its own.
- `mpc` – the reply a node gives to a request, and its wire codec (proto3,
  unknown fields kept), with the law that what is encoded decodes back.
- `kit`, `msg`, `meta`, `service` – addresses, commands and the status
  handed to the application.

`app/` is the node around the library: the loop that runs raft, LevelDB and
gRPC, raft's storage traits, and the conversions to and from the raft crate's
messages.
