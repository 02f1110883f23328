# oceanfs_segment

The segment layer of an object store: blobs are appended to active segments in
memory, filled segments are sealed to data files with erasure-coded parity, and
a registry of segment lifecycles is kept durable by an event log with
checkpoints. The library is written in Verus; every function of `src/` is
verified against its contract.

## What is in `src/`

| Modules | What they hold |
| --- | --- |
| `types`, `error`, `encoding`, `text`, `checksum`, `buf`, `node_list` | values, errors, byte and text encodings, the outside buffers and hashes |
| `buffer`, `pool`, `route_write`, `handle` | active segments, the pool of slots, the routing of writes |
| `header`, `index`, `parity_section`, `codec`, `dat_name`, `data_store` | the data files |
| `repair` | verification of data files and their repair from parity |
| `event_record`, `event_wal`, `event_reader` | the event log |
| `metadata_codec`, `event_checkpoint` | checkpoints of the registry |
| `lifecycle`, `coordinator`, `seal_batch`, `seal_pipeline`, `relocate` | the registry and the transitions of segments |
| `recovery`, `startup`, `data_pass`, `mirror` | what a start does with the log, the checkpoint, the data log and the mirror |
| `*_laws` | what holds of several operations together |

A module that states what spans several of its functions does so in public proof
functions whose names begin with `law_`.

Time and identifiers are arguments: the library reads no clock and draws no
random number. Functions that need I/O between two decisions are split in two;
what lies between is the caller's.

## What is trusted

Calls into `bytes`, `crc32fast`, `blake3`, `bincode` and `smallvec` stand behind
small functions marked `#[verifier::external_body]`, each with a comment that
says what is taken for granted. The erasure code is brought by the caller;
nothing is taken for granted of it.

## What is in `app/`

Files, queues, tasks and locks around the library, with `tokio`.
