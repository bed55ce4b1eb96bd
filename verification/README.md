# ce-render

A render farm over a mesh of hosts. A job is a range of frames; it is split into shards, each shard is
rendered by one host, some shards are rendered again by a second host, and the outputs are put back in
frame order.

The library in `src/` holds every decision, with its contract and its proof in Verus:

| module | what it decides |
|---|---|
| `shard` | frame ranges, and the shards that partition them |
| `placement` | which hosts can render, how they rank, which shard goes to which host |
| `verify` | which shards the public beacon picks to be checked, and what a check says |
| `fraction` | the verify dial's single-precision number, compared and multiplied on its bits |
| `proto` | the command that renders a shard |
| `config` | what is required of a job's description |
| `caps` | which capability chain is shown to the hosts |
| `roots` | which root keys a host accepts |
| `farm` | the plan of a job, the terms of a deployment, the hosts to use, when to stop waiting |
| `dispatch` | what is deployed next, and what manifest the replies make |
| `manifest` | the outputs in frame order, the missing and the diverged frames |
| `report` | what is told to the user |

`text`, `number`, `order` and `seqs` are what these are made of.

A reply that brings no output counts as none: its frames are missing from the manifest, never
collected.

Two calls go out of the library: the SHA-256 digest (`sha2`) that orders the shards for checking, and
the decoding of hexadecimal keys (`hex`). Their contracts stand beside them and are taken on trust.

`app/` is the command line program around the library: arguments, files, the network and the clock.
`tests/` runs the library.
