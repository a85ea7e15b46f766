# moo

moo gives every git branch a Linux machine of its own, saves the machine's
state per commit, and brings it back when the commit is checked out. One noun,
the machine; four verbs: `new`, `run`, `save`, `drop`.

The library under `src/` holds everything that moo decides and computes, with
contracts that Verus proves. The program under `app/` reads, writes, starts
processes and talks to machines: it finds out what the library asks for, and
carries out the steps that the library returns.

## The library

| module | what it holds |
| --- | --- |
| `lifecycle` | the verbs: what each has to find out, and the steps it takes |
| `store` | the registry of machines and snapshots, and how content is saved |
| `git`, `config` | which commit a handle shadows; `moo.toml` and the identity of a base image |
| `image` | image references, registry tokens, manifests, layers, ownership |
| `sync` | when the working tree is pushed into a machine, and its payload |
| `guest`, `archive` | the agent in the machine: installing a tree from its archive, answering requests |
| `proto` | the frames between host and guest |
| `shim`, `vmm`, `network` | the supervisor, the engine's calls, the guest's network |
| `ports` | stable host ports for a machine's guest ports |
| `cli`, `shell` | command lines, reports, quoting for the guest's shell |
| `spike` | the bench |
| `text`, `bytes`, `paths`, `names`, `dirs`, `keys`, `seqs`, `digest`, `json` | what the rest is built from |

Public proof functions state what holds of the whole: that saved state returns
with its commit, that `new`, `save` and `drop` are idempotent, that shared
content survives a drop, that a save keeps the bytes of the disk and a restore
brings them back, that machines share no disk and no network, that frames
round-trip and can be read in parts, that files the guest made survive every
sync, that host ports do not collide, that the guest's shell reads the words
the caller wrote.

A few functions call other crates or std and are believed, not proved: BLAKE3
digests, gzip, the listing of an archive and the sizes in its headers, reading
JSON, and decoding UTF-8. Each says what is claimed of it.

## The program

`app/` is one program under three names. As `moo` it is the command line, and
the supervisor of each running machine. As `moo-agent`, which is installed
beside it and copied into every base image, it is the init of a machine. As
`spike` it is the bench.
