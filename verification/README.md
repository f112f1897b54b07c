# ce-drive-serve

The host side of the CE Drive mesh API: a server that answers the `ce-drive/v1` operations
(Open/Stat/List/Read/Write/Mkdir/Move/Copy/Delete/Share/Poll/Watch), checks every request against a
presented capability chain, and hands the contents of its drives to an index.

`src/` is the logic of the host, verified with Verus. `app/` is the program around it: the mesh, the
disk, the keys, and the replicated tree of a drive.

## What is proved

- **Wire** (`wire`, `codec`). The bytes of every request and reply are stated exactly. A request reads
  back as what was written, no two requests and no two replies are written alike, and bytes that are no
  request are named.
- **Authorization** (`cap`, `path`). A request passes only if the capability verifier does not object,
  and the leaf capability is bound to the requested drive and to a subtree that holds every path of the
  operation. No such path has a `..` component, neither as it was sent nor in the normal form that the
  operation acts on. A capability without such a binding authorizes nothing. A shared capability never
  widens what the sharer holds, and reaches exactly the subtree it was shared for; a path that no prefix
  can be bound to, such as `/a /`, is not shared.
- **Requests** (`step`, `rules`, `serve`, `tenant`, `feed`). The host answers in steps: each asks for one
  piece of outside work and goes on with its outcome. Nothing is done before the chain is checked; a
  refused request changes nothing; a change is acknowledged only when it is in the feed under the next
  number and on disk; a stale write conflicts; only the named drive changes; feeds are gap-free.
- **Entries and reads** (`drive`). Going page by page through a directory whose names are in order gives
  every name once; a read is planned as exactly the chunks that hold a byte of the range, so none for an
  empty range.
- **Corpus** (`corpus`, `walk`, `envelope`, `json`, `props`). Items are keyed by node id, an operator's
  props outrank extracted ones, links and tags are merged without loss or doubling, a walk finds every
  file below its start and nothing else (each once, where names differ in every directory), and
  extractions and content are read back as they were sent.

## What is trusted

Calls into outside crates stand behind small functions whose contracts are believed: `bincode` for
integers and text, `hex`, `sha2`, `serde_json` and `base64`, and `str::to_lowercase`. Each says above it
which call it makes and what is claimed of it.

## Run

```bash
# Host a drive named "team" on this node, discoverable as `acme-eng`.
ce-drive-serve --drive team --name acme-eng
```

Drives are kept in `--state-dir` (default `$CE_DRIVE_DIR`, else the platform data dir + `ce-drive`) as
`<drive>.cedrive`. At boot the host loads each requested drive if a state file exists and creates one
only when it does not; the state is written back after every change, before the reply.
