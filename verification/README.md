# rvc

A peer-to-peer, git-like version control system. Repositories hold blob,
tree and commit objects in git's format; peers find each other with mDNS and
synchronise branches over a small request/response protocol (`GET_PEERS`,
`GET_REFS`, `SYNC_REQ`/`SYNC_RES`, `GET_OBJS`/`OBJS`), merging what they fetch
with a three-way line merge.

## Layout

- `src/` — the library, verified with Verus. Each function states what it
  computes in its `requires`/`ensures`, and the laws that tie functions
  together (what a peer reads of what another answers, what reading the index
  gives back after staging, what a three-way merge keeps) are proof functions
  named `law_*`.
  - `objects`, `store`, `codec`, `hexcode`: the object model, object files
    and their encodings.
  - `index`, `tree`, `commit`, `refs`, `catfile`: the index, trees built from
    staged files, commits, branches and HEAD, and showing objects.
  - `diff3`, `merge`: longest common subsequences, three-way line merges and
    merge plans for whole commits.
  - `history`, `objwalk`: walks over the commit graph and the objects a
    commit reaches.
  - `protocol`, `state`, `exchange`, `node`, `netid`: requests and answers
    between peers, what a node knows, the laws of the exchanges, and the
    node's command line.
  - `text`: the string operations the rest is written with.
- `app/` — the `rvcd` program: the command line, the files under `.git`, and
  the libp2p node with its event loop. It performs the disk and network work
  and leaves the decisions to the library.
- `tests/` — tests of the library on concrete values.
