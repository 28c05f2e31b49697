# qtreekem

Building blocks of a TreeKEM group with quarantine: members that stay inactive for long
become *ghosts*, whose keys the active members share among themselves, so that a ghost can
come back and recover its key from enough of the shares.

The library under `src/` is written in Verus: the contracts state what the functions return and
change, and Verus proves that they do.

| Module | What it holds |
| --- | --- |
| `upke`, `keypair` | updatable public-key encryption over a fixed set of generators |
| `ddh_upke` | updatable public-key encryption of leaf keys, with random generators |
| `ristretto`, `rng`, `hash`, `algebra`, `bytes` | group elements, random stream, hashes, and the arithmetic they need |
| `secret_sharing` | splitting a seed into shares, and recovering it |
| `leaf`, `ghosts` | leaves, and who goes into quarantine, gets a new key or is removed |
| `ghost_sharing` | how the seed of a ghost key is dealt along the path of a commit |
| `tree_kem_private` | a member's secret keys and shares |
| `codec`, `quarantine_messages` | the messages by which shares are asked for and sent back |
| `proposal`, `commit_builder`, `commit`, `welcome` | the decisions of a member that commits |
| `crypto`, `error` | what the user provides, and what can go wrong |

Proof functions whose names start with `law_` state what holds across several functions, for
instance that decryption undoes encryption, that an update keeps a key pair together, and
that any shares under enough distinct ids recover the seed they were made of.

What is taken on trust are the functions marked `external_body`: each wraps a call
into another crate, and its comment says what is claimed of that call.

`app/` holds ordinary Rust around the library: random generators of any kind, error messages,
storage forms, and the loop of a commit. `tests/` runs the library with the real crates.
