# loot

Source control in which visibility belongs to content and not to the repository:
every file is sealed under a key of its own, and history is shared with those who
cannot read it.

- `src/` is the library, verified with Verus. Each type has a model, each function a
  contract over the models, and what the library promises as a whole stands as `law_`
  proof functions beside the code they speak of.
  - content: `sealed`, `escrow`, `manifest`, `burn`, `attestation`
  - history: `ancestry`, `repo`, `engine` (changes, custody, sync, merging, files),
    `liveness`, `converge`, `buoy`, `oplog`, `store`
  - bytes and text: `format`, `bundle_codec`, `verdict`, `bridge`, `split`, `path`, `path_map`,
    `text`, `hex`
  - identities: `identity`, `peers`, `crypto`
  - landing on a forge: `forge`, `ledger`, `policy`, `orchestrator`, `harbor`, `command`
- `tests/` runs it, with the real ciphers.
- `app/` is `loot-first`, the program that shows changes for review and lands them. It
  does what the library decides.

Trusted are the calls of the cipher, hash, signature and key-file crates, each in a
small function with a contract, and of a few functions of the standard library.
