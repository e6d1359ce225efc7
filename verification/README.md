# hashcash

Proofs of work in the Hashcash scheme of a file storage service, verified with
Verus.

A server poses a puzzle in a header, `1:<easiness>:<timestamp>:<token>`. The
token is the URL-safe Base64 of 48 bytes. A proof is the Base64 of a four-byte
nonce such that the SHA-256 digest of the nonce followed by 262144 copies of the
token starts with a word no greater than a threshold, which the easiness gives.

- `sha_model`: SHA-256 as a mathematical model.
- `sha256`: SHA-256 on single blocks, with the round constants added in advance.
- `message`: the message that is hashed and the blocks it is cut into.
- `blocks`: the schedules that all nonces share.
- `search`: the search for the first nonce that solves a puzzle.
- `encoding`: Base64 text and the calls to the `base64` crate.
- `gencash`: from a token to a proof.
- `header`: reading the header.

`app/` holds a front that panics where there is no proof.
