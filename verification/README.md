# grimorio

A small daemon that keeps secrets encrypted in memory (AES-256-GCM, zeroized
on purge, expiry and shutdown), and a command-line client that stores and
retrieves them over a per-user local IPC channel.

The library in `src/` is verified with Verus:

- `crypto` — sealing a secret as `nonce || ciphertext-with-tag` and opening it
  again; which error each malformed or unauthentic blob yields.
- `key_order` — the order of secret names (that of `str`), with proofs that it
  is a strict total order.
- `table` — the table of secrets, kept strictly sorted by name; insertion,
  lookup, removal, expiry sweeps, each stated over the map the table stands for.
- `daemon` — the daemon's state and its answer to each command, stated as a
  relation between the state before, the state after and the answer.
- `laws` — properties across commands: a read after a store gives the secret
  back, reads do not disturb a secret, other keys are untouched, every stored
  blob stays a sealing under the daemon's key, the expiry sweep removes exactly
  the idle secrets.
- `protocol`, `password`, `client` — the messages, the password-reader trait,
  and the client's handling of the daemon's answers.

`app/` holds the programs around it: argument parsing, the async IPC
transport, JSON framing, terminal prompts and running source commands. Invoked
as `grimoriod` the program runs the daemon, otherwise the client.
