# xsec

A data encryption library and a command line tool for encrypted environment files,
verified with Verus.

A random data key encrypts messages with AES-256-GCM. The key itself is kept wrapped by
one or more protectors (a password, the operating system) in one metadata blob, which is
authenticated under the key. The tool encrypts every value of a dotenv file on its own and
leaves names, comments and layout readable.

## Layout

- `src/xsec.rs`: the life cycle of a data key, as a state machine over a storage.
- `src/metadata.rs`, `src/ciphertext.rs`: the two binary formats.
- `src/protector/`: the protectors and their payload formats. Those of the operating
  system take the answers of its services as arguments.
- `src/storage/`: where the metadata blob is kept.
- `src/cli/`: dotenv documents, the protection of their values, the decisions of the
  commands, and the steps of an atomic file replacement.
- `src/laws.rs`, and the functions named `law_*` beside what they speak of: properties
  that span several operations.
- `src/crypto.rs`, `src/secret.rs`: the calls into the cryptographic crates, with what is
  taken for granted of them.
- `app/`: the `xsec` program. It reads arguments, asks for passwords, reads and writes
  files and talks to the services of the operating system; every decision is the
  library's.
- `tests/`: the library run on concrete values.

## What is proved

Each function states what it returns for every input. Encryption, key derivation,
hashing and Base64 come from other crates: where a few lines cannot state a result, it is
given a name, and the contracts are exact over that name. Randomness has no name: a
contract says that the bytes in use were drawn for this call, and that there was none to
draw where it fails for want of it.

Dotenv files are read by another crate. What it gives for a document without dollar signs
has a name. What it gives for an orderly document is stated outright (`src/cli/plain.rs`):
one whose lines can be told apart, with comments, blank lines, quotes and escapes. Of a
value that draws on another variable, and so may depend on the process environment, no
contract says more than that it is what the reader gave.

On orderly documents it is proved that what was set is read back and that what was removed
is gone. It is proved as well that encryption and decryption keep the names, the values that
were read, their order and everything outside the values, and that a second encryption
changes nothing; the one value left out is one that draws on another variable and is read as
encrypted already.

That a wrong key or a changed ciphertext is refused rests on the strength of the
primitives, and no contract claims it.
