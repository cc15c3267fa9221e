# babel_crypt

Files as coordinates into a dictionary of hashes. Every chunk of a file is looked for in a chain of
BLAKE3 digests that password, salt and chunk number start; its coordinate is the number of digests
that did not hold it and its place in the first one that did. An archive is the list of these
coordinates, with the salt, the chunk size and a checksum. Whoever has the password walks the chains
and reads the chunks off again.

`src/` is the verified library, `app/` the terminal program around it, `tests/` the tests.

| Modules | |
|---|---|
| `crypto`, `scanner`, `entries` | hash chains, the search for chunks, restoring data |
| `bits`, `rice`, `rice_laws` | coordinates as Golomb-Rice coded bit fields |
| `model`, `digits`, `range_coder`, `range_laws` | the adaptive order-1 range coder |
| `codec` | the binary archive |
| `archive_text`, `archive_laws` | the text archive |
| `archive` | either format: writing, opening, checksums |
| `hex`, `number`, `text`, `bytes` | numbers and texts |
| `app`, `view`, `command`, `sizes` | state of a run, what the display shows, the command line, size estimates |

What is proved of the library as a whole stands in the functions whose names begin with `law_`:
among them that the range coder, the bit fields, both archive formats and the search undo what their
counterparts do, so that data which fills its last chunk comes back as it was. A short last chunk
comes back with the bytes that follow it in its hash.

Of the crates around it the library calls `blake3` for digests and `rand` for salts; these calls, and
`String::push`, are the only ones whose contracts are taken on trust.
