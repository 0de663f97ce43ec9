# xerus

A command-line BitTorrent client. Its logic is a library verified with
[Verus](https://github.com/verus-lang/verus); a thin program around it does the
input and output.

## Layout

- `src/`: the verified library
  - `bytes`, `text`: byte strings, big-endian numbers and strings
  - `bencode`: where a bencoded value ends
  - `message`, `handshake`, `peer`, `piece`: what peers exchange
  - `client`: the protocol state of a connection
  - `metadata`: assembling a torrent's metadata
  - `worker`: the decisions of a worker that downloads from one peer
  - `tracker`: tracker requests and responses, and the search for peers
  - `magnet`: magnet links
  - `torrent`: torrents, their pieces and the assembly of the data
  - `output`: file names and file ranges
  - `uri`, `random`: the calls into the crates `url`, `hex` and `rand`
  - `error`: errors and their wording
- `app/`: the program: arguments, sockets, threads, files, bencode decoding and SHA-1
- `tests/`: tests of the library

The library never waits and never sends. Where the program has to, a function of the
library says what to do next, and is told what came of it.

## Laws

Public proof functions named `law_..` state what holds of several functions together:
for example that messages and handshakes read back as they were written, that no piece
gets lost between the queue and the result, that only pieces with the right hash are
delivered, and that the pieces, in whatever order they arrive, make up the data.
