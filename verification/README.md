# strumyk

The core of a BitTorrent peer, verified with Verus: torrents and their hashes, the
handshake and the messages between peers, the blocks of a download, and the choice of
what to download next.

`src/` is the library. It neither reads nor writes a stream or a file: a connection takes
in bytes and gives out messages, and a peer takes in events and gives out actions.

| module       | what it holds                                                       |
|--------------|---------------------------------------------------------------------|
| `metainfo`   | torrents, their hash, the size of their last piece                  |
| `bencode`    | the bencoding of a flat dictionary                                  |
| `handshake`  | the handshake that opens a connection                               |
| `message`    | messages, their frames on the wire and what they say                |
| `connection` | the stream of messages                                              |
| `storage`    | the blocks of the pieces under way, and their check against digests |
| `peer`       | what a peer does about messages, commands and the clock             |
| `picker`     | which piece to download next                                        |
| `buffer`, `bits`, `digest` | what is taken from `bytes`, `bitvec`, `sha1` and `hex-string` |
| `wrap`       | integer conversions that keep the low bits                          |

What the library takes from other crates is declared in functions marked
`external_body`, each with the contract that it is trusted to meet. Public proof
functions whose names start with `law_` state what holds of the library as a whole.

`app/` puts the library to work on tokio's streams and on files. `tests/` runs it.
