# torrent

Bencoding and `.torrent` construction, verified with Verus.

- `src/encoding.rs`: bencoded values (`BeNode`), their decoder and encoder, and
  dictionaries kept in key order. Contracts are stated over `BeValue` and the
  decoding/encoding functions `decode_at` and `encode`; `law_decode_encode`
  and `law_decode_encoded_at` prove that decoding an encoding gives the value
  back. Nodes compare with dictionaries taken as maps (`same_value`).
- `src/utils/sha.rs`: an incremental SHA-1 hasher (FIPS 180-1), specified over
  `Sha1State`; the laws (`law_update_split`, `law_update_absorbs`,
  `law_updates_then_digest`) show that feeding a message in pieces gives the
  same hasher as feeding it at once, and that its digest is the SHA-1 of the
  whole message. `src/utils/sha/words.rs` holds the word
  and padding helpers, `src/utils/sha/nb_utils.rs` the constants.
- `src/utils.rs`: file lists, paths as lists of components, and the pieces
  string (`produce_pieces_hash`, with `law_pieces_of_ascii`).
- `src/torrent.rs`: the torrent dictionary and description.
- `app/`: the file-system side (walking directories, reading files, the clock).
