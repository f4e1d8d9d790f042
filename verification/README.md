# victoria

A BitTorrent client for the terminal. The library under `src/` is written in
Verus: what each function does is stated in its contract and proved. The program
under `app/` is ordinary Rust around it: sockets, files, clocks and the terminal.

- `bencode`, `metainfo`: the encoding of torrents and what torrent files say.
- `proto`: the messages between peers, their extensions, and the announces to
  trackers.
- `torrent`: a torrent as a state machine that takes events and the time and says
  what is to be sent, connected to, read and written. `torrent::transfer` is the
  exchange of pieces.
- `tracker`: announcing to tiers of trackers.
- `table`, `flat_table`, `rows`, `screen`: what the terminal shows and what keys do.

Each state machine has a mathematical model (`model.rs`, or a `...Model` type
beside the code). Contracts say that the code does to the model what the model's
own function says; the laws (`law_...`) speak of the models alone.

Outside the proofs are a few calls into other crates, each behind a function
whose comment says what is taken for granted of it: SHA-1 (`digest`), the
terminal's color codes (`style`), the parameters of a URL (`torrent::magnet`),
the shuffling of trackers (`tracker`), and three functions of the standard library
(`text`, `bencode`, `number`).
