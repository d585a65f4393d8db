# ratio_spoof_core

A BitTorrent ratio spoofer: it reads a `.torrent` file, imitates a
qBittorrent client and announces made-up download and upload progress to the
torrent's HTTP trackers.

The library under `src/` is written in Verus; each public function carries a
contract that Verus proves.

- `text`: decimal text as `str::parse` reads it, hex digits, strings as
  character sequences.
- `bencode`: bencode values and the parser of torrent files.
- `torrent`: the info dictionary's raw bounds, its SHA-1 info hash, the HTTP
  trackers, name, piece length and total size.
- `tracker`: the announce URL, the tracker's reply, and the order in which
  trackers are asked, with the retry delays.
- `generator`: peer ids, announce keys, rounding of the announced counts.
- `emulation`: the client profiles.
- `spoofer`: a session's state and how announces and answers change it.
- `units`: the size and speed fields a user types.

`app/` is a command-line front end: it reads files, sends the HTTP requests,
waits between announces, and reads the numbers of the size and speed fields.
