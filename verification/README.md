# samsungtv

Remote control for legacy Tizen Samsung TVs (websocket protocol on port 8001,
no token), split into a verified library and a thin command-line program.

- `src/` — the library, verified with Verus:
  - `config.rs`: the `key = "value"` configuration format (with `# comments`
    after quoted values), how environment
    and file settings combine, the REST and websocket endpoints, and the
    base64 encoding of the client name (with its length, concatenation and
    round-trip laws).
  - `keys.rs`: key-code normalization (`KEY_` prefix, upper case), the
    curated key list and its listing.
  - `wol.rs`: MAC address parsing, the magic packet, IPv4 dotted-decimal
    reading and the wake-on-LAN destinations.
  - `wol.rs` also proves that a MAC written with `:` or `-`, in either case,
    parses back to its bytes.
  - `ws.rs`: what the TV's remote-channel events mean (authorization,
    rejections and their messages), the power-state words, and the key and
    raw payloads that are sent.
  - `rest.rs`: the retry policy of the device-info request, the checking and
    pretty-printing of a response, and the `status` view.
  - `text.rs`: character-level helpers (trimming, splitting, decimal).
- `app/` — the program: argument parsing, environment and file reading,
  HTTP, websocket and UDP I/O, and printing.
- `tests/` — tests of the library on concrete values.
