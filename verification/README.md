# rtc_core

Protocol cores of a sans-I/O WebRTC stack, verified with Verus: the functions of the library state
what they return and what they change, and the statements are proved.

- DTLS: `endpoint`, `conn`, `content`, `record`, `alert`, `replay_detector`, `fragment_buffer`,
  `handshake_cache`, and the record ciphers (`record_cipher`, `cipher_suite`, `crypto_*`).
- Cryptography: `crypto` says what a provider offers, `common` and `provider` offer it through the
  `aes`, `ctr`, `ccm`, `md-5` and `ring` crates.
- Interceptors: `receive_log`, `nack_generator`, `send_buffer`, `nack_responder`,
  `receiver_stream`, `arrival_time_map`, `cc`, `xor`, with `bitmap` and `bits` under them.
- Measuring: `pair`, `peer`, `fixtures`, `allocations`, `test_blocks`, and the probes
  `annexb_scan`, `receiver_loss` and `ogg_crc`.

What a module holds as a whole, across calls, stands in its proof functions whose names begin with
`law_`. Calls into other crates stand in functions marked `external_body`; each says above it what
is claimed of the call without proof.

`app/` is ordinary Rust around the library: sockets' addresses, the clock, the allocator, floating
point, and the loops that perform what the library decides. `tests/` runs the library.
