# easy_iot

The logic of a small IoT system: a browser app that switches the LED of an ESP32
over a websocket, and the device firmware that serves the app over HTTP, accepts the
websocket and drives the LED. The logic is a Verus library with proved contracts:

- `src/sha1.rs`: SHA-1 as RFC 3174 defines it, and an implementation proved equal to it.
- `src/digest_text.rs`: a digest as lowercase hex, read back from hex, and as base64.
- `src/handshake.rs`: the websocket opening handshake (`Sec-WebSocket-Accept`).
- `src/websocket.rs`: decoding and unmasking of client frames, the message they carry, and
  the server's step after each read.
- `src/http.rs`: which file a request is answered with, its content type, write chunks.
- `src/message.rs`, `src/led.rs`: the On/Off commands and the LED's pulse train.
- `src/device.rs`, `src/pages.rs`: the client app's device connections and pages.
- `src/text.rs`, `src/hstring.rs`: string helpers, and the `heapless` strings filled.

`app/` holds what performs I/O around the library: the websocket client plumbing
(`ewebsock`), the embassy-net servers and the LED worker. `tests/` runs the library
on concrete values, among them the RFC 3174 and RFC 6455 examples.
