//! EasyIoT: the logic of a small IoT system in which a browser app switches an
//! ESP32's LED over a websocket, proved with Verus.
//!
//! - `sha1`, `digest_text`: SHA-1 (RFC 3174) and the hex and base64 forms of a digest.
//! - `handshake`, `websocket`: the websocket opening handshake and client frame decoding.
//! - `http`: which file the device's HTTP server answers a request with.
//! - `message`, `led`: the commands and the LED pulse train that shows them.
//! - `device`, `pages`: the client app's device connections and page state.
//! - `text`, `hstring`: string helpers and the `heapless` strings the library fills.
pub mod message;
pub mod hstring;
pub mod sha1;
pub mod digest_text;
pub mod websocket;
pub mod text;
pub mod handshake;
pub mod http;
pub mod led;
pub mod device;
pub mod pages;
