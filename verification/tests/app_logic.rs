use easy_iot::device::{ConnectionManager, DeviceEvent, IoTDevice, IoTDeviceWsState};
use easy_iot::http::{file_response_header, next_chunk, next_chunk_len, route_request, HttpRoute, JS_HEADER, TEXT_HEADER, WASM_HEADER};
use easy_iot::led::{create_pulse_code, message_color, Color, Pulse};
use easy_iot::message::{Message, MESSAGE_PORT};
use easy_iot::pages::{host_device_ip, HomePage, SettingsPage};

#[test]
fn routes() {
    let files = ["client-app-1.js", "client-app-1_bg.wasm"];
    assert_eq!(route_request(b"GET /client-app-1.js HTTP/1.1\r\nHost: x\r\n", &files), Some(HttpRoute::File(0)));
    assert_eq!(route_request(b"GET /client-app-1_bg.wasm HTTP/1.1\r\n", &files), Some(HttpRoute::File(1)));
    assert_eq!(route_request(b"GET / HTTP/1.1\r\nHost: x\r\n", &files), Some(HttpRoute::Index));
    assert_eq!(route_request(b"GET /index.html HTTP/1.1\r\n", &files), Some(HttpRoute::Index));
    assert_eq!(route_request(b"GET /favicon.ico HTTP/1.1\r\n", &files), Some(HttpRoute::NotFound));
    assert_eq!(route_request(&[0xff, 0xfe], &files), None);
    // Without a line break, the whole request is the request line.
    assert_eq!(route_request(b"GET / HTTP/1.1", &files), Some(HttpRoute::Index));
    // Only the first line counts.
    assert_eq!(route_request(b"POST /x HTTP/1.1\r\nReferer: GET / HTTP/1.1\r\n", &files), Some(HttpRoute::NotFound));
}

#[test]
fn content_types() {
    assert_eq!(file_response_header("app.js"), JS_HEADER);
    assert_eq!(file_response_header("app_bg.wasm"), WASM_HEADER);
    assert_eq!(file_response_header("style.css"), TEXT_HEADER);
    assert_eq!(file_response_header("js"), JS_HEADER);
    assert_eq!(file_response_header("a.js.map"), TEXT_HEADER);
}

#[test]
fn chunks() {
    assert_eq!(next_chunk_len(0, 10000, 4096), 4096);
    assert_eq!(next_chunk_len(8192, 10000, 4096), 1808);
    assert_eq!(next_chunk_len(5904, 10000, 4096), 4096);
    assert_eq!(next_chunk_len(5905, 10000, 4096), 4095);
}

#[test]
fn pulse_codes() {
    let data = create_pulse_code(Color { r: 0, g: 0, b: 255 });
    for j in 0..16 {
        assert_eq!(data[j], Pulse::Zero);
    }
    for j in 16..24 {
        assert_eq!(data[j], Pulse::One);
    }
    assert_eq!(data[24], Pulse::End);
    let data = create_pulse_code(Color { r: 0x80, g: 0x01, b: 0x05 });
    assert_eq!(data[7], Pulse::One);
    assert_eq!(data[0], Pulse::Zero);
    assert_eq!(data[8], Pulse::One);
    assert_eq!(data[21], Pulse::One);
    assert_eq!(data[23], Pulse::One);
    assert_eq!(data[22], Pulse::Zero);
    assert_eq!(message_color(Message::On), Color { r: 0, g: 0, b: 255 });
    assert_eq!(message_color(Message::Off), Color { r: 0, g: 0, b: 0 });
}

#[test]
fn home_page_switch() {
    let mut p = HomePage::new();
    assert!(!p.on);
    assert_eq!(p.toggle(), Message::On);
    assert!(p.on);
    assert_eq!(p.toggle(), Message::Off);
    assert!(!p.on);
    let _s = SettingsPage::new();
    assert_eq!(host_device_ip("192.168.1.2"), "192.168.1.2:420");
}

#[test]
fn device_lifecycle() {
    let mut d = IoTDevice::new("Easy IoT Device 1");
    assert_eq!(d.name, "Easy IoT Device 1");
    assert_eq!(d.ws_state, IoTDeviceWsState::Disconnect);
    d.ip = "10.0.0.7:420".to_string();
    assert_eq!(d.begin_connect(), Some("ws://10.0.0.7:420".to_string()));
    d.finish_connect(Err("refused".to_string()));
    assert_eq!(d.error.as_deref(), Some("Error: refused"));
    assert_eq!(d.ws_state, IoTDeviceWsState::Disconnect);
    d.disconnect();
    assert_eq!(d.error.as_deref(), Some("Already disconnected"));
    d.handle_event(DeviceEvent::Opened);
    assert_eq!(d.ws_state, IoTDeviceWsState::Connected);
    assert_eq!(d.error, None);
    assert_eq!(d.begin_connect(), None);
    assert_eq!(d.error.as_deref(), Some("Already connected"));
    d.handle_event(DeviceEvent::Message(ewebsock::WsMessage::Text("hi".to_string())));
    assert_eq!(d.inpox.len(), 1);
    d.handle_event(DeviceEvent::Error("boom".to_string()));
    assert_eq!(d.error.as_deref(), Some("Error: boom"));
    d.disconnect();
    assert_eq!(d.ws_state, IoTDeviceWsState::Disconnect);
    assert!(d.ws_sender.is_none());
    assert_eq!(d.error, None);
    d.handle_event(DeviceEvent::Closed);
    assert_eq!(d.ws_state, IoTDeviceWsState::Disconnect);
}

#[test]
fn connection_manager() {
    let mut m = ConnectionManager::default();
    assert!(!m.can_add_device());
    m.new_device_name = "A".to_string();
    assert!(m.can_add_device());
    m.add_device();
    assert_eq!(m.new_device_name, "");
    m.new_device_name = "A".to_string();
    assert!(!m.can_add_device());
    let pos = m.add_device_at("B", "10.0.0.2");
    assert_eq!(pos, 1);
    assert_eq!(m.devices[1].ip, "10.0.0.2");
    assert_eq!(m.connection_count(), 0);
    m.devices[1].handle_event(DeviceEvent::Opened);
    assert_eq!(m.connection_count(), 1);
    assert_eq!(m.connected_devices(), vec![1]);
    m.remove_device(0);
    assert_eq!(m.devices.len(), 1);
    assert_eq!(m.connected_devices(), vec![0]);
}

#[test]
fn chunks_make_up_the_body() {
    let data: Vec<u8> = (0..10000u32).map(|i| (i % 251) as u8).collect();
    assert_eq!(next_chunk(&data, 0, 4096), &data[..4096]);
    assert_eq!(next_chunk(&data, 8192, 4096), &data[8192..]);
    assert_eq!(next_chunk(&data, 10000, 4096).len(), 0);
    // Writes that take only part of each chunk still send the body whole and in order.
    let mut sent = 0;
    let mut out = Vec::new();
    while sent < data.len() {
        let chunk = next_chunk(&data, sent, 3000);
        let n = chunk.len().min(1234);
        out.extend_from_slice(&chunk[..n]);
        sent += n;
    }
    assert_eq!(out, data);
}

#[test]
fn pressing_the_switch() {
    let mut p = HomePage::new();
    assert_eq!(p.press(0), None);
    assert!(!p.on);
    assert_eq!(p.press(2), Some(Message::On));
    assert!(p.on);
    assert_eq!(p.press(0), None);
    assert!(p.on);
    assert_eq!(p.press(1), Some(Message::Off));
    assert!(!p.on);
}

#[test]
fn connecting_to_the_message_port() {
    assert_eq!(MESSAGE_PORT, 420);
    let mut m = ConnectionManager::default();
    let pos = m.add_device_at("B", "10.0.0.2");
    assert_eq!(m.devices[pos].begin_connect_to_port(MESSAGE_PORT), Some("ws://10.0.0.2:420".to_string()));
    assert_eq!(m.devices[pos].begin_connect_to_port(7), Some("ws://10.0.0.2:7".to_string()));
    assert_eq!(m.devices[pos].begin_connect_to_port(65535), Some("ws://10.0.0.2:65535".to_string()));
    assert_eq!(m.devices[pos].begin_connect_to_port(0), Some("ws://10.0.0.2:0".to_string()));
    m.devices[pos].handle_event(DeviceEvent::Opened);
    assert_eq!(m.devices[pos].begin_connect_to_port(MESSAGE_PORT), None);
    assert_eq!(m.devices[pos].error.as_deref(), Some("Already connected"));
}

#[test]
fn first_device_points_at_host() {
    let mut empty = ConnectionManager::default();
    assert_eq!(empty.point_first_device_at_host("192.168.1.2"), None);
    assert_eq!(empty.devices.len(), 0);
    let mut m = ConnectionManager::default();
    m.add_device_at("Easy IoT Device 1", "");
    m.add_device_at("Easy IoT Device 2", "");
    assert_eq!(m.point_first_device_at_host("192.168.1.2"), Some(0));
    assert_eq!(m.devices[0].ip, "192.168.1.2:420");
    assert_eq!(m.devices[0].name, "Easy IoT Device 1");
    assert_eq!(m.devices[1].ip, "");
    assert_eq!(m.devices[0].begin_connect(), Some("ws://192.168.1.2:420".to_string()));
}
