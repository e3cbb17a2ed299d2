//! The client app's view of the devices it talks to over websockets.
use vstd::prelude::*;
use crate::message::Message;
use crate::text::{decimal, push_decimal, str_equals};
use crate::pages::host_device_ip;

verus! {

#[verifier::external_type_specification]
#[verifier::external_body]
pub struct ExWsSender(ewebsock::WsSender);

#[verifier::external_type_specification]
#[verifier::external_body]
pub struct ExWsReceiver(ewebsock::WsReceiver);

#[verifier::external_type_specification]
#[verifier::external_body]
pub struct ExWsMessage(ewebsock::WsMessage);

/// The state of a device's websocket connection.
#[derive(Debug, PartialEq, Eq, Structural, Clone, Copy)]
pub enum IoTDeviceWsState {
    Disconnect,
    Pending,
    Connected,
}

/// What the websocket of a device reports.
pub enum DeviceEvent {
    /// The connection is established.
    Opened,
    /// A message arrived.
    Message(ewebsock::WsMessage),
    /// An error occurred, with its description.
    Error(String),
    /// The connection is closed.
    Closed,
}

/// A device that the client app can connect to.
pub struct IoTDevice {
    pub name: String,
    pub ip: String,
    pub ws_sender: Option<ewebsock::WsSender>,
    pub ws_receiver: Option<ewebsock::WsReceiver>,
    pub ws_state: IoTDeviceWsState,
    pub error: Option<String>,
    pub inpox: Vec<ewebsock::WsMessage>,
}

/// The error text that a string option holds, if any.
pub open spec fn error_text(e: Option<String>) -> Option<Seq<char>> {
    match e {
        Some(s) => Some(s@),
        None => None,
    }
}

/// The error text reported for a failure with the given description.
pub open spec fn failure_text(description: Seq<char>) -> Seq<char> {
    "Error: "@ + description
}

impl IoTDevice {
    /// A disconnected device with this name and no address.
    pub fn new(name: &str) -> (d: Self)
        ensures
            d.name@ == name@,
            d.ip@ == Seq::<char>::empty(),
            d.ws_sender is None,
            d.ws_receiver is None,
            d.ws_state == IoTDeviceWsState::Disconnect,
            d.error is None,
            d.inpox@ == Seq::<ewebsock::WsMessage>::empty(),
    {
        IoTDevice {
            name: name.to_string(),
            ip: String::new(),
            ws_sender: None,
            ws_receiver: None,
            ws_state: IoTDeviceWsState::Disconnect,
            error: None,
            inpox: Vec::new(),
        }
    }

    /// The first half of connecting: a device that is not disconnected records that it
    /// is already connected and gives no address; otherwise the websocket address to
    /// connect to is returned and nothing changes.
    pub fn begin_connect(&mut self) -> (url: Option<String>)
        ensures
            old(self).ws_state != IoTDeviceWsState::Disconnect ==> {
                &&& url is None
                &&& error_text(final(self).error) == Some("Already connected"@)
                &&& final(self).ws_state == old(self).ws_state
                &&& final(self).ws_sender == old(self).ws_sender
                &&& final(self).ws_receiver == old(self).ws_receiver
                &&& final(self).inpox@ == old(self).inpox@
            },
            old(self).ws_state == IoTDeviceWsState::Disconnect ==> {
                &&& (url matches Some(u) && u@ == "ws://"@ + old(self).ip@)
                &&& *final(self) == *old(self)
            },
            final(self).name@ == old(self).name@,
            final(self).ip@ == old(self).ip@,
    {
        if self.ws_state != IoTDeviceWsState::Disconnect {
            self.error = Some("Already connected".to_string());
            return None;
        }
        let url = String::from_str("ws://").concat(self.ip.as_str());
        Some(url)
    }

    /// The first half of connecting to the device's server on `port`: as
    /// `begin_connect`, with the port after the address.
    pub fn begin_connect_to_port(&mut self, port: u16) -> (url: Option<String>)
        ensures
            old(self).ws_state != IoTDeviceWsState::Disconnect ==> {
                &&& url is None
                &&& error_text(final(self).error) == Some("Already connected"@)
                &&& final(self).ws_state == old(self).ws_state
                &&& final(self).ws_sender == old(self).ws_sender
                &&& final(self).ws_receiver == old(self).ws_receiver
                &&& final(self).inpox@ == old(self).inpox@
            },
            old(self).ws_state == IoTDeviceWsState::Disconnect ==> {
                &&& (url matches Some(u) && u@ == "ws://"@ + old(self).ip@ + ":"@ + decimal(
                    port as nat,
                ))
                &&& *final(self) == *old(self)
            },
            final(self).name@ == old(self).name@,
            final(self).ip@ == old(self).ip@,
    {
        if self.ws_state != IoTDeviceWsState::Disconnect {
            self.error = Some("Already connected".to_string());
            return None;
        }
        let mut url = String::from_str("ws://").concat(self.ip.as_str()).concat(":");
        push_decimal(&mut url, port);
        Some(url)
    }

    /// The second half of connecting, with what opening the websocket gave: on success
    /// the device keeps both ends and is pending; on failure it records the error.
    pub fn finish_connect(
        &mut self,
        result: Result<(ewebsock::WsSender, ewebsock::WsReceiver), String>,
    )
        ensures
            final(self).name@ == old(self).name@,
            final(self).ip@ == old(self).ip@,
            final(self).inpox@ == old(self).inpox@,
            match result {
                Ok((sender, receiver)) => {
                    &&& final(self).ws_sender == Some(sender)
                    &&& final(self).ws_receiver == Some(receiver)
                    &&& final(self).ws_state == IoTDeviceWsState::Pending
                    &&& final(self).error is None
                },
                Err(e) => {
                    &&& error_text(final(self).error) == Some(failure_text(e@))
                    &&& final(self).ws_sender == old(self).ws_sender
                    &&& final(self).ws_receiver == old(self).ws_receiver
                    &&& final(self).ws_state == old(self).ws_state
                },
            },
    {
        match result {
            Ok((sender, receiver)) => {
                self.ws_sender = Some(sender);
                self.ws_receiver = Some(receiver);
                self.ws_state = IoTDeviceWsState::Pending;
                self.error = None;
            },
            Err(e) => {
                self.error = Some(String::from_str("Error: ").concat(e.as_str()));
            },
        }
    }

    /// Drops the connection of a connected device; any other device records that it
    /// is already disconnected.
    pub fn disconnect(&mut self)
        ensures
            final(self).name@ == old(self).name@,
            final(self).ip@ == old(self).ip@,
            final(self).inpox@ == old(self).inpox@,
            old(self).ws_state == IoTDeviceWsState::Connected ==> {
                &&& final(self).ws_sender is None
                &&& final(self).ws_receiver is None
                &&& final(self).ws_state == IoTDeviceWsState::Disconnect
                &&& final(self).error is None
            },
            old(self).ws_state != IoTDeviceWsState::Connected ==> {
                &&& error_text(final(self).error) == Some("Already disconnected"@)
                &&& final(self).ws_sender == old(self).ws_sender
                &&& final(self).ws_receiver == old(self).ws_receiver
                &&& final(self).ws_state == old(self).ws_state
            },
    {
        if self.ws_state != IoTDeviceWsState::Connected {
            self.error = Some("Already disconnected".to_string());
            return;
        }
        self.ws_sender = None;
        self.ws_receiver = None;
        self.ws_state = IoTDeviceWsState::Disconnect;
        self.error = None;
    }

    /// Takes one event of the device's websocket into account.
    pub fn handle_event(&mut self, event: DeviceEvent)
        ensures
            final(self).name@ == old(self).name@,
            final(self).ip@ == old(self).ip@,
            final(self).ws_sender == old(self).ws_sender,
            final(self).ws_receiver == old(self).ws_receiver,
            match event {
                DeviceEvent::Message(msg) => {
                    &&& final(self).inpox@ == old(self).inpox@.push(msg)
                    &&& final(self).error is None
                    &&& final(self).ws_state == old(self).ws_state
                },
                DeviceEvent::Error(e) => {
                    &&& error_text(final(self).error) == Some(failure_text(e@))
                    &&& final(self).inpox@ == old(self).inpox@
                    &&& final(self).ws_state == old(self).ws_state
                },
                DeviceEvent::Closed => {
                    &&& final(self).ws_state == IoTDeviceWsState::Disconnect
                    &&& final(self).error is None
                    &&& final(self).inpox@ == old(self).inpox@
                },
                DeviceEvent::Opened => {
                    &&& final(self).ws_state == IoTDeviceWsState::Connected
                    &&& final(self).error is None
                    &&& final(self).inpox@ == old(self).inpox@
                },
            },
    {
        match event {
            DeviceEvent::Message(msg) => {
                self.inpox.push(msg);
                self.error = None;
            },
            DeviceEvent::Error(e) => {
                self.error = Some(String::from_str("Error: ").concat(e.as_str()));
            },
            DeviceEvent::Closed => {
                self.ws_state = IoTDeviceWsState::Disconnect;
                self.error = None;
            },
            DeviceEvent::Opened => {
                self.ws_state = IoTDeviceWsState::Connected;
                self.error = None;
            },
        }
    }

    /// The text that is sent to the device for a message, when the device has a
    /// sending end; `None` when it has none.
    pub fn outgoing_text(&self, msg: &Message) -> (t: Option<String>)
        ensures
            self.ws_sender is None ==> t is None,
            self.ws_sender is Some ==> (t matches Some(s) && s@ == msg.text()),
    {
        if self.ws_sender.is_some() {
            Some(msg.to_str().to_string())
        } else {
            None
        }
    }
}

/// The devices that the settings page manages, and the name typed for a new one.
pub struct ConnectionManager {
    pub devices: Vec<IoTDevice>,
    pub new_device_name: String,
}

/// The number of connected devices among `devices`.
pub open spec fn count_connected(devices: Seq<IoTDevice>) -> nat
    decreases devices.len(),
{
    if devices.len() == 0 {
        0
    } else {
        count_connected(devices.drop_last()) + if devices.last().ws_state
            == IoTDeviceWsState::Connected {
            1nat
        } else {
            0nat
        }
    }
}

/// The positions of the connected devices among `devices`, in order.
pub open spec fn connected_positions(devices: Seq<IoTDevice>) -> Seq<usize>
    decreases devices.len(),
{
    if devices.len() == 0 {
        Seq::empty()
    } else if devices.last().ws_state == IoTDeviceWsState::Connected {
        connected_positions(devices.drop_last()).push((devices.len() - 1) as usize)
    } else {
        connected_positions(devices.drop_last())
    }
}

impl Default for ConnectionManager {
    fn default() -> (m: Self)
        ensures
            m.devices@.len() == 0,
            m.new_device_name@ == Seq::<char>::empty(),
    {
        ConnectionManager { devices: Vec::new(), new_device_name: String::new() }
    }
}

impl ConnectionManager {
    /// The number of connected devices.
    pub fn connection_count(&self) -> (count: usize)
        ensures
            count == count_connected(self.devices@),
    {
        let mut count: usize = 0;
        let mut i: usize = 0;
        while i < self.devices.len()
            invariant
                i <= self.devices@.len(),
                count == count_connected(self.devices@.take(i as int)),
                count <= i,
            decreases self.devices@.len() - i,
        {
            assert(self.devices@.take(i + 1).drop_last() =~= self.devices@.take(i as int));
            if self.devices[i].ws_state == IoTDeviceWsState::Connected {
                count += 1;
            }
            i = i + 1;
        }
        assert(self.devices@.take(i as int) =~= self.devices@);
        count
    }

    /// The positions of the devices that a message sent to all reaches: the
    /// connected ones.
    pub fn connected_devices(&self) -> (positions: Vec<usize>)
        ensures
            positions@ == connected_positions(self.devices@),
    {
        let mut positions: Vec<usize> = Vec::new();
        let mut i: usize = 0;
        while i < self.devices.len()
            invariant
                i <= self.devices@.len(),
                positions@ == connected_positions(self.devices@.take(i as int)),
            decreases self.devices@.len() - i,
        {
            assert(self.devices@.take(i + 1).drop_last() =~= self.devices@.take(i as int));
            if self.devices[i].ws_state == IoTDeviceWsState::Connected {
                positions.push(i);
            }
            i = i + 1;
        }
        assert(self.devices@.take(i as int) =~= self.devices@);
        positions
    }

    /// Whether a device with the typed name can be added: the name is not empty and
    /// no device has it yet.
    pub fn can_add_device(&self) -> (b: bool)
        ensures
            b == (self.new_device_name@.len() > 0 && forall|i: int|
                0 <= i < self.devices@.len() ==> #[trigger] self.devices@[i].name@
                    != self.new_device_name@),
    {
        let mut i: usize = 0;
        while i < self.devices.len()
            invariant
                i <= self.devices@.len(),
                forall|j: int| 0 <= j < i ==> #[trigger] self.devices@[j].name@ != self.new_device_name@,
            decreases self.devices@.len() - i,
        {
            if str_equals(self.devices[i].name.as_str(), self.new_device_name.as_str()) {
                return false;
            }
            i = i + 1;
        }
        !self.new_device_name.as_str().is_empty()
    }

    /// Adds a disconnected device with the typed name and clears the name.
    pub fn add_device(&mut self)
        ensures
            final(self).devices@.len() == old(self).devices@.len() + 1,
            forall|i: int|
                0 <= i < old(self).devices@.len() ==> #[trigger] final(self).devices@[i] == old(
                    self,
                ).devices@[i],
            ({
                let d = final(self).devices@.last();
                &&& d.name@ == old(self).new_device_name@
                &&& d.ip@ == Seq::<char>::empty()
                &&& d.ws_state == IoTDeviceWsState::Disconnect
                &&& d.ws_sender is None
                &&& d.ws_receiver is None
                &&& d.error is None
                &&& d.inpox@.len() == 0
            }),
            final(self).new_device_name@ == Seq::<char>::empty(),
    {
        let d = IoTDevice::new(self.new_device_name.as_str());
        self.devices.push(d);
        self.new_device_name = String::new();
    }

    /// Removes the device at position `i`.
    pub fn remove_device(&mut self, i: usize)
        requires
            i < old(self).devices@.len(),
        ensures
            final(self).devices@ == old(self).devices@.remove(i as int),
            final(self).new_device_name@ == old(self).new_device_name@,
    {
        self.devices.remove(i);
    }

    /// Adds a disconnected device with this name and address, to be connected; returns
    /// its position.
    pub fn add_device_at(&mut self, name: &str, ip: &str) -> (pos: usize)
        ensures
            pos == old(self).devices@.len(),
            final(self).devices@.len() == old(self).devices@.len() + 1,
            forall|i: int|
                0 <= i < old(self).devices@.len() ==> #[trigger] final(self).devices@[i] == old(
                    self,
                ).devices@[i],
            ({
                let d = final(self).devices@[pos as int];
                &&& d.name@ == name@
                &&& d.ip@ == ip@
                &&& d.ws_state == IoTDeviceWsState::Disconnect
                &&& d.ws_sender is None
                &&& d.ws_receiver is None
                &&& d.error is None
                &&& d.inpox@.len() == 0
            }),
            final(self).new_device_name@ == old(self).new_device_name@,
    {
        let mut d = IoTDevice::new(name);
        d.ip = ip.to_string();
        let pos = self.devices.len();
        self.devices.push(d);
        pos
    }
}

impl ConnectionManager {
    /// Points the first device at the device served by the host the app was loaded
    /// from, to be connected; returns its position, or `None` when there is no device.
    pub fn point_first_device_at_host(&mut self, host_ip: &str) -> (pos: Option<usize>)
        ensures
            old(self).devices@.len() == 0 ==> pos is None && *final(self) == *old(self),
            old(self).devices@.len() > 0 ==> {
                let d = old(self).devices@[0];
                let e = final(self).devices@[0];
                &&& pos == Some(0usize)
                &&& final(self).devices@.len() == old(self).devices@.len()
                &&& e.ip@ == host_ip@ + ":420"@
                &&& e.name@ == d.name@
                &&& e.ws_sender == d.ws_sender
                &&& e.ws_receiver == d.ws_receiver
                &&& e.ws_state == d.ws_state
                &&& e.error == d.error
                &&& e.inpox@ == d.inpox@
                &&& forall|i: int|
                    1 <= i < old(self).devices@.len() ==> #[trigger] final(self).devices@[i]
                        == old(self).devices@[i]
                &&& final(self).new_device_name@ == old(self).new_device_name@
            },
    {
        if self.devices.len() == 0 {
            return None;
        }
        let mut d = self.devices.remove(0);
        d.ip = host_device_ip(host_ip);
        self.devices.insert(0, d);
        Some(0)
    }
}

/// A message sent to all reaches every connected device and no other, each once and
/// in the order of the devices, and the connection count counts each connected
/// device once: the positions listed are strictly increasing, and a position is
/// listed exactly when the device there is connected.
pub proof fn lemma_every_connected_device_is_reached(devices: Seq<IoTDevice>)
    requires
        devices.len() <= usize::MAX,
    ensures
        forall|i: int|
            0 <= i < devices.len() ==> (devices[i].ws_state == IoTDeviceWsState::Connected
                <==> connected_positions(devices).contains(i as usize)),
        forall|a: int, b: int|
            0 <= a < b < connected_positions(devices).len() ==> #[trigger] connected_positions(
                devices,
            )[a] < #[trigger] connected_positions(devices)[b],
        count_connected(devices) == connected_positions(devices).len(),
        forall|k: int|
            0 <= k < connected_positions(devices).len() ==> #[trigger] connected_positions(devices)[k]
                < devices.len(),
    decreases devices.len(),
{
    lemma_broadcast_reaches_connected(devices);
    if devices.len() > 0 {
        let prev_devices = devices.drop_last();
        lemma_every_connected_device_is_reached(prev_devices);
        let prev = connected_positions(prev_devices);
        let cur = connected_positions(devices);
        let last = devices.len() - 1;
        assert forall|i: int| 0 <= i < devices.len() implies (devices[i].ws_state
            == IoTDeviceWsState::Connected <==> cur.contains(i as usize)) by {
            if i < last {
                assert(devices[i] == prev_devices[i]);
                if prev.contains(i as usize) {
                    let k = choose|k: int| 0 <= k < prev.len() && prev[k] == i as usize;
                    assert(cur[k] == prev[k]);
                }
                if cur.contains(i as usize) {
                    let k = choose|k: int| 0 <= k < cur.len() && cur[k] == i as usize;
                    if k < prev.len() {
                        assert(cur[k] == prev[k]);
                    } else {
                        assert(cur[k] == last as usize);
                    }
                    assert(prev.contains(i as usize));
                }
            } else {
                if devices[i].ws_state == IoTDeviceWsState::Connected {
                    assert(cur[cur.len() - 1] == last as usize);
                }
                if cur.contains(i as usize) {
                    let k = choose|k: int| 0 <= k < cur.len() && cur[k] == i as usize;
                    if k < prev.len() {
                        assert(cur[k] == prev[k]);
                        assert(prev[k] < prev_devices.len());
                    }
                }
            }
        }
    }
}

/// A message sent to all reaches as many devices as the connection count counts.
pub proof fn lemma_broadcast_reaches_connected(devices: Seq<IoTDevice>)
    requires
        devices.len() <= usize::MAX,
    ensures
        connected_positions(devices).len() == count_connected(devices),
        forall|k: int|
            0 <= k < connected_positions(devices).len() ==> {
                let p = #[trigger] connected_positions(devices)[k];
                &&& p < devices.len()
                &&& devices[p as int].ws_state == IoTDeviceWsState::Connected
            },
    decreases devices.len(),
{
    if devices.len() > 0 {
        lemma_broadcast_reaches_connected(devices.drop_last());
        let prev = connected_positions(devices.drop_last());
        assert forall|k: int| 0 <= k < connected_positions(devices).len() implies {
            let p = #[trigger] connected_positions(devices)[k];
            &&& p < devices.len()
            &&& devices[p as int].ws_state == IoTDeviceWsState::Connected
        } by {
            if k < prev.len() {
                assert(connected_positions(devices)[k] == prev[k]);
                assert(devices[prev[k] as int] == devices.drop_last()[prev[k] as int]);
            } else {
                assert(devices.last().ws_state == IoTDeviceWsState::Connected);
                assert(connected_positions(devices)[k] == (devices.len() - 1) as usize);
            }
        }
    }
}

} // verus!
