//! The state behind the client app's pages.
use vstd::prelude::*;
use crate::message::Message;

verus! {

/// The home page, with its on/off switch.
pub struct HomePage {
    pub on: bool,
}

impl HomePage {
    /// A home page whose switch is off.
    pub fn new() -> (p: Self)
        ensures
            !p.on,
    {
        Self { on: false }
    }

    /// A press of the switch: it flips, and the message to send to all connected
    /// devices is `On` when it turns on and `Off` when it turns off.
    pub fn toggle(&mut self) -> (m: Message)
        ensures
            final(self).on == !old(self).on,
            m == (if final(self).on {
                Message::On
            } else {
                Message::Off
            }),
    {
        if self.on {
            self.on = false;
            Message::Off
        } else {
            self.on = true;
            Message::On
        }
    }

    /// A press of the switch while `connected` devices are connected: with none,
    /// nothing happens and nothing is sent; otherwise the switch flips and the message
    /// to send to all connected devices is returned.
    pub fn press(&mut self, connected: usize) -> (m: Option<Message>)
        ensures
            connected == 0 ==> (m is None && final(self).on == old(self).on),
            connected > 0 ==> (final(self).on == !old(self).on && m == Some(
                if final(self).on {
                    Message::On
                } else {
                    Message::Off
                },
            )),
    {
        if connected == 0 {
            None
        } else {
            Some(self.toggle())
        }
    }
}

/// The settings page, which shows the connection manager.
pub struct SettingsPage {}

impl SettingsPage {
    /// The settings page.
    pub fn new() -> (p: Self) {
        Self {  }
    }
}

/// The address of the device served by the host that the app was loaded from:
/// the host's address with the websocket port `420`.
pub fn host_device_ip(host_ip: &str) -> (ip: String)
    ensures
        ip@ == host_ip@ + ":420"@,
{
    String::from_str(host_ip).concat(":420")
}

} // verus!
