//! The pulse train that drives the device's addressable LED.
use vstd::prelude::*;
use crate::message::Message;

verus! {

/// An LED colour.
#[derive(Debug, PartialEq, Eq, Structural, Clone, Copy)]
pub struct Color {
    pub r: u8,
    pub g: u8,
    pub b: u8,
}

/// One pulse sent to the LED: a one bit, a zero bit, or the end of the train.
#[derive(Debug, PartialEq, Eq, Structural, Clone, Copy)]
pub enum Pulse {
    One,
    Zero,
    End,
}

/// The pulse for bit `i` of `v`.
pub open spec fn bit_pulse(v: u8, i: u8) -> Pulse {
    if (v >> i) & 1 == 1 {
        Pulse::One
    } else {
        Pulse::Zero
    }
}

/// The pulse train of a colour: green, red, then blue, each with its most
/// significant bit first, then the end pulse.
pub open spec fn is_pulse_code_of(data: Seq<Pulse>, c: Color) -> bool {
    &&& data.len() == 25
    &&& forall|j: int| 0 <= j < 8 ==> #[trigger] data[j] == bit_pulse(c.g, (7 - j) as u8)
    &&& forall|j: int| 8 <= j < 16 ==> #[trigger] data[j] == bit_pulse(c.r, (15 - j) as u8)
    &&& forall|j: int| 16 <= j < 24 ==> #[trigger] data[j] == bit_pulse(c.b, (23 - j) as u8)
    &&& data[24] == Pulse::End
}

pub fn create_pulse_code(c: Color) -> (data: [Pulse; 25])
    ensures
        is_pulse_code_of(data@, c),
{
    let mut data: [Pulse; 25] = [Pulse::Zero; 25];
    let mut i: usize = 0;
    while i < 8
        invariant
            i <= 8,
            data@.len() == 25,
            forall|j: int| 0 <= j < 25 && !(7 - i < j <= 7) ==> data@[j] == Pulse::Zero,
            forall|j: int| 7 - i < j <= 7 ==> #[trigger] data@[j] == bit_pulse(c.g, (7 - j) as u8),
        decreases 8 - i,
    {
        if (c.g >> i as u8) & 1 == 1 {
            data[7 - i] = Pulse::One;
        }
        i = i + 1;
    }
    let mut i: usize = 0;
    while i < 8
        invariant
            i <= 8,
            data@.len() == 25,
            forall|j: int| 0 <= j < 8 ==> #[trigger] data@[j] == bit_pulse(c.g, (7 - j) as u8),
            forall|j: int| 8 <= j < 25 && !(15 - i < j <= 15) ==> data@[j] == Pulse::Zero,
            forall|j: int| 15 - i < j <= 15 ==> #[trigger] data@[j] == bit_pulse(c.r, (15 - j) as u8),
        decreases 8 - i,
    {
        if (c.r >> i as u8) & 1 == 1 {
            data[15 - i] = Pulse::One;
        }
        i = i + 1;
    }
    let mut i: usize = 0;
    while i < 8
        invariant
            i <= 8,
            data@.len() == 25,
            forall|j: int| 0 <= j < 8 ==> #[trigger] data@[j] == bit_pulse(c.g, (7 - j) as u8),
            forall|j: int| 8 <= j < 16 ==> #[trigger] data@[j] == bit_pulse(c.r, (15 - j) as u8),
            forall|j: int| 16 <= j < 25 && !(23 - i < j <= 23) ==> data@[j] == Pulse::Zero,
            forall|j: int| 23 - i < j <= 23 ==> #[trigger] data@[j] == bit_pulse(c.b, (23 - j) as u8),
        decreases 8 - i,
    {
        if (c.b >> i as u8) & 1 == 1 {
            data[23 - i] = Pulse::One;
        }
        i = i + 1;
    }
    data[24] = Pulse::End;
    data
}

/// The colour that the worker shows for a message: blue for `On`, dark for `Off`.
pub fn message_color(m: Message) -> (c: Color)
    ensures
        c == (match m {
            Message::On => Color { r: 0, g: 0, b: 255 },
            Message::Off => Color { r: 0, g: 0, b: 0 },
        }),
{
    match m {
        Message::On => Color { r: 0, g: 0, b: 255 },
        Message::Off => Color { r: 0, g: 0, b: 0 },
    }
}

/// The bit that a pulse stands for.
pub open spec fn pulse_bit(p: Pulse) -> int {
    if p == Pulse::One {
        1
    } else {
        0
    }
}

/// The byte that eight pulses from `start` on stand for, most significant bit first.
pub open spec fn pulses_byte(data: Seq<Pulse>, start: int) -> int {
    128 * pulse_bit(data[start]) + 64 * pulse_bit(data[start + 1]) + 32 * pulse_bit(data[start + 2])
        + 16 * pulse_bit(data[start + 3]) + 8 * pulse_bit(data[start + 4]) + 4 * pulse_bit(
        data[start + 5],
    ) + 2 * pulse_bit(data[start + 6]) + pulse_bit(data[start + 7])
}

proof fn lemma_byte_bits(v: u8)
    ensures
        v as int == 128 * ((v >> 7u8) & 1) + 64 * ((v >> 6u8) & 1) + 32 * ((v >> 5u8) & 1) + 16 * ((v
            >> 4u8) & 1) + 8 * ((v >> 3u8) & 1) + 4 * ((v >> 2u8) & 1) + 2 * ((v >> 1u8) & 1) + ((v
            >> 0u8) & 1),
{
    assert(v as int == 128 * ((v >> 7u8) & 1) + 64 * ((v >> 6u8) & 1) + 32 * ((v >> 5u8) & 1) + 16 * ((
    v >> 4u8) & 1) + 8 * ((v >> 3u8) & 1) + 4 * ((v >> 2u8) & 1) + 2 * ((v >> 1u8) & 1) + ((v >> 0u8)
        & 1)) by (bit_vector);
}

proof fn lemma_bit_pulse(v: u8, i: u8)
    requires
        i < 8,
    ensures
        pulse_bit(bit_pulse(v, i)) == (v >> i) & 1,
{
    assert((v >> i) & 1 == 0 || (v >> i) & 1 == 1) by (bit_vector);
}

/// Eight pulses that spell out the bits of `v`, most significant first, stand for `v`.
proof fn lemma_pulses_byte(data: Seq<Pulse>, start: int, v: u8)
    requires
        0 <= start,
        start + 8 <= data.len(),
        forall|j: int| start <= j < start + 8 ==> #[trigger] data[j] == bit_pulse(v, (7 - (j - start)) as u8),
    ensures
        pulses_byte(data, start) == v as int,
{
    lemma_byte_bits(v);
    assert forall|j: int| start <= j < start + 8 implies pulse_bit(#[trigger] data[j]) == (v >> ((7
        - (j - start)) as u8)) & 1 by {
        lemma_bit_pulse(v, (7 - (j - start)) as u8);
    }
}

/// Reading the pulse train of a colour back, eight pulses to a byte, gives the
/// colour: green from the first eight pulses, red from the next, blue from the last.
pub proof fn lemma_pulse_code_roundtrip(data: Seq<Pulse>, c: Color)
    requires
        is_pulse_code_of(data, c),
    ensures
        pulses_byte(data, 0) == c.g as int,
        pulses_byte(data, 8) == c.r as int,
        pulses_byte(data, 16) == c.b as int,
{
    lemma_pulses_byte(data, 0, c.g);
    lemma_pulses_byte(data, 8, c.r);
    lemma_pulses_byte(data, 16, c.b);
}

} // verus!
