//! MIDI specification definitions. Defines basic MIDI message types and how to convert them to a
//! stream of bytes.
use vstd::prelude::*;

verus! {

/// MIDI clock pulses per quarter note (MIDI 1.0 spec).
pub const CLOCKS_PER_QN: u32 = 24;

/// Unified abstracted MIDI message types.
#[derive(Debug, Clone, Copy, PartialEq, Eq, Structural)]
pub enum MidiMsg {
    NoteOn(u8, u8, u8),
    NoteOff(u8, u8, u8),
    Cc(u8, u8, u8),
    Clock,
}

/// The MIDI 1.0 byte encoding of a message.
pub open spec fn midi10_bytes(msg: MidiMsg) -> Seq<u8> {
    match msg {
        MidiMsg::NoteOn(c, n, v) => seq![0x90u8 | c, n, v],
        MidiMsg::NoteOff(c, n, v) => seq![0x80u8 | c, n, v],
        MidiMsg::Cc(c, cc, v) => seq![0xb0u8 | c, cc, v],
        MidiMsg::Clock => seq![0xf8u8],
    }
}

/// The MIDI 2.0 Universal MIDI Packet encoding of a message (a 64-bit channel voice message,
/// most significant byte first). A 7-bit value `v` is upsampled by repeating its byte.
pub open spec fn midi20_bytes(msg: MidiMsg) -> Seq<u8> {
    match msg {
        MidiMsg::NoteOn(c, n, v) => seq![0x40u8 | (c & 0x0f), 0x90u8 | c, n, v, v, 0u8, 0u8, 0u8],
        MidiMsg::NoteOff(c, n, v) => seq![0x40u8 | (c & 0x0f), 0x80u8 | c, n, v, v, 0u8, 0u8, 0u8],
        MidiMsg::Cc(g, cc, v) => seq![
            0x40u8 | (g & 0x0f),
            0xb0u8 | (g & 0x0f),
            cc,
            0u8,
            0u8,
            v,
            v,
            v,
        ],
        MidiMsg::Clock => seq![],
    }
}

/// The encoding of a message for a supported MIDI version (10 or 20).
pub open spec fn midi_bytes(msg: MidiMsg, ver: u32) -> Seq<u8> {
    if ver == 10 {
        midi10_bytes(msg)
    } else {
        midi20_bytes(msg)
    }
}

/// Whether `ver` names a MIDI version that messages can be encoded for.
pub open spec fn supported_midi_version(ver: u32) -> bool {
    ver == 10 || ver == 20
}

/// Whether messages can be encoded for MIDI version `ver`.
pub fn is_supported_version(ver: u32) -> (r: bool)
    ensures
        r == supported_midi_version(ver),
{
    ver == 10 || ver == 20
}

/// Encodings carry a message's values unchanged. In MIDI 1.0 a note-on is `0x90` with the channel,
/// then the note and the velocity; a note-off starts with `0x80`, a control change with `0xb0`,
/// then its control and value; the clock is `0xf8`. A MIDI 2.0 packet has eight bytes: message
/// type 4 with the group, the MIDI 1.0 status byte (for a control change, with the channel kept to
/// four bits), the note and the velocity upsampled to 16 bits (both bytes the 7-bit velocity), or
/// the control and the value upsampled to 32 bits; the clock has no packet.
pub proof fn lemma_midi_encodings(c: u8, n: u8, v: u8)
    ensures
        midi10_bytes(MidiMsg::NoteOn(c, n, v)) == seq![0x90u8 | c, n, v],
        midi10_bytes(MidiMsg::NoteOff(c, n, v)) == seq![0x80u8 | c, n, v],
        midi10_bytes(MidiMsg::Cc(c, n, v)) == seq![0xb0u8 | c, n, v],
        midi10_bytes(MidiMsg::Clock) == seq![0xf8u8],
        ({
            let on = midi20_bytes(MidiMsg::NoteOn(c, n, v));
            &&& on.len() == 8
            &&& on[0] == 0x40u8 | (c & 0x0f)
            &&& on[1] == midi10_bytes(MidiMsg::NoteOn(c, n, v))[0]
            &&& on[2] == n
            &&& on[3] == v && on[4] == v
            &&& on[3] * 256 + on[4] == v * 0x101
            &&& on[5] == 0 && on[6] == 0 && on[7] == 0
        }),
        ({
            let off = midi20_bytes(MidiMsg::NoteOff(c, n, v));
            &&& off.len() == 8
            &&& off[0] == 0x40u8 | (c & 0x0f)
            &&& off[1] == midi10_bytes(MidiMsg::NoteOff(c, n, v))[0]
            &&& off[2] == n
            &&& off[3] == v && off[4] == v
            &&& off[3] * 256 + off[4] == v * 0x101
            &&& off[5] == 0 && off[6] == 0 && off[7] == 0
        }),
        ({
            let cc = midi20_bytes(MidiMsg::Cc(c, n, v));
            &&& cc.len() == 8
            &&& cc[0] == 0x40u8 | (c & 0x0f)
            &&& cc[1] == 0xb0u8 | (c & 0x0f)
            &&& cc[2] == n
            &&& cc[3] == 0 && cc[4] == 0
            &&& cc[5] == v && cc[6] == v && cc[7] == v
            &&& cc[5] * 0x10000 + cc[6] * 0x100 + cc[7] == v * 0x010101
        }),
        midi20_bytes(MidiMsg::Clock).len() == 0,
{
}

impl MidiMsg {
    /// Convert to the byte stream of MIDI version `ver`: MIDI 1.0 bytes for version 10, and
    /// MIDI 2.0 packets for version 20.
    pub fn to_midi(&self, ver: u32) -> (bytes: Vec<u8>)
        requires
            supported_midi_version(ver),
        ensures
            bytes@ == midi_bytes(*self, ver),
            ver == 10 ==> bytes@ == midi10_bytes(*self),
            ver == 20 ==> bytes@ == midi20_bytes(*self),
    {
        if ver == 10 {
            self.to_midi10()
        } else {
            self.to_midi20()
        }
    }

    /// Convert to MIDI 1.0 byte stream.
    pub fn to_midi10(&self) -> (bytes: Vec<u8>)
        ensures
            bytes@ == midi10_bytes(*self),
    {
        let bytes = match *self {
            MidiMsg::NoteOn(c, n, v) => vec![0x90 | c, n, v],
            MidiMsg::NoteOff(c, n, v) => vec![0x80 | c, n, v],
            MidiMsg::Cc(c, cc, v) => vec![0xb0 | c, cc, v],
            MidiMsg::Clock => vec![0xf8],
        };
        assert(bytes@ =~= midi10_bytes(*self));
        bytes
    }

    /// Convert to MIDI 2.0 Universal MIDI Packets.
    pub fn to_midi20(&self) -> (bytes: Vec<u8>)
        ensures
            bytes@ == midi20_bytes(*self),
    {
        let bytes = match *self {
            MidiMsg::NoteOn(chan, note, velocity) => {
                // UMP message type 0x4: MIDI 2.0 channel voice message; the group is the channel.
                let mt_and_group: u8 = (0x4u8 << 4u8) | (chan & 0x0f);
                // Upsample the 7-bit velocity to 16 bits.
                let velocity_u16: u16 = (velocity as u16) * 0x101;
                let hi = (velocity_u16 >> 8u16) as u8;
                let lo = (velocity_u16 & 0xff) as u8;
                assert(hi == velocity && lo == velocity) by (bit_vector)
                    requires
                        velocity_u16 == (velocity as u16) * 0x101,
                        hi == (velocity_u16 >> 8u16) as u8,
                        lo == (velocity_u16 & 0xff) as u8,
                ;
                assert(mt_and_group == 0x40u8 | (chan & 0x0f)) by (bit_vector)
                    requires mt_and_group == (0x4u8 << 4u8) | (chan & 0x0f);
                vec![mt_and_group, 0x90 | chan, note, hi, lo, 0, 0, 0]
            },
            MidiMsg::NoteOff(chan, note, velocity) => {
                let mt_and_group: u8 = (0x4u8 << 4u8) | (chan & 0x0f);
                let velocity_u16: u16 = (velocity as u16) * 0x101;
                let hi = (velocity_u16 >> 8u16) as u8;
                let lo = (velocity_u16 & 0xff) as u8;
                assert(hi == velocity && lo == velocity) by (bit_vector)
                    requires
                        velocity_u16 == (velocity as u16) * 0x101,
                        hi == (velocity_u16 >> 8u16) as u8,
                        lo == (velocity_u16 & 0xff) as u8,
                ;
                assert(mt_and_group == 0x40u8 | (chan & 0x0f)) by (bit_vector)
                    requires mt_and_group == (0x4u8 << 4u8) | (chan & 0x0f);
                vec![mt_and_group, 0x80 | chan, note, hi, lo, 0, 0, 0]
            },
            MidiMsg::Cc(group, cc, val) => {
                let ch = group & 0x0f;
                let mt_and_group: u8 = (0x4u8 << 4u8) | (group & 0x0f);
                assert(mt_and_group == 0x40u8 | (group & 0x0f)) by (bit_vector)
                    requires mt_and_group == (0x4u8 << 4u8) | (group & 0x0f);
                // Upsample the 7-bit value to 32 bits; only the low three bytes are non-zero.
                let val_u32: u32 = (val as u32) * 0x010101;
                let b1 = (val_u32 >> 16u32) as u8;
                let b2 = ((val_u32 >> 8u32) & 0xff) as u8;
                let b3 = (val_u32 & 0xff) as u8;
                let b0 = (val_u32 >> 24u32) as u8;
                assert(b0 == 0 && b1 == val && b2 == val && b3 == val) by (bit_vector)
                    requires
                        val_u32 == (val as u32) * 0x010101,
                        b0 == (val_u32 >> 24u32) as u8,
                        b1 == (val_u32 >> 16u32) as u8,
                        b2 == ((val_u32 >> 8u32) & 0xff) as u8,
                        b3 == (val_u32 & 0xff) as u8,
                ;
                vec![mt_and_group, 0xb0 | ch, cc, 0, b0, b1, b2, b3]
            },
            MidiMsg::Clock => {
                // No equivalent in UMP for the MIDI 1.0 realtime clock.
                vec![]
            },
        };
        assert(bytes@ =~= midi20_bytes(*self));
        bytes
    }
}

} // verus!
