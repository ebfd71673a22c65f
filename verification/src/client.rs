//! The client's side of the link: the identity it announces, the frame it
//! sends each tick, and what it does with each thing it reads.
//!
//! The connection itself is the caller's. Each tick the caller asks
//! `network_update` for the frame to write and tells the link how the write
//! went, then makes one read that does not block and asks `work_enemy` what
//! the bytes mean for the remote participant.

use vstd::prelude::*;
use vstd::utf8::*;
use rand::Rng;
use crate::player::{health_bar_for, update_player_health, HealthBarUpdate, Player, PlayerView};
use crate::text::string_from_utf8;
use crate::wire::{
    decode, encodable, encode, lemma_decode_inverts_encode, lemma_wire_len, parse_wire, wire_bytes,
    DecodeError, ReadEvent,
};

verus! {

/// Most bytes that the client takes from the connection in one read.
pub const READ_BUFFER: usize = 1024;

/// Number of letters in a generated identity.
pub const IDENTITY_LEN: usize = 6;

/// Calls `Rng::gen_range` of `rand` on the thread's generator, with the
/// inclusive range from `low` to `high`. Trusted: the number drawn lies in
/// that range. Which number it is differs from call to call.
#[verifier::external_body]
fn random_between(low: u8, high: u8) -> (drawn: u8)
    requires
        low <= high,
    ensures
        low <= drawn <= high,
{
    rand::thread_rng().gen_range(low..=high)
}

/// An identity as `generate_random_string` makes them: six lower-case
/// letters of the basic Latin alphabet.
pub open spec fn is_identity(text: Seq<char>) -> bool {
    &&& text.len() == 6
    &&& forall|i: int| 0 <= i < text.len() ==> 'a' <= #[trigger] text[i] <= 'z'
}

/// Letters that make an identity: six of them, each the code of a letter
/// from `a` to `z`.
pub open spec fn are_identity_letters(letters: Seq<u8>) -> bool {
    &&& letters.len() == 6
    &&& forall|i: int| 0 <= i < letters.len() ==> 97 <= #[trigger] letters[i] <= 122
}

/// The text that a run of letter codes spells: one character for each code.
pub open spec fn spelled(letters: Seq<u8>) -> Seq<char> {
    Seq::new(letters.len(), |i: int| letters[i] as char)
}

/// A run of bytes below 128 is the UTF-8 form of the text it spells, and of
/// no other.
proof fn lemma_ascii_spells(bytes: Seq<u8>)
    requires
        forall|i: int| 0 <= i < bytes.len() ==> #[trigger] bytes[i] < 128,
    ensures
        encode_utf8(spelled(bytes)) == bytes,
        valid_utf8(bytes),
        forall|text: Seq<char>| encode_utf8(text) == bytes ==> text == spelled(bytes),
{
    let plain = spelled(bytes);
    assert(is_ascii_chars(plain));
    is_ascii_chars_encode_utf8(plain);
    assert(encode_utf8(plain) =~= bytes) by {
        assert forall|i: int| 0 <= i < bytes.len() implies encode_utf8(plain)[i] == bytes[i] by {
            assert(plain[i] as u8 == encode_utf8(plain)[i]);
        }
    }
    encode_utf8_valid_utf8(plain);
    encode_utf8_decode_utf8(plain);
    assert forall|text: Seq<char>| encode_utf8(text) == bytes implies text == spelled(bytes) by {
        encode_utf8_decode_utf8(text);
    }
}

/// The text that identity letters spell is an identity.
pub proof fn lemma_letters_spell_an_identity(letters: Seq<u8>)
    requires
        are_identity_letters(letters),
    ensures
        is_identity(spelled(letters)),
{
}

/// Makes the identity that `letters` spell. There is one exactly where the
/// letters are six codes of letters from `a` to `z`.
pub fn identity_of(letters: Vec<u8>) -> (id: Option<String>)
    ensures
        id is Some <==> are_identity_letters(letters@),
        id matches Some(text) ==> text@ == spelled(letters@),
{
    if letters.len() != IDENTITY_LEN {
        return None;
    }
    let mut i: usize = 0;
    while i < letters.len()
        invariant
            i <= letters.len(),
            forall|k: int| 0 <= k < i ==> 97 <= #[trigger] letters[k] <= 122,
        decreases letters.len() - i,
    {
        if letters[i] < 97 || letters[i] > 122 {
            return None;
        }
        i += 1;
    }
    proof {
        lemma_ascii_spells(letters@);
    }
    string_from_utf8(letters)
}

/// Makes up an identity for this client: six letters, each drawn at random
/// from `a` to `z`.
pub fn generate_random_string() -> (id: String)
    ensures
        is_identity(id@),
{
    let mut letters: Vec<u8> = Vec::new();
    while letters.len() < IDENTITY_LEN
        invariant
            letters.len() <= IDENTITY_LEN,
            forall|i: int| 0 <= i < letters.len() ==> 97 <= #[trigger] letters[i] <= 122,
        decreases IDENTITY_LEN - letters.len(),
    {
        let letter: u8 = random_between(97, 122);
        letters.push(letter);
    }
    proof {
        lemma_letters_spell_an_identity(letters@);
    }
    match identity_of(letters) {
        Some(id) => id,
        None => String::new(),
    }
}

/// The client's end of the connection to the relay, as far as sending goes.
/// It starts usable; the first failed write makes it unusable for good.
pub struct Link {
    connected: bool,
}

impl Link {
    /// Whether frames are still sent on this link.
    pub closed spec fn connected(&self) -> bool {
        self.connected
    }

    /// The link of a connection that has just been made.
    pub fn new() -> (link: Link)
        ensures
            link.connected(),
    {
        Link { connected: true }
    }

    /// Whether frames are still sent on this link.
    pub fn is_connected(&self) -> (usable: bool)
        ensures
            usable == self.connected(),
    {
        self.connected
    }

    /// Notes how the write of a frame went. A failed write makes the link
    /// unusable, and nothing makes it usable again.
    pub fn written(&mut self, delivered: bool)
        ensures
            final(self).connected() == (old(self).connected() && delivered),
    {
        if !delivered {
            self.connected = false;
        }
    }
}

/// The record a client sends for a tick: the identity and health of its own
/// participant, with the position, aim and fire flag of that tick.
pub open spec fn tick_record(
    local: PlayerView,
    position: (u32, u32),
    angle: u32,
    just_shot: bool,
) -> PlayerView {
    PlayerView { id: local.id, position, angle, just_shot, current_health: local.current_health }
}

/// The frame to write this tick, if one is to be written.
///
/// `position` is where the local participant stands once its movement has
/// been resolved; `aim` is the angle from it to the pointer, absent when the
/// pointer has no place in the world; `just_shot` is true on the tick on which
/// the fire input went down. No frame is written on an unusable link, nor
/// without an aim. After writing the frame the caller reports to
/// `Link::written` whether all of it went out.
pub fn network_update(
    link: &Link,
    local: &Player,
    position: (u32, u32),
    aim: Option<u32>,
    just_shot: bool,
) -> (frame: Option<Vec<u8>>)
    ensures
        frame is Some <==> link.connected() && aim is Some,
        frame matches Some(bytes) ==> bytes@ == wire_bytes(
            tick_record(local@, position, aim->Some_0, just_shot),
        ),
{
    if !link.is_connected() {
        return None;
    }
    match aim {
        None => None,
        Some(angle) => {
            let record = Player {
                id: local.id.clone(),
                position,
                angle,
                just_shot,
                current_health: local.current_health,
            };
            Some(encode(&record))
        },
    }
}

/// What a record from the relay changes about the remote participant.
#[derive(Clone, Copy, Debug, PartialEq, Eq)]
pub struct RemoteUpdate {
    /// The remote aim: its barrel is turned to this angle.
    pub angle: u32,
    /// Whether the remote fired: if so one projectile is spawned at its
    /// barrel, flying along `angle`.
    pub fired: bool,
    /// What becomes of the remote health indicator.
    pub health_bar: HealthBarUpdate,
    /// Where the remote participant is moved to at once; absent when the
    /// record carries the local identity.
    pub position: Option<(u32, u32)>,
}

/// What the client does after a read.
#[derive(Clone, Copy, Debug, PartialEq, Eq)]
pub enum Inbound {
    /// Nothing has arrived: nothing to do.
    Nothing,
    /// The read failed; it is reported and nothing else is done.
    ReadFailed,
    /// The bytes were no record; the fault is reported and the bytes are
    /// dropped.
    Discarded(DecodeError),
    /// A record arrived but there is no local participant to hold it
    /// against: the tick is skipped.
    NoLocalPlayer,
    /// A record arrived and is applied to the remote participant.
    Apply(RemoteUpdate),
}

/// The changes that a record asks for, seen from the participant `local`.
pub open spec fn remote_update(local: Seq<char>, record: PlayerView) -> RemoteUpdate {
    RemoteUpdate {
        angle: record.angle,
        fired: record.just_shot,
        health_bar: health_bar_for(record.current_health as int),
        position: if record.id != local {
            Some(record.position)
        } else {
            None
        },
    }
}

/// What follows a read, by what was read and who the local participant is.
pub open spec fn inbound_for(local: Option<Seq<char>>, event: ReadEvent) -> Inbound {
    match event {
        ReadEvent::Failed => Inbound::ReadFailed,
        ReadEvent::Data(bytes) => if bytes@.len() == 0 {
            Inbound::Nothing
        } else {
            match parse_wire(bytes@) {
                Err(fault) => Inbound::Discarded(fault),
                Ok(record) => match local {
                    None => Inbound::NoLocalPlayer,
                    Some(id) => Inbound::Apply(remote_update(id, record)),
                },
            }
        },
    }
}

/// The view of an optional identity.
pub open spec fn id_view(local: Option<&String>) -> Option<Seq<char>> {
    match local {
        None => None,
        Some(id) => Some(id@),
    }
}

/// Decides what one read means for the remote participant.
///
/// A read of no bytes means that nothing has arrived. Bytes that begin with
/// a record turn the remote barrel, spawn one projectile if the record says
/// that a shot was fired, select the remote health indicator, and move the
/// remote participant unless the record carries the local identity. Bytes
/// that hold no record are dropped: nothing is kept for the next tick.
pub fn work_enemy(local: Option<&String>, event: ReadEvent) -> (outcome: Inbound)
    ensures
        outcome == inbound_for(id_view(local), event),
{
    match event {
        ReadEvent::Failed => Inbound::ReadFailed,
        ReadEvent::Data(bytes) => {
            if bytes.len() == 0 {
                return Inbound::Nothing;
            }
            match decode(bytes.as_slice()) {
                Err(fault) => Inbound::Discarded(fault),
                Ok(record) => match local {
                    None => Inbound::NoLocalPlayer,
                    Some(id) => {
                        let position = if record.id != *id {
                            Some(record.position)
                        } else {
                            None
                        };
                        Inbound::Apply(
                            RemoteUpdate {
                                angle: record.angle,
                                fired: record.just_shot,
                                health_bar: update_player_health(record.current_health),
                                position,
                            },
                        )
                    },
                },
            }
        },
    }
}

/// A frame that one client sends is, at another client, the state of the
/// sender: the record that `network_update` wrote is the record that
/// `work_enemy` applies, whether it arrives alone or with more bytes behind
/// it.
pub proof fn lemma_sent_frame_is_applied(
    sent: PlayerView,
    trailing: Seq<u8>,
    arrived: Vec<u8>,
    receiver: Seq<char>,
)
    requires
        encodable(sent),
        arrived@ == wire_bytes(sent) + trailing,
    ensures
        inbound_for(Some(receiver), ReadEvent::Data(arrived)) == Inbound::Apply(
            remote_update(receiver, sent),
        ),
{
    lemma_decode_inverts_encode(sent, trailing);
    lemma_wire_len(sent);
}

} // verus!
