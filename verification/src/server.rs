//! The relay: a registry of who is connected, and the decision what to do
//! with each thing read from a connection.
//!
//! The relay keeps two maps, both keyed by the id of a connection: the last
//! record that arrived on it, and the stream on which it is written to. A
//! stream is known here by a number that the caller chose for it. The state
//! map is a hash map; the stream map is walked for every update and is held
//! as a list. Reading and writing the streams is the caller's work; for every
//! read it asks `handle_client` what follows.

use vstd::prelude::*;
use vstd::hash_map::StringHashMap;
use crate::player::{fresh, Player, PlayerView};
use crate::text::{lossy_text, string_from_utf8_lossy};
use crate::wire::{decode, parse_wire, DecodeError, ReadEvent};

verus! {

/// Most bytes that the relay takes from a connection in one read.
pub const READ_BUFFER: usize = 512;

/// The stream map, held as a list in which no id occurs twice, so that it
/// can be walked for the fan-out.
struct StreamTable {
    entries: Vec<Peer>,
}

impl StreamTable {
    spec fn wf(&self) -> bool {
        forall|i: int, j: int|
            0 <= i < j < self.entries.len() ==> self.entries[i].id@ != self.entries[j].id@
    }

    spec fn has(&self, key: Seq<char>) -> bool {
        exists|i: int| 0 <= i < self.entries.len() && self.entries[i].id@ == key
    }

    spec fn slot(&self, key: Seq<char>) -> int {
        choose|i: int| 0 <= i < self.entries.len() && self.entries[i].id@ == key
    }

    spec fn map(&self) -> Map<Seq<char>, u64> {
        Map::new(|key: Seq<char>| self.has(key), |key: Seq<char>| self.entries[self.slot(key)].stream)
    }

    proof fn lemma_slot(&self, i: int)
        requires
            self.wf(),
            0 <= i < self.entries.len(),
        ensures
            self.has(self.entries[i].id@),
            self.slot(self.entries[i].id@) == i,
            self.map().contains_key(self.entries[i].id@),
            self.map()[self.entries[i].id@] == self.entries[i].stream,
    {
        let key = self.entries[i].id@;
        let s = self.slot(key);
        assert(0 <= s < self.entries.len() && self.entries[s].id@ == key);
        if s < i {
            assert(self.entries[s].id@ != self.entries[i].id@);
        } else if i < s {
            assert(self.entries[i].id@ != self.entries[s].id@);
        }
    }

    fn new() -> (table: Self)
        ensures
            table.wf(),
            table.map() == Map::<Seq<char>, u64>::empty(),
    {
        let table = StreamTable { entries: Vec::new() };
        assert(table.map() =~= Map::<Seq<char>, u64>::empty());
        table
    }

    fn find(&self, key: &String) -> (found: Option<usize>)
        requires
            self.wf(),
        ensures
            found is None <==> !self.map().contains_key(key@),
            found matches Some(i) ==> i < self.entries.len() && self.entries[i as int].id@ == key@,
    {
        let mut i: usize = 0;
        while i < self.entries.len()
            invariant
                i <= self.entries.len(),
                forall|k: int| 0 <= k < i ==> self.entries[k].id@ != key@,
            decreases self.entries.len() - i,
        {
            if self.entries[i].id == *key {
                assert(self.has(key@));
                return Some(i);
            }
            i += 1;
        }
        None
    }

    fn insert(&mut self, key: String, value: u64)
        requires
            old(self).wf(),
        ensures
            final(self).wf(),
            final(self).map() == old(self).map().insert(key@, value),
    {
        let ghost before = *self;
        let ghost k = key@;
        match self.find(&key) {
            Some(i) => {
                self.entries.set(i, Peer { id: key, stream: value });
                assert(self.wf()) by {
                    assert forall|a: int, b: int| 0 <= a < b < self.entries.len() implies self.entries[a].id@
                        != self.entries[b].id@ by {
                        assert(before.entries[a].id@ != before.entries[b].id@);
                    }
                }
                assert forall|q: Seq<char>| self.has(q) == before.map().insert(k, value).contains_key(q) by {
                    if self.has(q) {
                        let s = self.slot(q);
                        assert(before.entries[s].id@ == q);
                        assert(before.has(q));
                    }
                    if before.has(q) {
                        let s = before.slot(q);
                        assert(self.entries[s].id@ == q);
                    }
                    if q == k {
                        assert(self.entries[i as int].id@ == q);
                    }
                }
                assert forall|q: Seq<char>| self.has(q) implies self.map()[q] == before.map().insert(
                    k,
                    value,
                )[q] by {
                    let s = self.slot(q);
                    self.lemma_slot(s);
                    if s != i {
                        before.lemma_slot(s);
                    }
                }
                assert(self.map() =~= before.map().insert(k, value));
            },
            None => {
                self.entries.push(Peer { id: key, stream: value });
                let ghost n = before.entries.len() as int;
                assert(self.wf()) by {
                    assert forall|a: int, b: int| 0 <= a < b < self.entries.len() implies self.entries[a].id@
                        != self.entries[b].id@ by {
                        if b < n {
                            assert(before.entries[a].id@ != before.entries[b].id@);
                        } else {
                            assert(before.entries[a].id@ == self.entries[a].id@);
                            if self.entries[a].id@ == k {
                                assert(before.has(k));
                            }
                        }
                    }
                }
                assert forall|q: Seq<char>| self.has(q) == before.map().insert(k, value).contains_key(q) by {
                    if self.has(q) {
                        let s = self.slot(q);
                        if s < n {
                            assert(before.entries[s].id@ == q);
                            assert(before.has(q));
                        }
                    }
                    if before.has(q) {
                        let s = before.slot(q);
                        assert(self.entries[s].id@ == q);
                    }
                    if q == k {
                        assert(self.entries[n].id@ == q);
                    }
                }
                assert forall|q: Seq<char>| self.has(q) implies self.map()[q] == before.map().insert(
                    k,
                    value,
                )[q] by {
                    let s = self.slot(q);
                    self.lemma_slot(s);
                    if s < n {
                        before.lemma_slot(s);
                    }
                }
                assert(self.map() =~= before.map().insert(k, value));
            },
        }
    }

    fn remove(&mut self, key: &String)
        requires
            old(self).wf(),
        ensures
            final(self).wf(),
            final(self).map() == old(self).map().remove(key@),
    {
        let ghost before = *self;
        let ghost k = key@;
        match self.find(key) {
            Some(i) => {
                let _ = self.entries.remove(i);
                assert(self.wf()) by {
                    assert forall|a: int, b: int| 0 <= a < b < self.entries.len() implies self.entries[a].id@
                        != self.entries[b].id@ by {
                        let a0 = if a < i { a } else { a + 1 };
                        let b0 = if b < i { b } else { b + 1 };
                        assert(before.entries[a0].id@ != before.entries[b0].id@);
                    }
                }
                assert forall|q: Seq<char>| self.has(q) == before.map().remove(k).contains_key(q) by {
                    if self.has(q) {
                        let s = self.slot(q);
                        let s0 = if s < i { s } else { s + 1 };
                        assert(before.entries[s0].id@ == q);
                        assert(before.has(q));
                        if q == k {
                            before.lemma_slot(s0);
                            before.lemma_slot(i as int);
                        }
                    }
                    if before.has(q) && q != k {
                        let s0 = before.slot(q);
                        let s = if s0 < i { s0 } else { s0 - 1 };
                        assert(self.entries[s].id@ == q);
                    }
                }
                assert forall|q: Seq<char>| self.has(q) implies self.map()[q] == before.map().remove(k)[q] by {
                    let s = self.slot(q);
                    self.lemma_slot(s);
                    let s0 = if s < i { s } else { s + 1 };
                    before.lemma_slot(s0);
                }
                assert(self.map() =~= before.map().remove(k));
            },
            None => {
                assert(self.map() =~= before.map().remove(k));
            },
        }
    }
}

/// One connection that an update is to be written to.
pub struct Peer {
    /// The participant on that connection.
    pub id: String,
    /// The number of its stream.
    pub stream: u64,
}

/// What the handler of a connection does after a read.
pub enum RelayAction {
    /// Stop handling the connection. Its id has been taken out of both maps.
    Close,
    /// The bytes were no record: report the fault and read on.
    Ignore(DecodeError),
    /// Write `payload` to each of `peers`, going on to the next peer when a
    /// write fails, and read on.
    Forward { peers: Vec<Peer>, payload: Vec<u8> },
}

/// The relay's two maps.
pub struct Relay {
    player_table: StringHashMap<Player>,
    stream_table: StreamTable,
}

/// `peers` are the connections an update from `sender` goes to: every id in
/// `streams` but the sender's, each once and with its stream.
pub open spec fn is_fan_out(streams: Map<Seq<char>, u64>, sender: Seq<char>, peers: Seq<Peer>) -> bool {
    &&& forall|i: int|
        0 <= i < peers.len() ==> {
            &&& (#[trigger] peers[i]).id@ != sender
            &&& streams.contains_key(peers[i].id@)
            &&& streams[peers[i].id@] == peers[i].stream
        }
    &&& forall|id: Seq<char>| #[trigger]
        streams.contains_key(id) && id != sender ==> exists|i: int|
            0 <= i < peers.len() && (#[trigger] peers[i]).id@ == id
    &&& forall|i: int, j: int|
        0 <= i < j < peers.len() ==> (#[trigger] peers[i]).id@ != (#[trigger] peers[j]).id@
}

impl Relay {
    #[verifier::type_invariant]
    spec fn inv(self) -> bool {
        self.stream_table.wf()
    }

    /// The state map: for each connection, by its id, the record last filed
    /// for it.
    pub closed spec fn players(&self) -> Map<Seq<char>, PlayerView> {
        self.player_table@.map_values(|p: Player| p@)
    }

    /// The stream map: for each id, the number of the stream that updates for
    /// it are written to.
    pub closed spec fn streams(&self) -> Map<Seq<char>, u64> {
        self.stream_table.map()
    }

    /// Takes the state map out to be changed, leaving an empty one behind.
    fn take_players(&mut self) -> (table: StringHashMap<Player>)
        ensures
            table == old(self).player_table,
            final(self).stream_table == old(self).stream_table,
    {
        proof {
            use_type_invariant(&*self);
        }
        let mut table: StringHashMap<Player> = StringHashMap::new();
        std::mem::swap(&mut self.player_table, &mut table);
        table
    }

    /// Takes the stream map out to be changed, leaving an empty one behind.
    fn take_streams(&mut self) -> (table: StreamTable)
        ensures
            table == old(self).stream_table,
            final(self).player_table == old(self).player_table,
    {
        proof {
            use_type_invariant(&*self);
        }
        let mut table: StreamTable = StreamTable::new();
        std::mem::swap(&mut self.stream_table, &mut table);
        table
    }

    /// A relay to which nobody is connected.
    pub fn new() -> (relay: Relay)
        ensures
            relay.players() == Map::<Seq<char>, PlayerView>::empty(),
            relay.streams() == Map::<Seq<char>, u64>::empty(),
    {
        let relay = Relay { player_table: StringHashMap::new(), stream_table: StreamTable::new() };
        assert(relay.players() =~= Map::<Seq<char>, PlayerView>::empty());
        relay
    }

    /// Files a new connection under `id`: a fresh record in the state map and
    /// `stream` in the stream map. An earlier connection of the same id is
    /// replaced in both.
    pub fn register(&mut self, id: String, stream: u64)
        ensures
            final(self).players() == old(self).players().insert(id@, fresh(id@)),
            final(self).streams() == old(self).streams().insert(id@, stream),
    {
        proof {
            use_type_invariant(&*self);
        }
        let record = Player::new(id.clone());
        let mut players = self.take_players();
        players.insert(id.clone(), record);
        self.player_table = players;
        let mut streams = self.take_streams();
        streams.insert(id, stream);
        self.stream_table = streams;
        assert(self.players() =~= old(self).players().insert(id@, fresh(id@)));
    }

    /// Admits a connection whose first read brought `token`. The token, read
    /// as text, becomes the id of the connection, which is filed as by
    /// `register`. Returns the id.
    pub fn connect(&mut self, token: &[u8], stream: u64) -> (id: String)
        ensures
            id@ == lossy_text(token@),
            vstd::utf8::valid_utf8(token@) ==> id@ == vstd::utf8::decode_utf8(token@),
            final(self).players() == old(self).players().insert(id@, fresh(id@)),
            final(self).streams() == old(self).streams().insert(id@, stream),
    {
        let id = string_from_utf8_lossy(token);
        self.register(id.clone(), stream);
        id
    }

    /// Files `record` in the state map as the state of the connection `id`,
    /// in place of what was filed for that connection. The record is kept as
    /// it is, whatever id it carries itself.
    pub fn store(&mut self, id: &String, record: Player)
        ensures
            final(self).players() == old(self).players().insert(id@, record@),
            final(self).streams() == old(self).streams(),
    {
        proof {
            use_type_invariant(&*self);
        }
        let mut players = self.take_players();
        players.insert(id.clone(), record);
        self.player_table = players;
        assert(self.players() =~= old(self).players().insert(id@, record@));
    }

    /// Takes `id` out of both maps.
    pub fn disconnect(&mut self, id: &String)
        ensures
            final(self).players() == old(self).players().remove(id@),
            final(self).streams() == old(self).streams().remove(id@),
    {
        proof {
            use_type_invariant(&*self);
        }
        let mut players = self.take_players();
        players.remove(id.as_str());
        self.player_table = players;
        let mut streams = self.take_streams();
        streams.remove(id);
        self.stream_table = streams;
        assert(self.players() =~= old(self).players().remove(id@));
    }

    /// The connections an update from `sender` is written to: all that are
    /// in the stream map, but the sender's own.
    pub fn peers(&self, sender: &String) -> (peers: Vec<Peer>)
        ensures
            is_fan_out(self.streams(), sender@, peers@),
    {
        proof {
            use_type_invariant(self);
        }
        let table = &self.stream_table;
        let mut peers: Vec<Peer> = Vec::new();
        let ghost mut origin: Seq<int> = Seq::empty();
        let mut i: usize = 0;
        while i < table.entries.len()
            invariant
                table.wf(),
                i <= table.entries.len(),
                origin.len() == peers.len(),
                forall|k: int|
                    0 <= k < peers.len() ==> {
                        &&& 0 <= #[trigger] origin[k] < i
                        &&& peers[k].id@ == table.entries[origin[k]].id@
                        &&& peers[k].stream == table.entries[origin[k]].stream
                        &&& peers[k].id@ != sender@
                    },
                forall|a: int, b: int|
                    0 <= a < b < peers.len() ==> #[trigger] origin[a] < #[trigger] origin[b],
                forall|s: int|
                    0 <= s < i && table.entries[s].id@ != sender@ ==> exists|k: int|
                        0 <= k < peers.len() && #[trigger] origin[k] == s,
            decreases table.entries.len() - i,
        {
            if table.entries[i].id != *sender {
                let ghost old_origin = origin;
                peers.push(Peer { id: table.entries[i].id.clone(), stream: table.entries[i].stream });
                proof {
                    origin = origin.push(i as int);
                    assert forall|s: int|
                        0 <= s < i + 1 && table.entries[s].id@ != sender@ implies exists|k: int|
                        0 <= k < peers.len() && #[trigger] origin[k] == s by {
                        if s < i {
                            let k = choose|k: int| 0 <= k < old_origin.len() && old_origin[k] == s;
                            assert(origin[k] == s);
                        } else {
                            assert(origin[old_origin.len() as int] == s);
                        }
                    }
                }
            }
            i += 1;
        }
        proof {
            let streams = self.streams();
            assert forall|k: int| 0 <= k < peers.len() implies {
                &&& (#[trigger] peers[k]).id@ != sender@
                &&& streams.contains_key(peers[k].id@)
                &&& streams[peers[k].id@] == peers[k].stream
            } by {
                table.lemma_slot(origin[k]);
            }
            assert forall|id: Seq<char>| #[trigger]
                streams.contains_key(id) && id != sender@ implies exists|k: int|
                0 <= k < peers.len() && (#[trigger] peers[k]).id@ == id by {
                let s = table.slot(id);
                let k = choose|k: int| 0 <= k < peers.len() && origin[k] == s;
                assert(peers[k].id@ == id);
            }
            assert forall|a: int, b: int| 0 <= a < b < peers.len() implies (#[trigger] peers[a]).id@ != (
            #[trigger] peers[b]).id@ by {
                assert(origin[a] < origin[b]);
            }
        }
        peers
    }

    /// The record filed under `id`, if there is one.
    pub fn player(&self, id: &String) -> (found: Option<Player>)
        ensures
            found is Some <==> self.players().contains_key(id@),
            found matches Some(p) ==> p@ == self.players()[id@],
    {
        match self.player_table.get(id.as_str()) {
            Some(record) => Some(record.clone()),
            None => None,
        }
    }

    /// The stream filed under `id`, if there is one.
    pub fn stream(&self, id: &String) -> (found: Option<u64>)
        ensures
            found is Some <==> self.streams().contains_key(id@),
            found matches Some(s) ==> s == self.streams()[id@],
    {
        proof {
            use_type_invariant(self);
        }
        match self.stream_table.find(id) {
            Some(i) => {
                proof {
                    self.stream_table.lemma_slot(i as int);
                }
                Some(self.stream_table.entries[i].stream)
            },
            None => None,
        }
    }
}

/// What `handle_client` does to the maps when it closes the connection of
/// `id`.
pub open spec fn closed_connection(before: Relay, after: Relay, id: Seq<char>) -> bool {
    &&& after.players() == before.players().remove(id)
    &&& after.streams() == before.streams().remove(id)
}

/// What `handle_client` does to the maps when it files `record` for the
/// connection `id`: the record takes the place of that connection's entry in
/// the state map, and the stream map stays as it is.
pub open spec fn filed(before: Relay, after: Relay, id: Seq<char>, record: PlayerView) -> bool {
    &&& after.players() == before.players().insert(id, record)
    &&& after.streams() == before.streams()
}

/// What `handle_client` leaves of the maps when it changes neither.
pub open spec fn untouched(before: Relay, after: Relay) -> bool {
    &&& after.players() == before.players()
    &&& after.streams() == before.streams()
}

/// One step of the handler of the connection `player_id`: decides what
/// follows a read.
///
/// A failed read, and a read of no bytes, end the connection: its id leaves
/// both maps. Bytes that hold no record are reported and change nothing.
/// Bytes that begin with a record have the record filed in the state map as
/// the state of this connection, in place of what was filed for it, and are
/// forwarded as they came to every connection in the stream map but the one
/// they came from. No other entry of either map changes, whatever id the
/// record carries.
pub fn handle_client(relay: &mut Relay, player_id: &String, event: ReadEvent) -> (action:
    RelayAction)
    ensures
        match event {
            ReadEvent::Failed => action is Close && closed_connection(
                *old(relay),
                *final(relay),
                player_id@,
            ),
            ReadEvent::Data(bytes) => if bytes@.len() == 0 {
                action is Close && closed_connection(*old(relay), *final(relay), player_id@)
            } else {
                match parse_wire(bytes@) {
                    Err(fault) => action == RelayAction::Ignore(fault) && untouched(
                        *old(relay),
                        *final(relay),
                    ),
                    Ok(record) => {
                        &&& action matches RelayAction::Forward { peers, payload }
                        &&& payload@ == bytes@
                        &&& is_fan_out(old(relay).streams(), player_id@, peers@)
                        &&& filed(*old(relay), *final(relay), player_id@, record)
                    },
                }
            },
        },
{
    match event {
        ReadEvent::Failed => {
            relay.disconnect(player_id);
            RelayAction::Close
        },
        ReadEvent::Data(bytes) => {
            if bytes.len() == 0 {
                relay.disconnect(player_id);
                RelayAction::Close
            } else {
                match decode(bytes.as_slice()) {
                    Err(fault) => RelayAction::Ignore(fault),
                    Ok(record) => {
                        relay.store(player_id, record);
                        let peers = relay.peers(player_id);
                        RelayAction::Forward { peers, payload: bytes }
                    },
                }
            }
        },
    }
}

/// An update reaches every other participant and is never sent back: with
/// `peers` the fan-out of an update from `sender`, every connected id other
/// than the sender's is the id of exactly one peer, the sender's id is the
/// id of none, and there are as many peers as there are other connections.
pub proof fn lemma_fan_out_reaches_the_others(
    streams: Map<Seq<char>, u64>,
    sender: Seq<char>,
    peers: Seq<Peer>,
)
    requires
        is_fan_out(streams, sender, peers),
    ensures
        forall|i: int| 0 <= i < peers.len() ==> (#[trigger] peers[i]).id@ != sender,
        forall|id: Seq<char>| #[trigger]
            streams.contains_key(id) && id != sender ==> exists|i: int|
                0 <= i < peers.len() && (#[trigger] peers[i]).id@ == id && forall|j: int|
                    0 <= j < peers.len() && (#[trigger] peers[j]).id@ == id ==> j == i,
        streams.dom().remove(sender).finite(),
        peers.len() == streams.dom().remove(sender).len(),
{
    let ids = peers.map_values(|p: Peer| p.id@);
    assert(ids.no_duplicates()) by {
        assert forall|i: int, j: int| 0 <= i < ids.len() && 0 <= j < ids.len() && i != j implies ids[i]
            != ids[j] by {
            if i < j {
                assert(peers[i].id@ != peers[j].id@);
            } else {
                assert(peers[j].id@ != peers[i].id@);
            }
        }
    }
    assert(ids.to_set() =~= streams.dom().remove(sender)) by {
        assert forall|id: Seq<char>| ids.to_set().contains(id) == streams.dom().remove(
            sender,
        ).contains(id) by {
            if ids.to_set().contains(id) {
                let i = choose|i: int| 0 <= i < ids.len() && ids[i] == id;
                assert(peers[i].id@ == id);
            }
            if streams.contains_key(id) && id != sender {
                let i = choose|i: int| 0 <= i < peers.len() && (#[trigger] peers[i]).id@ == id;
                assert(ids[i] == id);
            }
        }
    }
    ids.unique_seq_to_set();
    vstd::seq_lib::seq_to_set_is_finite(ids);
    assert forall|id: Seq<char>| #[trigger]
        streams.contains_key(id) && id != sender implies exists|i: int|
        0 <= i < peers.len() && (#[trigger] peers[i]).id@ == id && forall|j: int|
            0 <= j < peers.len() && (#[trigger] peers[j]).id@ == id ==> j == i by {
        let i = choose|i: int| 0 <= i < peers.len() && (#[trigger] peers[i]).id@ == id;
        assert forall|j: int| 0 <= j < peers.len() && (#[trigger] peers[j]).id@ == id implies j
            == i by {
            if j < i {
                assert(peers[j].id@ != peers[i].id@);
            } else if i < j {
                assert(peers[i].id@ != peers[j].id@);
            }
        }
    }
}

/// What `Relay::register` does to the maps.
pub open spec fn registered(before: Relay, after: Relay, id: Seq<char>, stream: u64) -> bool {
    &&& after.players() == before.players().insert(id, fresh(id))
    &&& after.streams() == before.streams().insert(id, stream)
}

/// The two maps know the same ids.
pub open spec fn maps_agree(relay: Relay) -> bool {
    relay.players().dom() == relay.streams().dom()
}

/// An id is in the registry exactly while its connection is open: the two
/// maps keep knowing the same ids through every admission, through every
/// record that arrives on a connection in the stream map, and through every
/// closing.
pub proof fn lemma_maps_stay_in_step(
    before: Relay,
    after: Relay,
    id: Seq<char>,
    stream: u64,
    record: PlayerView,
)
    requires
        maps_agree(before),
        registered(before, after, id, stream) || closed_connection(before, after, id) || (filed(
            before,
            after,
            id,
            record,
        ) && before.streams().contains_key(id)),
    ensures
        maps_agree(after),
{
    assert(after.players().dom() =~= after.streams().dom());
}

/// A record changes the entry of the connection it arrived on and nothing
/// else: that entry is the record, every other entry of the state map is what
/// it was, no id appears that was not there but the connection's own, and
/// where the connection was filed already the state map knows the same ids as
/// before.
pub proof fn lemma_record_changes_its_connection_only(
    before: Relay,
    after: Relay,
    id: Seq<char>,
    record: PlayerView,
)
    requires
        filed(before, after, id, record),
    ensures
        after.players().contains_key(id),
        after.players()[id] == record,
        forall|other: Seq<char>|
            other != id ==> (#[trigger] after.players().contains_key(other)
                <==> before.players().contains_key(other)),
        forall|other: Seq<char>|
            other != id && before.players().contains_key(other) ==> #[trigger] after.players()[other]
                == before.players()[other],
        before.players().contains_key(id) ==> after.players().dom() == before.players().dom(),
        after.streams() == before.streams(),
{
    if before.players().contains_key(id) {
        assert(after.players().dom() =~= before.players().dom());
    }
}

/// Once a connection is closed nothing is sent to it any more: its id is in
/// neither map, and no fan-out from the maps as they then are names it.
pub proof fn lemma_closed_connection_is_left_out(
    before: Relay,
    after: Relay,
    id: Seq<char>,
    sender: Seq<char>,
    peers: Seq<Peer>,
)
    requires
        closed_connection(before, after, id),
        is_fan_out(after.streams(), sender, peers),
    ensures
        !after.players().contains_key(id),
        !after.streams().contains_key(id),
        forall|i: int| 0 <= i < peers.len() ==> (#[trigger] peers[i]).id@ != id,
{
}

} // verus!
