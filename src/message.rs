use vstd::prelude::*;
use vstd::utf8::{decode_utf8, encode_utf8, valid_utf8};
use crate::types::{base58_of, PeerId, TopicHash};
use crate::wire::{field, push_field, push_string_field, string_fields};

verus! {

/// The views of a sequence of topics.
pub open spec fn topic_views(ts: Seq<TopicHash>) -> Seq<Seq<char>> {
    ts.map_values(|t: TopicHash| t@)
}

/// The wire record of a message: `from`, `data`, `seqno`, then each topic id.
pub open spec fn message_record(
    from: Seq<u8>,
    data: Seq<u8>,
    seq_no: Seq<u8>,
    topics: Seq<Seq<char>>,
) -> Seq<u8> {
    field(0x0a, from) + field(0x12, data) + field(0x1a, seq_no) + string_fields(0x22, topics)
}

/// Relies on `String::from_utf8`: `Ok` exactly for valid UTF-8, holding the
/// decoded characters.
#[verifier::external_body]
fn utf8_to_string(b: Vec<u8>) -> (r: Option<String>)
    ensures
        r.is_some() == valid_utf8(b@),
        r matches Some(s) ==> s@ == decode_utf8(b@),
{
    String::from_utf8(b).ok()
}

/// Relies on `chrono::Utc::now`: the current time in milliseconds since the
/// epoch; nothing is known of its value.
#[verifier::external_body]
pub(crate) fn now_millis() -> (r: i64) {
    chrono::Utc::now().timestamp_millis()
}

/// The id of a message: its sequence number as text, then its source in
/// base 58.
#[derive(Debug, Default, Clone, PartialEq, Eq, Hash)]
pub struct MsgId {
    id: String,
}

impl View for MsgId {
    type V = Seq<char>;

    closed spec fn view(&self) -> Seq<char> {
        self.id@
    }
}

impl MsgId {
    /// The id of `msg`, whose sequence number must be UTF-8.
    pub fn new(msg: GMessage) -> (r: MsgId)
        requires
            valid_utf8(msg.seq_no@),
        ensures
            r@ == decode_utf8(msg.seq_no@) + base58_of(msg.source@),
    {
        let src = msg.source.to_base58();
        let s = utf8_to_string(msg.seq_no).unwrap();
        MsgId { id: s.concat(src.as_str()) }
    }

    /// A message id with the given text.
    pub fn from_raw(id: String) -> (r: MsgId)
        ensures
            r@ == id@,
    {
        MsgId { id }
    }

    /// The id as text.
    pub fn into_string(self) -> (r: String)
        ensures
            r@ == self@,
    {
        self.id
    }

    /// The id as text, borrowed.
    pub fn as_str(&self) -> (r: &str)
        ensures
            r@ == self@,
    {
        self.id.as_str()
    }

    /// Whether two ids are the same.
    pub fn same(&self, other: &MsgId) -> (r: bool)
        ensures
            r == (self@ == other@),
    {
        self.id == other.id
    }

    /// A copy of the id.
    pub fn duplicate(&self) -> (r: MsgId)
        ensures
            r@ == self@,
    {
        MsgId { id: self.id.clone() }
    }
}

/// The base-58 digest of a message's wire record.
#[derive(Debug, Default, Clone, PartialEq, Eq, Hash)]
pub struct MsgHash {
    hash: String,
}

impl View for MsgHash {
    type V = Seq<char>;

    closed spec fn view(&self) -> Seq<char> {
        self.hash@
    }
}

impl MsgHash {
    /// The hash of `msg`, computed from its wire record.
    pub fn new(msg: GMessage) -> (r: MsgHash)
        ensures
            r@ == base58_of(msg.record()),
    {
        MsgHashBuilder::new(msg).build()
    }

    /// A message hash with the given text.
    pub fn from_raw(hash: String) -> (r: MsgHash)
        ensures
            r@ == hash@,
    {
        MsgHash { hash }
    }

    /// The hash as text.
    pub fn into_string(self) -> (r: String)
        ensures
            r@ == self@,
    {
        self.hash
    }

    /// The hash as text, borrowed.
    pub fn as_str(&self) -> (r: &str)
        ensures
            r@ == self@,
    {
        self.hash.as_str()
    }

    /// Whether two hashes are the same.
    pub fn same(&self, other: &MsgHash) -> (r: bool)
        ensures
            r == (self@ == other@),
    {
        self.hash == other.hash
    }

    /// A copy of the hash.
    pub fn duplicate(&self) -> (r: MsgHash)
        ensures
            r@ == self@,
    {
        MsgHash { hash: self.hash.clone() }
    }
}

/// A compact reference to a message, by hash or by id.
#[derive(Debug, Clone, PartialEq, Eq, Hash)]
pub enum MsgRep {
    Hash(MsgHash),
    Id(MsgId),
}

impl View for MsgRep {
    /// Whether the reference is a hash, and its text.
    type V = (bool, Seq<char>);

    open spec fn view(&self) -> (bool, Seq<char>) {
        match self {
            MsgRep::Hash(h) => (true, h@),
            MsgRep::Id(i) => (false, i@),
        }
    }
}

impl MsgRep {
    /// The text carried on the wire for this reference.
    pub fn to_wire_string(&self) -> (r: String)
        ensures
            r@ == self@.1,
    {
        match self {
            MsgRep::Hash(h) => h.hash.clone(),
            MsgRep::Id(i) => i.id.clone(),
        }
    }

    /// Whether two references are the same.
    pub fn same(&self, other: &MsgRep) -> (r: bool)
        ensures
            r == (self@ == other@),
    {
        match (self, other) {
            (MsgRep::Hash(a), MsgRep::Hash(b)) => a.hash == b.hash,
            (MsgRep::Id(a), MsgRep::Id(b)) => a.id == b.id,
            _ => false,
        }
    }

    /// A copy of the reference.
    pub fn duplicate(&self) -> (r: MsgRep)
        ensures
            r@ == self@,
    {
        match self {
            MsgRep::Hash(h) => MsgRep::Hash(h.duplicate()),
            MsgRep::Id(i) => MsgRep::Id(i.duplicate()),
        }
    }
}

/// A published message. Its hash is fixed when it is built.
#[derive(Debug, Clone, PartialEq, Eq, Hash)]
pub struct GMessage {
    /// The peer that published the message.
    pub source: PeerId,
    /// The payload.
    pub data: Vec<u8>,
    /// The publisher's sequence number.
    pub seq_no: Vec<u8>,
    /// The topics that the message belongs to.
    pub topics: Vec<TopicHash>,
    /// The publisher's timestamp, in milliseconds since the epoch.
    pub time_sent: i64,
    /// The hash of the wire record, fixed when the message is built.
    pub hash: MsgHash,
    /// The id of the message, when one was set.
    pub id: Option<MsgId>,
}

impl GMessage {
    /// The wire record that the hash is computed over.
    pub open spec fn record(&self) -> Seq<u8> {
        message_record(self.source@, self.data@, self.seq_no@, topic_views(self.topics@))
    }

    /// The hash stored in the message.
    pub open spec fn stored_hash(&self) -> Seq<char> {
        self.hash@
    }

    /// The publisher's timestamp, in milliseconds since the epoch.
    pub open spec fn stored_time(&self) -> i64 {
        self.time_sent
    }

    /// The stored id, if one was set.
    pub open spec fn stored_id(&self) -> Option<Seq<char>> {
        match self.id {
            Some(i) => Some(i@),
            None => None,
        }
    }

    /// The stored hash is that of the message's wire record.
    pub open spec fn hash_ok(&self) -> bool {
        self.stored_hash() == base58_of(self.record())
    }

    /// Builds a message, stamping it with `time_sent` and its hash.
    pub fn new(
        source: PeerId,
        data: Vec<u8>,
        seq_no: Vec<u8>,
        topics: Vec<TopicHash>,
        time_sent: i64,
    ) -> (r: GMessage)
        ensures
            r.source@ == source@,
            r.data@ == data@,
            r.seq_no@ == seq_no@,
            r.topics@ == topics@,
            r.stored_time() == time_sent,
            r.stored_id() is None,
            r.hash_ok(),
    {
        let bytes = encode_message(&source, &data, &seq_no, &topics);
        let hash = MsgHash { hash: crate::types::base58_encode(&bytes) };
        GMessage { source, data, seq_no, topics, time_sent, hash, id: None }
    }

    /// The wire record of the message.
    pub fn to_bytes(&self) -> (r: Vec<u8>)
        ensures
            r@ == self.record(),
    {
        encode_message(&self.source, &self.data, &self.seq_no, &self.topics)
    }

    /// Replaces the stored hash.
    pub fn set_hash(&mut self, msg_hash: MsgHash)
        ensures
            *final(self) == (GMessage { hash: msg_hash, ..*old(self) }),
            final(self).stored_hash() == msg_hash@,
    {
        self.hash = msg_hash;
    }

    /// The hash of the message.
    pub fn get_hash(&self) -> (r: &MsgHash)
        ensures
            r@ == self.stored_hash(),
    {
        &self.hash
    }

    /// Stamps the message with the current time.
    pub fn set_timestamp(&mut self)
        ensures
            *final(self) == (GMessage { time_sent: final(self).time_sent, ..*old(self) }),
    {
        self.time_sent = now_millis();
    }

    /// The publisher's timestamp, in milliseconds since the epoch.
    pub fn get_timestamp(&self) -> (r: i64)
        ensures
            r == self.stored_time(),
    {
        self.time_sent
    }

    /// Sets the id of the message.
    pub fn set_id(&mut self, msg_id: MsgId)
        ensures
            *final(self) == (GMessage { id: Some(msg_id), ..*old(self) }),
            final(self).stored_id() == Some(msg_id@),
    {
        self.id = Some(msg_id);
    }

    /// The id of the message, if it was set.
    pub fn get_id(&self) -> (r: &Option<MsgId>)
        ensures
            self.stored_id() == (match r {
                Some(i) => Some(i@),
                None => None::<Seq<char>>,
            }),
    {
        &self.id
    }

    /// The two messages agree in every field.
    pub open spec fn same_content(&self, other: GMessage) -> bool {
        &&& self.record() == other.record()
        &&& self.stored_hash() == other.stored_hash()
        &&& self.stored_time() == other.stored_time()
        &&& self.stored_id() == other.stored_id()
    }

    /// A copy of the message.
    pub fn duplicate(&self) -> (r: GMessage)
        ensures
            r.same_content(*self),
            r.source@ == self.source@,
            r.data@ == self.data@,
            r.seq_no@ == self.seq_no@,
            topic_views(r.topics@) == topic_views(self.topics@),
    {
        let mut topics: Vec<TopicHash> = Vec::new();
        let mut i: usize = 0;
        while i < self.topics.len()
            invariant
                0 <= i <= self.topics@.len(),
                topics@.len() == i,
                forall|j: int| 0 <= j < i ==> (#[trigger] topics@[j])@ == self.topics@[j]@,
            decreases self.topics@.len() - i,
        {
            topics.push(self.topics[i].duplicate());
            i = i + 1;
        }
        assert(topic_views(topics@) =~= topic_views(self.topics@));
        let id = match &self.id {
            Some(x) => Some(x.duplicate()),
            None => None,
        };
        GMessage {
            source: self.source.duplicate(),
            data: crate::types::copy_bytes(&self.data),
            seq_no: crate::types::copy_bytes(&self.seq_no),
            topics,
            time_sent: self.time_sent,
            hash: self.hash.duplicate(),
            id,
        }
    }

    /// Whether the message belongs to `topic`.
    pub fn has_topic(&self, topic: &TopicHash) -> (r: bool)
        ensures
            r == topic_views(self.topics@).contains(topic@),
    {
        let mut i: usize = 0;
        while i < self.topics.len()
            invariant
                0 <= i <= self.topics@.len(),
                forall|j: int| 0 <= j < i ==> self.topics@[j]@ != topic@,
            decreases self.topics@.len() - i,
        {
            if self.topics[i].same(topic) {
                assert(topic_views(self.topics@)[i as int] == topic@);
                return true;
            }
            i = i + 1;
        }
        assert forall|j: int| 0 <= j < topic_views(self.topics@).len() implies
            topic_views(self.topics@)[j] != topic@ by {
            assert(topic_views(self.topics@)[j] == self.topics@[j]@);
        }
        false
    }
}

/// Encodes the wire record of a message.
pub fn encode_message(
    source: &PeerId,
    data: &Vec<u8>,
    seq_no: &Vec<u8>,
    topics: &Vec<TopicHash>,
) -> (r: Vec<u8>)
    ensures
        r@ == message_record(source@, data@, seq_no@, topic_views(topics@)),
{
    let mut out: Vec<u8> = Vec::new();
    let from = source.to_bytes();
    push_field(&mut out, 0x0a, from.as_slice());
    push_field(&mut out, 0x12, data.as_slice());
    push_field(&mut out, 0x1a, seq_no.as_slice());
    let ghost head = out@;
    let ghost tv = topic_views(topics@);
    assert(head =~= field(0x0a, source@) + field(0x12, data@) + field(0x1a, seq_no@));
    let mut i: usize = 0;
    while i < topics.len()
        invariant
            0 <= i <= topics@.len(),
            tv == topic_views(topics@),
            out@ == head + string_fields(0x22, tv.subrange(0, i as int)),
        decreases topics@.len() - i,
    {
        push_string_field(&mut out, 0x22, topics[i].as_str());
        assert(tv.subrange(0, i as int + 1).drop_last() =~= tv.subrange(0, i as int));
        assert(out@ =~= head + string_fields(0x22, tv.subrange(0, i as int + 1)));
        i = i + 1;
    }
    assert(tv.subrange(0, i as int) =~= tv);
    out
}

/// Computes the hash of a message from its wire record.
pub struct MsgHashBuilder {
    bytes: Vec<u8>,
}

impl MsgHashBuilder {
    /// The encoded wire record held by the builder.
    pub closed spec fn payload(&self) -> Seq<u8> {
        self.bytes@
    }

    /// A builder for the hash of `msg`.
    pub fn new(msg: GMessage) -> (r: MsgHashBuilder)
        ensures
            r.payload() == msg.record(),
    {
        MsgHashBuilder { bytes: msg.to_bytes() }
    }

    /// The hash: the base-58 text of the wire record.
    pub fn build(self) -> (r: MsgHash)
        ensures
            r@ == base58_of(self.payload()),
    {
        MsgHash { hash: crate::types::base58_encode(&self.bytes) }
    }
}

/// Messages keyed by a reference, each reference once.
pub struct MsgMap {
    entries: Vec<(MsgRep, GMessage)>,
}

impl View for MsgMap {
    /// The entries, in the order their keys were first inserted.
    type V = Seq<((bool, Seq<char>), GMessage)>;

    closed spec fn view(&self) -> Seq<((bool, Seq<char>), GMessage)> {
        self.entries@.map_values(|e: (MsgRep, GMessage)| (e.0@, e.1))
    }
}

/// Whether some entry of `s` has key `k`.
pub open spec fn has_key(s: Seq<((bool, Seq<char>), GMessage)>, k: (bool, Seq<char>)) -> bool {
    exists|i: int| 0 <= i < s.len() && s[i].0 == k
}

impl MsgMap {
    /// No key is held twice.
    pub open spec fn wf(&self) -> bool {
        forall|i: int, j: int| 0 <= i < j < self@.len() ==> self@[i].0 != self@[j].0
    }

    /// An empty map.
    pub fn new() -> (r: MsgMap)
        ensures
            r.wf(),
            r@ == Seq::<((bool, Seq<char>), GMessage)>::empty(),
    {
        let r = MsgMap { entries: Vec::new() };
        assert(r@ =~= Seq::<((bool, Seq<char>), GMessage)>::empty());
        r
    }

    fn find(&self, k: &MsgRep) -> (r: Option<usize>)
        ensures
            r matches Some(i) ==> i < self@.len() && self@[i as int].0 == k@,
            r is None ==> !has_key(self@, k@),
    {
        let mut i: usize = 0;
        while i < self.entries.len()
            invariant
                0 <= i <= self@.len(),
                self@.len() == self.entries@.len(),
                forall|j: int| 0 <= j < i ==> self@[j].0 != k@,
            decreases self@.len() - i,
        {
            assert(self@[i as int].0 == self.entries@[i as int].0@);
            if self.entries[i].0.same(k) {
                return Some(i);
            }
            i = i + 1;
        }
        None
    }

    /// Maps `mr` to `m`; returns the message it was mapped to before, if any.
    pub fn insert(&mut self, mr: MsgRep, m: GMessage) -> (r: Option<GMessage>)
        requires
            old(self).wf(),
        ensures
            final(self).wf(),
            r is Some == has_key(old(self)@, mr@),
            r matches Some(o) ==> exists|i: int| 0 <= i < old(self)@.len() && old(self)@[i].0 == mr@
                && old(self)@[i].1 == o && final(self)@ == old(self)@.update(i, (mr@, m)),
            r is None ==> final(self)@ == old(self)@.push((mr@, m)),
    {
        let ghost pre = self@;
        let ghost k = mr@;
        match self.find(&mr) {
            Some(i) => {
                let (_, o) = self.entries.remove(i);
                self.entries.insert(i, (mr, m));
                assert(self@ =~= pre.update(i as int, (k, m)));
                assert forall|a: int, b: int| 0 <= a < b < self@.len() implies self@[a].0 != self@[b].0 by {
                    assert(self@[a].0 == pre[a].0 && self@[b].0 == pre[b].0);
                }
                Some(o)
            },
            None => {
                self.entries.push((mr, m));
                assert(self@ =~= pre.push((k, m)));
                assert forall|a: int, b: int| 0 <= a < b < self@.len() implies self@[a].0 != self@[b].0 by {
                    assert(self@[a] == pre[a]);
                    if b < pre.len() {
                        assert(self@[b] == pre[b]);
                    }
                }
                None
            },
        }
    }

    /// The message mapped to `k`, if any.
    pub fn get(&self, k: &MsgRep) -> (r: Option<&GMessage>)
        requires
            self.wf(),
        ensures
            r is Some == has_key(self@, k@),
            r matches Some(m) ==> exists|i: int| 0 <= i < self@.len() && self@[i].0 == k@ && self@[i].1 == *m,
    {
        match self.find(k) {
            Some(i) => {
                assert(self@[i as int].1 == self.entries@[i as int].1);
                Some(&self.entries[i].1)
            },
            None => None,
        }
    }
}

/// A message built with `GMessage::new` carries the hash that `MsgHash::new`
/// computes from its serialized form.
pub proof fn lemma_stored_hash_matches_serialization(m: GMessage, h: MsgHash)
    requires
        m.hash_ok(),
        h@ == base58_of(m.record()),
    ensures
        h@ == m.stored_hash(),
{
}

} // verus!
