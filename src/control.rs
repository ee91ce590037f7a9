use vstd::prelude::*;
use vstd::utf8::encode_utf8;
use crate::message::{GMessage, MsgRep};
use crate::types::TopicHash;
use crate::wire::{field, push_field, push_string_field, record_fields, string_fields};

verus! {

/// The wire texts of a sequence of message references.
pub open spec fn rep_texts(ids: Seq<MsgRep>) -> Seq<Seq<char>> {
    ids.map_values(|x: MsgRep| x@.1)
}

/// Appends one string field per message reference.
pub fn push_rep_fields(out: &mut Vec<u8>, key: u8, ids: &Vec<MsgRep>)
    ensures
        final(out)@ == old(out)@ + string_fields(key, rep_texts(ids@)),
{
    let ghost start = out@;
    let ghost tv = rep_texts(ids@);
    let mut i: usize = 0;
    assert(tv.subrange(0, 0) =~= Seq::<Seq<char>>::empty());
    assert(out@ =~= start + string_fields(key, tv.subrange(0, 0)));
    while i < ids.len()
        invariant
            0 <= i <= ids@.len(),
            tv == rep_texts(ids@),
            out@ == start + string_fields(key, tv.subrange(0, i as int)),
        decreases ids@.len() - i,
    {
        let s = ids[i].to_wire_string();
        push_string_field(out, key, s.as_str());
        assert(tv.subrange(0, i as int + 1).drop_last() =~= tv.subrange(0, i as int));
        assert(out@ =~= start + string_fields(key, tv.subrange(0, i as int + 1)));
        i = i + 1;
    }
    assert(tv.subrange(0, i as int) =~= tv);
}

/// Appends one embedded-message field per encoded record.
pub fn push_record_fields(out: &mut Vec<u8>, key: u8, records: &Vec<Vec<u8>>)
    ensures
        final(out)@ == old(out)@ + record_fields(key, records@.map_values(|r: Vec<u8>| r@)),
{
    let ghost start = out@;
    let ghost rv = records@.map_values(|r: Vec<u8>| r@);
    let mut i: usize = 0;
    assert(out@ =~= start + record_fields(key, rv.subrange(0, 0)));
    while i < records.len()
        invariant
            0 <= i <= records@.len(),
            rv == records@.map_values(|r: Vec<u8>| r@),
            out@ == start + record_fields(key, rv.subrange(0, i as int)),
        decreases records@.len() - i,
    {
        push_field(out, key, records[i].as_slice());
        assert(rv.subrange(0, i as int + 1).drop_last() =~= rv.subrange(0, i as int));
        assert(out@ =~= start + record_fields(key, rv.subrange(0, i as int + 1)));
        i = i + 1;
    }
    assert(rv.subrange(0, i as int) =~= rv);
}

/// Whether a remote peer subscribes to or unsubscribes from a topic.
#[derive(Debug, Clone, Copy, PartialEq, Eq, Hash)]
pub enum GossipsubSubscriptionAction {
    /// The remote wants to subscribe to the given topic.
    Subscribe,
    /// The remote wants to unsubscribe from the given topic.
    Unsubscribe,
}

/// A subscription change received from, or sent to, a peer.
#[derive(Debug, Clone, PartialEq, Eq, Hash)]
pub struct GossipsubSubscription {
    /// Action to perform.
    pub action: GossipsubSubscriptionAction,
    /// The topic to subscribe to or unsubscribe from.
    pub topic: TopicHash,
}

impl GossipsubSubscription {
    /// The wire record: the `subscribe` flag, then the topic id.
    pub open spec fn record(&self) -> Seq<u8> {
        seq![0x08u8, if self.action == GossipsubSubscriptionAction::Subscribe { 1u8 } else { 0u8 }]
            + field(0x12, encode_utf8(self.topic@))
    }

    /// Encodes the wire record.
    pub fn to_bytes(&self) -> (r: Vec<u8>)
        ensures
            r@ == self.record(),
    {
        let mut out: Vec<u8> = Vec::new();
        out.push(0x08);
        let flag: u8 = match self.action {
            GossipsubSubscriptionAction::Subscribe => 1,
            GossipsubSubscriptionAction::Unsubscribe => 0,
        };
        out.push(flag);
        push_string_field(&mut out, 0x12, self.topic.as_str());
        assert(out@ =~= self.record());
        out
    }
}

/// Gossip: the listed messages of the topic were seen recently and can be
/// asked for.
#[derive(Debug, Clone, PartialEq, Eq, Hash)]
pub struct ControlIHave {
    /// Topic that the messages belong to.
    pub topic: TopicHash,
    /// The messages on offer.
    pub messages: Vec<MsgRep>,
}

impl ControlIHave {
    /// The wire record: the topic id, then each message id.
    pub open spec fn record(&self) -> Seq<u8> {
        field(0x0a, encode_utf8(self.topic@)) + string_fields(0x12, rep_texts(self.messages@))
    }

    /// Encodes the wire record.
    pub fn to_bytes(&self) -> (r: Vec<u8>)
        ensures
            r@ == self.record(),
    {
        let mut out: Vec<u8> = Vec::new();
        push_string_field(&mut out, 0x0a, self.topic.as_str());
        push_rep_fields(&mut out, 0x12, &self.messages);
        assert(out@ =~= self.record());
        out
    }
}

/// A request for messages that an IHAVE offered.
#[derive(Debug, Clone, Default, PartialEq, Eq, Hash)]
pub struct ControlIWant {
    /// The messages asked for.
    pub messages: Vec<MsgRep>,
}

impl ControlIWant {
    /// The wire record: each message id.
    pub open spec fn record(&self) -> Seq<u8> {
        string_fields(0x0a, rep_texts(self.messages@))
    }

    /// Encodes the wire record.
    pub fn to_bytes(&self) -> (r: Vec<u8>)
        ensures
            r@ == self.record(),
    {
        let mut out: Vec<u8> = Vec::new();
        push_rep_fields(&mut out, 0x0a, &self.messages);
        assert(out@ =~= self.record());
        out
    }
}

/// Notice that the sender added the receiver to its mesh of the topic.
#[derive(Debug, Clone, PartialEq, Eq, Hash)]
pub struct ControlGraft {
    /// The topic of the mesh.
    pub topic: TopicHash,
}

impl ControlGraft {
    /// The wire record: the topic id.
    pub open spec fn record(&self) -> Seq<u8> {
        field(0x0a, encode_utf8(self.topic@))
    }

    /// Encodes the wire record.
    pub fn to_bytes(&self) -> (r: Vec<u8>)
        ensures
            r@ == self.record(),
    {
        let mut out: Vec<u8> = Vec::new();
        push_string_field(&mut out, 0x0a, self.topic.as_str());
        assert(out@ =~= self.record());
        out
    }
}

/// Notice that the sender removed the receiver from its mesh of the topic.
#[derive(Debug, Clone, PartialEq, Eq, Hash)]
pub struct ControlPrune {
    /// The topic of the mesh.
    pub topic: TopicHash,
}

impl ControlPrune {
    /// The wire record: the topic id.
    pub open spec fn record(&self) -> Seq<u8> {
        field(0x0a, encode_utf8(self.topic@))
    }

    /// Encodes the wire record.
    pub fn to_bytes(&self) -> (r: Vec<u8>)
        ensures
            r@ == self.record(),
    {
        let mut out: Vec<u8> = Vec::new();
        push_string_field(&mut out, 0x0a, self.topic.as_str());
        assert(out@ =~= self.record());
        out
    }
}

/// The control frames of one RPC.
#[derive(Debug, Clone, Default, PartialEq, Eq, Hash)]
pub struct ControlMessage {
    /// Gossip offers.
    pub ihave: Vec<ControlIHave>,
    /// Requests for offered messages.
    pub iwant: Vec<ControlIWant>,
    /// Mesh links added.
    pub graft: Vec<ControlGraft>,
    /// Mesh links removed.
    pub prune: Vec<ControlPrune>,
}

impl ControlMessage {
    /// The wire record: each IHAVE, IWANT, GRAFT and PRUNE as an embedded
    /// record, in that order.
    pub open spec fn record(&self) -> Seq<u8> {
        record_fields(0x0a, self.ihave@.map_values(|c: ControlIHave| c.record()))
            + record_fields(0x12, self.iwant@.map_values(|c: ControlIWant| c.record()))
            + record_fields(0x1a, self.graft@.map_values(|c: ControlGraft| c.record()))
            + record_fields(0x22, self.prune@.map_values(|c: ControlPrune| c.record()))
    }

    /// Encodes the wire record.
    pub fn to_bytes(&self) -> (r: Vec<u8>)
        ensures
            r@ == self.record(),
    {
        let mut out: Vec<u8> = Vec::new();

        let mut recs: Vec<Vec<u8>> = Vec::new();
        let mut i: usize = 0;
        while i < self.ihave.len()
            invariant
                0 <= i <= self.ihave@.len(),
                recs@.len() == i,
                forall|j: int| 0 <= j < i ==> (#[trigger] recs@[j])@ == self.ihave@[j].record(),
            decreases self.ihave@.len() - i,
        {
            recs.push(self.ihave[i].to_bytes());
            i = i + 1;
        }
        assert(recs@.map_values(|r: Vec<u8>| r@) =~= self.ihave@.map_values(|c: ControlIHave| c.record()));
        push_record_fields(&mut out, 0x0a, &recs);

        let mut recs: Vec<Vec<u8>> = Vec::new();
        let mut i: usize = 0;
        while i < self.iwant.len()
            invariant
                0 <= i <= self.iwant@.len(),
                recs@.len() == i,
                forall|j: int| 0 <= j < i ==> (#[trigger] recs@[j])@ == self.iwant@[j].record(),
            decreases self.iwant@.len() - i,
        {
            recs.push(self.iwant[i].to_bytes());
            i = i + 1;
        }
        assert(recs@.map_values(|r: Vec<u8>| r@) =~= self.iwant@.map_values(|c: ControlIWant| c.record()));
        push_record_fields(&mut out, 0x12, &recs);

        let mut recs: Vec<Vec<u8>> = Vec::new();
        let mut i: usize = 0;
        while i < self.graft.len()
            invariant
                0 <= i <= self.graft@.len(),
                recs@.len() == i,
                forall|j: int| 0 <= j < i ==> (#[trigger] recs@[j])@ == self.graft@[j].record(),
            decreases self.graft@.len() - i,
        {
            recs.push(self.graft[i].to_bytes());
            i = i + 1;
        }
        assert(recs@.map_values(|r: Vec<u8>| r@) =~= self.graft@.map_values(|c: ControlGraft| c.record()));
        push_record_fields(&mut out, 0x1a, &recs);

        let mut recs: Vec<Vec<u8>> = Vec::new();
        let mut i: usize = 0;
        while i < self.prune.len()
            invariant
                0 <= i <= self.prune@.len(),
                recs@.len() == i,
                forall|j: int| 0 <= j < i ==> (#[trigger] recs@[j])@ == self.prune@[j].record(),
            decreases self.prune@.len() - i,
        {
            recs.push(self.prune[i].to_bytes());
            i = i + 1;
        }
        assert(recs@.map_values(|r: Vec<u8>| r@) =~= self.prune@.map_values(|c: ControlPrune| c.record()));
        push_record_fields(&mut out, 0x22, &recs);

        assert(out@ =~= self.record());
        out
    }
}

/// A graft or prune received from a peer.
#[derive(Debug, Clone, PartialEq, Eq, Hash)]
pub struct GossipsubGraftPrune {
    /// Graft or prune action to perform.
    pub action: GossipSubGraftPruneAction,
    /// The topic to graft to or prune from.
    pub topic: TopicHash,
}

/// A graft or a prune.
#[derive(Debug, Clone, PartialEq, Eq, Hash)]
pub enum GossipSubGraftPruneAction {
    /// The remote wants to graft to the given topic.
    Graft(ControlGraft),
    /// The remote wants to prune from the given topic.
    Prune(ControlPrune),
}

/// One RPC exchanged with a peer.
#[derive(Debug, Clone, PartialEq, Eq)]
pub struct GossipsubRpc {
    /// Messages carried by the RPC.
    pub messages: Vec<GMessage>,
    /// Subscription changes.
    pub subscriptions: Vec<GossipsubSubscription>,
    /// Control frames, if any.
    pub control: Option<ControlMessage>,
}

} // verus!
