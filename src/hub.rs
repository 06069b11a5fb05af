//! The hub: the single owner of clients, subscriptions, publishers and the
//! authorization policy. It turns each client event into the messages to
//! deliver.
use vstd::prelude::*;
use vstd::string::*;
use crate::authorization::{specs_view, granted, AuthorizationManager, AuthorizationSpec, AuthorizationSpecView, Role};
use crate::clients::ClientManager;
use crate::message::{contains_i32, packet_authorized, packets_view, DataPacket, DataPacketView, Message, MessageView};
use crate::codec::{dec_message, enc_message, encode, law_round_trip, message_fits};
use crate::wire::CodecError;
use crate::message::headers_view;
use crate::publishing::{not_by, sole_topics, PublisherIndex};
use crate::topic::valid_pattern;
use crate::topic_tree::{patterns_of, added, count_after_remove, count_of, removed};
use crate::topic::string_views;
use crate::topic_tree::{contains_string, dedup_strings, matching_subscribers, str_equal, TopicTree, TopicTreeError};

verus! {

/// A message for one client.
pub struct Delivery {
    pub client_id: String,
    pub message: Message,
}

pub open spec fn delivery_view(d: Delivery) -> (Seq<char>, MessageView) {
    (d.client_id@, d.message@)
}

pub open spec fn deliveries_view(ds: Seq<Delivery>) -> Seq<(Seq<char>, MessageView)> {
    ds.map_values(|d: Delivery| delivery_view(d))
}

pub open spec fn recipients(ds: Seq<(Seq<char>, MessageView)>) -> Seq<Seq<char>> {
    ds.map_values(|d: (Seq<char>, MessageView)| d.0)
}

/// The packets that pass a publisher's entitlements `s` and a receiver's
/// entitlements `r`: all of them where the publisher has none, else those
/// whose entitlements lie in both.
pub open spec fn packets_for(packets: Seq<DataPacketView>, s: Set<i32>, r: Set<i32>) -> Seq<DataPacketView> {
    if s == Set::<i32>::empty() {
        packets
    } else {
        packets.filter(|p: DataPacketView| packet_authorized(p, s.intersect(r)))
    }
}

/// What a receiver gets of a publication, or `None` where nothing is sent:
/// a publisher with entitlements sends nothing to a receiver that shares
/// none of them, and nothing is sent where no packet passes, unless empty
/// messages are allowed.
pub open spec fn receipt(
    packets: Seq<DataPacketView>,
    s: Set<i32>,
    r: Set<i32>,
    allow_empty: bool,
) -> Option<Seq<DataPacketView>> {
    if s != Set::<i32>::empty() && s.intersect(r) == Set::<i32>::empty() {
        None
    } else if packets_for(packets, s, r).len() == 0 && !allow_empty {
        None
    } else {
        Some(packets_for(packets, s, r))
    }
}

/// The packets a receiver gets, given the publisher's entitlements and the
/// receiver's, or `None` where it gets nothing.
pub fn authorized_packets(
    packets: &Vec<DataPacket>,
    publisher_entitlements: &Vec<i32>,
    receiver_entitlements: &Vec<i32>,
    allow_empty: bool,
) -> (r: Option<Vec<DataPacket>>)
    ensures
        r is Some <==> receipt(
            packets_view(packets@),
            publisher_entitlements@.to_set(),
            receiver_entitlements@.to_set(),
            allow_empty,
        ) is Some,
        r matches Some(v) ==> Some(packets_view(v@)) == receipt(
            packets_view(packets@),
            publisher_entitlements@.to_set(),
            receiver_entitlements@.to_set(),
            allow_empty,
        ),
{
    let ghost s = publisher_entitlements@.to_set();
    let ghost rs = receiver_entitlements@.to_set();
    let ghost pv = packets_view(packets@);
    let mut both: Vec<i32> = Vec::new();
    let mut i: usize = 0;
    while i < publisher_entitlements.len()
        invariant
            i <= publisher_entitlements.len(),
            both@.to_set() == publisher_entitlements@.take(i as int).to_set().intersect(rs),
            rs == receiver_entitlements@.to_set(),
        decreases publisher_entitlements.len() - i,
    {
        let x = publisher_entitlements[i];
        let ghost before = both@;
        assert(publisher_entitlements@.take(i + 1) =~= publisher_entitlements@.take(i as int).push(x));
        proof {
            publisher_entitlements@.take(i as int).lemma_push_to_set_commute(x);
        }
        if contains_i32(receiver_entitlements, x) {
            both.push(x);
            proof {
                before.lemma_push_to_set_commute(x);
            }
        }
        assert(both@.to_set() =~= publisher_entitlements@.take(i + 1).to_set().intersect(rs));
        i = i + 1;
    }
    assert(publisher_entitlements@.take(i as int) =~= publisher_entitlements@);
    let unrestricted = publisher_entitlements.len() == 0;
    proof {
        if unrestricted {
            assert(s =~= Set::<i32>::empty());
        } else {
            assert(s.contains(publisher_entitlements@[0]));
        }
        if both.len() == 0 {
            assert(s.intersect(rs) =~= Set::<i32>::empty());
        } else {
            assert(s.intersect(rs).contains(both@[0]));
        }
    }
    if !unrestricted && both.len() == 0 {
        return None;
    }
    let ghost pred = |p: DataPacketView| packet_authorized(p, s.intersect(rs));
    let mut out: Vec<DataPacket> = Vec::new();
    let mut j: usize = 0;
    while j < packets.len()
        invariant
            j <= packets.len(),
            pv == packets_view(packets@),
            both@.to_set() == s.intersect(rs),
            unrestricted == (s == Set::<i32>::empty()),
            pred == (|p: DataPacketView| packet_authorized(p, s.intersect(rs))),
            packets_view(out@) == if unrestricted {
                pv.take(j as int)
            } else {
                pv.take(j as int).filter(pred)
            },
        decreases packets.len() - j,
    {
        let p = &packets[j];
        let ghost before = packets_view(out@);
        assert(pv.take(j + 1).drop_last() =~= pv.take(j as int));
        assert(pv.take(j + 1).last() == p@);
        if unrestricted || p.is_authorized(&both) {
            out.push(p.copy());
            assert(packets_view(out@) =~= before.push(p@));
        }
        assert(packets_view(out@) == if unrestricted {
            pv.take(j + 1)
        } else {
            pv.take(j + 1).filter(pred)
        }) by {
            reveal(Seq::filter);
            if unrestricted {
                assert(pv.take(j + 1) =~= pv.take(j as int).push(p@));
            }
        }
        j = j + 1;
    }
    assert(pv.take(j as int) =~= pv);
    if out.len() == 0 && !allow_empty {
        return None;
    }
    Some(out)
}

/// What one client event asks of the hub.
pub enum ClientEvent {
    /// A client has authenticated.
    Connect { id: String, host: String, user: String },
    /// A client has gone.
    Close { id: String },
    /// A client sent a message.
    Message { id: String, message: Message },
    /// The authorization specs are replaced.
    Reset { specs: Vec<AuthorizationSpec> },
}

/// What the hub hands to one client's connection.
pub enum ServerEvent {
    OnMessage(Message),
}

/// The hub's state.
pub struct Hub {
    clients: ClientManager,
    subscriptions: TopicTree,
    publishers: PublisherIndex,
    authorization: AuthorizationManager,
}

pub struct HubView {
    /// Client id to (host, user).
    pub clients: Map<Seq<char>, (Seq<char>, Seq<char>)>,
    /// (pattern, subscriber) to count.
    pub subscriptions: Map<(Seq<char>, Seq<char>), nat>,
    /// (publisher, topic) pairs.
    pub publishers: Set<(Seq<char>, Seq<char>)>,
    pub authorization: Seq<AuthorizationSpecView>,
}

impl View for Hub {
    type V = HubView;

    closed spec fn view(&self) -> HubView {
        HubView {
            clients: self.clients@,
            subscriptions: self.subscriptions@,
            publishers: self.publishers@,
            authorization: self.authorization@,
        }
    }
}

/// A forwarded multicast from `sender` (host, user).
pub open spec fn forwarded_multicast(
    sender: (Seq<char>, Seq<char>),
    topic: Seq<char>,
    packets: Seq<DataPacketView>,
) -> MessageView {
    MessageView::ForwardedMulticastData {
        host: sender.0,
        user: sender.1,
        topic,
        data_packets: packets,
    }
}

/// What `receiver` gets of a multicast by `sender` on `topic` in state `h`:
/// both must be connected, the receiver must hold a pattern matching the
/// topic, and the entitlement filter must let something through.
pub open spec fn multicast_receipt(
    h: HubView,
    sender: Seq<char>,
    topic: Seq<char>,
    packets: Seq<DataPacketView>,
    allow_empty: bool,
    receiver: Seq<char>,
) -> Option<Seq<DataPacketView>> {
    if h.clients.contains_key(sender) && h.clients.contains_key(receiver) && matching_subscribers(
        h.subscriptions,
        topic,
    ).contains(receiver) {
        receipt(
            packets,
            granted(h.authorization, h.clients[sender].1, topic, Role::Publisher),
            granted(h.authorization, h.clients[receiver].1, topic, Role::Subscriber),
            allow_empty,
        )
    } else {
        None
    }
}

/// `ds` is the fan-out of a multicast: one message to each receiver that
/// gets something, and nothing else.
pub open spec fn multicast_deliveries(
    h: HubView,
    sender: Seq<char>,
    topic: Seq<char>,
    packets: Seq<DataPacketView>,
    allow_empty: bool,
    ds: Seq<(Seq<char>, MessageView)>,
) -> bool {
    &&& recipients(ds).no_duplicates()
    &&& forall|i: int|
        0 <= i < ds.len() ==> {
            let got = multicast_receipt(h, sender, topic, packets, allow_empty, #[trigger] ds[i].0);
            &&& got is Some
            &&& ds[i].1 == forwarded_multicast(h.clients[sender], topic, got->Some_0)
        }
    &&& forall|receiver: Seq<char>|
        #[trigger] multicast_receipt(h, sender, topic, packets, allow_empty, receiver) is Some
            ==> recipients(ds).contains(receiver)
}

/// The publisher index after `sender` publishes on `topic`.
pub open spec fn published(h: HubView, sender: Seq<char>, topic: Seq<char>) -> Set<
    (Seq<char>, Seq<char>),
> {
    if h.clients.contains_key(sender) {
        h.publishers.insert((sender, topic))
    } else {
        h.publishers
    }
}

/// A forwarded unicast from `sender_id`, which connects as `sender` (host, user).
pub open spec fn forwarded_unicast(
    sender: (Seq<char>, Seq<char>),
    sender_id: Seq<char>,
    topic: Seq<char>,
    packets: Seq<DataPacketView>,
) -> MessageView {
    MessageView::ForwardedUnicastData {
        host: sender.0,
        user: sender.1,
        client_id: sender_id,
        topic,
        data_packets: packets,
    }
}

/// What `receiver` gets of a unicast by `sender` on `topic`.
pub open spec fn unicast_receipt(
    h: HubView,
    sender: Seq<char>,
    receiver: Seq<char>,
    topic: Seq<char>,
    packets: Seq<DataPacketView>,
    allow_empty: bool,
) -> Option<Seq<DataPacketView>> {
    if h.clients.contains_key(sender) && h.clients.contains_key(receiver) {
        receipt(
            packets,
            granted(h.authorization, h.clients[sender].1, topic, Role::Publisher),
            granted(h.authorization, h.clients[receiver].1, topic, Role::Subscriber),
            allow_empty,
        )
    } else {
        None
    }
}

/// The outcome of a unicast: one message, and the sender recorded as a
/// publisher of the topic, where the receiver gets something; else nothing.
pub open spec fn unicast_outcome(
    h: HubView,
    after: HubView,
    sender: Seq<char>,
    receiver: Seq<char>,
    topic: Seq<char>,
    packets: Seq<DataPacketView>,
    allow_empty: bool,
    ds: Seq<(Seq<char>, MessageView)>,
) -> bool {
    &&& after.clients == h.clients
    &&& after.subscriptions == h.subscriptions
    &&& after.authorization == h.authorization
    &&& match unicast_receipt(h, sender, receiver, topic, packets, allow_empty) {
        Some(got) => {
            &&& ds == seq![(receiver, forwarded_unicast(h.clients[sender], sender, topic, got))]
            &&& after.publishers == h.publishers.insert((sender, topic))
        },
        None => ds.len() == 0 && after.publishers == h.publishers,
    }
}

/// The outcome of a multicast.
pub open spec fn multicast_outcome(
    h: HubView,
    after: HubView,
    sender: Seq<char>,
    topic: Seq<char>,
    packets: Seq<DataPacketView>,
    allow_empty: bool,
    ds: Seq<(Seq<char>, MessageView)>,
) -> bool {
    &&& after.clients == h.clients
    &&& after.subscriptions == h.subscriptions
    &&& after.authorization == h.authorization
    &&& after.publishers == published(h, sender, topic)
    &&& multicast_deliveries(h, sender, topic, packets, allow_empty, ds)
}

/// The reserved topic on which subscription changes are announced.
pub open spec fn subscription_topic() -> Seq<char> {
    "~.subscriptions"@
}

/// The announcement that client `id` now holds `pattern` `count` times.
pub open spec fn subscription_notice(h: HubView, id: Seq<char>, pattern: Seq<char>, count: u32) -> MessageView {
    MessageView::ForwardedSubscriptionRequest {
        host: h.clients[id].0,
        user: h.clients[id].1,
        client_id: id,
        topic: pattern,
        count,
    }
}

/// The packet that carries an announcement: no entitlements, the system
/// content type, and the encoded announcement.
pub open spec fn notice_packet(notice: MessageView) -> DataPacketView {
    DataPacketView {
        entitlements: Seq::empty(),
        headers: seq![("content-type"@, "application/x-squawkbus"@)],
        data: enc_message(notice),
    }
}

/// Whether a change of `pattern` by `id` is announced: not for the
/// reserved topic itself, and only for a connected client.
pub open spec fn announced(h: HubView, id: Seq<char>, pattern: Seq<char>, count: u32) -> bool {
    &&& pattern != subscription_topic()
    &&& h.clients.contains_key(id)
    &&& message_fits(subscription_notice(h, id, pattern, count))
}

/// The outcome of announcing that `id` holds `pattern` `count` times: a
/// multicast of the notice on the reserved topic, authored by `id`.
pub open spec fn notice_outcome(
    h: HubView,
    after: HubView,
    id: Seq<char>,
    pattern: Seq<char>,
    count: u32,
    ds: Seq<(Seq<char>, MessageView)>,
) -> bool {
    if announced(h, id, pattern, count) {
        multicast_outcome(
            h,
            after,
            id,
            subscription_topic(),
            seq![notice_packet(subscription_notice(h, id, pattern, count))],
            false,
            ds,
        )
    } else {
        after == h && ds.len() == 0
    }
}

pub open spec fn with_subscriptions(h: HubView, subscriptions: Map<(Seq<char>, Seq<char>), nat>) -> HubView {
    HubView {
        clients: h.clients,
        subscriptions,
        publishers: h.publishers,
        authorization: h.authorization,
    }
}

/// The outcome of a subscription request: the index changes as `add` or
/// `remove` says, and a change is announced with the new count.
pub open spec fn subscription_outcome(
    h: HubView,
    after: HubView,
    id: Seq<char>,
    pattern: Seq<char>,
    is_add: bool,
    ds: Seq<(Seq<char>, MessageView)>,
) -> bool {
    let k = (pattern, id);
    if is_add {
        if valid_pattern(pattern) && count_of(h.subscriptions, k) < u32::MAX {
            let mid = with_subscriptions(h, added(h.subscriptions, k));
            notice_outcome(mid, after, id, pattern, (count_of(h.subscriptions, k) + 1) as u32, ds)
        } else {
            after == h && ds.len() == 0
        }
    } else {
        if h.subscriptions.contains_key(k) {
            let mid = with_subscriptions(h, removed(h.subscriptions, k, false));
            notice_outcome(mid, after, id, pattern, count_after_remove(h.subscriptions, k, false) as u32, ds)
        } else {
            after == h && ds.len() == 0
        }
    }
}

/// The (pattern, subscriber) pairs of subscriber `id`.
pub open spec fn held_by(id: Seq<char>) -> Set<(Seq<char>, Seq<char>)> {
    Set::new(|k: (Seq<char>, Seq<char>)| k.1 == id)
}

/// A stale notice: the last publisher of `topic`, `sender` (host, user), has gone.
pub open spec fn stale_notice(sender: (Seq<char>, Seq<char>), topic: Seq<char>) -> MessageView {
    forwarded_multicast(sender, topic, Seq::empty())
}

pub type Deliveries = Seq<(Seq<char>, MessageView)>;

/// Routing reads the registry, the subscriptions and the policy only.
proof fn lemma_routing_ignores_publishers(
    a: HubView,
    b: HubView,
    sender: Seq<char>,
    topic: Seq<char>,
    packets: Seq<DataPacketView>,
    allow_empty: bool,
    ds: Deliveries,
)
    requires
        a.clients == b.clients,
        a.subscriptions == b.subscriptions,
        a.authorization == b.authorization,
    ensures
        multicast_deliveries(a, sender, topic, packets, allow_empty, ds) == multicast_deliveries(
            b,
            sender,
            topic,
            packets,
            allow_empty,
            ds,
        ),
{
    assert forall|r: Seq<char>|
        multicast_receipt(a, sender, topic, packets, allow_empty, r) == multicast_receipt(
            b,
            sender,
            topic,
            packets,
            allow_empty,
            r,
        ) by {}
}

/// The pairs of subscriber `id` with a pattern in `ps`.
pub open spec fn dropped(id: Seq<char>, ps: Seq<Seq<char>>) -> Set<(Seq<char>, Seq<char>)> {
    Set::new(|k: (Seq<char>, Seq<char>)| k.1 == id && ps.contains(k.0))
}

/// The chunks one after the other.
pub open spec fn flatten(cs: Seq<Deliveries>) -> Deliveries
    decreases cs.len(),
{
    if cs.len() == 0 {
        Seq::empty()
    } else {
        flatten(cs.drop_last()) + cs.last()
    }
}

/// The state in which the closing client's `i`-th pattern (of `pats`) is
/// announced: its first `i + 1` patterns are dropped.
pub open spec fn closing_state(h: HubView, id: Seq<char>, pats: Seq<Seq<char>>, i: int) -> HubView {
    with_subscriptions(h, h.subscriptions.remove_keys(dropped(id, pats.take(i + 1))))
}

/// `chunk` announces, in state `st`, that `id` holds `pattern` no more.
pub open spec fn closing_announcement(st: HubView, id: Seq<char>, pattern: Seq<char>, chunk: Deliveries) -> bool {
    if announced(st, id, pattern, 0) {
        multicast_deliveries(
            st,
            id,
            subscription_topic(),
            seq![notice_packet(subscription_notice(st, id, pattern, 0))],
            false,
            chunk,
        )
    } else {
        chunk.len() == 0
    }
}

/// `chunks` are the announcements of the closing client's patterns `pats`,
/// one chunk per pattern, in that order.
pub open spec fn closing_announcements(h: HubView, id: Seq<char>, pats: Seq<Seq<char>>, chunks: Seq<Deliveries>) -> bool {
    &&& pats.to_set() == patterns_of(h.subscriptions, id)
    &&& pats.no_duplicates()
    &&& chunks.len() == pats.len()
    &&& forall|i: int|
        0 <= i < pats.len() ==> closing_announcement(closing_state(h, id, pats, i), id, pats[i], #[trigger] chunks[i])
}

/// The topic of a forwarded multicast.
pub open spec fn notice_topic(m: MessageView) -> Seq<char> {
    match m {
        MessageView::ForwardedMulticastData { topic, .. } => topic,
        _ => Seq::empty(),
    }
}

/// A stale notice from closing client `id` on one of `topics`, to a
/// connected subscriber of that topic.
pub open spec fn is_stale_notice(h: HubView, after: HubView, id: Seq<char>, topics: Set<Seq<char>>, e: (Seq<char>, MessageView)) -> bool {
    &&& e.1 == stale_notice(h.clients[id], notice_topic(e.1))
    &&& topics.contains(notice_topic(e.1))
    &&& matching_subscribers(after.subscriptions, notice_topic(e.1)).contains(e.0)
    &&& h.clients.contains_key(e.0)
}

/// `stales` holds one stale notice for each topic that `id` was the last to
/// publish on and each connected subscriber of it, and nothing else; none
/// where `id` was not connected.
pub open spec fn stale_notices(h: HubView, after: HubView, id: Seq<char>, mid: Set<(Seq<char>, Seq<char>)>, stales: Deliveries) -> bool {
    if h.clients.contains_key(id) {
        &&& stales.no_duplicates()
        &&& forall|x: int| 0 <= x < stales.len() ==> is_stale_notice(h, after, id, sole_topics(mid, id), #[trigger] stales[x])
        &&& forall|t: Seq<char>, s: Seq<char>|
            sole_topics(mid, id).contains(t) && #[trigger] matching_subscribers(after.subscriptions, t).contains(s)
                && h.clients.contains_key(s) ==> stales.contains((s, stale_notice(h.clients[id], t)))
    } else {
        stales.len() == 0
    }
}

/// The outcome of closing client `id`: it holds no subscription, has
/// published nothing and is no longer connected. The messages are the
/// count-0 announcements of each of its patterns, `pats` in order, then the
/// stale notices. `mid` is the publisher index once the announcements have
/// gone out.
pub open spec fn close_outcome(
    h: HubView,
    after: HubView,
    id: Seq<char>,
    mid: Set<(Seq<char>, Seq<char>)>,
    pats: Seq<Seq<char>>,
    chunks: Seq<Deliveries>,
    stales: Deliveries,
    ds: Deliveries,
) -> bool {
    &&& after.clients == h.clients.remove(id)
    &&& after.authorization == h.authorization
    &&& after.subscriptions == h.subscriptions.remove_keys(held_by(id))
    &&& (mid == h.publishers || mid == h.publishers.insert((id, subscription_topic())))
    &&& after.publishers == mid.filter(not_by(id))
    &&& closing_announcements(h, id, pats, chunks)
    &&& stale_notices(h, after, id, mid, stales)
    &&& ds == flatten(chunks) + stales
}

/// The count that a successful subscription request leaves.
pub open spec fn new_count(h: HubView, id: Seq<char>, pattern: Seq<char>, is_add: bool) -> u32 {
    if is_add {
        (count_of(h.subscriptions, (pattern, id)) + 1) as u32
    } else {
        count_after_remove(h.subscriptions, (pattern, id), false) as u32
    }
}

/// A subscription request sends one announcement and nothing else: every
/// message it delivers is the same multicast on the reserved topic, by the
/// subscriber, holding one packet whose payload decodes to the subscriber's
/// new count for the pattern. Nothing is sent for the reserved topic itself.
pub proof fn law_one_announcement(
    h: HubView,
    after: HubView,
    id: Seq<char>,
    pattern: Seq<char>,
    is_add: bool,
    ds: Seq<(Seq<char>, MessageView)>,
)
    requires
        subscription_outcome(h, after, id, pattern, is_add, ds),
    ensures
        pattern == subscription_topic() ==> ds.len() == 0,
        forall|i: int|
            0 <= i < ds.len() ==> {
                let notice = MessageView::ForwardedSubscriptionRequest {
                    host: h.clients[id].0,
                    user: h.clients[id].1,
                    client_id: id,
                    topic: pattern,
                    count: new_count(h, id, pattern, is_add),
                };
                &&& #[trigger] ds[i].1 == forwarded_multicast(
                    h.clients[id],
                    subscription_topic(),
                    seq![notice_packet(notice)],
                )
                &&& dec_message(notice_packet(notice).data) == Ok::<MessageView, CodecError>(notice)
            },
{
    let notice = MessageView::ForwardedSubscriptionRequest {
        host: h.clients[id].0,
        user: h.clients[id].1,
        client_id: id,
        topic: pattern,
        count: new_count(h, id, pattern, is_add),
    };
    if ds.len() > 0 {
        law_round_trip(notice);
        assert forall|i: int| 0 <= i < ds.len() implies #[trigger] ds[i].1 == forwarded_multicast(
            h.clients[id],
            subscription_topic(),
            seq![notice_packet(notice)],
        ) by {
            let got = multicast_receipt(
                with_subscriptions(h, if is_add { added(h.subscriptions, (pattern, id)) } else { removed(h.subscriptions, (pattern, id), false) }),
                id,
                subscription_topic(),
                seq![notice_packet(notice)],
                false,
                ds[i].0,
            );
            assert(got is Some);
            let f = got->Some_0;
            let s_ents = granted(h.authorization, h.clients[id].1, subscription_topic(), Role::Publisher);
            if s_ents != Set::<i32>::empty() {
                let pred = |p: DataPacketView| packet_authorized(
                    p,
                    s_ents.intersect(granted(h.authorization, h.clients[ds[i].0].1, subscription_topic(), Role::Subscriber)),
                );
                assert(notice_packet(notice).entitlements.to_set() =~= Set::<i32>::empty());
                assert(pred(notice_packet(notice)));
                reveal_with_fuel(Seq::filter, 2);
                assert(seq![notice_packet(notice)].drop_last() =~= Seq::<DataPacketView>::empty());
                assert(seq![notice_packet(notice)].filter(pred) =~= seq![notice_packet(notice)]);
            }
        }
    }
}

impl Hub {
    pub closed spec fn wf(&self) -> bool {
        &&& self.clients.wf()
        &&& self.subscriptions.wf()
        &&& self.publishers.wf()
    }

    /// Every subscription held has a valid pattern and a positive count.
    pub proof fn lemma_subscription_counts_positive(&self)
        requires
            self.wf(),
        ensures
            forall|k: (Seq<char>, Seq<char>)| #[trigger]
                self@.subscriptions.contains_key(k) ==> self@.subscriptions[k] > 0 && valid_pattern(k.0),
    {
        self.subscriptions.lemma_counts_positive();
    }

    pub fn new(authorization: AuthorizationManager) -> (r: Hub)
        ensures
            r.wf(),
            r@.clients == Map::<Seq<char>, (Seq<char>, Seq<char>)>::empty(),
            r@.subscriptions == Map::<(Seq<char>, Seq<char>), nat>::empty(),
            r@.publishers == Set::<(Seq<char>, Seq<char>)>::empty(),
            r@.authorization == authorization@,
    {
        Hub {
            clients: ClientManager::new(),
            subscriptions: TopicTree::new(),
            publishers: PublisherIndex::new(),
            authorization,
        }
    }

    /// Sends `packets` from `sender_id` on `topic` to every subscriber that
    /// the entitlement filter lets them reach, each subscriber once, and
    /// records the sender as a publisher of the topic.
    pub fn send_multicast(
        &mut self,
        sender_id: &str,
        topic: &str,
        packets: &Vec<DataPacket>,
        allow_empty: bool,
    ) -> (r: Vec<Delivery>)
        requires
            old(self).wf(),
        ensures
            final(self).wf(),
            final(self)@.clients == old(self)@.clients,
            final(self)@.subscriptions == old(self)@.subscriptions,
            final(self)@.authorization == old(self)@.authorization,
            final(self)@.publishers == published(old(self)@, sender_id@, topic@),
            multicast_deliveries(
                old(self)@,
                sender_id@,
                topic@,
                packets_view(packets@),
                allow_empty,
                deliveries_view(r@),
            ),
    {
        let ghost h = self@;
        let ghost pv = packets_view(packets@);
        let mut out: Vec<Delivery> = Vec::new();
        let sender = match self.clients.get(sender_id) {
            Some(c) => c,
            None => {
                assert(recipients(deliveries_view(out@)) =~= Seq::<Seq<char>>::empty());
                return out;
            },
        };
        let publisher_entitlements = self.authorization.entitlements(
            sender.user.as_str(),
            topic,
            Role::Publisher,
        );
        let subscribers = self.subscriptions.subscribers(topic);
        let mut seen: Vec<String> = Vec::new();
        let mut i: usize = 0;
        while i < subscribers.len()
            invariant
                self.wf(),
                self@ == h,
                h.clients.contains_key(sender_id@),
                h.clients[sender_id@] == (sender.host@, sender.user@),
                publisher_entitlements@.to_set() == granted(h.authorization, h.clients[sender_id@].1, topic@, Role::Publisher),
                pv == packets_view(packets@),
                string_views(subscribers@).to_set() == matching_subscribers(h.subscriptions, topic@),
                i <= subscribers.len(),
                forall|s: Seq<char>| #[trigger] string_views(seen@).contains(s) <==> string_views(subscribers@).take(i as int).contains(s),
                forall|k: int| 0 <= k < out.len() ==> string_views(seen@).contains(#[trigger] deliveries_view(out@)[k].0),
                recipients(deliveries_view(out@)).no_duplicates(),
                forall|k: int|
                    0 <= k < out.len() ==> {
                        let got = multicast_receipt(h, sender_id@, topic@, pv, allow_empty, #[trigger] deliveries_view(out@)[k].0);
                        &&& got is Some
                        &&& deliveries_view(out@)[k].1 == forwarded_multicast(h.clients[sender_id@], topic@, got->Some_0)
                    },
                forall|s: Seq<char>|
                    string_views(subscribers@).take(i as int).contains(s) && (#[trigger] multicast_receipt(
                        h,
                        sender_id@,
                        topic@,
                        pv,
                        allow_empty,
                        s,
                    )) is Some ==> recipients(deliveries_view(out@)).contains(s),
            decreases subscribers.len() - i,
        {
            let ghost sv = string_views(subscribers@);
            let subscriber = &subscribers[i];
            assert(sv.take(i + 1) =~= sv.take(i as int).push(subscriber@));
            assert(sv[i as int] == subscriber@);
            assert(sv.to_set().contains(subscriber@));
            if contains_string(&seen, subscriber.as_str()) {
                proof {
                    assert forall|s: Seq<char>|
                        #[trigger] string_views(seen@).contains(s) <==> sv.take(i + 1).contains(s) by {
                        if s == subscriber@ {
                            assert(sv.take(i + 1)[i as int] == s);
                        } else {
                            if sv.take(i + 1).contains(s) {
                                let x = choose|x: int| 0 <= x < i + 1 && #[trigger] sv.take(i + 1)[x] == s;
                                assert(sv.take(i as int)[x] == s);
                            }
                            if sv.take(i as int).contains(s) {
                                let x = choose|x: int| 0 <= x < i && #[trigger] sv.take(i as int)[x] == s;
                                assert(sv.take(i + 1)[x] == s);
                            }
                        }
                    }
                    assert forall|s: Seq<char>|
                        sv.take(i + 1).contains(s) && (#[trigger] multicast_receipt(h, sender_id@, topic@, pv, allow_empty, s)) is Some
                        implies recipients(deliveries_view(out@)).contains(s) by {
                        if s != subscriber@ {
                            let x = choose|x: int| 0 <= x < i + 1 && #[trigger] sv.take(i + 1)[x] == s;
                            assert(sv.take(i as int)[x] == s);
                        } else {
                            assert(sv.take(i as int).contains(s));
                        }
                    }
                }
                i = i + 1;
                continue;
            }
            let ghost seen_before = string_views(seen@);
            seen.push(subscriber.clone());
            assert(string_views(seen@) =~= seen_before.push(subscriber@));
            proof {
                assert forall|s: Seq<char>|
                    #[trigger] string_views(seen@).contains(s) <==> sv.take(i + 1).contains(s) by {
                    if s == subscriber@ {
                        assert(sv.take(i + 1)[i as int] == s);
                        assert(string_views(seen@)[seen_before.len() as int] == s);
                    } else {
                        if sv.take(i + 1).contains(s) {
                            let x = choose|x: int| 0 <= x < i + 1 && #[trigger] sv.take(i + 1)[x] == s;
                            assert(sv.take(i as int)[x] == s);
                            assert(seen_before.contains(s));
                            let y = choose|y: int| 0 <= y < seen_before.len() && seen_before[y] == s;
                            assert(string_views(seen@)[y] == s);
                        }
                        if string_views(seen@).contains(s) {
                            let y = choose|y: int| 0 <= y < string_views(seen@).len() && string_views(seen@)[y] == s;
                            assert(y < seen_before.len());
                            assert(seen_before[y] == s);
                            assert(seen_before.contains(s));
                            let x = choose|x: int| 0 <= x < i && #[trigger] sv.take(i as int)[x] == s;
                            assert(sv.take(i + 1)[x] == s);
                        }
                    }
                }
            }
            let ghost out_before = deliveries_view(out@);
            match self.clients.get(subscriber.as_str()) {
                None => {
                    assert(multicast_receipt(h, sender_id@, topic@, pv, allow_empty, subscriber@) is None);
                },
                Some(client) => {
                    let receiver_entitlements = self.authorization.entitlements(
                        client.user.as_str(),
                        topic,
                        Role::Subscriber,
                    );
                    match authorized_packets(packets, &publisher_entitlements, &receiver_entitlements, allow_empty) {
                        None => {
                            assert(multicast_receipt(h, sender_id@, topic@, pv, allow_empty, subscriber@) is None);
                        },
                        Some(passed) => {
                            let ghost before = deliveries_view(out@);
                            let message = Message::ForwardedMulticastData {
                                host: sender.host.clone(),
                                user: sender.user.clone(),
                                topic: topic.to_owned(),
                                data_packets: passed,
                            };
                            out.push(Delivery { client_id: subscriber.clone(), message });
                            assert(deliveries_view(out@) =~= before.push(deliveries_view(out@).last()));
                            assert(recipients(deliveries_view(out@)) =~= recipients(before).push(subscriber@));
                            assert(recipients(deliveries_view(out@)).no_duplicates()) by {
                                let rv = recipients(deliveries_view(out@));
                                assert forall|a: int, b: int| 0 <= a < b < rv.len() implies rv[a] != rv[b] by {
                                    if b == rv.len() - 1 {
                                        assert(rv[a] == before[a].0);
                                        assert(seen_before.contains(before[a].0));
                                    }
                                }
                            }
                            assert(recipients(deliveries_view(out@)).contains(subscriber@)) by {
                                let rv = recipients(deliveries_view(out@));
                                assert(rv[rv.len() - 1] == subscriber@);
                            }
                        },
                    }
                },
            }
            proof {
                assert forall|k: int| 0 <= k < out.len() implies string_views(seen@).contains(
                    #[trigger] deliveries_view(out@)[k].0,
                ) by {
                    if k < out_before.len() {
                        assert(deliveries_view(out@)[k] == out_before[k]);
                        assert(seen_before.contains(out_before[k].0));
                        let y = choose|y: int| 0 <= y < seen_before.len() && seen_before[y] == out_before[k].0;
                        assert(string_views(seen@)[y] == out_before[k].0);
                    } else {
                        assert(string_views(seen@)[seen_before.len() as int] == subscriber@);
                    }
                }
                assert forall|s: Seq<char>|
                    sv.take(i + 1).contains(s) && (#[trigger] multicast_receipt(h, sender_id@, topic@, pv, allow_empty, s)) is Some
                    implies recipients(deliveries_view(out@)).contains(s) by {
                    if s != subscriber@ {
                        let x = choose|x: int| 0 <= x < i + 1 && #[trigger] sv.take(i + 1)[x] == s;
                        assert(sv.take(i as int)[x] == s);
                        assert(recipients(out_before).contains(s));
                        let y = choose|y: int| 0 <= y < recipients(out_before).len() && recipients(out_before)[y] == s;
                        assert(recipients(deliveries_view(out@))[y] == s);
                    }
                }
            }
            i = i + 1;
        }
        self.publishers.add(sender_id, topic);
        proof {
            let ghost sv = string_views(subscribers@);
            assert(sv.take(i as int) =~= sv);
            assert forall|s: Seq<char>| #[trigger] multicast_receipt(h, sender_id@, topic@, pv, allow_empty, s) is Some
                implies recipients(deliveries_view(out@)).contains(s) by {
                assert(sv.to_set().contains(s));
            }
        }
        out
    }

    /// Sends `packets` from `sender_id` on `topic` to `receiver_id` through
    /// the entitlement filter, and records the sender as a publisher of the
    /// topic where something is sent.
    pub fn send_unicast(
        &mut self,
        sender_id: &str,
        receiver_id: &str,
        topic: &str,
        packets: &Vec<DataPacket>,
        allow_empty: bool,
    ) -> (r: Vec<Delivery>)
        requires
            old(self).wf(),
        ensures
            final(self).wf(),
            unicast_outcome(
                old(self)@,
                final(self)@,
                sender_id@,
                receiver_id@,
                topic@,
                packets_view(packets@),
                allow_empty,
                deliveries_view(r@),
            ),
    {
        let mut out: Vec<Delivery> = Vec::new();
        let sender = match self.clients.get(sender_id) {
            Some(c) => c,
            None => return out,
        };
        let receiver = match self.clients.get(receiver_id) {
            Some(c) => c,
            None => return out,
        };
        let publisher_entitlements = self.authorization.entitlements(
            sender.user.as_str(),
            topic,
            Role::Publisher,
        );
        let receiver_entitlements = self.authorization.entitlements(
            receiver.user.as_str(),
            topic,
            Role::Subscriber,
        );
        match authorized_packets(packets, &publisher_entitlements, &receiver_entitlements, allow_empty) {
            None => out,
            Some(passed) => {
                let message = Message::ForwardedUnicastData {
                    host: sender.host.clone(),
                    user: sender.user.clone(),
                    client_id: sender_id.to_owned(),
                    topic: topic.to_owned(),
                    data_packets: passed,
                };
                out.push(Delivery { client_id: receiver_id.to_owned(), message });
                self.publishers.add(sender_id, topic);
                assert(deliveries_view(out@) =~= seq![(receiver_id@, deliveries_view(out@)[0].1)]);
                out
            },
        }
    }

    /// Announces on the reserved topic that `id` holds `pattern` `count` times.
    fn announce(&mut self, id: &str, pattern: &str, count: u32) -> (r: Vec<Delivery>)
        requires
            old(self).wf(),
        ensures
            final(self).wf(),
            notice_outcome(old(self)@, final(self)@, id@, pattern@, count, deliveries_view(r@)),
    {
        let reserved = "~.subscriptions";
        if str_equal(pattern, reserved) {
            return Vec::new();
        }
        let client = match self.clients.get(id) {
            Some(c) => c,
            None => return Vec::new(),
        };
        let notice = Message::ForwardedSubscriptionRequest {
            host: client.host.clone(),
            user: client.user.clone(),
            client_id: id.to_owned(),
            topic: pattern.to_owned(),
            count,
        };
        let payload = match encode(&notice) {
            Ok(b) => b,
            Err(_) => return Vec::new(),
        };
        let headers = vec![(String::from_str("content-type"), String::from_str("application/x-squawkbus"))];
        let packet = DataPacket { entitlements: Vec::new(), headers, data: payload };
        assert(packet@.headers =~= seq![("content-type"@, "application/x-squawkbus"@)]);
        assert(packet@ == notice_packet(subscription_notice(old(self)@, id@, pattern@, count)));
        let packets = vec![packet];
        assert(packets_view(packets@) =~= seq![notice_packet(subscription_notice(old(self)@, id@, pattern@, count))]);
        self.send_multicast(id, reserved, &packets, false)
    }

    /// Adds or removes one subscription of `id` to `pattern`, and announces
    /// the change. A bad pattern, or the removal of a subscription not held,
    /// changes nothing.
    pub fn handle_subscription_request(&mut self, id: &str, pattern: &str, is_add: bool) -> (r: Vec<Delivery>)
        requires
            old(self).wf(),
        ensures
            final(self).wf(),
            subscription_outcome(old(self)@, final(self)@, id@, pattern@, is_add, deliveries_view(r@)),
    {
        let ghost h = self@;
        let ghost k = (pattern@, id@);
        if is_add {
            let result = self.subscriptions.add(pattern, id.to_owned());
            match result {
                Ok(n) => {
                    assert(self@ == with_subscriptions(h, added(h.subscriptions, k)));
                    assert(n == (count_of(h.subscriptions, k) + 1) as u32);
                    let r = self.announce(id, pattern, n);
                    assert(valid_pattern(pattern@) && count_of(h.subscriptions, k) < u32::MAX);
                    assert(notice_outcome(with_subscriptions(h, added(h.subscriptions, k)), self@, id@, pattern@, n, deliveries_view(r@)));
                    assert(subscription_outcome(h, self@, id@, pattern@, is_add, deliveries_view(r@)));
                    r
                },
                Err(e) => {
                    assert(self@ == h);
                    assert(e == TopicTreeError::BadPattern || e == TopicTreeError::CountOverflow);
                    assert(!(valid_pattern(pattern@) && count_of(h.subscriptions, k) < u32::MAX));
                    let r = Vec::new();
                    assert(deliveries_view(r@).len() == 0);
                    assert(subscription_outcome(h, self@, id@, pattern@, is_add, deliveries_view(r@)));
                    r
                },
            }
        } else {
            match self.subscriptions.remove(pattern, id, false) {
                Some(n) => {
                    assert(self@ == with_subscriptions(h, removed(h.subscriptions, k, false)));
                    assert(n == count_after_remove(h.subscriptions, k, false) as u32);
                    let r = self.announce(id, pattern, n);
                    r
                },
                None => {
                    assert(self@ == h);
                    Vec::new()
                },
            }
        }
    }

    /// Closes client `id`: drops each of its subscriptions and announces
    /// each drop, forgets it as a publisher and sends a stale notice on each
    /// topic it was the last to publish on, then forgets the client.
    pub fn handle_close(&mut self, id: &str) -> (r: Vec<Delivery>)
        requires
            old(self).wf(),
        ensures
            final(self).wf(),
            exists|mid: Set<(Seq<char>, Seq<char>)>, pats: Seq<Seq<char>>, chunks: Seq<Deliveries>, stales: Deliveries|
                close_outcome(old(self)@, final(self)@, id@, mid, pats, chunks, stales, deliveries_view(r@)),
    {
        let ghost h = self@;
        let ghost c = id@;
        let patterns = self.subscriptions.topics(id);
        let ghost pv = string_views(patterns@);
        let mut out: Vec<Delivery> = Vec::new();
        let ghost mut chunks: Seq<Deliveries> = Seq::empty();
        let mut i: usize = 0;
        assert(pv.take(0) =~= Seq::<Seq<char>>::empty());
        assert(h.subscriptions.remove_keys(dropped(c, pv.take(0))) =~= h.subscriptions);
        assert(deliveries_view(out@) =~= flatten(chunks));
        while i < patterns.len()
            invariant
                self.wf(),
                c == id@,
                pv == string_views(patterns@),
                pv.to_set() == patterns_of(h.subscriptions, c),
                pv.no_duplicates(),
                i <= patterns.len(),
                self@.clients == h.clients,
                self@.authorization == h.authorization,
                self@.publishers == h.publishers || self@.publishers == h.publishers.insert((c, subscription_topic())),
                self@.subscriptions == h.subscriptions.remove_keys(dropped(c, pv.take(i as int))),
                chunks.len() == i,
                deliveries_view(out@) == flatten(chunks),
                forall|ii: int|
                    0 <= ii < i ==> closing_announcement(closing_state(h, c, pv, ii), c, pv[ii], #[trigger] chunks[ii]),
            decreases patterns.len() - i,
        {
            let pattern = &patterns[i];
            let ghost k = (pattern@, c);
            proof {
                assert(pv[i as int] == pattern@);
                assert(pv.to_set().contains(pattern@));
                assert(h.subscriptions.contains_key(k));
                if pv.take(i as int).contains(pattern@) {
                    let y = choose|y: int| 0 <= y < i && #[trigger] pv.take(i as int)[y] == pattern@;
                    assert(pv[y] == pv[i as int]);
                }
                assert(self@.subscriptions.contains_key(k));
            }
            self.subscriptions.remove(pattern.as_str(), id, true);
            proof {
                assert(pv.take(i + 1) =~= pv.take(i as int).push(pattern@));
                assert(self@.subscriptions =~= h.subscriptions.remove_keys(dropped(c, pv.take(i + 1)))) by {
                    assert forall|q: (Seq<char>, Seq<char>)|
                        pv.take(i + 1).contains(q.0) <==> (pv.take(i as int).contains(q.0) || q.0 == pattern@) by {
                        if pv.take(i + 1).contains(q.0) && q.0 != pattern@ {
                            let y = choose|y: int| 0 <= y < i + 1 && #[trigger] pv.take(i + 1)[y] == q.0;
                            assert(pv.take(i as int)[y] == q.0);
                        }
                        if pv.take(i as int).contains(q.0) {
                            let y = choose|y: int| 0 <= y < i && #[trigger] pv.take(i as int)[y] == q.0;
                            assert(pv.take(i + 1)[y] == q.0);
                        }
                        if q.0 == pattern@ {
                            assert(pv.take(i + 1)[i as int] == q.0);
                        }
                    }
                }
            }
            let ghost st = self@;
            let ghost cs = closing_state(h, c, pv, i as int);
            assert(st.clients == cs.clients && st.subscriptions == cs.subscriptions && st.authorization == cs.authorization);
            let ghost before = deliveries_view(out@);
            let mut notices = self.announce(id, pattern.as_str(), 0);
            let ghost chunk = deliveries_view(notices@);
            out.append(&mut notices);
            proof {
                assert(subscription_notice(st, c, pattern@, 0) == subscription_notice(cs, c, pattern@, 0));
                assert(announced(st, c, pattern@, 0) == announced(cs, c, pattern@, 0));
                lemma_routing_ignores_publishers(
                    st,
                    cs,
                    c,
                    subscription_topic(),
                    seq![notice_packet(subscription_notice(cs, c, pattern@, 0))],
                    false,
                    chunk,
                );
                assert(closing_announcement(cs, c, pv[i as int], chunk));
                assert(deliveries_view(out@) =~= before + chunk);
                let nc = chunks.push(chunk);
                assert(nc.drop_last() =~= chunks);
                assert(flatten(nc) == flatten(chunks) + chunk);
                assert forall|ii: int| 0 <= ii < i + 1 implies closing_announcement(
                    closing_state(h, c, pv, ii), c, pv[ii], #[trigger] nc[ii]) by {
                    if ii < i {
                        assert(nc[ii] == chunks[ii]);
                    }
                }
                chunks = nc;
                assert(h.publishers.insert((c, subscription_topic())).insert((c, subscription_topic()))
                    =~= h.publishers.insert((c, subscription_topic())));
            }
            i = i + 1;
        }
        proof {
            assert(pv.take(i as int) =~= pv);
            assert(self@.subscriptions =~= h.subscriptions.remove_keys(held_by(c))) by {
                assert forall|q: (Seq<char>, Seq<char>)| q.1 == c && h.subscriptions.contains_key(q)
                    implies pv.contains(q.0) by {
                    assert(patterns_of(h.subscriptions, c).contains(q.0));
                    assert(pv.to_set().contains(q.0));
                }
            }
            assert(closing_announcements(h, c, pv, chunks));
        }
        let ghost mid = self@.publishers;
        let stale = self.publishers.remove_publisher(id);
        let ghost sv = string_views(stale@);
        assert(sv.to_set() == sole_topics(mid, c));
        let ghost after = self@;
        let mut stales: Vec<Delivery> = Vec::new();
        match self.clients.get(id) {
            None => {},
            Some(client) => {
                let ghost hc = h.clients[c];
                let mut j: usize = 0;
                assert(sv.take(0).to_set() =~= Set::<Seq<char>>::empty());
                while j < stale.len()
                    invariant
                        self.wf(),
                        self@ == after,
                        c == id@,
                        after.clients == h.clients,
                        h.clients.contains_key(c),
                        hc == h.clients[c],
                        hc == (client.host@, client.user@),
                        sv == string_views(stale@),
                        sv.no_duplicates(),
                        j <= stale.len(),
                        deliveries_view(stales@).no_duplicates(),
                        forall|x: int| 0 <= x < stales@.len() ==> is_stale_notice(h, after, c, sv.take(j as int).to_set(), #[trigger] deliveries_view(stales@)[x]),
                        forall|t: Seq<char>, s: Seq<char>|
                            sv.take(j as int).contains(t) && #[trigger] matching_subscribers(after.subscriptions, t).contains(s)
                                && h.clients.contains_key(s) ==> deliveries_view(stales@).contains((s, stale_notice(hc, t))),
                    decreases stale.len() - j,
                {
                    let topic = &stale[j];
                    assert(sv[j as int] == topic@);
                    assert(sv.take(j + 1) =~= sv.take(j as int).push(topic@));
                    proof {
                        if sv.take(j as int).contains(topic@) {
                            let y = choose|y: int| 0 <= y < j && #[trigger] sv.take(j as int)[y] == topic@;
                            assert(sv[y] == sv[j as int]);
                        }
                        sv.take(j as int).lemma_push_to_set_commute(topic@);
                    }
                    let subscribers = self.subscriptions.subscribers(topic.as_str());
                    let ghost uv = string_views(subscribers@);
                    let mut k: usize = 0;
                    assert(uv.take(0) =~= Seq::<Seq<char>>::empty());
                    while k < subscribers.len()
                        invariant
                            self.wf(),
                            self@ == after,
                            c == id@,
                            after.clients == h.clients,
                            h.clients.contains_key(c),
                            hc == h.clients[c],
                            hc == (client.host@, client.user@),
                            uv == string_views(subscribers@),
                            uv.no_duplicates(),
                            uv.to_set() == matching_subscribers(after.subscriptions, topic@),
                            !sv.take(j as int).contains(topic@),
                            sv.take(j + 1).to_set() == sv.take(j as int).to_set().insert(topic@),
                            k <= subscribers.len(),
                            deliveries_view(stales@).no_duplicates(),
                            forall|x: int| 0 <= x < stales@.len() ==> {
                                &&& is_stale_notice(h, after, c, sv.take(j + 1).to_set(), #[trigger] deliveries_view(stales@)[x])
                                &&& (notice_topic(deliveries_view(stales@)[x].1) == topic@ ==> uv.take(k as int).contains(deliveries_view(stales@)[x].0))
                            },
                            forall|t: Seq<char>, s: Seq<char>|
                                sv.take(j as int).contains(t) && #[trigger] matching_subscribers(after.subscriptions, t).contains(s)
                                    && h.clients.contains_key(s) ==> deliveries_view(stales@).contains((s, stale_notice(hc, t))),
                            forall|s: Seq<char>|
                                #[trigger] uv.take(k as int).contains(s) && h.clients.contains_key(s) ==> deliveries_view(stales@).contains(
                                    (s, stale_notice(hc, topic@)),
                                ),
                        decreases subscribers.len() - k,
                    {
                        let subscriber = &subscribers[k];
                        assert(uv[k as int] == subscriber@);
                        assert(uv.take(k + 1) =~= uv.take(k as int).push(subscriber@));
                        proof {
                            if uv.take(k as int).contains(subscriber@) {
                                let y = choose|y: int| 0 <= y < k && #[trigger] uv.take(k as int)[y] == subscriber@;
                                assert(uv[y] == uv[k as int]);
                            }
                            assert(uv.to_set().contains(subscriber@));
                        }
                        let ghost before = deliveries_view(stales@);
                        let registered = self.clients.get(subscriber.as_str()).is_some();
                        let ghost e = (subscriber@, stale_notice(hc, topic@));
                        if registered {
                            let none: Vec<DataPacket> = Vec::new();
                            assert(packets_view(none@) =~= Seq::<DataPacketView>::empty());
                            let message = Message::ForwardedMulticastData {
                                host: client.host.clone(),
                                user: client.user.clone(),
                                topic: topic.clone(),
                                data_packets: none,
                            };
                            stales.push(Delivery { client_id: subscriber.clone(), message });
                            assert(deliveries_view(stales@) =~= before.push(e));
                        }
                        let ghost now = deliveries_view(stales@);
                        proof {
                            assert forall|x: int| 0 <= x < before.len() implies now[x] == before[x] by {
                                if registered {
                                    assert(now =~= before.push(e));
                                }
                            }
                            if registered {
                                assert(notice_topic(e.1) == topic@);
                                assert(is_stale_notice(h, after, c, sv.take(j + 1).to_set(), e));
                                assert forall|a: int, b: int| 0 <= a < b < now.len() implies now[a] != now[b] by {
                                    if b == now.len() - 1 {
                                        assert(now[a] == before[a]);
                                        if notice_topic(before[a].1) == topic@ {
                                            assert(uv.take(k as int).contains(before[a].0));
                                        }
                                    }
                                }
                                assert(now[now.len() - 1] == e);
                            }
                            assert forall|x: int| 0 <= x < now.len() implies {
                                &&& is_stale_notice(h, after, c, sv.take(j + 1).to_set(), #[trigger] now[x])
                                &&& (notice_topic(now[x].1) == topic@ ==> uv.take(k + 1).contains(now[x].0))
                            } by {
                                if x < before.len() {
                                    if notice_topic(before[x].1) == topic@ {
                                        let y = choose|y: int| 0 <= y < k && #[trigger] uv.take(k as int)[y] == before[x].0;
                                        assert(uv.take(k + 1)[y] == before[x].0);
                                    }
                                } else {
                                    assert(uv.take(k + 1)[k as int] == subscriber@);
                                }
                            }
                            assert forall|d: (Seq<char>, MessageView)| before.contains(d) implies #[trigger] now.contains(d) by {
                                let x = choose|x: int| 0 <= x < before.len() && before[x] == d;
                                assert(now[x] == d);
                            }
                            if registered {
                                assert(now.contains(e));
                            }
                            assert forall|s: Seq<char>|
                                #[trigger] uv.take(k + 1).contains(s) && h.clients.contains_key(s) implies now.contains(
                                    (s, stale_notice(hc, topic@)),
                                ) by {
                                if s != subscriber@ {
                                    let y = choose|y: int| 0 <= y < k + 1 && #[trigger] uv.take(k + 1)[y] == s;
                                    assert(uv.take(k as int)[y] == s);
                                    assert(uv.take(k as int).contains(s));
                                    assert(before.contains((s, stale_notice(hc, topic@))));
                                } else {
                                    assert(registered);
                                }
                            }
                            assert forall|t: Seq<char>, s: Seq<char>|
                                sv.take(j as int).contains(t) && #[trigger] matching_subscribers(after.subscriptions, t).contains(s)
                                    && h.clients.contains_key(s) implies now.contains((s, stale_notice(hc, t))) by {
                                assert(before.contains((s, stale_notice(hc, t))));
                            }
                        }
                        k = k + 1;
                    }
                    proof {
                        assert(uv.take(k as int) =~= uv);
                        assert forall|t: Seq<char>, s: Seq<char>|
                            sv.take(j + 1).contains(t) && #[trigger] matching_subscribers(after.subscriptions, t).contains(s)
                                && h.clients.contains_key(s) implies deliveries_view(stales@).contains((s, stale_notice(hc, t))) by {
                            if t == topic@ {
                                assert(uv.to_set().contains(s));
                                assert(uv.take(k as int).contains(s));
                            } else {
                                let y = choose|y: int| 0 <= y < j + 1 && #[trigger] sv.take(j + 1)[y] == t;
                                assert(sv.take(j as int)[y] == t);
                            }
                        }
                    }
                    j = j + 1;
                }
                proof {
                    assert(sv.take(j as int) =~= sv);
                }
            },
        }
        let ghost sd = deliveries_view(stales@);
        assert(stale_notices(h, after, c, mid, sd));
        let ghost ann = deliveries_view(out@);
        out.append(&mut stales);
        assert(deliveries_view(out@) =~= ann + sd);
        self.clients.remove(id);
        assert(self@.subscriptions == after.subscriptions);
        proof {
            assert(self@.clients == h.clients.remove(c));
            assert(self@.publishers == mid.filter(not_by(c)));
            assert(stale_notices(h, self@, c, mid, sd));
            assert(close_outcome(h, self@, c, mid, pv, chunks, sd, deliveries_view(out@)));
        }
        out
    }

    /// Processes one client event to completion and returns the messages
    /// to deliver, in order.
    pub fn handle_event(&mut self, event: ClientEvent) -> (r: Vec<Delivery>)
        requires
            old(self).wf(),
        ensures
            final(self).wf(),
            match event {
                ClientEvent::Connect { id, host, user } => {
                    &&& final(self)@.clients == old(self)@.clients.insert(id@, (host@, user@))
                    &&& final(self)@.subscriptions == old(self)@.subscriptions
                    &&& final(self)@.publishers == old(self)@.publishers
                    &&& final(self)@.authorization == old(self)@.authorization
                    &&& r@.len() == 0
                },
                ClientEvent::Close { id } => exists|mid: Set<(Seq<char>, Seq<char>)>, pats: Seq<Seq<char>>, chunks: Seq<Deliveries>, stales: Deliveries|
                    close_outcome(old(self)@, final(self)@, id@, mid, pats, chunks, stales, deliveries_view(r@)),
                ClientEvent::Reset { specs } => {
                    &&& final(self)@.clients == old(self)@.clients
                    &&& final(self)@.subscriptions == old(self)@.subscriptions
                    &&& final(self)@.publishers == old(self)@.publishers
                    &&& final(self)@.authorization == specs_view(specs@)
                    &&& r@.len() == 0
                },
                ClientEvent::Message { id, message } => match message {
                    Message::SubscriptionRequest { topic, is_add } => subscription_outcome(
                        old(self)@,
                        final(self)@,
                        id@,
                        topic@,
                        is_add,
                        deliveries_view(r@),
                    ),
                    Message::MulticastData { topic, data_packets } => multicast_outcome(
                        old(self)@,
                        final(self)@,
                        id@,
                        topic@,
                        packets_view(data_packets@),
                        false,
                        deliveries_view(r@),
                    ),
                    Message::UnicastData { client_id, topic, data_packets } => unicast_outcome(
                        old(self)@,
                        final(self)@,
                        id@,
                        client_id@,
                        topic@,
                        packets_view(data_packets@),
                        false,
                        deliveries_view(r@),
                    ),
                    _ => final(self)@ == old(self)@ && r@.len() == 0,
                },
            },
    {
        match event {
            ClientEvent::Connect { id, host, user } => {
                self.clients.handle_connect(id.as_str(), host, user);
                Vec::new()
            },
            ClientEvent::Close { id } => self.handle_close(id.as_str()),
            ClientEvent::Reset { specs } => {
                self.authorization.reset(specs);
                Vec::new()
            },
            ClientEvent::Message { id, message } => match message {
                Message::SubscriptionRequest { topic, is_add } => self.handle_subscription_request(
                    id.as_str(),
                    topic.as_str(),
                    is_add,
                ),
                Message::MulticastData { topic, data_packets } => self.send_multicast(
                    id.as_str(),
                    topic.as_str(),
                    &data_packets,
                    false,
                ),
                Message::UnicastData { client_id, topic, data_packets } => self.send_unicast(
                    id.as_str(),
                    client_id.as_str(),
                    topic.as_str(),
                    &data_packets,
                    false,
                ),
                _ => Vec::new(),
            },
        }
    }
}

} // verus!
