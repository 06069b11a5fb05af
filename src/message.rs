//! The messages of the protocol and their encoding.
//!
//! A message is its one-byte type tag followed by its fields in order.
use vstd::prelude::*;

verus! {

/// A unit of published data: the entitlements needed to receive it, its
/// headers (name, value) and its payload.
#[derive(Debug, Clone, PartialEq)]
pub struct DataPacket {
    pub entitlements: Vec<i32>,
    pub headers: Vec<(String, String)>,
    pub data: Vec<u8>,
}

pub struct DataPacketView {
    pub entitlements: Seq<i32>,
    pub headers: Seq<(Seq<char>, Seq<char>)>,
    pub data: Seq<u8>,
}

pub open spec fn headers_view(h: Seq<(String, String)>) -> Seq<(Seq<char>, Seq<char>)> {
    h.map_values(|x: (String, String)| (x.0@, x.1@))
}

impl View for DataPacket {
    type V = DataPacketView;

    open spec fn view(&self) -> DataPacketView {
        DataPacketView {
            entitlements: self.entitlements@,
            headers: headers_view(self.headers@),
            data: self.data@,
        }
    }
}

pub open spec fn packets_view(v: Seq<DataPacket>) -> Seq<DataPacketView> {
    v.map_values(|p: DataPacket| p@)
}

/// A packet may reach a holder of `all`: every entitlement it needs is in `all`.
pub open spec fn packet_authorized(p: DataPacketView, all: Set<i32>) -> bool {
    p.entitlements.to_set().subset_of(all)
}

impl DataPacket {
    pub fn new(entitlements: Vec<i32>, headers: Vec<(String, String)>, data: Vec<u8>) -> (r:
        DataPacket)
        ensures
            r.entitlements@ == entitlements@,
            r.headers@ == headers@,
            r.data@ == data@,
    {
        DataPacket { entitlements, headers, data }
    }

    /// Whether every entitlement of the packet is in `all_entitlements`.
    pub fn is_authorized(&self, all_entitlements: &Vec<i32>) -> (r: bool)
        ensures
            r == packet_authorized(self@, all_entitlements@.to_set()),
    {
        let mut i: usize = 0;
        while i < self.entitlements.len()
            invariant
                i <= self.entitlements.len(),
                forall|j: int| 0 <= j < i ==> all_entitlements@.contains(#[trigger] self.entitlements@[j]),
            decreases self.entitlements.len() - i,
        {
            if !contains_i32(all_entitlements, self.entitlements[i]) {
                assert(self@.entitlements.to_set().contains(self.entitlements@[i as int]));
                return false;
            }
            i = i + 1;
        }
        proof {
            assert forall|x: i32| self@.entitlements.to_set().contains(x) implies all_entitlements@.to_set().contains(x) by {
                let j = choose|j: int| 0 <= j < self.entitlements.len() && self.entitlements@[j] == x;
            }
        }
        true
    }

    /// A copy with the same view.
    pub fn copy(&self) -> (r: DataPacket)
        ensures
            r@ == self@,
    {
        let mut entitlements: Vec<i32> = Vec::new();
        let mut i: usize = 0;
        while i < self.entitlements.len()
            invariant
                i <= self.entitlements.len(),
                entitlements@ == self.entitlements@.take(i as int),
            decreases self.entitlements.len() - i,
        {
            entitlements.push(self.entitlements[i]);
            assert(self.entitlements@.take(i + 1) =~= self.entitlements@.take(i as int).push(self.entitlements@[i as int]));
            i = i + 1;
        }
        let mut headers: Vec<(String, String)> = Vec::new();
        let mut j: usize = 0;
        while j < self.headers.len()
            invariant
                j <= self.headers.len(),
                headers_view(headers@) == headers_view(self.headers@).take(j as int),
            decreases self.headers.len() - j,
        {
            let name = self.headers[j].0.clone();
            let value = self.headers[j].1.clone();
            let ghost before = headers@;
            headers.push((name, value));
            assert(headers_view(headers@) =~= headers_view(before).push((name@, value@)));
            assert(headers_view(self.headers@).take(j + 1) =~= headers_view(self.headers@).take(j as int).push(headers_view(self.headers@)[j as int]));
            j = j + 1;
        }
        let mut data: Vec<u8> = Vec::new();
        let mut k: usize = 0;
        while k < self.data.len()
            invariant
                k <= self.data.len(),
                data@ == self.data@.take(k as int),
            decreases self.data.len() - k,
        {
            data.push(self.data[k]);
            assert(self.data@.take(k + 1) =~= self.data@.take(k as int).push(self.data@[k as int]));
            k = k + 1;
        }
        assert(entitlements@ =~= self.entitlements@);
        assert(headers_view(headers@) =~= headers_view(self.headers@));
        assert(data@ =~= self.data@);
        DataPacket { entitlements, headers, data }
    }
}

/// The one-byte tag of each kind of message.
#[derive(Debug, Clone, Copy, PartialEq, Eq)]
pub enum MessageType {
    AuthenticationRequest,
    AuthenticationResponse,
    MulticastData,
    UnicastData,
    ForwardedSubscriptionRequest,
    /// Reserved: no message of this kind is sent.
    NotificationRequest,
    SubscriptionRequest,
    ForwardedMulticastData,
    ForwardedUnicastData,
}

pub open spec fn type_tag(t: MessageType) -> u8 {
    match t {
        MessageType::AuthenticationRequest => 1,
        MessageType::AuthenticationResponse => 2,
        MessageType::MulticastData => 3,
        MessageType::UnicastData => 4,
        MessageType::ForwardedSubscriptionRequest => 5,
        MessageType::NotificationRequest => 6,
        MessageType::SubscriptionRequest => 7,
        MessageType::ForwardedMulticastData => 8,
        MessageType::ForwardedUnicastData => 9,
    }
}

impl MessageType {
    pub fn to_byte(self) -> (r: u8)
        ensures
            r == type_tag(self),
    {
        match self {
            MessageType::AuthenticationRequest => 1,
            MessageType::AuthenticationResponse => 2,
            MessageType::MulticastData => 3,
            MessageType::UnicastData => 4,
            MessageType::ForwardedSubscriptionRequest => 5,
            MessageType::NotificationRequest => 6,
            MessageType::SubscriptionRequest => 7,
            MessageType::ForwardedMulticastData => 8,
            MessageType::ForwardedUnicastData => 9,
        }
    }

    /// The type with tag `b`, if any.
    pub fn from_byte(b: u8) -> (r: Option<MessageType>)
        ensures
            r matches Some(t) ==> type_tag(t) == b,
            r is None <==> b < 1 || b > 9,
    {
        match b {
            1 => Some(MessageType::AuthenticationRequest),
            2 => Some(MessageType::AuthenticationResponse),
            3 => Some(MessageType::MulticastData),
            4 => Some(MessageType::UnicastData),
            5 => Some(MessageType::ForwardedSubscriptionRequest),
            6 => Some(MessageType::NotificationRequest),
            7 => Some(MessageType::SubscriptionRequest),
            8 => Some(MessageType::ForwardedMulticastData),
            9 => Some(MessageType::ForwardedUnicastData),
            _ => None,
        }
    }
}

/// A message of the protocol.
#[derive(Debug, Clone, PartialEq)]
pub enum Message {
    AuthenticationRequest { method: String, credentials: Vec<u8> },
    AuthenticationResponse { client_id: String },
    ForwardedMulticastData { host: String, user: String, topic: String, data_packets: Vec<DataPacket> },
    ForwardedSubscriptionRequest {
        host: String,
        user: String,
        client_id: String,
        topic: String,
        count: u32,
    },
    ForwardedUnicastData {
        host: String,
        user: String,
        client_id: String,
        topic: String,
        data_packets: Vec<DataPacket>,
    },
    MulticastData { topic: String, data_packets: Vec<DataPacket> },
    SubscriptionRequest { topic: String, is_add: bool },
    UnicastData { client_id: String, topic: String, data_packets: Vec<DataPacket> },
}

pub enum MessageView {
    AuthenticationRequest { method: Seq<char>, credentials: Seq<u8> },
    AuthenticationResponse { client_id: Seq<char> },
    ForwardedMulticastData {
        host: Seq<char>,
        user: Seq<char>,
        topic: Seq<char>,
        data_packets: Seq<DataPacketView>,
    },
    ForwardedSubscriptionRequest {
        host: Seq<char>,
        user: Seq<char>,
        client_id: Seq<char>,
        topic: Seq<char>,
        count: u32,
    },
    ForwardedUnicastData {
        host: Seq<char>,
        user: Seq<char>,
        client_id: Seq<char>,
        topic: Seq<char>,
        data_packets: Seq<DataPacketView>,
    },
    MulticastData { topic: Seq<char>, data_packets: Seq<DataPacketView> },
    SubscriptionRequest { topic: Seq<char>, is_add: bool },
    UnicastData { client_id: Seq<char>, topic: Seq<char>, data_packets: Seq<DataPacketView> },
}

impl View for Message {
    type V = MessageView;

    open spec fn view(&self) -> MessageView {
        match self {
            Message::AuthenticationRequest { method, credentials } => MessageView::AuthenticationRequest {
                method: method@,
                credentials: credentials@,
            },
            Message::AuthenticationResponse { client_id } => MessageView::AuthenticationResponse {
                client_id: client_id@,
            },
            Message::ForwardedMulticastData { host, user, topic, data_packets } => MessageView::ForwardedMulticastData {
                host: host@,
                user: user@,
                topic: topic@,
                data_packets: packets_view(data_packets@),
            },
            Message::ForwardedSubscriptionRequest { host, user, client_id, topic, count } => MessageView::ForwardedSubscriptionRequest {
                host: host@,
                user: user@,
                client_id: client_id@,
                topic: topic@,
                count: *count,
            },
            Message::ForwardedUnicastData { host, user, client_id, topic, data_packets } => MessageView::ForwardedUnicastData {
                host: host@,
                user: user@,
                client_id: client_id@,
                topic: topic@,
                data_packets: packets_view(data_packets@),
            },
            Message::MulticastData { topic, data_packets } => MessageView::MulticastData {
                topic: topic@,
                data_packets: packets_view(data_packets@),
            },
            Message::SubscriptionRequest { topic, is_add } => MessageView::SubscriptionRequest {
                topic: topic@,
                is_add: *is_add,
            },
            Message::UnicastData { client_id, topic, data_packets } => MessageView::UnicastData {
                client_id: client_id@,
                topic: topic@,
                data_packets: packets_view(data_packets@),
            },
        }
    }
}

pub open spec fn message_type_of(m: MessageView) -> MessageType {
    match m {
        MessageView::AuthenticationRequest { .. } => MessageType::AuthenticationRequest,
        MessageView::AuthenticationResponse { .. } => MessageType::AuthenticationResponse,
        MessageView::ForwardedMulticastData { .. } => MessageType::ForwardedMulticastData,
        MessageView::ForwardedSubscriptionRequest { .. } => MessageType::ForwardedSubscriptionRequest,
        MessageView::ForwardedUnicastData { .. } => MessageType::ForwardedUnicastData,
        MessageView::MulticastData { .. } => MessageType::MulticastData,
        MessageView::SubscriptionRequest { .. } => MessageType::SubscriptionRequest,
        MessageView::UnicastData { .. } => MessageType::UnicastData,
    }
}

impl Message {
    pub fn message_type(&self) -> (r: MessageType)
        ensures
            r == message_type_of(self@),
    {
        match self {
            Message::AuthenticationRequest { .. } => MessageType::AuthenticationRequest,
            Message::AuthenticationResponse { .. } => MessageType::AuthenticationResponse,
            Message::ForwardedMulticastData { .. } => MessageType::ForwardedMulticastData,
            Message::ForwardedSubscriptionRequest { .. } => MessageType::ForwardedSubscriptionRequest,
            Message::ForwardedUnicastData { .. } => MessageType::ForwardedUnicastData,
            Message::MulticastData { .. } => MessageType::MulticastData,
            Message::SubscriptionRequest { .. } => MessageType::SubscriptionRequest,
            Message::UnicastData { .. } => MessageType::UnicastData,
        }
    }
}

/// The fields of a request to authenticate with `method` and `credentials`.
pub struct AuthenticationRequest {
    pub method: String,
    pub credentials: Vec<u8>,
}

impl AuthenticationRequest {
    pub fn message_type(&self) -> (r: MessageType)
        ensures
            r == MessageType::AuthenticationRequest,
    {
        MessageType::AuthenticationRequest
    }

    /// The message that carries these fields.
    pub fn into_message(self) -> (r: Message)
        ensures
            r == (Message::AuthenticationRequest { method: self.method, credentials: self.credentials }),
    {
        Message::AuthenticationRequest { method: self.method, credentials: self.credentials }
    }
}

/// The fields of the id given to an authenticated client.
pub struct AuthenticationResponse {
    pub client_id: String,
}

impl AuthenticationResponse {
    pub fn message_type(&self) -> (r: MessageType)
        ensures
            r == MessageType::AuthenticationResponse,
    {
        MessageType::AuthenticationResponse
    }

    /// The message that carries these fields.
    pub fn into_message(self) -> (r: Message)
        ensures
            r == (Message::AuthenticationResponse { client_id: self.client_id }),
    {
        Message::AuthenticationResponse { client_id: self.client_id }
    }
}

/// The fields of a multicast as delivered to a subscriber.
pub struct ForwardedMulticastData {
    pub host: String,
    pub user: String,
    pub topic: String,
    pub data_packets: Vec<DataPacket>,
}

impl ForwardedMulticastData {
    pub fn message_type(&self) -> (r: MessageType)
        ensures
            r == MessageType::ForwardedMulticastData,
    {
        MessageType::ForwardedMulticastData
    }

    /// The message that carries these fields.
    pub fn into_message(self) -> (r: Message)
        ensures
            r == (Message::ForwardedMulticastData { host: self.host, user: self.user, topic: self.topic, data_packets: self.data_packets }),
    {
        Message::ForwardedMulticastData { host: self.host, user: self.user, topic: self.topic, data_packets: self.data_packets }
    }
}

/// The fields of the announcement of a subscriber's count for a pattern.
pub struct ForwardedSubscriptionRequest {
    pub host: String,
    pub user: String,
    pub client_id: String,
    pub topic: String,
    pub count: u32,
}

impl ForwardedSubscriptionRequest {
    pub fn message_type(&self) -> (r: MessageType)
        ensures
            r == MessageType::ForwardedSubscriptionRequest,
    {
        MessageType::ForwardedSubscriptionRequest
    }

    /// The message that carries these fields.
    pub fn into_message(self) -> (r: Message)
        ensures
            r == (Message::ForwardedSubscriptionRequest { host: self.host, user: self.user, client_id: self.client_id, topic: self.topic, count: self.count }),
    {
        Message::ForwardedSubscriptionRequest { host: self.host, user: self.user, client_id: self.client_id, topic: self.topic, count: self.count }
    }
}

/// The fields of a unicast as delivered to its receiver.
pub struct ForwardedUnicastData {
    pub host: String,
    pub user: String,
    pub client_id: String,
    pub topic: String,
    pub data_packets: Vec<DataPacket>,
}

impl ForwardedUnicastData {
    pub fn message_type(&self) -> (r: MessageType)
        ensures
            r == MessageType::ForwardedUnicastData,
    {
        MessageType::ForwardedUnicastData
    }

    /// The message that carries these fields.
    pub fn into_message(self) -> (r: Message)
        ensures
            r == (Message::ForwardedUnicastData { host: self.host, user: self.user, client_id: self.client_id, topic: self.topic, data_packets: self.data_packets }),
    {
        Message::ForwardedUnicastData { host: self.host, user: self.user, client_id: self.client_id, topic: self.topic, data_packets: self.data_packets }
    }
}

/// The fields of data published to every subscriber of a topic.
pub struct MulticastData {
    pub topic: String,
    pub data_packets: Vec<DataPacket>,
}

impl MulticastData {
    pub fn message_type(&self) -> (r: MessageType)
        ensures
            r == MessageType::MulticastData,
    {
        MessageType::MulticastData
    }

    /// The message that carries these fields.
    pub fn into_message(self) -> (r: Message)
        ensures
            r == (Message::MulticastData { topic: self.topic, data_packets: self.data_packets }),
    {
        Message::MulticastData { topic: self.topic, data_packets: self.data_packets }
    }
}

/// The fields of a request to add or drop a subscription.
pub struct SubscriptionRequest {
    pub topic: String,
    pub is_add: bool,
}

impl SubscriptionRequest {
    pub fn message_type(&self) -> (r: MessageType)
        ensures
            r == MessageType::SubscriptionRequest,
    {
        MessageType::SubscriptionRequest
    }

    /// The message that carries these fields.
    pub fn into_message(self) -> (r: Message)
        ensures
            r == (Message::SubscriptionRequest { topic: self.topic, is_add: self.is_add }),
    {
        Message::SubscriptionRequest { topic: self.topic, is_add: self.is_add }
    }
}

/// The fields of data sent to one client.
pub struct UnicastData {
    pub client_id: String,
    pub topic: String,
    pub data_packets: Vec<DataPacket>,
}

impl UnicastData {
    pub fn message_type(&self) -> (r: MessageType)
        ensures
            r == MessageType::UnicastData,
    {
        MessageType::UnicastData
    }

    /// The message that carries these fields.
    pub fn into_message(self) -> (r: Message)
        ensures
            r == (Message::UnicastData { client_id: self.client_id, topic: self.topic, data_packets: self.data_packets }),
    {
        Message::UnicastData { client_id: self.client_id, topic: self.topic, data_packets: self.data_packets }
    }
}

/// The fields of the reserved notification request, which no message
/// carries.
pub struct NotificationRequest {
    pub pattern: String,
    pub is_add: bool,
}

impl NotificationRequest {
    pub fn message_type(&self) -> (r: MessageType)
        ensures
            r == MessageType::NotificationRequest,
    {
        MessageType::NotificationRequest
    }
}

/// Whether `v` holds `x`.
pub fn contains_i32(v: &Vec<i32>, x: i32) -> (r: bool)
    ensures
        r == v@.contains(x),
{
    let mut i: usize = 0;
    while i < v.len()
        invariant
            i <= v.len(),
            forall|j: int| 0 <= j < i ==> v@[j] != x,
        decreases v.len() - i,
    {
        if v[i] == x {
            assert(v@[i as int] == x);
            return true;
        }
        i = i + 1;
    }
    false
}

} // verus!
