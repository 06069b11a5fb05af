use squawkbus::authorization::{match_user, AuthorizationManager, AuthorizationSpec, Role, Roles};
use squawkbus::codec::decode;
use squawkbus::hub::{authorized_packets, ClientEvent, Delivery, Hub};
use squawkbus::match_tree::MatchTree;
use squawkbus::message::{DataPacket, Message};

fn spec(user: &str, topic: &str, entitlements: Vec<i32>, subscriber: bool, publisher: bool) -> AuthorizationSpec {
    AuthorizationSpec {
        user_pattern: user.to_string(),
        topic_pattern: MatchTree::create(topic).unwrap(),
        entitlements,
        roles: Roles { subscriber, publisher },
    }
}

fn connect(hub: &mut Hub, id: &str, host: &str, user: &str) {
    let out = hub.handle_event(ClientEvent::Connect { id: id.into(), host: host.into(), user: user.into() });
    assert!(out.is_empty());
}

fn send(hub: &mut Hub, id: &str, message: Message) -> Vec<Delivery> {
    hub.handle_event(ClientEvent::Message { id: id.into(), message })
}

fn subscribe(hub: &mut Hub, id: &str, topic: &str, is_add: bool) -> Vec<Delivery> {
    send(hub, id, Message::SubscriptionRequest { topic: topic.into(), is_add })
}

fn publish(hub: &mut Hub, id: &str, topic: &str, data_packets: Vec<DataPacket>) -> Vec<Delivery> {
    send(hub, id, Message::MulticastData { topic: topic.into(), data_packets })
}

fn packet(entitlements: Vec<i32>, data: &str) -> DataPacket {
    DataPacket { entitlements, headers: Vec::new(), data: data.into() }
}

fn open_hub() -> Hub {
    Hub::new(AuthorizationManager::new(Vec::new()))
}

#[test]
fn trivial_pub_sub() {
    let mut hub = open_hub();
    connect(&mut hub, "A", "10.0.0.1", "nobody");
    connect(&mut hub, "B", "10.0.0.2", "nobody");
    assert!(subscribe(&mut hub, "B", "VOD.LSE", true).is_empty());
    let out = publish(&mut hub, "A", "VOD.LSE", vec![packet(vec![], "hi")]);
    assert_eq!(out.len(), 1);
    assert_eq!(out[0].client_id, "B");
    assert_eq!(
        out[0].message,
        Message::ForwardedMulticastData {
            host: "10.0.0.1".into(),
            user: "nobody".into(),
            topic: "VOD.LSE".into(),
            data_packets: vec![packet(vec![], "hi")],
        }
    );
}

#[test]
fn wildcard_subscription() {
    let mut hub = open_hub();
    connect(&mut hub, "A", "a", "nobody");
    connect(&mut hub, "B", "b", "nobody");
    subscribe(&mut hub, "B", "home.kitchen.?", true);
    assert_eq!(publish(&mut hub, "A", "home.kitchen.temperature", vec![packet(vec![], "1")]).len(), 1);
    assert!(publish(&mut hub, "A", "home.kitchen.a.b", vec![packet(vec![], "2")]).is_empty());
}

#[test]
fn multi_level_subscription() {
    let mut hub = open_hub();
    connect(&mut hub, "A", "a", "nobody");
    connect(&mut hub, "B", "b", "nobody");
    subscribe(&mut hub, "B", "home.*", true);
    for topic in ["home.a", "home.a.b", "home.a.b.c"] {
        let out = publish(&mut hub, "A", topic, vec![packet(vec![], "x")]);
        assert_eq!(out.len(), 1);
        assert_eq!(out[0].client_id, "B");
    }
    assert!(publish(&mut hub, "A", "garage", vec![packet(vec![], "x")]).is_empty());
}

#[test]
fn entitlement_filter() {
    // Topic patterns use the subscription grammar: `VOD.*` is every topic under VOD.
    let specs = vec![spec("joe", "VOD.*", vec![1, 2], false, true), spec("mary", "VOD.*", vec![1], true, false)];
    let mut hub = Hub::new(AuthorizationManager::new(specs));
    connect(&mut hub, "J", "j", "joe");
    connect(&mut hub, "M", "m", "mary");
    subscribe(&mut hub, "M", "VOD.LSE", true);
    let out = publish(&mut hub, "J", "VOD.LSE", vec![packet(vec![1], "one"), packet(vec![2], "two")]);
    assert_eq!(out.len(), 1);
    assert_eq!(out[0].client_id, "M");
    match &out[0].message {
        Message::ForwardedMulticastData { data_packets, .. } => {
            assert_eq!(data_packets, &vec![packet(vec![1], "one")]);
        }
        other => panic!("unexpected {:?}", other),
    }
}

#[test]
fn publisher_without_entitlements_reaches_nobody_sharing_none() {
    let specs = vec![spec("joe", "VOD.*", vec![1], false, true), spec("mary", "VOD.*", vec![2], true, false)];
    let mut hub = Hub::new(AuthorizationManager::new(specs));
    connect(&mut hub, "J", "j", "joe");
    connect(&mut hub, "M", "m", "mary");
    subscribe(&mut hub, "M", "VOD.*", true);
    assert!(publish(&mut hub, "J", "VOD.LSE", vec![packet(vec![], "x")]).is_empty());
}

#[test]
fn stale_notice_on_disconnect() {
    let mut hub = open_hub();
    connect(&mut hub, "A", "a-host", "nobody");
    connect(&mut hub, "B", "b-host", "nobody");
    assert!(publish(&mut hub, "A", "Z", vec![packet(vec![], "z")]).is_empty());
    subscribe(&mut hub, "B", "Z", true);
    let out = hub.handle_event(ClientEvent::Close { id: "A".into() });
    assert_eq!(out.len(), 1);
    assert_eq!(out[0].client_id, "B");
    assert_eq!(
        out[0].message,
        Message::ForwardedMulticastData {
            host: "a-host".into(),
            user: "nobody".into(),
            topic: "Z".into(),
            data_packets: Vec::new(),
        }
    );
    // A is gone: nothing more reaches B from it.
    assert!(publish(&mut hub, "A", "Z", vec![packet(vec![], "z")]).is_empty());
}

fn notice_of(d: &Delivery) -> Message {
    match &d.message {
        Message::ForwardedMulticastData { topic, data_packets, .. } => {
            assert_eq!(topic, "~.subscriptions");
            assert_eq!(data_packets.len(), 1);
            assert_eq!(
                data_packets[0].headers,
                vec![("content-type".to_string(), "application/x-squawkbus".to_string())]
            );
            decode(&data_packets[0].data).unwrap()
        }
        other => panic!("unexpected {:?}", other),
    }
}

#[test]
fn meta_notification() {
    let mut hub = open_hub();
    connect(&mut hub, "L", "l-host", "nobody");
    connect(&mut hub, "S", "s-host", "nobody");
    assert!(subscribe(&mut hub, "L", "~.subscriptions", true).is_empty());
    let out = subscribe(&mut hub, "S", "X", true);
    assert_eq!(out.len(), 1);
    assert_eq!(out[0].client_id, "L");
    assert_eq!(
        notice_of(&out[0]),
        Message::ForwardedSubscriptionRequest {
            host: "s-host".into(),
            user: "nobody".into(),
            client_id: "S".into(),
            topic: "X".into(),
            count: 1,
        }
    );
    let out = subscribe(&mut hub, "S", "X", false);
    assert_eq!(out.len(), 1);
    match notice_of(&out[0]) {
        Message::ForwardedSubscriptionRequest { count, topic, .. } => {
            assert_eq!(count, 0);
            assert_eq!(topic, "X");
        }
        other => panic!("unexpected {:?}", other),
    }
    // Removing what is not held announces nothing.
    assert!(subscribe(&mut hub, "S", "X", false).is_empty());
    // A bad pattern changes nothing.
    assert!(subscribe(&mut hub, "S", "a.*.b", true).is_empty());
}

#[test]
fn close_announces_each_dropped_subscription() {
    let mut hub = open_hub();
    connect(&mut hub, "L", "l", "nobody");
    connect(&mut hub, "S", "s", "nobody");
    subscribe(&mut hub, "L", "~.subscriptions", true);
    subscribe(&mut hub, "S", "X", true);
    subscribe(&mut hub, "S", "X", true);
    let out = hub.handle_event(ClientEvent::Close { id: "S".into() });
    let notices: Vec<Message> = out
        .iter()
        .filter(|d| matches!(&d.message, Message::ForwardedMulticastData { data_packets, .. } if !data_packets.is_empty()))
        .map(notice_of)
        .collect();
    assert_eq!(notices.len(), 1);
    match &notices[0] {
        Message::ForwardedSubscriptionRequest { count, .. } => assert_eq!(*count, 0),
        other => panic!("unexpected {:?}", other),
    }
}

#[test]
fn unicast_goes_to_one_client() {
    let mut hub = open_hub();
    connect(&mut hub, "A", "a", "nobody");
    connect(&mut hub, "B", "b", "nobody");
    let out = send(
        &mut hub,
        "A",
        Message::UnicastData { client_id: "B".into(), topic: "T".into(), data_packets: vec![packet(vec![], "p")] },
    );
    assert_eq!(out.len(), 1);
    assert_eq!(out[0].client_id, "B");
    assert_eq!(
        out[0].message,
        Message::ForwardedUnicastData {
            host: "a".into(),
            user: "nobody".into(),
            client_id: "A".into(),
            topic: "T".into(),
            data_packets: vec![packet(vec![], "p")],
        }
    );
    let out = send(
        &mut hub,
        "A",
        Message::UnicastData { client_id: "C".into(), topic: "T".into(), data_packets: vec![packet(vec![], "p")] },
    );
    assert!(out.is_empty());
}

#[test]
fn subscriber_gets_one_copy_through_two_patterns() {
    let mut hub = open_hub();
    connect(&mut hub, "A", "a", "nobody");
    connect(&mut hub, "B", "b", "nobody");
    subscribe(&mut hub, "B", "x.?", true);
    subscribe(&mut hub, "B", "x.*", true);
    assert_eq!(publish(&mut hub, "A", "x.y", vec![packet(vec![], "1")]).len(), 1);
}

#[test]
fn unhandled_messages_change_nothing() {
    let mut hub = open_hub();
    connect(&mut hub, "A", "a", "nobody");
    assert!(send(&mut hub, "A", Message::AuthenticationResponse { client_id: "x".into() }).is_empty());
}

#[test]
fn reset_replaces_the_policy() {
    let mut hub = open_hub();
    connect(&mut hub, "J", "j", "joe");
    connect(&mut hub, "M", "m", "mary");
    subscribe(&mut hub, "M", "T", true);
    assert_eq!(publish(&mut hub, "J", "T", vec![packet(vec![5], "x")]).len(), 1);
    let out = hub.handle_event(ClientEvent::Reset { specs: vec![spec("joe", "T", vec![1], false, true)] });
    assert!(out.is_empty());
    assert!(publish(&mut hub, "J", "T", vec![packet(vec![5], "x")]).is_empty());
}

#[test]
fn entitlements_union_matching_specs() {
    let manager = AuthorizationManager::new(vec![
        spec(".*", "PUB.*", vec![0], true, true),
        spec("joe", "*", vec![1, 2], true, false),
        spec("joe", "?.NSE", vec![3, 4], true, false),
    ]);
    let mut got = manager.entitlements("nobody", "PUB.foo", Role::Subscriber);
    got.sort();
    assert_eq!(got, vec![0]);
    let mut got = manager.entitlements("joe", "IBM.NSE", Role::Subscriber);
    got.sort();
    assert_eq!(got, vec![1, 2, 3, 4]);
    assert!(manager.entitlements("joe", "IBM.NSE", Role::Publisher).is_empty());
    assert!(manager.entitlements("jo", "IBM.NSE", Role::Subscriber).is_empty());
}

#[test]
fn user_patterns_match_the_whole_name() {
    assert!(match_user("joe", "joe"));
    assert!(!match_user("jo", "joe"));
    assert!(!match_user("oe", "joe"));
    assert!(match_user("j.*", "joe"));
    assert!(match_user("a|joe", "joe"));
    assert!(!match_user("(", "joe"));
}

#[test]
fn filter_keeps_packets_within_both_sets() {
    let packets = vec![packet(vec![1], "a"), packet(vec![2], "b"), packet(vec![1, 3], "c")];
    let got = authorized_packets(&packets, &vec![1, 3], &vec![1, 3, 4], false).unwrap();
    assert_eq!(got, vec![packet(vec![1], "a"), packet(vec![1, 3], "c")]);
    assert!(authorized_packets(&packets, &vec![7], &vec![1], true).is_none());
    assert_eq!(authorized_packets(&packets, &vec![], &vec![], false).unwrap().len(), 3);
    assert!(authorized_packets(&packets, &vec![9], &vec![9], false).is_none());
    assert_eq!(authorized_packets(&packets, &vec![9], &vec![9], true).unwrap().len(), 0);
}

#[test]
fn authorization_smoke() {
    let manager = AuthorizationManager::new(vec![
        spec(".*", "PUB.*", vec![0], true, true),
        spec("joe", "?.LSE", vec![1, 2], true, false),
        spec("joe", "?.NSE", vec![3, 4], true, false),
    ]);
    let sorted = |mut v: Vec<i32>| {
        v.sort();
        v
    };
    assert_eq!(sorted(manager.entitlements("nobody", "PUB.foo", Role::Subscriber)), vec![0]);
    assert_eq!(sorted(manager.entitlements("nobody", "PUB.foo", Role::Publisher)), vec![0]);
    assert_eq!(sorted(manager.entitlements("joe", "TSCO.LSE", Role::Subscriber)), vec![1, 2]);
    assert!(manager.entitlements("joe", "TSCO.LSE", Role::Publisher).is_empty());
    assert_eq!(sorted(manager.entitlements("joe", "IBM.NSE", Role::Subscriber)), vec![3, 4]);
    assert!(manager.entitlements("joe", "MSFT.NDAQ", Role::Subscriber).is_empty());
}

#[test]
fn close_announces_count_zero_without_publishing() {
    let mut hub = open_hub();
    connect(&mut hub, "L", "l", "nobody");
    connect(&mut hub, "C", "c-host", "nobody");
    subscribe(&mut hub, "L", "~.subscriptions", true);
    assert_eq!(subscribe(&mut hub, "C", "X", true).len(), 1);
    let out = hub.handle_event(ClientEvent::Close { id: "C".into() });
    // The count-0 announcement comes first, then the stale notice on the
    // reserved topic that C was the last to publish on.
    assert_eq!(out.len(), 2);
    assert_eq!(out[0].client_id, "L");
    assert_eq!(
        notice_of(&out[0]),
        Message::ForwardedSubscriptionRequest {
            host: "c-host".into(),
            user: "nobody".into(),
            client_id: "C".into(),
            topic: "X".into(),
            count: 0,
        }
    );
    assert_eq!(
        out[1].message,
        Message::ForwardedMulticastData {
            host: "c-host".into(),
            user: "nobody".into(),
            topic: "~.subscriptions".into(),
            data_packets: Vec::new(),
        }
    );
}

#[test]
fn user_pattern_cannot_escape_its_anchor() {
    assert!(!match_user("a)|(b", "xb"));
    assert!(!match_user("a)|(b", "a"));
}
