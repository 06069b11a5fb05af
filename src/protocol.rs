//! The console client's request lines: `publish <topic> (<entitlements> <message>)+`
//! and `subscribe <topic>`.
use vstd::prelude::*;
use vstd::string::*;
use vstd::utf8::encode_utf8;
use crate::message::{packets_view, DataPacket, DataPacketView, Message, MessageView};
use crate::parse::{parse_entitlements, spec_parse_entitlements};
use crate::topic::{split_chars, split_on, string_views};
use crate::topic_tree::str_equal;

verus! {

pub open spec fn is_blank(c: char) -> bool {
    c == ' ' || c == '\t' || c == '\n' || c == '\r'
}

/// `s` without blanks at either end.
pub open spec fn trimmed(s: Seq<char>) -> Seq<char>
    decreases s.len(),
{
    if s.len() > 0 && is_blank(s[0]) {
        trimmed(s.drop_first())
    } else if s.len() > 0 && is_blank(s.last()) {
        trimmed(s.drop_last())
    } else {
        s
    }
}

fn trim(s: &str) -> (r: String)
    ensures
        r@ == trimmed(s@),
{
    let n = s.unicode_len();
    let mut start: usize = 0;
    let mut end: usize = n;
    assert(s@.subrange(0, n as int) =~= s@);
    while start < end && is_blank_char(s.get_char(start))
        invariant
            n == s@.len(),
            start <= end <= n,
            end == n,
            trimmed(s@) == trimmed(s@.subrange(start as int, end as int)),
        decreases end - start,
    {
        assert(s@.subrange(start as int, end as int).drop_first() =~= s@.subrange(start + 1, end as int));
        start = start + 1;
    }
    while start < end && is_blank_char(s.get_char(end - 1))
        invariant
            n == s@.len(),
            start <= end <= n,
            start == end || !is_blank(s@[start as int]),
            trimmed(s@) == trimmed(s@.subrange(start as int, end as int)),
        decreases end - start,
    {
        let ghost sub = s@.subrange(start as int, end as int);
        assert(sub.drop_last() =~= s@.subrange(start as int, end - 1));
        assert(sub[0] == s@[start as int]);
        end = end - 1;
    }
    proof {
        let sub = s@.subrange(start as int, end as int);
        if start < end {
            assert(sub[0] == s@[start as int]);
            assert(sub.last() == s@[end - 1]);
        }
    }
    s.substring_char(start, end).to_owned()
}

fn is_blank_char(c: char) -> (r: bool)
    ensures
        r == is_blank(c),
{
    c == ' ' || c == '\t' || c == '\n' || c == '\r'
}

/// The entitlements a token gives: none for `_`, else a comma separated list.
pub open spec fn token_entitlements(t: Seq<char>) -> Option<Seq<i32>> {
    if t == "_"@ {
        Some(Seq::empty())
    } else {
        spec_parse_entitlements(t)
    }
}

/// The packet of one (entitlements, message) pair of a publish request.
pub open spec fn console_packet(entitlements: Seq<i32>, message: Seq<char>) -> DataPacketView {
    DataPacketView {
        entitlements,
        headers: seq![("content-type"@, "text/plain"@)],
        data: encode_utf8(message),
    }
}

/// Whether `args`, from position 2 on, are (entitlements, message) pairs
/// whose entitlements parse.
pub open spec fn pairs_parse(args: Seq<Seq<char>>) -> bool {
    forall|k: int| 0 <= k < (args.len() - 2) / 2 ==> (#[trigger] token_entitlements(args[2 + 2 * k])) is Some
}

/// The packets of the pairs in `args`.
pub open spec fn console_packets(args: Seq<Seq<char>>) -> Seq<DataPacketView> {
    Seq::new(
        ((args.len() - 2) / 2) as nat,
        |k: int| console_packet(token_entitlements(args[2 + 2 * k])->Some_0, args[3 + 2 * k]),
    )
}

/// Builds a multicast from `publish <topic> ((<entitlements> | _) <message>)+`.
pub fn handle_publish(args: &Vec<String>) -> (r: Result<Message, String>)
    ensures
        ({
            let av = string_views(args@);
            if av.len() < 4 || av.len() % 2 == 1 || !pairs_parse(av) {
                r is Err
            } else {
                r matches Ok(m) && m@ == (MessageView::MulticastData {
                    topic: av[1],
                    data_packets: console_packets(av),
                })
            }
        }),
{
    let ghost av = string_views(args@);
    if args.len() < 4 || args.len() % 2 == 1 {
        return Err(String::from_str("usage: publish <topic> ((<entitlements> | '_') <message>)+"));
    }
    let topic = args[1].clone();
    let mut data_packets: Vec<DataPacket> = Vec::new();
    let mut i: usize = 2;
    while i < args.len()
        invariant
            av == string_views(args@),
            av.len() >= 4,
            av.len() % 2 == 0,
            2 <= i <= av.len(),
            i == 2 + 2 * data_packets@.len(),
            forall|k: int| 0 <= k < data_packets@.len() ==> (#[trigger] token_entitlements(av[2 + 2 * k])) is Some,
            forall|k: int|
                0 <= k < data_packets@.len() ==> packets_view(data_packets@)[k] == console_packet(
                    token_entitlements(av[2 + 2 * k])->Some_0,
                    av[3 + 2 * k],
                ),
        decreases av.len() - i,
    {
        let ghost k = data_packets@.len() as int;
        assert(2 + 2 * k == i);
        let entitlements = if str_equal(args[i].as_str(), "_") {
            Vec::new()
        } else {
            match parse_entitlements(args[i].as_str()) {
                Some(e) => e,
                None => {
                    assert(token_entitlements(av[2 + 2 * k]) is None);
                    return Err(String::from_str("entitlements should be integers"));
                },
            }
        };
        let message = &args[i + 1];
        let headers = vec![(String::from_str("content-type"), String::from_str("text/plain"))];
        let data = message.as_str().as_bytes_vec();
        let ghost before = data_packets@;
        assert(av[i as int] == args@[i as int]@);
        assert(av[i + 1] == message@);
        assert(token_entitlements(av[2 + 2 * k]) == Some(entitlements@));
        assert(data@ == encode_utf8(av[3 + 2 * k]));
        let packet = DataPacket { entitlements, headers, data };
        assert(crate::message::headers_view(packet.headers@) =~= seq![("content-type"@, "text/plain"@)]);
        assert(packet@ == console_packet(token_entitlements(av[2 + 2 * k])->Some_0, av[3 + 2 * k]));
        data_packets.push(packet);
        proof {
            assert(packets_view(data_packets@)[k] == packet@);
            assert forall|j: int| 0 <= j < data_packets@.len() implies packets_view(data_packets@)[j] == console_packet(
                token_entitlements(av[2 + 2 * j])->Some_0,
                av[3 + 2 * j],
            ) by {
                if j < k {
                    assert(data_packets@[j] == before[j]);
                    assert(packets_view(before)[j] == console_packet(
                        token_entitlements(av[2 + 2 * j])->Some_0,
                        av[3 + 2 * j],
                    ));
                } else {
                    assert(j == k);
                }
            }
        }
        i = i + 2;
    }
    let ghost pv = packets_view(data_packets@);
    assert((av.len() - 2) / 2 == data_packets@.len());
    assert(pv =~= console_packets(av));
    Ok(Message::MulticastData { topic, data_packets })
}

/// Builds a subscription from `subscribe <topic>`.
pub fn handle_subscribe(args: &Vec<String>) -> (r: Result<Message, String>)
    ensures
        args@.len() == 2 <==> r is Ok,
        r matches Ok(m) ==> m@ == (MessageView::SubscriptionRequest { topic: args@[1]@, is_add: true }),
{
    if args.len() != 2 {
        return Err(String::from_str("usage: subscribe <topic>"));
    }
    let topic = args[1].clone();
    Ok(Message::SubscriptionRequest { topic, is_add: true })
}

/// Parses a console request line.
pub fn parse_message(line: &str) -> (r: Result<Message, String>)
    ensures
        ({
            let args = split_on(trimmed(line@), ' ');
            if args[0] == "publish"@ {
                let av = args;
                if av.len() < 4 || av.len() % 2 == 1 || !pairs_parse(av) {
                    r is Err
                } else {
                    r matches Ok(m) && m@ == (MessageView::MulticastData {
                        topic: av[1],
                        data_packets: console_packets(av),
                    })
                }
            } else if args[0] == "subscribe"@ {
                (args.len() == 2 <==> r is Ok) && (r matches Ok(m) ==> m@ == (MessageView::SubscriptionRequest { topic: args[1], is_add: true }))
            } else {
                r is Err
            }
        }),
{
    let line = trim(line);
    let args = split_chars(line.as_str(), ' ');
    proof {
        crate::topic::lemma_split_on_nonempty(line@, ' ');
    }
    if str_equal(args[0].as_str(), "publish") {
        handle_publish(&args)
    } else if str_equal(args[0].as_str(), "subscribe") {
        handle_subscribe(&args)
    } else {
        Err(String::from_str("usage: publish/subscribe"))
    }
}

} // verus!
