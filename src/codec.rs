//! Encoding and decoding of whole messages.
use vstd::prelude::*;
use vstd::string::*;
use crate::topic_tree::str_equal;
use crate::message::{contains_i32, message_type_of, type_tag, headers_view, packets_view, DataPacket, DataPacketView, Message, MessageView};
use crate::wire::{bytes_fit, dec_bool, dec_bytes, dec_i32, dec_items, dec_list, dec_str, dec_u32, enc_bool, enc_bytes, enc_i32, enc_items, enc_list, enc_str, lemma_bool_round_trip, lemma_bytes_round_trip, lemma_concat_assoc, lemma_concat_empty, lemma_enc_items_prefix_len, lemma_enc_items_step, lemma_i32_round_trip, lemma_items_err, lemma_list_round_trip, lemma_str_round_trip, lemma_u32_round_trip, list_fits, read_as, read_bool, read_bytes, read_i32, read_str, read_u32, str_fits, u32_bytes, write_bool, write_bytes, write_i32, write_str, write_u32, CodecError};

verus! {

pub open spec fn i32_enc() -> spec_fn(i32) -> Seq<u8> {
    |x: i32| enc_i32(x)
}

pub open spec fn i32_dec() -> spec_fn(Seq<u8>) -> Result<(i32, Seq<u8>), CodecError> {
    |b: Seq<u8>| dec_i32(b)
}

pub open spec fn i32_fits() -> spec_fn(i32) -> bool {
    |x: i32| true
}

pub open spec fn enc_header(h: (Seq<char>, Seq<char>)) -> Seq<u8> {
    enc_str(h.0) + enc_str(h.1)
}

pub open spec fn dec_header(b: Seq<u8>) -> Result<((Seq<char>, Seq<char>), Seq<u8>), CodecError> {
    match dec_str(b) {
        Ok((name, rest)) => match dec_str(rest) {
            Ok((value, rest2)) => Ok(((name, value), rest2)),
            Err(e) => Err(e),
        },
        Err(e) => Err(e),
    }
}

pub open spec fn header_enc() -> spec_fn((Seq<char>, Seq<char>)) -> Seq<u8> {
    |h: (Seq<char>, Seq<char>)| enc_header(h)
}

pub open spec fn header_dec() -> spec_fn(Seq<u8>) -> Result<((Seq<char>, Seq<char>), Seq<u8>), CodecError> {
    |b: Seq<u8>| dec_header(b)
}

pub open spec fn header_fits() -> spec_fn((Seq<char>, Seq<char>)) -> bool {
    |h: (Seq<char>, Seq<char>)| str_fits(h.0) && str_fits(h.1)
}

/// A packet: its entitlements, its headers, then its payload.
pub open spec fn enc_packet(p: DataPacketView) -> Seq<u8> {
    enc_list(p.entitlements, i32_enc()) + (enc_list(p.headers, header_enc()) + enc_bytes(p.data))
}

pub open spec fn dec_packet(b: Seq<u8>) -> Result<(DataPacketView, Seq<u8>), CodecError> {
    match dec_list(b, i32_dec()) {
        Ok((entitlements, rest)) => match dec_list(rest, header_dec()) {
            Ok((headers, rest2)) => match dec_bytes(rest2) {
                Ok((data, rest3)) => Ok(
                    (
                        DataPacketView {
                            entitlements: seq_dedup(entitlements),
                            headers: dedup_later(headers),
                            data,
                        },
                        rest3,
                    ),
                ),
                Err(e) => Err(e),
            },
            Err(e) => Err(e),
        },
        Err(e) => Err(e),
    }
}

/// The entitlements once each, in order of first occurrence: a packet's
/// entitlements are a set.
pub open spec fn seq_dedup(xs: Seq<i32>) -> Seq<i32>
    decreases xs.len(),
{
    if xs.len() == 0 {
        xs
    } else {
        let r = seq_dedup(xs.drop_last());
        if r.contains(xs.last()) {
            r
        } else {
            r.push(xs.last())
        }
    }
}

/// Whether a later header has the same name as the first.
pub open spec fn name_later(hs: Seq<(Seq<char>, Seq<char>)>) -> bool {
    exists|j: int| 1 <= j < hs.len() && #[trigger] hs[j].0 == hs[0].0
}

/// The headers without those whose name comes again later: a packet's
/// headers are a map, where a later value replaces an earlier one.
pub open spec fn dedup_later(hs: Seq<(Seq<char>, Seq<char>)>) -> Seq<(Seq<char>, Seq<char>)>
    decreases hs.len(),
{
    if hs.len() == 0 {
        hs
    } else if name_later(hs) {
        dedup_later(hs.drop_first())
    } else {
        seq![hs[0]] + dedup_later(hs.drop_first())
    }
}

pub open spec fn names_unique(hs: Seq<(Seq<char>, Seq<char>)>) -> bool {
    forall|i: int, j: int| 0 <= i < j < hs.len() ==> #[trigger] hs[i].0 != #[trigger] hs[j].0
}

/// A packet whose entitlements are a set and whose header names are unique.
pub open spec fn packet_sound(p: DataPacketView) -> bool {
    p.entitlements.no_duplicates() && names_unique(p.headers)
}

pub open spec fn packets_sound(ps: Seq<DataPacketView>) -> bool {
    forall|i: int| 0 <= i < ps.len() ==> packet_sound(#[trigger] ps[i])
}

/// Whether the packets of a message are all sound.
pub open spec fn message_sound(m: MessageView) -> bool {
    match m {
        MessageView::ForwardedMulticastData { data_packets, .. } => packets_sound(data_packets),
        MessageView::ForwardedUnicastData { data_packets, .. } => packets_sound(data_packets),
        MessageView::MulticastData { data_packets, .. } => packets_sound(data_packets),
        MessageView::UnicastData { data_packets, .. } => packets_sound(data_packets),
        _ => true,
    }
}

pub proof fn lemma_seq_dedup_no_duplicates(xs: Seq<i32>)
    requires
        xs.no_duplicates(),
    ensures
        seq_dedup(xs) == xs,
    decreases xs.len(),
{
    if xs.len() > 0 {
        let init = xs.drop_last();
        assert(init.no_duplicates());
        lemma_seq_dedup_no_duplicates(init);
        if init.contains(xs.last()) {
            let j = choose|j: int| 0 <= j < init.len() && init[j] == xs.last();
            assert(xs[j] == xs[xs.len() - 1]);
        }
        assert(init.push(xs.last()) =~= xs);
    }
}

pub proof fn lemma_dedup_later_unique(hs: Seq<(Seq<char>, Seq<char>)>)
    requires
        names_unique(hs),
    ensures
        dedup_later(hs) == hs,
    decreases hs.len(),
{
    if hs.len() > 0 {
        let rest = hs.drop_first();
        assert forall|i: int, j: int| 0 <= i < j < rest.len() implies #[trigger] rest[i].0 != #[trigger] rest[j].0 by {
            assert(hs[i + 1].0 != hs[j + 1].0);
        }
        lemma_dedup_later_unique(rest);
        if name_later(hs) {
            let j = choose|j: int| 1 <= j < hs.len() && #[trigger] hs[j].0 == hs[0].0;
            assert(hs[0].0 != hs[j].0);
        }
        assert(seq![hs[0]] + rest =~= hs);
    }
}

pub open spec fn packet_fits(p: DataPacketView) -> bool {
    &&& list_fits(p.entitlements, i32_fits())
    &&& list_fits(p.headers, header_fits())
    &&& bytes_fit(p.data)
}

pub open spec fn packet_enc() -> spec_fn(DataPacketView) -> Seq<u8> {
    |p: DataPacketView| enc_packet(p)
}

pub open spec fn packet_dec() -> spec_fn(Seq<u8>) -> Result<(DataPacketView, Seq<u8>), CodecError> {
    |b: Seq<u8>| dec_packet(b)
}

pub open spec fn packet_fits_fn() -> spec_fn(DataPacketView) -> bool {
    |p: DataPacketView| packet_fits(p)
}

pub open spec fn enc_packets(ps: Seq<DataPacketView>) -> Seq<u8> {
    enc_list(ps, packet_enc())
}

pub open spec fn dec_packets(b: Seq<u8>) -> Result<(Seq<DataPacketView>, Seq<u8>), CodecError> {
    dec_list(b, packet_dec())
}

pub open spec fn packets_fit(ps: Seq<DataPacketView>) -> bool {
    list_fits(ps, packet_fits_fn())
}

pub proof fn lemma_header_round_trip(h: (Seq<char>, Seq<char>), rest: Seq<u8>)
    requires
        str_fits(h.0),
        str_fits(h.1),
    ensures
        dec_header(enc_header(h) + rest) == Ok::<((Seq<char>, Seq<char>), Seq<u8>), CodecError>(
            (h, rest),
        ),
{
    assert(enc_header(h) + rest =~= enc_str(h.0) + (enc_str(h.1) + rest));
    lemma_str_round_trip(h.0, enc_str(h.1) + rest);
    lemma_str_round_trip(h.1, rest);
}

pub proof fn lemma_packet_round_trip(p: DataPacketView, rest: Seq<u8>)
    requires
        packet_fits(p),
        packet_sound(p),
    ensures
        dec_packet(enc_packet(p) + rest) == Ok::<(DataPacketView, Seq<u8>), CodecError>((p, rest)),
{
    assert forall|x: i32, r: Seq<u8>| i32_fits()(x) implies #[trigger] i32_dec()(i32_enc()(x) + r)
        == Ok::<(i32, Seq<u8>), CodecError>((x, r)) by {
        lemma_i32_round_trip(x, r);
    }
    assert forall|x: (Seq<char>, Seq<char>), r: Seq<u8>| header_fits()(x) implies #[trigger] header_dec()(
        header_enc()(x) + r,
    ) == Ok::<((Seq<char>, Seq<char>), Seq<u8>), CodecError>((x, r)) by {
        lemma_header_round_trip(x, r);
    }
    let r2 = enc_bytes(p.data) + rest;
    let r1 = enc_list(p.headers, header_enc()) + r2;
    assert(enc_packet(p) + rest =~= enc_list(p.entitlements, i32_enc()) + r1);
    assert(enc_list(p.headers, header_enc()) + enc_bytes(p.data) + rest =~= r1);
    lemma_list_round_trip(p.entitlements, r1, i32_enc(), i32_dec(), i32_fits());
    lemma_list_round_trip(p.headers, r2, header_enc(), header_dec(), header_fits());
    lemma_bytes_round_trip(p.data, rest);
    lemma_seq_dedup_no_duplicates(p.entitlements);
    lemma_dedup_later_unique(p.headers);
}

pub proof fn lemma_packets_round_trip(ps: Seq<DataPacketView>, rest: Seq<u8>)
    requires
        packets_fit(ps),
        packets_sound(ps),
    ensures
        dec_packets(enc_packets(ps) + rest) == Ok::<(Seq<DataPacketView>, Seq<u8>), CodecError>(
            (ps, rest),
        ),
{
    let sound = |p: DataPacketView| packet_fits(p) && packet_sound(p);
    assert forall|x: DataPacketView, r: Seq<u8>| sound(x) implies #[trigger] packet_dec()(
        packet_enc()(x) + r,
    ) == Ok::<(DataPacketView, Seq<u8>), CodecError>((x, r)) by {
        lemma_packet_round_trip(x, r);
    }
    assert forall|i: int| 0 <= i < ps.len() implies #[trigger] sound(ps[i]) by {
        assert(packet_fits_fn()(ps[i]));
    }
    lemma_list_round_trip(ps, rest, packet_enc(), packet_dec(), sound);
}

pub fn write_entitlements(out: &mut Vec<u8>, xs: &Vec<i32>) -> (r: Result<(), CodecError>)
    ensures
        r is Ok <==> list_fits(xs@, i32_fits()),
        r is Err ==> r == Err::<(), CodecError>(CodecError::TooLarge),
        r is Ok ==> final(out)@ == old(out)@ + enc_list(xs@, i32_enc()),
{
    if xs.len() > u32::MAX as usize {
        return Err(CodecError::TooLarge);
    }
    write_u32(out, xs.len() as u32);
    let ghost start = out@;
    let mut i: usize = 0;
    while i < xs.len()
        invariant
            i <= xs@.len(),
            out@ == start + enc_items(xs@.take(i as int), i32_enc()),
        decreases xs@.len() - i,
    {
        write_i32(out, xs[i]);
        proof {
            lemma_enc_items_step(xs@, i as int, i32_enc());
            lemma_concat_assoc(start, enc_items(xs@.take(i as int), i32_enc()), enc_i32(xs@[i as int]));
        }
        i = i + 1;
    }
    assert(xs@.take(i as int) =~= xs@);
    proof {
        lemma_concat_assoc(old(out)@, u32_bytes(xs@.len() as u32), enc_items(xs@, i32_enc()));
    }
    Ok(())
}

pub fn write_header(out: &mut Vec<u8>, h: &(String, String)) -> (r: Result<(), CodecError>)
    ensures
        r is Ok <==> header_fits()((h.0@, h.1@)),
        r is Err ==> r == Err::<(), CodecError>(CodecError::TooLarge),
        r is Ok ==> final(out)@ == old(out)@ + enc_header((h.0@, h.1@)),
{
    if write_str(out, h.0.as_str()).is_err() {
        return Err(CodecError::TooLarge);
    }
    let ghost mid = out@;
    if write_str(out, h.1.as_str()).is_err() {
        return Err(CodecError::TooLarge);
    }
    proof {
        lemma_concat_assoc(old(out)@, enc_str(h.0@), enc_str(h.1@));
    }
    Ok(())
}

pub fn write_headers(out: &mut Vec<u8>, xs: &Vec<(String, String)>) -> (r: Result<(), CodecError>)
    ensures
        r is Ok <==> list_fits(headers_view(xs@), header_fits()),
        r is Err ==> r == Err::<(), CodecError>(CodecError::TooLarge),
        r is Ok ==> final(out)@ == old(out)@ + enc_list(headers_view(xs@), header_enc()),
{
    let ghost hv = headers_view(xs@);
    if xs.len() > u32::MAX as usize {
        return Err(CodecError::TooLarge);
    }
    write_u32(out, xs.len() as u32);
    let ghost start = out@;
    let mut i: usize = 0;
    while i < xs.len()
        invariant
            hv == headers_view(xs@),
            i <= xs@.len(),
            out@ == start + enc_items(hv.take(i as int), header_enc()),
            forall|j: int| 0 <= j < i ==> #[trigger] header_fits()(hv[j]),
        decreases xs@.len() - i,
    {
        if write_header(out, &xs[i]).is_err() {
            assert(!header_fits()(hv[i as int]));
            return Err(CodecError::TooLarge);
        }
        proof {
            lemma_enc_items_step(hv, i as int, header_enc());
            lemma_concat_assoc(start, enc_items(hv.take(i as int), header_enc()), enc_header(hv[i as int]));
        }
        i = i + 1;
    }
    assert(hv.take(i as int) =~= hv);
    proof {
        lemma_concat_assoc(old(out)@, u32_bytes(hv.len() as u32), enc_items(hv, header_enc()));
    }
    Ok(())
}

pub fn write_packet(out: &mut Vec<u8>, p: &DataPacket) -> (r: Result<(), CodecError>)
    ensures
        r is Ok <==> packet_fits(p@),
        r is Err ==> r == Err::<(), CodecError>(CodecError::TooLarge),
        r is Ok ==> final(out)@ == old(out)@ + enc_packet(p@),
{
    if write_entitlements(out, &p.entitlements).is_err() {
        return Err(CodecError::TooLarge);
    }
    let ghost a = out@;
    if write_headers(out, &p.headers).is_err() {
        return Err(CodecError::TooLarge);
    }
    let ghost b = out@;
    if write_bytes(out, p.data.as_slice()).is_err() {
        return Err(CodecError::TooLarge);
    }
    proof {
        let x = enc_list(p@.entitlements, i32_enc());
        let y = enc_list(p@.headers, header_enc());
        let z = enc_bytes(p@.data);
        lemma_concat_assoc(old(out)@ + x, y, z);
        lemma_concat_assoc(old(out)@, x, y + z);
    }
    Ok(())
}

pub fn write_packets(out: &mut Vec<u8>, xs: &Vec<DataPacket>) -> (r: Result<(), CodecError>)
    ensures
        r is Ok <==> packets_fit(packets_view(xs@)),
        r is Err ==> r == Err::<(), CodecError>(CodecError::TooLarge),
        r is Ok ==> final(out)@ == old(out)@ + enc_packets(packets_view(xs@)),
{
    let ghost pv = packets_view(xs@);
    if xs.len() > u32::MAX as usize {
        return Err(CodecError::TooLarge);
    }
    write_u32(out, xs.len() as u32);
    let ghost start = out@;
    let mut i: usize = 0;
    while i < xs.len()
        invariant
            pv == packets_view(xs@),
            i <= xs@.len(),
            out@ == start + enc_items(pv.take(i as int), packet_enc()),
            forall|j: int| 0 <= j < i ==> #[trigger] packet_fits_fn()(pv[j]),
        decreases xs@.len() - i,
    {
        if write_packet(out, &xs[i]).is_err() {
            assert(!packet_fits_fn()(pv[i as int]));
            return Err(CodecError::TooLarge);
        }
        proof {
            lemma_enc_items_step(pv, i as int, packet_enc());
            lemma_concat_assoc(start, enc_items(pv.take(i as int), packet_enc()), enc_packet(pv[i as int]));
        }
        i = i + 1;
    }
    assert(pv.take(i as int) =~= pv);
    proof {
        lemma_concat_assoc(old(out)@, u32_bytes(pv.len() as u32), enc_items(pv, packet_enc()));
    }
    Ok(())
}

/// Encodes a message: its type tag, then its fields. Fails with `TooLarge`
/// exactly when a length or a count does not fit in a `u32`.
pub fn encode(m: &Message) -> (r: Result<Vec<u8>, CodecError>)
    ensures
        r is Ok <==> message_fits(m@),
        r is Err ==> r == Err::<Vec<u8>, CodecError>(CodecError::TooLarge),
        r matches Ok(b) ==> b@ == enc_message(m@),
{
    let mut out: Vec<u8> = Vec::new();
    out.push(m.message_type().to_byte());
    let ghost t = out@;
    assert(t == seq![type_tag(message_type_of(m@))]);
    match m {
        Message::AuthenticationRequest { method, credentials } => {
            if write_str(&mut out, method.as_str()).is_err() {
                return Err(CodecError::TooLarge);
            }
            if write_bytes(&mut out, credentials.as_slice()).is_err() {
                return Err(CodecError::TooLarge);
            }
            proof {
                lemma_concat_assoc(t, enc_str(method@), enc_bytes(credentials@));
            }
        },
        Message::AuthenticationResponse { client_id } => {
            if write_str(&mut out, client_id.as_str()).is_err() {
                return Err(CodecError::TooLarge);
            }
        },
        Message::ForwardedMulticastData { host, user, topic, data_packets } => {
            if write_str(&mut out, host.as_str()).is_err() {
                return Err(CodecError::TooLarge);
            }
            if write_str(&mut out, user.as_str()).is_err() {
                return Err(CodecError::TooLarge);
            }
            if write_str(&mut out, topic.as_str()).is_err() {
                return Err(CodecError::TooLarge);
            }
            if write_packets(&mut out, data_packets).is_err() {
                return Err(CodecError::TooLarge);
            }
            proof {
                let (a, b, c, z) = (
                    enc_str(host@),
                    enc_str(user@),
                    enc_str(topic@),
                    enc_packets(packets_view(data_packets@)),
                );
                lemma_concat_assoc(t + a + b, c, z);
                lemma_concat_assoc(t + a, b, c + z);
                lemma_concat_assoc(t, a, b + (c + z));
            }
        },
        Message::ForwardedSubscriptionRequest { host, user, client_id, topic, count } => {
            if write_str(&mut out, host.as_str()).is_err() {
                return Err(CodecError::TooLarge);
            }
            if write_str(&mut out, user.as_str()).is_err() {
                return Err(CodecError::TooLarge);
            }
            if write_str(&mut out, client_id.as_str()).is_err() {
                return Err(CodecError::TooLarge);
            }
            if write_str(&mut out, topic.as_str()).is_err() {
                return Err(CodecError::TooLarge);
            }
            write_u32(&mut out, *count);
            proof {
                let (a, b, c, d, z) = (
                    enc_str(host@),
                    enc_str(user@),
                    enc_str(client_id@),
                    enc_str(topic@),
                    u32_bytes(*count),
                );
                lemma_concat_assoc(t + a + b + c, d, z);
                lemma_concat_assoc(t + a + b, c, d + z);
                lemma_concat_assoc(t + a, b, c + (d + z));
                lemma_concat_assoc(t, a, b + (c + (d + z)));
            }
        },
        Message::ForwardedUnicastData { host, user, client_id, topic, data_packets } => {
            if write_str(&mut out, host.as_str()).is_err() {
                return Err(CodecError::TooLarge);
            }
            if write_str(&mut out, user.as_str()).is_err() {
                return Err(CodecError::TooLarge);
            }
            if write_str(&mut out, client_id.as_str()).is_err() {
                return Err(CodecError::TooLarge);
            }
            if write_str(&mut out, topic.as_str()).is_err() {
                return Err(CodecError::TooLarge);
            }
            if write_packets(&mut out, data_packets).is_err() {
                return Err(CodecError::TooLarge);
            }
            proof {
                let (a, b, c, d, z) = (
                    enc_str(host@),
                    enc_str(user@),
                    enc_str(client_id@),
                    enc_str(topic@),
                    enc_packets(packets_view(data_packets@)),
                );
                lemma_concat_assoc(t + a + b + c, d, z);
                lemma_concat_assoc(t + a + b, c, d + z);
                lemma_concat_assoc(t + a, b, c + (d + z));
                lemma_concat_assoc(t, a, b + (c + (d + z)));
            }
        },
        Message::MulticastData { topic, data_packets } => {
            if write_str(&mut out, topic.as_str()).is_err() {
                return Err(CodecError::TooLarge);
            }
            if write_packets(&mut out, data_packets).is_err() {
                return Err(CodecError::TooLarge);
            }
            proof {
                lemma_concat_assoc(t, enc_str(topic@), enc_packets(packets_view(data_packets@)));
            }
        },
        Message::SubscriptionRequest { topic, is_add } => {
            if write_str(&mut out, topic.as_str()).is_err() {
                return Err(CodecError::TooLarge);
            }
            write_bool(&mut out, *is_add);
            proof {
                lemma_concat_assoc(t, enc_str(topic@), enc_bool(*is_add));
            }
        },
        Message::UnicastData { client_id, topic, data_packets } => {
            if write_str(&mut out, client_id.as_str()).is_err() {
                return Err(CodecError::TooLarge);
            }
            if write_str(&mut out, topic.as_str()).is_err() {
                return Err(CodecError::TooLarge);
            }
            if write_packets(&mut out, data_packets).is_err() {
                return Err(CodecError::TooLarge);
            }
            proof {
                let (a, b, z) = (
                    enc_str(client_id@),
                    enc_str(topic@),
                    enc_packets(packets_view(data_packets@)),
                );
                lemma_concat_assoc(t + a, b, z);
                lemma_concat_assoc(t, a, b + z);
            }
        },
    }
    Ok(out)
}

pub fn read_entitlements(b: &[u8], pos: usize) -> (r: Result<(Vec<i32>, usize), CodecError>)
    requires
        pos <= b@.len(),
    ensures
        read_as(r, dec_list(b@.skip(pos as int), i32_dec()), b@, |x: Vec<i32>| x@),
{
    let (n, at0) = match read_u32(b, pos) {
        Ok(v) => v,
        Err(e) => return Err(e),
    };
    let ghost start = b@.skip(at0 as int);
    let mut out: Vec<i32> = Vec::new();
    let mut p = at0;
    let mut k: u32 = 0;
    assert(dec_items(start, 0, i32_dec()) == Ok::<(Seq<i32>, Seq<u8>), CodecError>((out@, b@.skip(p as int))));
    while k < n
        invariant
            start == b@.skip(at0 as int),
            p <= b@.len(),
            k <= n,
            dec_list(b@.skip(pos as int), i32_dec()) == dec_items(start, n as nat, i32_dec()),
            dec_items(start, k as nat, i32_dec()) == Ok::<(Seq<i32>, Seq<u8>), CodecError>((out@, b@.skip(p as int))),
        decreases n - k,
    {
        match read_i32(b, p) {
            Ok((x, at2)) => {
                out.push(x);
                p = at2;
            },
            Err(e) => {
                proof {
                    assert(dec_items(start, (k + 1) as nat, i32_dec()) == Err::<(Seq<i32>, Seq<u8>), CodecError>(e));
                    lemma_items_err(start, (k + 1) as nat, n as nat, i32_dec());
                }
                return Err(e);
            },
        }
        k = k + 1;
    }
    Ok((out, p))
}

pub fn read_header(b: &[u8], pos: usize) -> (r: Result<((String, String), usize), CodecError>)
    requires
        pos <= b@.len(),
    ensures
        read_as(r, dec_header(b@.skip(pos as int)), b@, |x: (String, String)| (x.0@, x.1@)),
{
    let (name, at1) = match read_str(b, pos) {
        Ok(v) => v,
        Err(e) => return Err(e),
    };
    let (value, at2) = match read_str(b, at1) {
        Ok(v) => v,
        Err(e) => return Err(e),
    };
    Ok(((name, value), at2))
}

pub fn read_headers(b: &[u8], pos: usize) -> (r: Result<(Vec<(String, String)>, usize), CodecError>)
    requires
        pos <= b@.len(),
    ensures
        read_as(r, dec_list(b@.skip(pos as int), header_dec()), b@, |x: Vec<(String, String)>| headers_view(x@)),
{
    let (n, at0) = match read_u32(b, pos) {
        Ok(v) => v,
        Err(e) => return Err(e),
    };
    let ghost start = b@.skip(at0 as int);
    let mut out: Vec<(String, String)> = Vec::new();
    let mut p = at0;
    let mut k: u32 = 0;
    assert(headers_view(out@) =~= Seq::<(Seq<char>, Seq<char>)>::empty());
    while k < n
        invariant
            start == b@.skip(at0 as int),
            p <= b@.len(),
            k <= n,
            dec_list(b@.skip(pos as int), header_dec()) == dec_items(start, n as nat, header_dec()),
            dec_items(start, k as nat, header_dec()) == Ok::<(Seq<(Seq<char>, Seq<char>)>, Seq<u8>), CodecError>((headers_view(out@), b@.skip(p as int))),
        decreases n - k,
    {
        match read_header(b, p) {
            Ok((h, at2)) => {
                let ghost before = out@;
                let ghost hv = (h.0@, h.1@);
                out.push(h);
                assert(headers_view(out@) =~= headers_view(before).push(hv));
                p = at2;
            },
            Err(e) => {
                proof {
                    assert(dec_items(start, (k + 1) as nat, header_dec()) == Err::<(Seq<(Seq<char>, Seq<char>)>, Seq<u8>), CodecError>(e));
                    lemma_items_err(start, (k + 1) as nat, n as nat, header_dec());
                }
                return Err(e);
            },
        }
        k = k + 1;
    }
    Ok((out, p))
}

/// The entitlements once each, in order of first occurrence.
pub fn dedup_entitlements(v: &Vec<i32>) -> (r: Vec<i32>)
    ensures
        r@ == seq_dedup(v@),
{
    let mut out: Vec<i32> = Vec::new();
    let mut i: usize = 0;
    assert(v@.take(0) =~= Seq::<i32>::empty());
    while i < v.len()
        invariant
            i <= v.len(),
            out@ == seq_dedup(v@.take(i as int)),
        decreases v.len() - i,
    {
        assert(v@.take(i + 1).drop_last() =~= v@.take(i as int));
        assert(v@.take(i + 1).last() == v@[i as int]);
        if !contains_i32(&out, v[i]) {
            out.push(v[i]);
        }
        i = i + 1;
    }
    assert(v@.take(i as int) =~= v@);
    out
}

/// The headers without those whose name comes again later.
pub fn dedup_headers(v: &Vec<(String, String)>) -> (r: Vec<(String, String)>)
    ensures
        headers_view(r@) == dedup_later(headers_view(v@)),
{
    let ghost hv = headers_view(v@);
    let mut out: Vec<(String, String)> = Vec::new();
    let mut i: usize = 0;
    assert(hv.skip(0) =~= hv);
    assert(headers_view(out@) + dedup_later(hv.skip(0)) =~= dedup_later(hv));
    while i < v.len()
        invariant
            hv == headers_view(v@),
            i <= v.len(),
            headers_view(out@) + dedup_later(hv.skip(i as int)) == dedup_later(hv),
        decreases v.len() - i,
    {
        let ghost tail = hv.skip(i as int);
        assert(tail.drop_first() =~= hv.skip(i + 1));
        assert(tail[0] == hv[i as int]);
        let mut later = false;
        let mut j: usize = i + 1;
        while j < v.len()
            invariant
                hv == headers_view(v@),
                i < v.len(),
                i + 1 <= j <= v.len(),
                tail == hv.skip(i as int),
                tail[0] == hv[i as int],
                later <==> exists|x: int| 1 <= x < j - i && #[trigger] tail[x].0 == tail[0].0,
            decreases v.len() - j,
        {
            assert(tail[j - i] == hv[j as int]);
            assert(hv[j as int].0 == v@[j as int].0@);
            assert(hv[i as int].0 == v@[i as int].0@);
            if str_equal(v[j].0.as_str(), v[i].0.as_str()) {
                later = true;
            }
            j = j + 1;
        }
        assert(later == name_later(tail));
        let ghost before = headers_view(out@);
        if !later {
            let name = v[i].0.clone();
            let value = v[i].1.clone();
            out.push((name, value));
            assert(headers_view(out@) =~= before.push(tail[0]));
            assert(before.push(tail[0]) + dedup_later(tail.drop_first()) =~= before + (seq![tail[0]] + dedup_later(tail.drop_first())));
        }
        i = i + 1;
    }
    assert(dedup_later(hv.skip(i as int)) =~= Seq::<(Seq<char>, Seq<char>)>::empty());
    assert(headers_view(out@) =~= headers_view(out@) + dedup_later(hv.skip(i as int)));
    out
}

pub fn read_packet(b: &[u8], pos: usize) -> (r: Result<(DataPacket, usize), CodecError>)
    requires
        pos <= b@.len(),
    ensures
        read_as(r, dec_packet(b@.skip(pos as int)), b@, |x: DataPacket| x@),
{
    let (entitlements, at1) = match read_entitlements(b, pos) {
        Ok(v) => v,
        Err(e) => return Err(e),
    };
    let (headers, at2) = match read_headers(b, at1) {
        Ok(v) => v,
        Err(e) => return Err(e),
    };
    let (data, at3) = match read_bytes(b, at2) {
        Ok(v) => v,
        Err(e) => return Err(e),
    };
    let entitlements = dedup_entitlements(&entitlements);
    let headers = dedup_headers(&headers);
    Ok((DataPacket { entitlements, headers, data }, at3))
}

pub fn read_packets(b: &[u8], pos: usize) -> (r: Result<(Vec<DataPacket>, usize), CodecError>)
    requires
        pos <= b@.len(),
    ensures
        read_as(r, dec_packets(b@.skip(pos as int)), b@, |x: Vec<DataPacket>| packets_view(x@)),
{
    let (n, at0) = match read_u32(b, pos) {
        Ok(v) => v,
        Err(e) => return Err(e),
    };
    let ghost start = b@.skip(at0 as int);
    let mut out: Vec<DataPacket> = Vec::new();
    let mut p = at0;
    let mut k: u32 = 0;
    assert(packets_view(out@) =~= Seq::<DataPacketView>::empty());
    while k < n
        invariant
            start == b@.skip(at0 as int),
            p <= b@.len(),
            k <= n,
            dec_list(b@.skip(pos as int), packet_dec()) == dec_items(start, n as nat, packet_dec()),
            dec_items(start, k as nat, packet_dec()) == Ok::<(Seq<DataPacketView>, Seq<u8>), CodecError>((packets_view(out@), b@.skip(p as int))),
        decreases n - k,
    {
        match read_packet(b, p) {
            Ok((x, at2)) => {
                let ghost before = out@;
                out.push(x);
                assert(packets_view(out@) =~= packets_view(before).push(x@));
                p = at2;
            },
            Err(e) => {
                proof {
                    assert(dec_items(start, (k + 1) as nat, packet_dec()) == Err::<(Seq<DataPacketView>, Seq<u8>), CodecError>(e));
                    lemma_items_err(start, (k + 1) as nat, n as nat, packet_dec());
                }
                return Err(e);
            },
        }
        k = k + 1;
    }
    Ok((out, p))
}

/// The fields of a message, after its tag.
pub open spec fn enc_body(m: MessageView) -> Seq<u8> {
    match m {
        MessageView::AuthenticationRequest { method, credentials } => enc_str(method) + enc_bytes(
            credentials,
        ),
        MessageView::AuthenticationResponse { client_id } => enc_str(client_id),
        MessageView::ForwardedMulticastData { host, user, topic, data_packets } => enc_str(host) + (
        enc_str(user) + (enc_str(topic) + enc_packets(data_packets))),
        MessageView::ForwardedSubscriptionRequest { host, user, client_id, topic, count } => enc_str(
            host,
        ) + (enc_str(user) + (enc_str(client_id) + (enc_str(topic) + u32_bytes(count)))),
        MessageView::ForwardedUnicastData { host, user, client_id, topic, data_packets } => enc_str(
            host,
        ) + (enc_str(user) + (enc_str(client_id) + (enc_str(topic) + enc_packets(data_packets)))),
        MessageView::MulticastData { topic, data_packets } => enc_str(topic) + enc_packets(
            data_packets,
        ),
        MessageView::SubscriptionRequest { topic, is_add } => enc_str(topic) + enc_bool(is_add),
        MessageView::UnicastData { client_id, topic, data_packets } => enc_str(client_id) + (enc_str(
            topic,
        ) + enc_packets(data_packets)),
    }
}

/// The encoding of a message: its type tag, then its fields.
pub open spec fn enc_message(m: MessageView) -> Seq<u8> {
    seq![type_tag(message_type_of(m))] + enc_body(m)
}

/// Whether every length and count in the message fits in a `u32`.
pub open spec fn message_fits(m: MessageView) -> bool {
    match m {
        MessageView::AuthenticationRequest { method, credentials } => str_fits(method) && bytes_fit(
            credentials,
        ),
        MessageView::AuthenticationResponse { client_id } => str_fits(client_id),
        MessageView::ForwardedMulticastData { host, user, topic, data_packets } => str_fits(host)
            && str_fits(user) && str_fits(topic) && packets_fit(data_packets),
        MessageView::ForwardedSubscriptionRequest { host, user, client_id, topic, count } => str_fits(
            host,
        ) && str_fits(user) && str_fits(client_id) && str_fits(topic),
        MessageView::ForwardedUnicastData { host, user, client_id, topic, data_packets } => str_fits(
            host,
        ) && str_fits(user) && str_fits(client_id) && str_fits(topic) && packets_fit(data_packets),
        MessageView::MulticastData { topic, data_packets } => str_fits(topic) && packets_fit(
            data_packets,
        ),
        MessageView::SubscriptionRequest { topic, is_add } => str_fits(topic),
        MessageView::UnicastData { client_id, topic, data_packets } => str_fits(client_id)
            && str_fits(topic) && packets_fit(data_packets),
    }
}

/// Decodes the fields of a message of type `tag`.
pub open spec fn dec_body(tag: u8, b: Seq<u8>) -> Result<(MessageView, Seq<u8>), CodecError> {
    if tag == 1 {
        dec_authentication_request(b)
    } else if tag == 2 {
        dec_authentication_response(b)
    } else if tag == 3 {
        dec_multicast_data(b)
    } else if tag == 4 {
        dec_unicast_data(b)
    } else if tag == 5 {
        dec_forwarded_subscription_request(b)
    } else if tag == 7 {
        dec_subscription_request(b)
    } else if tag == 8 {
        dec_forwarded_multicast_data(b)
    } else if tag == 9 {
        dec_forwarded_unicast_data(b)
    } else {
        Err(CodecError::UnknownMessageType)
    }
}

pub open spec fn dec_authentication_request(b: Seq<u8>) -> Result<(MessageView, Seq<u8>), CodecError> {
    match dec_str(b) {
        Ok((method, r1)) => match dec_bytes(r1) {
            Ok((credentials, r2)) => Ok(
                (MessageView::AuthenticationRequest { method, credentials }, r2),
            ),
            Err(e) => Err(e),
        },
        Err(e) => Err(e),
    }
}

pub open spec fn dec_authentication_response(b: Seq<u8>) -> Result<(MessageView, Seq<u8>), CodecError> {
    match dec_str(b) {
        Ok((client_id, r1)) => Ok((MessageView::AuthenticationResponse { client_id }, r1)),
        Err(e) => Err(e),
    }
}

pub open spec fn dec_multicast_data(b: Seq<u8>) -> Result<(MessageView, Seq<u8>), CodecError> {
    match dec_str(b) {
        Ok((topic, r1)) => match dec_packets(r1) {
            Ok((data_packets, r2)) => Ok(
                (MessageView::MulticastData { topic, data_packets }, r2),
            ),
            Err(e) => Err(e),
        },
        Err(e) => Err(e),
    }
}

pub open spec fn dec_unicast_data(b: Seq<u8>) -> Result<(MessageView, Seq<u8>), CodecError> {
    match dec_header(b) {
        Ok(((client_id, topic), r1)) => match dec_packets(r1) {
            Ok((data_packets, r2)) => Ok(
                (MessageView::UnicastData { client_id, topic, data_packets }, r2),
            ),
            Err(e) => Err(e),
        },
        Err(e) => Err(e),
    }
}

pub open spec fn dec_forwarded_subscription_request(b: Seq<u8>) -> Result<(MessageView, Seq<u8>), CodecError> {
    match dec_header(b) {
        Ok(((host, user), r1)) => match dec_header(r1) {
            Ok(((client_id, topic), r2)) => match dec_u32(r2) {
                Ok((count, r3)) => Ok(
                    (
                        MessageView::ForwardedSubscriptionRequest {
                            host,
                            user,
                            client_id,
                            topic,
                            count,
                        },
                        r3,
                    ),
                ),
                Err(e) => Err(e),
            },
            Err(e) => Err(e),
        },
        Err(e) => Err(e),
    }
}

pub open spec fn dec_subscription_request(b: Seq<u8>) -> Result<(MessageView, Seq<u8>), CodecError> {
    match dec_str(b) {
        Ok((topic, r1)) => match dec_bool(r1) {
            Ok((is_add, r2)) => Ok((MessageView::SubscriptionRequest { topic, is_add }, r2)),
            Err(e) => Err(e),
        },
        Err(e) => Err(e),
    }
}

pub open spec fn dec_forwarded_multicast_data(b: Seq<u8>) -> Result<(MessageView, Seq<u8>), CodecError> {
    match dec_header(b) {
        Ok(((host, user), r1)) => match dec_str(r1) {
            Ok((topic, r2)) => match dec_packets(r2) {
                Ok((data_packets, r3)) => Ok(
                    (MessageView::ForwardedMulticastData { host, user, topic, data_packets }, r3),
                ),
                Err(e) => Err(e),
            },
            Err(e) => Err(e),
        },
        Err(e) => Err(e),
    }
}

pub open spec fn dec_forwarded_unicast_data(b: Seq<u8>) -> Result<(MessageView, Seq<u8>), CodecError> {
    match dec_header(b) {
        Ok(((host, user), r1)) => match dec_header(r1) {
            Ok(((client_id, topic), r2)) => match dec_packets(r2) {
                Ok((data_packets, r3)) => Ok(
                    (
                        MessageView::ForwardedUnicastData {
                            host,
                            user,
                            client_id,
                            topic,
                            data_packets,
                        },
                        r3,
                    ),
                ),
                Err(e) => Err(e),
            },
            Err(e) => Err(e),
        },
        Err(e) => Err(e),
    }
}

/// Decodes a frame's body: exactly one message, with nothing after it.
pub open spec fn dec_message(b: Seq<u8>) -> Result<MessageView, CodecError> {
    if b.len() == 0 {
        Err(CodecError::Truncated)
    } else {
        match dec_body(b[0], b.skip(1)) {
            Ok((m, rest)) => if rest.len() == 0 {
                Ok(m)
            } else {
                Err(CodecError::TrailingBytes)
            },
            Err(e) => Err(e),
        }
    }
}

proof fn lemma_fields_forwarded_multicast_data(
    host: Seq<char>,
    user: Seq<char>,
    topic: Seq<char>,
    ps: Seq<DataPacketView>,
)
    requires
        str_fits(host),
        str_fits(user),
        str_fits(topic),
        packets_fit(ps),
        packets_sound(ps),
    ensures
        dec_forwarded_multicast_data(
            enc_str(host) + (enc_str(user) + (enc_str(topic) + enc_packets(ps))),
        ) == Ok::<(MessageView, Seq<u8>), CodecError>(
            (
                MessageView::ForwardedMulticastData { host, user, topic, data_packets: ps },
                Seq::<u8>::empty(),
            ),
        ),
{
    let e = Seq::<u8>::empty();
    let z = enc_packets(ps);
    lemma_concat_empty(z);
    let r2 = enc_str(topic) + z;
    lemma_concat_assoc(enc_str(host), enc_str(user), r2);
    lemma_header_round_trip((host, user), r2);
    lemma_str_round_trip(topic, z);
    lemma_packets_round_trip(ps, e);
}

proof fn lemma_fields_forwarded_subscription_request(
    host: Seq<char>,
    user: Seq<char>,
    client_id: Seq<char>,
    topic: Seq<char>,
    count: u32,
)
    requires
        str_fits(host),
        str_fits(user),
        str_fits(client_id),
        str_fits(topic),
    ensures
        dec_forwarded_subscription_request(
            enc_str(host) + (enc_str(user) + (enc_str(client_id) + (enc_str(topic) + u32_bytes(
                count,
            )))),
        ) == Ok::<(MessageView, Seq<u8>), CodecError>(
            (
                MessageView::ForwardedSubscriptionRequest { host, user, client_id, topic, count },
                Seq::<u8>::empty(),
            ),
        ),
{
    let e = Seq::<u8>::empty();
    let z = u32_bytes(count);
    lemma_concat_empty(z);
    lemma_concat_assoc(enc_str(client_id), enc_str(topic), z);
    let r2 = enc_header((client_id, topic)) + z;
    lemma_concat_assoc(enc_str(host), enc_str(user), r2);
    lemma_header_round_trip((host, user), r2);
    lemma_header_round_trip((client_id, topic), z);
    lemma_u32_round_trip(count, e);
}

proof fn lemma_fields_forwarded_unicast_data(
    host: Seq<char>,
    user: Seq<char>,
    client_id: Seq<char>,
    topic: Seq<char>,
    ps: Seq<DataPacketView>,
)
    requires
        str_fits(host),
        str_fits(user),
        str_fits(client_id),
        str_fits(topic),
        packets_fit(ps),
        packets_sound(ps),
    ensures
        dec_forwarded_unicast_data(
            enc_str(host) + (enc_str(user) + (enc_str(client_id) + (enc_str(topic) + enc_packets(
                ps,
            )))),
        ) == Ok::<(MessageView, Seq<u8>), CodecError>(
            (
                MessageView::ForwardedUnicastData { host, user, client_id, topic, data_packets: ps },
                Seq::<u8>::empty(),
            ),
        ),
{
    let e = Seq::<u8>::empty();
    let z = enc_packets(ps);
    lemma_concat_empty(z);
    lemma_concat_assoc(enc_str(client_id), enc_str(topic), z);
    let r2 = enc_header((client_id, topic)) + z;
    lemma_concat_assoc(enc_str(host), enc_str(user), r2);
    lemma_header_round_trip((host, user), r2);
    lemma_header_round_trip((client_id, topic), z);
    lemma_packets_round_trip(ps, e);
}

#[verifier::rlimit(80)]
proof fn lemma_body_round_trip_authentication_request(m: MessageView)
    requires
        m is AuthenticationRequest,
        message_fits(m),
        message_sound(m),
    ensures
        dec_body(type_tag(message_type_of(m)), enc_body(m)) == Ok::<(MessageView, Seq<u8>), CodecError>(
            (m, Seq::<u8>::empty()),
        ),
{
    let e = Seq::<u8>::empty();
    if let MessageView::AuthenticationRequest { method, credentials } = m {
            assert(enc_body(m) =~= enc_str(method) + (enc_bytes(credentials) + e));
            lemma_str_round_trip(method, enc_bytes(credentials) + e);
            lemma_bytes_round_trip(credentials, e);
    }
}

#[verifier::rlimit(80)]
proof fn lemma_body_round_trip_authentication_response(m: MessageView)
    requires
        m is AuthenticationResponse,
        message_fits(m),
        message_sound(m),
    ensures
        dec_body(type_tag(message_type_of(m)), enc_body(m)) == Ok::<(MessageView, Seq<u8>), CodecError>(
            (m, Seq::<u8>::empty()),
        ),
{
    let e = Seq::<u8>::empty();
    if let MessageView::AuthenticationResponse { client_id } = m {
            assert(enc_body(m) =~= enc_str(client_id) + e);
            lemma_str_round_trip(client_id, e);
    }
}

#[verifier::rlimit(80)]
proof fn lemma_body_round_trip_forwarded_multicast_data(m: MessageView)
    requires
        m is ForwardedMulticastData,
        message_fits(m),
        message_sound(m),
    ensures
        dec_body(type_tag(message_type_of(m)), enc_body(m)) == Ok::<(MessageView, Seq<u8>), CodecError>(
            (m, Seq::<u8>::empty()),
        ),
{
    if let MessageView::ForwardedMulticastData { host, user, topic, data_packets } = m {
        lemma_fields_forwarded_multicast_data(host, user, topic, data_packets);
    }
}

#[verifier::rlimit(80)]
proof fn lemma_body_round_trip_forwarded_subscription_request(m: MessageView)
    requires
        m is ForwardedSubscriptionRequest,
        message_fits(m),
        message_sound(m),
    ensures
        dec_body(type_tag(message_type_of(m)), enc_body(m)) == Ok::<(MessageView, Seq<u8>), CodecError>(
            (m, Seq::<u8>::empty()),
        ),
{
    if let MessageView::ForwardedSubscriptionRequest { host, user, client_id, topic, count } = m {
        lemma_fields_forwarded_subscription_request(host, user, client_id, topic, count);
    }
}

#[verifier::rlimit(80)]
proof fn lemma_body_round_trip_forwarded_unicast_data(m: MessageView)
    requires
        m is ForwardedUnicastData,
        message_fits(m),
        message_sound(m),
    ensures
        dec_body(type_tag(message_type_of(m)), enc_body(m)) == Ok::<(MessageView, Seq<u8>), CodecError>(
            (m, Seq::<u8>::empty()),
        ),
{
    if let MessageView::ForwardedUnicastData { host, user, client_id, topic, data_packets } = m {
        lemma_fields_forwarded_unicast_data(host, user, client_id, topic, data_packets);
    }
}

#[verifier::rlimit(80)]
proof fn lemma_body_round_trip_multicast_data(m: MessageView)
    requires
        m is MulticastData,
        message_fits(m),
        message_sound(m),
    ensures
        dec_body(type_tag(message_type_of(m)), enc_body(m)) == Ok::<(MessageView, Seq<u8>), CodecError>(
            (m, Seq::<u8>::empty()),
        ),
{
    let e = Seq::<u8>::empty();
    if let MessageView::MulticastData { topic, data_packets } = m {
            assert(enc_body(m) =~= enc_str(topic) + (enc_packets(data_packets) + e));
            lemma_str_round_trip(topic, enc_packets(data_packets) + e);
            lemma_packets_round_trip(data_packets, e);
    }
}

#[verifier::rlimit(80)]
proof fn lemma_body_round_trip_subscription_request(m: MessageView)
    requires
        m is SubscriptionRequest,
        message_fits(m),
        message_sound(m),
    ensures
        dec_body(type_tag(message_type_of(m)), enc_body(m)) == Ok::<(MessageView, Seq<u8>), CodecError>(
            (m, Seq::<u8>::empty()),
        ),
{
    let e = Seq::<u8>::empty();
    if let MessageView::SubscriptionRequest { topic, is_add } = m {
            assert(enc_body(m) =~= enc_str(topic) + (enc_bool(is_add) + e));
            lemma_str_round_trip(topic, enc_bool(is_add) + e);
            lemma_bool_round_trip(is_add, e);
    }
}

#[verifier::rlimit(80)]
proof fn lemma_body_round_trip_unicast_data(m: MessageView)
    requires
        m is UnicastData,
        message_fits(m),
        message_sound(m),
    ensures
        dec_body(type_tag(message_type_of(m)), enc_body(m)) == Ok::<(MessageView, Seq<u8>), CodecError>(
            (m, Seq::<u8>::empty()),
        ),
{
    let e = Seq::<u8>::empty();
    if let MessageView::UnicastData { client_id, topic, data_packets } = m {
            let z = enc_packets(data_packets);
            lemma_concat_empty(z);
            lemma_concat_assoc(enc_str(client_id), enc_str(topic), z);
            lemma_header_round_trip((client_id, topic), z);
            lemma_packets_round_trip(data_packets, e);
    }
}

fn read_authentication_request(b: &[u8], pos: usize) -> (r: Result<(Message, usize), CodecError>)
    requires
        pos <= b@.len(),
    ensures
        read_as(r, dec_authentication_request(b@.skip(pos as int)), b@, |m: Message| m@),
{
    let (method, at1) = match read_str(b, pos) {
        Ok(v) => v,
        Err(e) => return Err(e),
    };
    let (credentials, at2) = match read_bytes(b, at1) {
        Ok(v) => v,
        Err(e) => return Err(e),
    };
    Ok((Message::AuthenticationRequest { method, credentials }, at2))
}

fn read_authentication_response(b: &[u8], pos: usize) -> (r: Result<(Message, usize), CodecError>)
    requires
        pos <= b@.len(),
    ensures
        read_as(r, dec_authentication_response(b@.skip(pos as int)), b@, |m: Message| m@),
{
    let (client_id, at1) = match read_str(b, pos) {
        Ok(v) => v,
        Err(e) => return Err(e),
    };
    Ok((Message::AuthenticationResponse { client_id }, at1))
}

#[verifier::rlimit(60)]
fn read_multicast_data(b: &[u8], pos: usize) -> (r: Result<(Message, usize), CodecError>)
    requires
        pos <= b@.len(),
    ensures
        read_as(r, dec_multicast_data(b@.skip(pos as int)), b@, |m: Message| m@),
{
    let (topic, at1) = match read_str(b, pos) {
        Ok(v) => v,
        Err(e) => return Err(e),
    };
    let (data_packets, at2) = match read_packets(b, at1) {
        Ok(v) => v,
        Err(e) => return Err(e),
    };
    Ok((Message::MulticastData { topic, data_packets }, at2))
}

#[verifier::rlimit(60)]
fn read_unicast_data(b: &[u8], pos: usize) -> (r: Result<(Message, usize), CodecError>)
    requires
        pos <= b@.len(),
    ensures
        read_as(r, dec_unicast_data(b@.skip(pos as int)), b@, |m: Message| m@),
{
    let ((client_id, topic), at1) = match read_header(b, pos) {
        Ok(v) => v,
        Err(e) => return Err(e),
    };
    let (data_packets, at2) = match read_packets(b, at1) {
        Ok(v) => v,
        Err(e) => return Err(e),
    };
    Ok((Message::UnicastData { client_id, topic, data_packets }, at2))
}

#[verifier::rlimit(60)]
fn read_forwarded_subscription_request(b: &[u8], pos: usize) -> (r: Result<(Message, usize), CodecError>)
    requires
        pos <= b@.len(),
    ensures
        read_as(r, dec_forwarded_subscription_request(b@.skip(pos as int)), b@, |m: Message| m@),
{
    let ((host, user), at1) = match read_header(b, pos) {
        Ok(v) => v,
        Err(e) => return Err(e),
    };
    let ((client_id, topic), at2) = match read_header(b, at1) {
        Ok(v) => v,
        Err(e) => return Err(e),
    };
    let (count, at3) = match read_u32(b, at2) {
        Ok(v) => v,
        Err(e) => return Err(e),
    };
    Ok((Message::ForwardedSubscriptionRequest { host, user, client_id, topic, count }, at3))
}

fn read_subscription_request(b: &[u8], pos: usize) -> (r: Result<(Message, usize), CodecError>)
    requires
        pos <= b@.len(),
    ensures
        read_as(r, dec_subscription_request(b@.skip(pos as int)), b@, |m: Message| m@),
{
    let (topic, at1) = match read_str(b, pos) {
        Ok(v) => v,
        Err(e) => return Err(e),
    };
    let (is_add, at2) = match read_bool(b, at1) {
        Ok(v) => v,
        Err(e) => return Err(e),
    };
    Ok((Message::SubscriptionRequest { topic, is_add }, at2))
}

#[verifier::rlimit(60)]
fn read_forwarded_multicast_data(b: &[u8], pos: usize) -> (r: Result<(Message, usize), CodecError>)
    requires
        pos <= b@.len(),
    ensures
        read_as(r, dec_forwarded_multicast_data(b@.skip(pos as int)), b@, |m: Message| m@),
{
    let ((host, user), at1) = match read_header(b, pos) {
        Ok(v) => v,
        Err(e) => return Err(e),
    };
    let (topic, at2) = match read_str(b, at1) {
        Ok(v) => v,
        Err(e) => return Err(e),
    };
    let (data_packets, at3) = match read_packets(b, at2) {
        Ok(v) => v,
        Err(e) => return Err(e),
    };
    Ok((Message::ForwardedMulticastData { host, user, topic, data_packets }, at3))
}

#[verifier::rlimit(60)]
fn read_forwarded_unicast_data(b: &[u8], pos: usize) -> (r: Result<(Message, usize), CodecError>)
    requires
        pos <= b@.len(),
    ensures
        read_as(r, dec_forwarded_unicast_data(b@.skip(pos as int)), b@, |m: Message| m@),
{
    let ((host, user), at1) = match read_header(b, pos) {
        Ok(v) => v,
        Err(e) => return Err(e),
    };
    let ((client_id, topic), at2) = match read_header(b, at1) {
        Ok(v) => v,
        Err(e) => return Err(e),
    };
    let (data_packets, at3) = match read_packets(b, at2) {
        Ok(v) => v,
        Err(e) => return Err(e),
    };
    Ok((Message::ForwardedUnicastData { host, user, client_id, topic, data_packets }, at3))
}

/// Decodes the body of a frame: exactly one message. Each failure is
/// the one that the layout gives for the input.
pub fn decode(b: &[u8]) -> (r: Result<Message, CodecError>)
    ensures
        match dec_message(b@) {
            Ok(m) => r matches Ok(x) && x@ == m,
            Err(e) => r == Err::<Message, CodecError>(e),
        },
{
    if b.len() == 0 {
        return Err(CodecError::Truncated);
    }
    let parsed = match b[0] {
        1 => read_authentication_request(b, 1),
        2 => read_authentication_response(b, 1),
        3 => read_multicast_data(b, 1),
        4 => read_unicast_data(b, 1),
        5 => read_forwarded_subscription_request(b, 1),
        7 => read_subscription_request(b, 1),
        8 => read_forwarded_multicast_data(b, 1),
        9 => read_forwarded_unicast_data(b, 1),
        _ => return Err(CodecError::UnknownMessageType),
    };
    match parsed {
        Ok((m, p)) => if p == b.len() {
            Ok(m)
        } else {
            Err(CodecError::TrailingBytes)
        },
        Err(e) => Err(e),
    }
}

fn str_size(s: &String) -> (r: usize)
    requires
        enc_str(s@).len() <= usize::MAX,
    ensures
        r == enc_str(s@).len(),
{
    4 + s.as_str().len()
}

fn entitlements_size(xs: &Vec<i32>) -> (r: usize)
    requires
        enc_list(xs@, i32_enc()).len() <= usize::MAX,
    ensures
        r == enc_list(xs@, i32_enc()).len(),
{
    let mut acc: usize = 4;
    let mut i: usize = 0;
    while i < xs.len()
        invariant
            i <= xs@.len(),
            enc_list(xs@, i32_enc()).len() <= usize::MAX,
            acc == 4 + enc_items(xs@.take(i as int), i32_enc()).len(),
        decreases xs@.len() - i,
    {
        proof {
            lemma_enc_items_step(xs@, i as int, i32_enc());
            lemma_enc_items_prefix_len(xs@, i + 1, i32_enc());
        }
        acc = acc + 4;
        i = i + 1;
    }
    assert(xs@.take(i as int) =~= xs@);
    acc
}

fn headers_size(xs: &Vec<(String, String)>) -> (r: usize)
    requires
        enc_list(headers_view(xs@), header_enc()).len() <= usize::MAX,
    ensures
        r == enc_list(headers_view(xs@), header_enc()).len(),
{
    let ghost hv = headers_view(xs@);
    let mut acc: usize = 4;
    let mut i: usize = 0;
    while i < xs.len()
        invariant
            hv == headers_view(xs@),
            i <= xs@.len(),
            enc_list(hv, header_enc()).len() <= usize::MAX,
            acc == 4 + enc_items(hv.take(i as int), header_enc()).len(),
        decreases xs@.len() - i,
    {
        proof {
            lemma_enc_items_step(hv, i as int, header_enc());
            lemma_enc_items_prefix_len(hv, i + 1, header_enc());
        }
        let name = str_size(&xs[i].0);
        let value = str_size(&xs[i].1);
        acc = acc + name + value;
        i = i + 1;
    }
    assert(hv.take(i as int) =~= hv);
    acc
}

fn packet_size(p: &DataPacket) -> (r: usize)
    requires
        enc_packet(p@).len() <= usize::MAX,
    ensures
        r == enc_packet(p@).len(),
{
    entitlements_size(&p.entitlements) + headers_size(&p.headers) + 4 + p.data.len()
}

fn packets_size(xs: &Vec<DataPacket>) -> (r: usize)
    requires
        enc_packets(packets_view(xs@)).len() <= usize::MAX,
    ensures
        r == enc_packets(packets_view(xs@)).len(),
{
    let ghost pv = packets_view(xs@);
    let mut acc: usize = 4;
    let mut i: usize = 0;
    while i < xs.len()
        invariant
            pv == packets_view(xs@),
            i <= xs@.len(),
            enc_list(pv, packet_enc()).len() <= usize::MAX,
            acc == 4 + enc_items(pv.take(i as int), packet_enc()).len(),
        decreases xs@.len() - i,
    {
        proof {
            lemma_enc_items_step(pv, i as int, packet_enc());
            lemma_enc_items_prefix_len(pv, i + 1, packet_enc());
        }
        acc = acc + packet_size(&xs[i]);
        i = i + 1;
    }
    assert(pv.take(i as int) =~= pv);
    acc
}

impl Message {
    /// The number of bytes that `encode` gives for this message.
    #[verifier::rlimit(60)]
    pub fn size(&self) -> (r: usize)
        requires
            enc_message(self@).len() <= usize::MAX,
        ensures
            r == enc_message(self@).len(),
    {
        1 + match self {
            Message::AuthenticationRequest { method, credentials } => str_size(method) + 4
                + credentials.len(),
            Message::AuthenticationResponse { client_id } => str_size(client_id),
            Message::ForwardedMulticastData { host, user, topic, data_packets } => str_size(host)
                + str_size(user) + str_size(topic) + packets_size(data_packets),
            Message::ForwardedSubscriptionRequest { host, user, client_id, topic, count } => str_size(
                host,
            ) + str_size(user) + str_size(client_id) + str_size(topic) + 4,
            Message::ForwardedUnicastData { host, user, client_id, topic, data_packets } => str_size(
                host,
            ) + str_size(user) + str_size(client_id) + str_size(topic) + packets_size(data_packets),
            Message::MulticastData { topic, data_packets } => str_size(topic) + packets_size(
                data_packets,
            ),
            Message::SubscriptionRequest { topic, is_add } => str_size(topic) + 1,
            Message::UnicastData { client_id, topic, data_packets } => str_size(client_id) + str_size(
                topic,
            ) + packets_size(data_packets),
        }
    }
}

/// Decoding the encoding of a message gives the message back.
pub proof fn law_round_trip(m: MessageView)
    requires
        message_fits(m),
        message_sound(m),
    ensures
        dec_message(enc_message(m)) == Ok::<MessageView, CodecError>(m),
{
    let b = enc_message(m);
    assert(b.skip(1) =~= enc_body(m));
    match m {
        MessageView::AuthenticationRequest { .. } => lemma_body_round_trip_authentication_request(m),
        MessageView::AuthenticationResponse { .. } => lemma_body_round_trip_authentication_response(m),
        MessageView::ForwardedMulticastData { .. } => lemma_body_round_trip_forwarded_multicast_data(m),
        MessageView::ForwardedSubscriptionRequest { .. } => lemma_body_round_trip_forwarded_subscription_request(m),
        MessageView::ForwardedUnicastData { .. } => lemma_body_round_trip_forwarded_unicast_data(m),
        MessageView::MulticastData { .. } => lemma_body_round_trip_multicast_data(m),
        MessageView::SubscriptionRequest { .. } => lemma_body_round_trip_subscription_request(m),
        MessageView::UnicastData { .. } => lemma_body_round_trip_unicast_data(m),
    }
}

} // verus!
