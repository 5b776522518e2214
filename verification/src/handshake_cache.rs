//! The handshake messages of a connection, kept for the hashes and signatures over them.

use crate::crypto::{HashAlgorithm, RTCCryptoProvider, HASH_MAX_LEN};
use crate::error::Error;
use crate::record::{append, HandshakeHeader, HandshakeType};
use std::collections::HashMap;
use vstd::prelude::*;
use vstd::slice::slice_to_vec;

verus! {

broadcast use vstd::std_specs::hash::group_hash_axioms;

/// One message, as it was sent.
#[derive(Debug, Clone, PartialEq, Eq)]
pub struct HandshakeCacheItem {
    /// The type of the message.
    pub typ: HandshakeType,
    /// Whether the client sent it.
    pub is_client: bool,
    /// The epoch that it was sent in.
    pub epoch: u16,
    /// Its number among the messages of its sender.
    pub message_sequence: u16,
    /// The message with its header.
    pub data: Vec<u8>,
}

/// Which message to pull.
#[derive(Debug, Clone, Copy, PartialEq, Eq, Structural)]
pub struct HandshakeCachePullRule {
    /// The type of the message.
    pub typ: HandshakeType,
    /// The epoch that it was sent in.
    pub epoch: u16,
    /// Whether the client sent it.
    pub is_client: bool,
    /// Whether it may be missing.
    pub optional: bool,
}

/// A message that was pulled.
#[derive(Debug, Clone, PartialEq, Eq)]
pub struct HandshakeMessage {
    /// The type of the message.
    pub typ: HandshakeType,
    /// What follows the header.
    pub body: Vec<u8>,
}

/// One message, as it was sent.
#[verifier::ext_equal]
pub struct CachedView {
    /// The type of the message.
    pub typ: HandshakeType,
    /// Whether the client sent it.
    pub is_client: bool,
    /// The epoch that it was sent in.
    pub epoch: u16,
    /// Its number among the messages of its sender.
    pub message_sequence: u16,
    /// The message with its header.
    pub data: Seq<u8>,
}

impl View for HandshakeCacheItem {
    type V = CachedView;

    open spec fn view(&self) -> CachedView {
        CachedView {
            typ: self.typ,
            is_client: self.is_client,
            epoch: self.epoch,
            message_sequence: self.message_sequence,
            data: self.data@,
        }
    }
}

impl HandshakeCachePullRule {
    /// Whether the rule is about this message.
    pub open spec fn matches(self, item: CachedView) -> bool {
        item.typ == self.typ && item.is_client == self.is_client && item.epoch == self.epoch
    }
}

/// The messages in the order they came.
pub type Cached = Seq<CachedView>;

/// Whether one of `items` has the number and the sender of a message.
pub open spec fn is_cached(items: Cached, message_sequence: u16, is_client: bool) -> bool {
    exists|i: int|
        0 <= i < items.len() && (#[trigger] items[i]).message_sequence == message_sequence
            && items[i].is_client == is_client
}

/// The messages once `item` came: it is kept unless one with its number and sender is there.
pub open spec fn with_item(items: Cached, item: CachedView) -> Cached {
    if is_cached(items, item.message_sequence, item.is_client) {
        items
    } else {
        items.push(item)
    }
}

/// No two messages have the same number and sender.
pub open spec fn no_repeats(items: Cached) -> bool {
    forall|i: int, j: int|
        0 <= i < j < items.len() ==> (#[trigger] items[i]).message_sequence != (
        #[trigger] items[j]).message_sequence || items[i].is_client != items[j].is_client
}

/// Whether message `i` is the one that a rule selects: of those that it is about, the one with the
/// highest number, the first to come where two have it.
pub open spec fn is_selected(items: Cached, rule: HandshakeCachePullRule, i: int) -> bool {
    &&& 0 <= i < items.len()
    &&& rule.matches(items[i])
    &&& forall|j: int|
        0 <= j < items.len() && rule.matches(#[trigger] items[j]) ==> items[j].message_sequence
            < items[i].message_sequence || (items[j].message_sequence == items[i].message_sequence
            && i <= j)
}

/// The message that a rule selects, if it is about any.
pub open spec fn selected(items: Cached, rule: HandshakeCachePullRule) -> Option<CachedView> {
    if exists|i: int| is_selected(items, rule, i) {
        Some(items[choose|i: int| is_selected(items, rule, i)])
    } else {
        None
    }
}

/// The messages that the rules select, in the order of the rules.
pub open spec fn pulled(items: Cached, rules: Seq<HandshakeCachePullRule>) -> Seq<CachedView>
    decreases rules.len(),
{
    if rules.len() == 0 {
        Seq::empty()
    } else {
        let before = pulled(items, rules.drop_last());
        match selected(items, rules.last()) {
            Some(item) => before.push(item),
            None => before,
        }
    }
}

/// Messages one after the other.
pub open spec fn joined(items: Seq<CachedView>) -> Seq<u8>
    decreases items.len(),
{
    if items.len() == 0 {
        Seq::empty()
    } else {
        joined(items.drop_last()) + items.last().data
    }
}

/// Whether a rule that is not optional selects nothing.
pub open spec fn is_missing(items: Cached, rules: Seq<HandshakeCachePullRule>) -> bool {
    exists|k: int|
        0 <= k < rules.len() && !(#[trigger] rules[k]).optional && selected(items, rules[k]) is None
}

/// For each type, the message that the last rule for it selects.
pub open spec fn by_type(items: Cached, rules: Seq<HandshakeCachePullRule>) -> Map<u8, CachedView>
    decreases rules.len(),
{
    if rules.len() == 0 {
        Map::empty()
    } else {
        let before = by_type(items, rules.drop_last());
        match selected(items, rules.last()) {
            Some(item) => before.insert(rules.last().typ.byte(), item),
            None => before,
        }
    }
}

/// Taking the messages in the order of the rules: how many numbers that used up, and the bodies.
pub struct Taken {
    /// The number that the next message should have.
    pub next: int,
    /// For each type, what follows the header.
    pub bodies: Map<u8, Seq<u8>>,
}

/// The messages in the order of the rules, the first with the number `start`, without a gap.
pub open spec fn taken(
    messages: Map<u8, CachedView>,
    start: int,
    rules: Seq<HandshakeCachePullRule>,
) -> Result<Taken, Error>
    decreases rules.len(),
{
    if rules.len() == 0 {
        Ok(Taken { next: start, bodies: Map::empty() })
    } else {
        match taken(messages, start, rules.drop_last()) {
            Err(error) => Err(error),
            Ok(before) => {
                let t = rules.last().typ.byte();
                if !messages.contains_key(t) {
                    Ok(before)
                } else if messages[t].data.len() < 12 {
                    Err(Error::ErrBufferTooSmall)
                } else if HandshakeHeader::read(messages[t].data).message_sequence != before.next
                    % 65536 {
                    Err(Error::ErrMessageGap)
                } else {
                    Ok(
                        Taken {
                            next: before.next + 1,
                            bodies: before.bodies.insert(t, messages[t].data.skip(12)),
                        },
                    )
                }
            },
        }
    }
}

/// The rules of the session hash, in the order of the handshake.
pub open spec fn session_rules(epoch: u16) -> Seq<HandshakeCachePullRule> {
    seq![
        rule_for(HandshakeType::ClientHello, epoch, true),
        rule_for(HandshakeType::ServerHello, epoch, false),
        rule_for(HandshakeType::Certificate, epoch, false),
        rule_for(HandshakeType::ServerKeyExchange, epoch, false),
        rule_for(HandshakeType::CertificateRequest, epoch, false),
        rule_for(HandshakeType::ServerHelloDone, epoch, false),
        rule_for(HandshakeType::Certificate, epoch, true),
        rule_for(HandshakeType::ClientKeyExchange, epoch, true),
    ]
}

/// A rule for a message that has to be there.
pub open spec fn rule_for(
    typ: HandshakeType,
    epoch: u16,
    is_client: bool,
) -> HandshakeCachePullRule {
    HandshakeCachePullRule { typ, epoch, is_client, optional: false }
}

/// What the session hash is the hash of.
pub open spec fn session_transcript(items: Cached, epoch: u16, additional: Seq<u8>) -> Seq<u8> {
    joined(pulled(items, session_rules(epoch))) + additional
}

/// A rule selects at most one message.
pub proof fn law_selection_is_unique(
    items: Cached,
    rule: HandshakeCachePullRule,
    i: int,
)
    requires
        is_selected(items, rule, i),
    ensures
        selected(items, rule) == Some(items[i]),
{
    let j = choose|j: int| is_selected(items, rule, j);
    assert(is_selected(items, rule, j));
    assert(rule.matches(items[i]) && rule.matches(items[j]));
}

proof fn lemma_selected_none(items: Cached, rule: HandshakeCachePullRule)
    requires
        forall|j: int| 0 <= j < items.len() ==> !rule.matches(#[trigger] items[j]),
    ensures
        selected(items, rule) is None,
{
    if exists|i: int| is_selected(items, rule, i) {
        let i = choose|i: int| is_selected(items, rule, i);
        assert(!rule.matches(items[i]));
    }
}

proof fn lemma_latest(items: Cached, rule: HandshakeCachePullRule, j: int) -> (i: int)
    requires
        0 <= j < items.len(),
        rule.matches(items[j]),
    ensures
        is_selected(items, rule, i),
    decreases items.len(),
{
    let before = items.drop_last();
    let last = items.len() - 1;
    if exists|k: int| 0 <= k < before.len() && rule.matches(#[trigger] before[k]) {
        let k = choose|k: int| 0 <= k < before.len() && rule.matches(#[trigger] before[k]);
        let i = lemma_latest(before, rule, k);
        assert forall|m: int| 0 <= m < before.len() implies before[m] == #[trigger] items[m] by {}
        if rule.matches(items[last]) && items[last].message_sequence > items[i].message_sequence {
            last
        } else {
            i
        }
    } else {
        assert forall|m: int| 0 <= m < items.len() && rule.matches(#[trigger] items[m]) implies m
            == last by {
            if m < last {
                assert(rule.matches(before[m]));
            }
        }
        last
    }
}

/// A rule that is about a message selects one, of the highest number among those.
pub proof fn law_rule_selects_latest(items: Cached, rule: HandshakeCachePullRule, j: int)
    requires
        0 <= j < items.len(),
        rule.matches(items[j]),
    ensures
        selected(items, rule) matches Some(item) && rule.matches(item) && item.message_sequence
            >= items[j].message_sequence,
{
    let i = lemma_latest(items, rule, j);
    law_selection_is_unique(items, rule, i);
}

/// A message that a rule is not about does not change what the rule selects.
proof fn lemma_not_selected(items: Cached, item: CachedView, rule: HandshakeCachePullRule)
    requires
        !rule.matches(item),
    ensures
        selected(with_item(items, item), rule) == selected(items, rule),
{
    let after = with_item(items, item);
    assert forall|j: int| 0 <= j < items.len() implies after[j] == #[trigger] items[j] by {}
    if exists|j: int| 0 <= j < items.len() && rule.matches(#[trigger] items[j]) {
        let j = choose|j: int| 0 <= j < items.len() && rule.matches(#[trigger] items[j]);
        let i = lemma_latest(items, rule, j);
        assert(is_selected(after, rule, i));
        law_selection_is_unique(items, rule, i);
        law_selection_is_unique(after, rule, i);
    } else {
        assert forall|j: int| 0 <= j < after.len() implies !rule.matches(#[trigger] after[j]) by {
            if j < items.len() {
                assert(!rule.matches(items[j]));
            }
        }
        lemma_selected_none(items, rule);
        lemma_selected_none(after, rule);
    }
}

/// A message that none of the rules is about does not change what they select.
pub proof fn law_unrelated_message_is_not_pulled(
    items: Cached,
    item: CachedView,
    rules: Seq<HandshakeCachePullRule>,
)
    requires
        forall|k: int| 0 <= k < rules.len() ==> !(#[trigger] rules[k]).matches(item),
    ensures
        pulled(with_item(items, item), rules) == pulled(items, rules),
    decreases rules.len(),
{
    if rules.len() > 0 {
        let before = rules.drop_last();
        assert forall|k: int| 0 <= k < before.len() implies !(#[trigger] before[k]).matches(
            item,
        ) by {
            assert(before[k] == rules[k]);
        }
        law_unrelated_message_is_not_pulled(items, item, before);
        assert(!rules[rules.len() - 1].matches(item));
        lemma_not_selected(items, item, rules.last());
    }
}

/// Whether the session hash is also over the messages of this type from this end.
pub open spec fn in_session_hash(typ: HandshakeType, is_client: bool) -> bool {
    if is_client {
        typ == HandshakeType::ClientHello || typ == HandshakeType::Certificate || typ
            == HandshakeType::ClientKeyExchange
    } else {
        typ == HandshakeType::ServerHello || typ == HandshakeType::Certificate || typ
            == HandshakeType::ServerKeyExchange || typ == HandshakeType::CertificateRequest || typ
            == HandshakeType::ServerHelloDone
    }
}

/// A message of another epoch, and one of a type and end that the session hash is not over, leaves
/// what is hashed as it was.
pub proof fn law_unrelated_message_keeps_session_hash(
    items: Cached,
    item: CachedView,
    epoch: u16,
    additional: Seq<u8>,
)
    requires
        item.epoch != epoch || !in_session_hash(item.typ, item.is_client),
    ensures
        session_transcript(with_item(items, item), epoch, additional) == session_transcript(
            items,
            epoch,
            additional,
        ),
{
    law_unrelated_message_is_not_pulled(items, item, session_rules(epoch));
}

/// Whether `part` is what the messages of this type, end and epoch contribute to a transcript: the
/// bytes of the one with the highest number, or nothing where there is none.
pub open spec fn contributes(
    items: Cached,
    epoch: u16,
    typ: HandshakeType,
    is_client: bool,
    part: Seq<u8>,
) -> bool {
    ||| exists|i: int|
        {
            &&& 0 <= i < items.len()
            &&& (#[trigger] items[i]).typ == typ
            &&& items[i].is_client == is_client
            &&& items[i].epoch == epoch
            &&& items[i].data == part
            &&& forall|j: int|
                0 <= j < items.len() && j != i && (#[trigger] items[j]).typ == typ
                    && items[j].is_client == is_client && items[j].epoch == epoch
                    ==> items[j].message_sequence < items[i].message_sequence
        }
    ||| part.len() == 0 && forall|i: int|
        0 <= i < items.len() ==> !((#[trigger] items[i]).typ == typ && items[i].is_client
            == is_client && items[i].epoch == epoch)
}

proof fn lemma_contribution(
    items: Cached,
    epoch: u16,
    typ: HandshakeType,
    is_client: bool,
    part: Seq<u8>,
)
    requires
        contributes(items, epoch, typ, is_client, part),
    ensures
        match selected(items, rule_for(typ, epoch, is_client)) {
            Some(item) => item.data == part,
            None => part.len() == 0,
        },
{
    let rule = rule_for(typ, epoch, is_client);
    if exists|i: int| 0 <= i < items.len() && rule.matches(#[trigger] items[i]) {
        let i = choose|i: int|
            {
                &&& 0 <= i < items.len()
                &&& (#[trigger] items[i]).typ == typ
                &&& items[i].is_client == is_client
                &&& items[i].epoch == epoch
                &&& items[i].data == part
                &&& forall|j: int|
                    0 <= j < items.len() && j != i && (#[trigger] items[j]).typ == typ
                        && items[j].is_client == is_client && items[j].epoch == epoch
                        ==> items[j].message_sequence < items[i].message_sequence
            };
        assert(is_selected(items, rule, i));
        law_selection_is_unique(items, rule, i);
    } else {
        lemma_selected_none(items, rule);
    }
}

/// One more rule adds what it selects.
proof fn lemma_pull_more(
    items: Cached,
    rules: Seq<HandshakeCachePullRule>,
    rule: HandshakeCachePullRule,
    part: Seq<u8>,
)
    requires
        match selected(items, rule) {
            Some(item) => item.data == part,
            None => part.len() == 0,
        },
    ensures
        joined(pulled(items, rules.push(rule))) == joined(pulled(items, rules)) + part,
{
    let more = rules.push(rule);
    assert(more.drop_last() =~= rules);
    let before = pulled(items, rules);
    match selected(items, rule) {
        Some(item) => {
            assert(before.push(item).drop_last() =~= before);
        },
        None => {
            assert(joined(before) + part =~= joined(before));
        },
    }
}

/// What the session hash is the hash of: ClientHello, ServerHello, the server's Certificate,
/// ServerKeyExchange, CertificateRequest, ServerHelloDone, the client's Certificate and
/// ClientKeyExchange, each from the end that sends it, in this order and without a header or a gap
/// between them, and then `additional`.
pub proof fn law_session_transcript_is_the_handshake(
    items: Cached,
    epoch: u16,
    additional: Seq<u8>,
    client_hello: Seq<u8>,
    server_hello: Seq<u8>,
    server_certificate: Seq<u8>,
    server_key_exchange: Seq<u8>,
    certificate_request: Seq<u8>,
    server_hello_done: Seq<u8>,
    client_certificate: Seq<u8>,
    client_key_exchange: Seq<u8>,
)
    requires
        contributes(items, epoch, HandshakeType::ClientHello, true, client_hello),
        contributes(items, epoch, HandshakeType::ServerHello, false, server_hello),
        contributes(items, epoch, HandshakeType::Certificate, false, server_certificate),
        contributes(items, epoch, HandshakeType::ServerKeyExchange, false, server_key_exchange),
        contributes(items, epoch, HandshakeType::CertificateRequest, false, certificate_request),
        contributes(items, epoch, HandshakeType::ServerHelloDone, false, server_hello_done),
        contributes(items, epoch, HandshakeType::Certificate, true, client_certificate),
        contributes(items, epoch, HandshakeType::ClientKeyExchange, true, client_key_exchange),
    ensures
        session_transcript(items, epoch, additional) == client_hello + server_hello
            + server_certificate + server_key_exchange + certificate_request + server_hello_done
            + client_certificate + client_key_exchange + additional,
{
    let rules = session_rules(epoch);
    lemma_contribution(items, epoch, HandshakeType::ClientHello, true, client_hello);
    lemma_contribution(items, epoch, HandshakeType::ServerHello, false, server_hello);
    lemma_contribution(items, epoch, HandshakeType::Certificate, false, server_certificate);
    lemma_contribution(items, epoch, HandshakeType::ServerKeyExchange, false, server_key_exchange);
    lemma_contribution(items, epoch, HandshakeType::CertificateRequest, false, certificate_request);
    lemma_contribution(items, epoch, HandshakeType::ServerHelloDone, false, server_hello_done);
    lemma_contribution(items, epoch, HandshakeType::Certificate, true, client_certificate);
    lemma_contribution(items, epoch, HandshakeType::ClientKeyExchange, true, client_key_exchange);
    assert(rules.take(0) =~= Seq::empty());
    assert(rules.take(1) =~= rules.take(0).push(rules[0]));
    assert(rules.take(2) =~= rules.take(1).push(rules[1]));
    assert(rules.take(3) =~= rules.take(2).push(rules[2]));
    assert(rules.take(4) =~= rules.take(3).push(rules[3]));
    assert(rules.take(5) =~= rules.take(4).push(rules[4]));
    assert(rules.take(6) =~= rules.take(5).push(rules[5]));
    assert(rules.take(7) =~= rules.take(6).push(rules[6]));
    assert(rules =~= rules.take(7).push(rules[7]));
    lemma_pull_more(items, rules.take(0), rules[0], client_hello);
    lemma_pull_more(items, rules.take(1), rules[1], server_hello);
    lemma_pull_more(items, rules.take(2), rules[2], server_certificate);
    lemma_pull_more(items, rules.take(3), rules[3], server_key_exchange);
    lemma_pull_more(items, rules.take(4), rules[4], certificate_request);
    lemma_pull_more(items, rules.take(5), rules[5], server_hello_done);
    lemma_pull_more(items, rules.take(6), rules[6], client_certificate);
    lemma_pull_more(items, rules.take(7), rules[7], client_key_exchange);
    assert(joined(pulled(items, rules.take(0))) =~= Seq::empty());
    assert(Seq::empty() + client_hello =~= client_hello);
}

/// In the cache of a handshake every message counts: where no two messages have the same type, end
/// and epoch, the bytes of each one that the session hash is over stand in what is hashed.
pub proof fn law_hashed_message_is_in_the_transcript(
    items: Cached,
    epoch: u16,
    additional: Seq<u8>,
    i: int,
)
    requires
        0 <= i < items.len(),
        items[i].epoch == epoch,
        in_session_hash(items[i].typ, items[i].is_client),
        forall|j: int, k: int|
            0 <= j < items.len() && 0 <= k < items.len() && j != k ==> !((#[trigger] items[j]).typ
                == (#[trigger] items[k]).typ && items[j].is_client == items[k].is_client
                && items[j].epoch == items[k].epoch),
    ensures
        exists|at: int|
            0 <= at <= at + items[i].data.len() <= session_transcript(
                items,
                epoch,
                additional,
            ).len() && #[trigger] session_transcript(items, epoch, additional).subrange(
                at,
                at + items[i].data.len(),
            ) == items[i].data,
{
    let rules = session_rules(epoch);
    let item = items[i];
    let rule = rule_for(item.typ, epoch, item.is_client);
    assert(is_selected(items, rule, i));
    law_selection_is_unique(items, rule, i);
    let k = if item.is_client {
        if item.typ == HandshakeType::ClientHello {
            0int
        } else if item.typ == HandshakeType::Certificate {
            6
        } else {
            7
        }
    } else if item.typ == HandshakeType::ServerHello {
        1
    } else if item.typ == HandshakeType::Certificate {
        2
    } else if item.typ == HandshakeType::ServerKeyExchange {
        3
    } else if item.typ == HandshakeType::CertificateRequest {
        4
    } else {
        5
    };
    assert(rules[k] == rule);
    lemma_pulled_is_joined(items, rules, k);
    let at = joined(pulled(items, rules.take(k))).len() as int;
    let transcript = session_transcript(items, epoch, additional);
    assert(transcript.subrange(at, at + item.data.len()) =~= item.data) by {
        let all = joined(pulled(items, rules));
        assert(all.subrange(at, at + item.data.len()) == item.data);
        assert forall|n: int| 0 <= n < item.data.len() implies transcript[at + n]
            == item.data[n] by {
            assert(all.subrange(at, at + item.data.len())[n] == all[at + n]);
        }
    }
}

/// What a rule selects stands behind what the rules before it select.
proof fn lemma_pulled_is_joined(items: Cached, rules: Seq<HandshakeCachePullRule>, k: int)
    requires
        0 <= k < rules.len(),
        selected(items, rules[k]) is Some,
    ensures
        ({
            let at = joined(pulled(items, rules.take(k))).len() as int;
            let data = selected(items, rules[k])->Some_0.data;
            &&& at + data.len() <= joined(pulled(items, rules)).len()
            &&& joined(pulled(items, rules)).subrange(at, at + data.len()) == data
        }),
    decreases rules.len(),
{
    let last = rules.len() - 1;
    let before = rules.drop_last();
    let part = match selected(items, rules[last]) {
        Some(item) => item.data,
        None => Seq::empty(),
    };
    assert(before.push(rules[last]) =~= rules);
    lemma_pull_more(items, before, rules[last], part);
    let all = joined(pulled(items, rules));
    let at = joined(pulled(items, rules.take(k))).len() as int;
    let data = selected(items, rules[k])->Some_0.data;
    if k < last {
        assert(before.take(k) =~= rules.take(k));
        assert(before[k] == rules[k]);
        lemma_pulled_is_joined(items, before, k);
        let shorter = joined(pulled(items, before));
        assert(all.subrange(at, at + data.len()) =~= data) by {
            assert forall|n: int| 0 <= n < data.len() implies all[at + n] == data[n] by {
                assert(shorter.subrange(at, at + data.len())[n] == shorter[at + n]);
            }
        }
    } else {
        assert(rules.take(k) =~= before);
        assert(all.subrange(at, at + data.len()) =~= data);
    }
}

/// The handshake messages of a connection.
#[derive(Debug, Clone)]
pub struct HandshakeCache {
    cache: Vec<HandshakeCacheItem>,
}

impl View for HandshakeCache {
    type V = Cached;

    closed spec fn view(&self) -> Cached {
        Seq::new(self.cache@.len(), |i: int| self.cache@[i]@)
    }
}

/// Messages, as they were sent.
pub open spec fn item_views(items: Seq<&HandshakeCacheItem>) -> Seq<CachedView> {
    Seq::new(items.len(), |i: int| items[i]@)
}

/// The bodies that a map holds.
pub open spec fn body_views(bodies: Map<u8, HandshakeMessage>) -> Map<u8, Seq<u8>> {
    Map::new(|t: u8| bodies.contains_key(t), |t: u8| bodies[t].body@)
}

impl HandshakeCache {
    /// A cache without messages.
    pub fn new() -> (cache: HandshakeCache)
        ensures
            cache@ == Seq::<CachedView>::empty(),
    {
        let cache = HandshakeCache { cache: Vec::new() };
        assert(cache@ =~= Seq::<CachedView>::empty());
        cache
    }

    /// Keeps a message, unless one with its number and sender is there. Returns whether it was
    /// kept.
    pub fn push(
        &mut self,
        data: Vec<u8>,
        epoch: u16,
        message_sequence: u16,
        typ: HandshakeType,
        is_client: bool,
    ) -> (kept: bool)
        ensures
            kept == !is_cached(old(self)@, message_sequence, is_client),
            final(self)@ == with_item(
                old(self)@,
                CachedView { typ, is_client, epoch, message_sequence, data: data@ },
            ),
            no_repeats(old(self)@) ==> no_repeats(final(self)@),
    {
        let mut i: usize = 0;
        while i < self.cache.len()
            invariant
                i <= self.cache@.len(),
                self@ == old(self)@,
                forall|j: int|
                    0 <= j < i ==> (#[trigger] self@[j]).message_sequence != message_sequence
                        || self@[j].is_client != is_client,
            decreases self.cache@.len() - i,
        {
            if self.cache[i].message_sequence == message_sequence && self.cache[i].is_client
                == is_client {
                assert(self@[i as int].message_sequence == message_sequence);
                return false;
            }
            i += 1;
        }
        let ghost bytes = data@;
        self.cache.push(HandshakeCacheItem { typ, is_client, epoch, message_sequence, data });
        assert(self@ =~= old(self)@.push(
            CachedView { typ, is_client, epoch, message_sequence, data: bytes },
        ));
        true
    }

    /// The message that a rule selects: the latest of the rule's type, epoch and sender.
    pub fn find(&self, r: &HandshakeCachePullRule) -> (item: Option<&HandshakeCacheItem>)
        ensures
            match item {
                Some(item) => selected(self@, *r) == Some(item@),
                None => selected(self@, *r) is None,
            },
    {
        let mut found: Option<usize> = None;
        let mut i: usize = 0;
        while i < self.cache.len()
            invariant
                i <= self.cache@.len(),
                match found {
                    Some(k) => {
                        &&& k < i
                        &&& r.matches(self@[k as int])
                        &&& forall|j: int|
                            0 <= j < i && r.matches(#[trigger] self@[j])
                                ==> self@[j].message_sequence < self@[k as int].message_sequence
                                || (self@[j].message_sequence == self@[k as int].message_sequence
                                && k <= j)
                    },
                    None => forall|j: int| 0 <= j < i ==> !r.matches(#[trigger] self@[j]),
                },
            decreases self.cache@.len() - i,
        {
            let c: &HandshakeCacheItem = &self.cache[i];
            assert(self@[i as int] == c@);
            if c.typ == r.typ && c.is_client == r.is_client && c.epoch == r.epoch {
                match found {
                    Some(k) => {
                        assert(self@[k as int] == self.cache@[k as int]@);
                        if self.cache[k].message_sequence < c.message_sequence {
                            found = Some(i);
                        }
                    },
                    None => {
                        found = Some(i);
                    },
                }
            }
            i += 1;
        }
        match found {
            Some(k) => {
                proof {
                    assert(is_selected(self@, *r, k as int));
                    law_selection_is_unique(self@, *r, k as int);
                }
                Some(&self.cache[k])
            },
            None => {
                proof {
                    lemma_selected_none(self@, *r);
                }
                None
            },
        }
    }

    /// The messages that the rules select, in the order of the rules. A rule that selects nothing
    /// is passed over.
    pub fn pull(&self, rules: &[HandshakeCachePullRule]) -> (items: Vec<&HandshakeCacheItem>)
        ensures
            item_views(items@) == pulled(self@, rules@),
    {
        let mut items: Vec<&HandshakeCacheItem> = Vec::new();
        let mut k: usize = 0;
        assert(item_views(items@) =~= pulled(self@, rules@.take(0)));
        while k < rules.len()
            invariant
                k <= rules@.len(),
                item_views(items@) == pulled(self@, rules@.take(k as int)),
            decreases rules@.len() - k,
        {
            let ghost before = items@;
            assert(rules@.take(k + 1).drop_last() =~= rules@.take(k as int));
            match self.find(&rules[k]) {
                Some(item) => {
                    items.push(item);
                    assert(item_views(items@) =~= item_views(before).push(item@));
                },
                None => {},
            }
            k += 1;
        }
        assert(rules@.take(k as int) =~= rules@);
        items
    }

    /// The messages that the rules select, by type, with the number after the last. In the order of
    /// the rules their numbers go up from `start_seq` without a gap.
    pub fn full_pull_map(&self, start_seq: isize, rules: &[HandshakeCachePullRule]) -> (result:
        Result<(isize, HashMap<u8, HandshakeMessage>), Error>)
        requires
            start_seq + rules@.len() <= isize::MAX,
        ensures
            if is_missing(self@, rules@) {
                result matches Err(error) && error == Error::ErrMissingMandatoryMessage
            } else {
                match taken(by_type(self@, rules@), start_seq as int, rules@) {
                    Ok(all) => result matches Ok((next, bodies)) && next == all.next && body_views(
                        bodies@,
                    ) == all.bodies && forall|t: u8| #[trigger]
                        bodies@.contains_key(t) ==> bodies@[t].typ.byte() == t,
                    Err(error) => result matches Err(e) && e == error,
                }
            },
    {
        let mut ci: HashMap<u8, &HandshakeCacheItem> = HashMap::new();
        let ghost messages = by_type(self@, rules@);
        let mut k: usize = 0;
        while k < rules.len()
            invariant
                k <= rules@.len(),
                forall|j: int|
                    0 <= j < k ==> (#[trigger] rules@[j]).optional || selected(self@, rules@[j])
                        is Some,
                ci@.dom() =~= by_type(self@, rules@.take(k as int)).dom(),
                forall|t: u8| #[trigger]
                    ci@.contains_key(t) ==> ci@[t]@ == by_type(self@, rules@.take(k as int))[t],
            decreases rules@.len() - k,
        {
            assert(rules@.take(k + 1).drop_last() =~= rules@.take(k as int));
            let r: &HandshakeCachePullRule = &rules[k];
            match self.find(r) {
                Some(item) => {
                    ci.insert(r.typ.to_byte(), item);
                },
                None => {
                    if !r.optional {
                        assert(!rules@[k as int].optional);
                        return Err(Error::ErrMissingMandatoryMessage);
                    }
                },
            }
            k += 1;
        }
        assert(rules@.take(k as int) =~= rules@);
        let mut out: HashMap<u8, HandshakeMessage> = HashMap::new();
        let mut seq: isize = start_seq;
        k = 0;
        assert(body_views(out@) =~= Map::<u8, Seq<u8>>::empty());
        while k < rules.len()
            invariant
                k <= rules@.len(),
                start_seq + rules@.len() <= isize::MAX,
                start_seq <= seq <= start_seq + k,
                !is_missing(self@, rules@),
                messages == by_type(self@, rules@),
                ci@.dom() =~= messages.dom(),
                forall|t: u8| #[trigger] ci@.contains_key(t) ==> ci@[t]@ == messages[t],
                taken(messages, start_seq as int, rules@.take(k as int)) matches Ok(sofar)
                    && sofar.next == seq && sofar.bodies == body_views(out@),
                forall|t: u8| #[trigger] out@.contains_key(t) ==> out@[t].typ.byte() == t,
            decreases rules@.len() - k,
        {
            proof {
                assert(rules@.take(k + 1).drop_last() =~= rules@.take(k as int));
            }
            let typ: HandshakeType = rules[k].typ;
            let t: u8 = typ.to_byte();
            if let Some(item) = ci.get(&t) {
                assert(item@ == messages[t]);
                let header: HandshakeHeader = match HandshakeHeader::unmarshal(
                    item.data.as_slice(),
                ) {
                    Ok(header) => header,
                    Err(error) => {
                        proof {
                            lemma_taken_fails(messages, start_seq as int, rules@, k + 1);
                        }
                        return Err(error);
                    },
                };
                let low: isize = match seq.checked_rem_euclid(65536) {
                    Some(low) => low,
                    None => 0,
                };
                if low != header.message_sequence as isize {
                    proof {
                        lemma_taken_fails(messages, start_seq as int, rules@, k + 1);
                    }
                    return Err(Error::ErrMessageGap);
                }
                seq += 1;
                let ghost before = out@;
                let body: Vec<u8> = slice_to_vec(&item.data.as_slice()[12..item.data.len()]);
                assert(body@ =~= messages[t].data.skip(12));
                out.insert(t, HandshakeMessage { typ, body });
                assert(body_views(out@) =~= body_views(before).insert(t, body@));
            }
            k += 1;
        }
        assert(rules@.take(k as int) =~= rules@);
        Ok((seq, out))
    }

    /// What the rules select, one after the other.
    pub fn pull_and_merge(&self, rules: &[HandshakeCachePullRule]) -> (merged: Vec<u8>)
        ensures
            merged@ == joined(pulled(self@, rules@)),
    {
        let items: Vec<&HandshakeCacheItem> = self.pull(rules);
        let none: [u8; 0] = [];
        let merged: Vec<u8> = merge(items.as_slice(), none.as_slice());
        assert(merged@ =~= joined(pulled(self@, rules@)));
        merged
    }

    /// What the session hash is the hash of.
    pub fn transcript(&self, epoch: u16, additional: &[u8]) -> (merged: Vec<u8>)
        ensures
            merged@ == session_transcript(self@, epoch, additional@),
    {
        let rules: [HandshakeCachePullRule; 8] = [
            mandatory(HandshakeType::ClientHello, epoch, true),
            mandatory(HandshakeType::ServerHello, epoch, false),
            mandatory(HandshakeType::Certificate, epoch, false),
            mandatory(HandshakeType::ServerKeyExchange, epoch, false),
            mandatory(HandshakeType::CertificateRequest, epoch, false),
            mandatory(HandshakeType::ServerHelloDone, epoch, false),
            mandatory(HandshakeType::Certificate, epoch, true),
            mandatory(HandshakeType::ClientKeyExchange, epoch, true),
        ];
        assert(rules@ =~= session_rules(epoch));
        let items: Vec<&HandshakeCacheItem> = self.pull(rules.as_slice());
        merge(items.as_slice(), additional)
    }

    /// The session hash, for the extended master secret.
    pub fn session_hash<P: RTCCryptoProvider>(
        &self,
        crypto: &P,
        epoch: u16,
        additional: &[u8],
    ) -> (result: Result<Vec<u8>, Error>)
        requires
            session_transcript(self@, epoch, additional@).len() <= HASH_MAX_LEN,
        ensures
            match P::digest(
                HashAlgorithm::Sha256,
                session_transcript(self@, epoch, additional@),
            ) {
                Ok(digest) => result matches Ok(hash) && hash@ == digest,
                Err(error) => result matches Err(e) && e == Error::Crypto(error),
            },
    {
        let merged: Vec<u8> = self.transcript(epoch, additional);
        match crypto.hash(HashAlgorithm::Sha256, merged.as_slice()) {
            Ok(hash) => Ok(hash),
            Err(error) => Err(Error::Crypto(error)),
        }
    }
}

proof fn lemma_taken_fails(
    messages: Map<u8, CachedView>,
    start: int,
    rules: Seq<HandshakeCachePullRule>,
    k: int,
)
    requires
        0 <= k <= rules.len(),
        taken(messages, start, rules.take(k)) is Err,
    ensures
        taken(messages, start, rules) == taken(messages, start, rules.take(k)),
    decreases rules.len() - k,
{
    if k < rules.len() {
        assert(rules.take(k + 1).drop_last() =~= rules.take(k));
        lemma_taken_fails(messages, start, rules, k + 1);
    } else {
        assert(rules.take(k) =~= rules);
    }
}

/// A rule for a message that has to be there.
fn mandatory(typ: HandshakeType, epoch: u16, is_client: bool) -> (rule: HandshakeCachePullRule)
    ensures
        rule == rule_for(typ, epoch, is_client),
{
    HandshakeCachePullRule { typ, epoch, is_client, optional: false }
}

/// The messages, then `additional`.
fn merge(items: &[&HandshakeCacheItem], additional: &[u8]) -> (merged: Vec<u8>)
    ensures
        merged@ == joined(item_views(items@)) + additional@,
{
    let mut merged: Vec<u8> = Vec::new();
    let mut i: usize = 0;
    assert(item_views(items@).take(0) =~= Seq::<CachedView>::empty());
    while i < items.len()
        invariant
            i <= items@.len(),
            merged@ == joined(item_views(items@).take(i as int)),
        decreases items@.len() - i,
    {
        append(&mut merged, items[i].data.as_slice());
        proof {
            let views = item_views(items@);
            assert(views.take(i + 1).drop_last() =~= views.take(i as int));
            assert(views.take(i + 1).last() == items@[i as int]@);
        }
        i += 1;
    }
    assert(item_views(items@).take(i as int) =~= item_views(items@));
    append(&mut merged, additional);
    merged
}

/// A message is kept unless one with its number and sender is there: what was kept stays in its
/// place, a new one comes last, and the same one again changes nothing.
pub proof fn law_message_is_kept_once(items: Cached, item: CachedView)
    ensures
        ({
            let after = with_item(items, item);
            let known = exists|i: int|
                0 <= i < items.len() && (#[trigger] items[i]).message_sequence
                    == item.message_sequence && items[i].is_client == item.is_client;
            &&& known ==> after == items
            &&& !known ==> after.len() == items.len() + 1 && after.drop_last() == items
                && after.last() == item
            &&& with_item(after, item) == after
            &&& no_repeats(items) ==> no_repeats(after)
        }),
{
    let after = with_item(items, item);
    if !is_cached(items, item.message_sequence, item.is_client) {
        assert(after.drop_last() =~= items);
        assert(after[items.len() as int] == item);
        assert(is_cached(after, item.message_sequence, item.is_client));
    }
}

/// Whether a message is the one of a type, end and epoch that has the highest number, and the only
/// one with that number.
pub open spec fn is_latest(items: Cached, rule: HandshakeCachePullRule, item: CachedView) -> bool {
    exists|i: int|
        {
            &&& 0 <= i < items.len()
            &&& #[trigger] items[i] == item
            &&& item.typ == rule.typ
            &&& item.is_client == rule.is_client
            &&& item.epoch == rule.epoch
            &&& forall|j: int|
                0 <= j < items.len() && j != i && (#[trigger] items[j]).typ == rule.typ
                    && items[j].is_client == rule.is_client && items[j].epoch == rule.epoch
                    ==> items[j].message_sequence < item.message_sequence
        }
}

/// Whether there is no message of a rule's type, end and epoch.
pub open spec fn has_no_message(items: Cached, rule: HandshakeCachePullRule) -> bool {
    forall|i: int|
        0 <= i < items.len() ==> !((#[trigger] items[i]).typ == rule.typ && items[i].is_client
            == rule.is_client && items[i].epoch == rule.epoch)
}

/// Whether `flight` gives for each rule the message that is there for it, if there is one.
pub open spec fn is_flight(
    items: Cached,
    rules: Seq<HandshakeCachePullRule>,
    flight: Seq<Option<CachedView>>,
) -> bool {
    &&& flight.len() == rules.len()
    &&& forall|k: int|
        0 <= k < rules.len() ==> match #[trigger] flight[k] {
            Some(item) => is_latest(items, rules[k], item),
            None => has_no_message(items, rules[k]),
        }
}

/// How many of the first `n` messages of a flight are there.
pub open spec fn present(flight: Seq<Option<CachedView>>, n: int) -> int
    decreases n,
{
    if n <= 0 {
        0
    } else {
        present(flight, n - 1) + if flight[n - 1] is Some {
            1int
        } else {
            0
        }
    }
}

proof fn lemma_flight(
    items: Cached,
    rules: Seq<HandshakeCachePullRule>,
    flight: Seq<Option<CachedView>>,
    k: int,
)
    requires
        is_flight(items, rules, flight),
        0 <= k < rules.len(),
    ensures
        selected(items, rules[k]) == flight[k],
{
    let rule = rules[k];
    match flight[k] {
        Some(item) => {
            let i = choose|i: int|
                {
                    &&& 0 <= i < items.len()
                    &&& #[trigger] items[i] == item
                    &&& item.typ == rule.typ
                    &&& item.is_client == rule.is_client
                    &&& item.epoch == rule.epoch
                    &&& forall|j: int|
                        0 <= j < items.len() && j != i && (#[trigger] items[j]).typ == rule.typ
                            && items[j].is_client == rule.is_client && items[j].epoch == rule.epoch
                            ==> items[j].message_sequence < item.message_sequence
                };
            assert(is_selected(items, rule, i));
            law_selection_is_unique(items, rule, i);
        },
        None => {
            lemma_selected_none(items, rule);
        },
    }
}

/// The messages that the rules select are those that are there, in the order of the rules: the
/// message for a rule stands behind those that are there for the rules before it.
pub proof fn law_pull_follows_the_rules(
    items: Cached,
    rules: Seq<HandshakeCachePullRule>,
    flight: Seq<Option<CachedView>>,
)
    requires
        is_flight(items, rules, flight),
    ensures
        pulled(items, rules).len() == present(flight, flight.len() as int),
        forall|k: int|
            0 <= k < flight.len() && (#[trigger] flight[k]) is Some ==> 0 <= present(flight, k)
                < pulled(items, rules).len() && pulled(items, rules)[present(flight, k)]
                == flight[k]->Some_0,
    decreases rules.len(),
{
    if rules.len() > 0 {
        let before = rules.drop_last();
        let earlier = flight.drop_last();
        assert forall|k: int| 0 <= k < before.len() implies match #[trigger] earlier[k] {
            Some(item) => is_latest(items, before[k], item),
            None => has_no_message(items, before[k]),
        } by {
            assert(earlier[k] == flight[k]);
        }
        law_pull_follows_the_rules(items, before, earlier);
        lemma_flight(items, rules, flight, rules.len() - 1);
        lemma_present(flight, earlier, earlier.len() as int);
        assert forall|k: int| 0 <= k < flight.len() && (#[trigger] flight[k]) is Some implies 0
            <= present(flight, k) < pulled(items, rules).len() && pulled(
            items,
            rules,
        )[present(flight, k)] == flight[k]->Some_0 by {
            if k < earlier.len() {
                assert(earlier[k] == flight[k]);
                lemma_present(flight, earlier, k);
            }
        }
    }
}

proof fn lemma_present(
    flight: Seq<Option<CachedView>>,
    earlier: Seq<Option<CachedView>>,
    n: int,
)
    requires
        flight.len() > 0,
        earlier == flight.drop_last(),
        0 <= n <= earlier.len(),
    ensures
        present(flight, n) == present(earlier, n),
        present(flight, n) >= 0,
    decreases n,
{
    if n > 0 {
        lemma_present(flight, earlier, n - 1);
    }
}

/// No two rules are about the same type.
pub open spec fn types_differ(rules: Seq<HandshakeCachePullRule>) -> bool {
    forall|i: int, j: int|
        0 <= i < j < rules.len() ==> (#[trigger] rules[i]).typ != (#[trigger] rules[j]).typ
}

proof fn lemma_numbers_differ(a: HandshakeType, b: HandshakeType)
    ensures
        a.byte() == b.byte() ==> a == b,
{
}

/// The messages of a flight, by type.
proof fn lemma_by_type(
    items: Cached,
    rules: Seq<HandshakeCachePullRule>,
    flight: Seq<Option<CachedView>>,
    n: int,
)
    requires
        is_flight(items, rules, flight),
        types_differ(rules),
        0 <= n <= rules.len(),
    ensures
        forall|k: int|
            0 <= k < rules.len() ==> (by_type(items, rules.take(n)).contains_key(
                (#[trigger] rules[k]).typ.byte(),
            ) <==> k < n && flight[k] is Some),
        forall|k: int|
            0 <= k < n && flight[k] is Some ==> by_type(
                items,
                rules.take(n),
            )[(#[trigger] rules[k]).typ.byte()] == flight[k]->Some_0,
    decreases n,
{
    if n > 0 {
        lemma_by_type(items, rules, flight, n - 1);
        lemma_flight(items, rules, flight, n - 1);
        assert(rules.take(n).drop_last() =~= rules.take(n - 1));
        assert(rules.take(n).last() == rules[n - 1]);
        assert forall|k: int| 0 <= k < rules.len() && k != n - 1 implies (
        #[trigger] rules[k]).typ.byte() != rules[n - 1].typ.byte() by {
            lemma_numbers_differ(rules[k].typ, rules[n - 1].typ);
        }
    }
}

/// The number that a message says it has.
pub open spec fn own_number(item: CachedView) -> int {
    item.data[4] * 256 + item.data[5]
}

/// Whether the message for rule `k` is not there, or is whole and has the number that comes after
/// those of the messages that are there before it.
pub open spec fn is_in_turn(flight: Seq<Option<CachedView>>, start: int, k: int) -> bool {
    flight[k] matches Some(item) ==> item.data.len() >= 12 && own_number(item) == (start + present(
        flight,
        k,
    )) % 65536
}

/// The first messages of a flight, where they are in turn.
proof fn lemma_taken(
    messages: Map<u8, CachedView>,
    start: int,
    rules: Seq<HandshakeCachePullRule>,
    flight: Seq<Option<CachedView>>,
    n: int,
)
    requires
        types_differ(rules),
        flight.len() == rules.len(),
        0 <= n <= rules.len(),
        forall|k: int|
            0 <= k < rules.len() ==> (messages.contains_key((#[trigger] rules[k]).typ.byte())
                <==> flight[k] is Some),
        forall|k: int|
            0 <= k < rules.len() && flight[k] is Some ==> messages[(
            #[trigger] rules[k]).typ.byte()] == flight[k]->Some_0,
        forall|k: int| 0 <= k < n ==> #[trigger] is_in_turn(flight, start, k),
    ensures
        ({
            let result = taken(messages, start, rules.take(n));
            &&& result is Ok
            &&& result->Ok_0.next == start + present(flight, n)
            &&& forall|k: int|
                0 <= k < rules.len() ==> (result->Ok_0.bodies.contains_key(
                    (#[trigger] rules[k]).typ.byte(),
                ) <==> k < n && flight[k] is Some)
            &&& forall|k: int|
                0 <= k < n && flight[k] is Some ==> result->Ok_0.bodies[(
                #[trigger] rules[k]).typ.byte()] == flight[k]->Some_0.data.skip(12)
        }),
    decreases n,
{
    if n == 0 {
        assert(rules.take(0).len() == 0);
    } else {
        lemma_taken(messages, start, rules, flight, n - 1);
        assert(rules.take(n).drop_last() =~= rules.take(n - 1));
        assert(rules.take(n).last() == rules[n - 1]);
        assert(is_in_turn(flight, start, n - 1));
        assert forall|k: int| 0 <= k < rules.len() && k != n - 1 implies (
        #[trigger] rules[k]).typ.byte() != rules[n - 1].typ.byte() by {
            lemma_numbers_differ(rules[k].typ, rules[n - 1].typ);
        }
        let t = rules[n - 1].typ.byte();
        assert(messages.contains_key(t) <==> flight[n - 1] is Some);
    }
}

/// A flight that is complete is taken: where the message for every rule that is not optional is
/// there, and the messages that are there are whole and numbered one after the other from `start`,
/// the number after them comes out, and for each type what follows the header of its message. No
/// other type has anything.
pub proof fn law_complete_flight_is_taken(
    items: Cached,
    rules: Seq<HandshakeCachePullRule>,
    flight: Seq<Option<CachedView>>,
    start: int,
)
    requires
        is_flight(items, rules, flight),
        types_differ(rules),
        forall|k: int| 0 <= k < rules.len() ==> #[trigger] is_in_turn(flight, start, k),
        forall|k: int|
            0 <= k < rules.len() ==> flight[k] is Some || (#[trigger] rules[k]).optional,
    ensures
        !is_missing(items, rules),
        ({
            let result = taken(by_type(items, rules), start, rules);
            &&& result is Ok
            &&& result->Ok_0.next == start + present(flight, flight.len() as int)
            &&& forall|k: int|
                0 <= k < rules.len() ==> (result->Ok_0.bodies.contains_key(
                    (#[trigger] rules[k]).typ.byte(),
                ) <==> flight[k] is Some)
            &&& forall|k: int|
                0 <= k < rules.len() && flight[k] is Some ==> result->Ok_0.bodies[(
                #[trigger] rules[k]).typ.byte()] == flight[k]->Some_0.data.skip(12)
        }),
{
    let n = rules.len() as int;
    assert(rules.take(n) =~= rules);
    lemma_by_type(items, rules, flight, n);
    lemma_taken(by_type(items, rules), start, rules, flight, n);
    assert forall|k: int| 0 <= k < rules.len() && !(#[trigger] rules[k]).optional implies selected(
        items,
        rules[k],
    ) is Some by {
        lemma_flight(items, rules, flight, k);
    }
}

/// A flight that lacks a message that it has to have is refused as that.
pub proof fn law_flight_with_a_missing_message_is_refused(
    items: Cached,
    rules: Seq<HandshakeCachePullRule>,
    k: int,
)
    requires
        0 <= k < rules.len(),
        !rules[k].optional,
        has_no_message(items, rules[k]),
    ensures
        is_missing(items, rules),
{
    lemma_selected_none(items, rules[k]);
}

/// A flight with a gap is refused as that: where the messages before one are whole and in turn, and
/// that one is whole and has another number.
pub proof fn law_flight_with_a_gap_is_refused(
    items: Cached,
    rules: Seq<HandshakeCachePullRule>,
    flight: Seq<Option<CachedView>>,
    start: int,
    at: int,
)
    requires
        is_flight(items, rules, flight),
        types_differ(rules),
        0 <= at < rules.len(),
        forall|k: int| 0 <= k < at ==> #[trigger] is_in_turn(flight, start, k),
        flight[at] matches Some(item) && item.data.len() >= 12 && own_number(item) != (start
            + present(flight, at)) % 65536,
    ensures
        taken(by_type(items, rules), start, rules) == Err::<Taken, Error>(Error::ErrMessageGap),
{
    let n = rules.len() as int;
    let messages = by_type(items, rules);
    assert(rules.take(n) =~= rules);
    lemma_by_type(items, rules, flight, n);
    lemma_taken(messages, start, rules, flight, at);
    let upto = rules.take(at + 1);
    assert(upto.drop_last() =~= rules.take(at));
    assert(upto.last() == rules[at]);
    assert(messages.contains_key(rules[at].typ.byte()));
    assert(taken(messages, start, upto) == Err::<Taken, Error>(Error::ErrMessageGap));
    lemma_taken_stays_refused(messages, start, rules, at + 1, n);
}

proof fn lemma_taken_stays_refused(
    messages: Map<u8, CachedView>,
    start: int,
    rules: Seq<HandshakeCachePullRule>,
    i: int,
    n: int,
)
    requires
        0 <= i <= n <= rules.len(),
        taken(messages, start, rules.take(i)) is Err,
    ensures
        taken(messages, start, rules.take(n)) == taken(messages, start, rules.take(i)),
    decreases n,
{
    if i < n {
        lemma_taken_stays_refused(messages, start, rules, i, n - 1);
        assert(rules.take(n).drop_last() =~= rules.take(n - 1));
    }
}

} // verus!
