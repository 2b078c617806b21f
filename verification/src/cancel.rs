//! Cancel keys: which are live, and what each of them points at.
use vstd::prelude::*;

use crate::allocation::{InstanceId, ProxyId};
use crate::ordmap::OrdMap;
use crate::startup::CancelKey;

verus! {

/// Which proxy issued a cancel key, carried in the high bits of the process id
/// it hands to the client.
///
/// A `CancelRequest` reaches whichever node the client happens to connect to,
/// which need not be the node holding the server connection. The tag is what
/// lets that node forward the request instead of dropping it. It is derived
/// from the proxy identifier.
#[derive(Debug, Clone, Copy, PartialEq, Eq, Hash, Structural)]
pub struct ProxyTag {
    value: u16,
}

/// One step of the 32-bit FNV-1a hash.
pub open spec fn fnv_step(hash: u32, byte: u8) -> u32 {
    (((hash ^ (byte as u32)) * 0x0100_0193) % 0x1_0000_0000) as u32
}

/// The 32-bit FNV-1a hash.
pub open spec fn fnv(bytes: Seq<u8>) -> u32
    decreases bytes.len(),
{
    if bytes.len() == 0 {
        0x811c_9dc5u32
    } else {
        fnv_step(fnv(bytes.drop_last()), bytes.last())
    }
}

/// The twelve lowest bits.
pub open spec fn low_bits(bits: u32) -> u16 {
    (bits & 0xfff) as u16
}

/// The tag of a proxy of that name: its hash folded to twelve bits.
pub open spec fn tag_of_name(name: Seq<char>) -> u16 {
    let hash = fnv(vstd::utf8::encode_utf8(name));
    low_bits((hash >> 16) ^ hash)
}

/// The tag in a process id: its bits above the serial.
pub open spec fn tag_in(process_id: i32) -> u16 {
    low_bits((process_id as u32) >> 19)
}

fn twelve_bits(bits: u32) -> (low: u16)
    ensures
        low == low_bits(bits),
        low <= 4095,
{
    assert(bits & 0xfff <= 4095) by (bit_vector);
    (bits & 0xfff) as u16
}

impl View for ProxyTag {
    type V = u16;

    closed spec fn view(&self) -> u16 {
        self.value
    }
}

impl ProxyTag {
    /// The largest tag: twelve bits.
    pub const MAX: u16 = 4095;

    #[verifier::type_invariant]
    pub closed spec fn wf(self) -> bool {
        self.value <= 4095
    }

    /// The tag of that value, where it fits.
    pub fn new(value: u16) -> (tag: Option<Self>)
        ensures
            tag is Some <==> value <= 4095,
            tag matches Some(t) ==> t@ == value,
    {
        if value <= 4095 {
            Some(ProxyTag { value })
        } else {
            None
        }
    }

    /// The tag of a proxy, derived from its name.
    pub fn of(proxy: &ProxyId) -> (tag: Self)
        ensures
            tag@ == tag_of_name(proxy@),
    {
        let bytes = proxy.as_str().as_bytes();
        let mut hash: u32 = 0x811c_9dc5;
        let mut i: usize = 0;
        assert(bytes@.subrange(0, 0) =~= Seq::empty());
        while i < bytes.len()
            invariant
                i <= bytes@.len(),
                hash == fnv(bytes@.subrange(0, i as int)),
            decreases bytes@.len() - i,
        {
            proof {
                let more = bytes@.subrange(0, i + 1);
                assert(more.drop_last() =~= bytes@.subrange(0, i as int));
                assert(more.last() == bytes@[i as int]);
            }
            hash = (hash ^ (bytes[i] as u32)).wrapping_mul(0x0100_0193);
            i += 1;
        }
        assert(bytes@.subrange(0, i as int) =~= bytes@);
        ProxyTag { value: twelve_bits((hash >> 16) ^ hash) }
    }

    /// The tag that a key carries.
    pub fn in_key(key: CancelKey) -> (tag: Self)
        ensures
            tag@ == tag_in(key.process_id),
    {
        ProxyTag { value: twelve_bits((key.process_id as u32) >> 19) }
    }

    pub fn get(self) -> (value: u16)
        ensures
            value == self@,
            value <= 4095,
    {
        proof {
            use_type_invariant(&self);
        }
        self.value
    }
}

/// An instance and a backend on it.
pub struct TargetView {
    pub instance: Seq<char>,
    pub backend: CancelKey,
}

/// The backend a `CancelRequest` is meant for.
#[derive(Debug, PartialEq, Eq)]
pub struct Target {
    instance: InstanceId,
    backend: CancelKey,
}

impl View for Target {
    type V = TargetView;

    closed spec fn view(&self) -> TargetView {
        TargetView { instance: self.instance@, backend: self.backend }
    }
}

impl Target {
    pub fn instance(&self) -> (instance: &InstanceId)
        ensures
            instance@ == self@.instance,
    {
        &self.instance
    }

    pub fn backend(&self) -> (backend: CancelKey)
        ensures
            backend == self@.backend,
    {
        self.backend
    }
}

/// What a key points at, if anything.
#[derive(Debug, PartialEq, Eq)]
struct Aim {
    target: Option<Target>,
}

impl View for Aim {
    type V = Option<TargetView>;

    closed spec fn view(&self) -> Option<TargetView> {
        match self.target {
            Some(target) => Some(target@),
            None => None,
        }
    }
}

/// The process id of the key with that tag and serial: the tag above the
/// serial.
pub open spec fn process_id_of(tag: u16, serial: u32) -> i32 {
    (((tag as u32) << 19) | (serial & 0x7_ffff)) as i32
}

/// The live keys of a node and what each points at, its tag and its next
/// serial.
#[verifier::ext_equal]
pub struct RegistryView {
    pub tag: u16,
    pub serial: u32,
    pub live: Map<CancelKey, Option<TargetView>>,
}

impl RegistryView {
    /// The key that is issued next, with that secret.
    pub open spec fn next_key(self, secret: i32) -> CancelKey {
        CancelKey { process_id: process_id_of(self.tag, self.serial), secret_key: secret }
    }

    /// Where a `CancelRequest` that carries `key` must go, if anywhere.
    pub open spec fn target(self, key: CancelKey) -> Option<TargetView> {
        if self.live.contains_key(key) {
            self.live[key]
        } else {
            None
        }
    }
}

/// `rand::RngExt::random`, on the generator that `rand::rng` gives: some number,
/// of which nothing is known.
#[verifier::external_body]
fn random_secret() -> (secret: i32) {
    rand::RngExt::random(&mut rand::rng())
}

/// The keys this node has handed out and what each of them currently points at.
///
/// The key a client gets is this system's own, unrelated to the key of the
/// server connection it happens to be served by: a client may be served by
/// several backends over its life, and a backend by several clients, so passing
/// the server's key on would let a client cancel a query that is no longer its
/// own.
#[derive(Debug)]
pub struct CancelRegistry {
    tag: ProxyTag,
    serial: u32,
    live: OrdMap<CancelKey, Aim>,
}

impl View for CancelRegistry {
    type V = RegistryView;

    closed spec fn view(&self) -> RegistryView {
        RegistryView { tag: self.tag@, serial: self.serial, live: self.live@ }
    }
}

/// The process id of a key carries the tag it was made with, and is not
/// negative.
pub proof fn lemma_process_id(tag: u16, serial: u32)
    requires
        tag <= 4095,
    ensures
        ((tag as u32) << 19) | (serial & 0x7_ffff) <= 0x7fff_ffff,
        tag_in(process_id_of(tag, serial)) == tag,
        process_id_of(tag, serial) >= 0,
{
    let bits = ((tag as u32) << 19) | (serial & 0x7_ffff);
    assert(bits <= 0x7fff_ffff) by (bit_vector)
        requires
            bits == ((tag as u32) << 19) | (serial & 0x7_ffff),
            tag <= 4095,
    ;
    assert((bits >> 19) & 0xfff == tag as u32) by (bit_vector)
        requires
            bits == ((tag as u32) << 19) | (serial & 0x7_ffff),
            tag <= 4095,
    ;
}

impl CancelRegistry {
    pub fn new(tag: ProxyTag) -> (registry: Self)
        ensures
            registry@ == (RegistryView { tag: tag@, serial: 0, live: Map::empty() }),
    {
        CancelRegistry { tag, serial: 0, live: OrdMap::new() }
    }

    /// Hands out a key of its own for a client, with a random secret.
    pub fn issue(&mut self) -> (ticket: Ticket)
        ensures
            ticket@ == old(self)@.next_key(ticket@.secret_key),
            final(self)@ == (RegistryView {
                serial: if old(self)@.serial == u32::MAX {
                    0
                } else {
                    (old(self)@.serial + 1) as u32
                },
                live: old(self)@.live.insert(ticket@, None),
                ..old(self)@
            }),
            tag_in(ticket@.process_id) == old(self)@.tag,
    {
        self.issue_with(random_secret())
    }

    /// Hands out a key of its own for a client, with that secret.
    pub fn issue_with(&mut self, secret: i32) -> (ticket: Ticket)
        ensures
            ticket@ == old(self)@.next_key(secret),
            final(self)@ == (RegistryView {
                serial: if old(self)@.serial == u32::MAX {
                    0
                } else {
                    (old(self)@.serial + 1) as u32
                },
                live: old(self)@.live.insert(ticket@, None),
                ..old(self)@
            }),
            tag_in(ticket@.process_id) == old(self)@.tag,
    {
        let tag: u16 = self.tag.get();
        let serial: u32 = self.serial;
        proof {
            lemma_process_id(tag, serial);
        }
        let bits: u32 = ((tag as u32) << 19) | (serial & 0x7_ffff);
        let key = CancelKey { process_id: bits as i32, secret_key: secret };
        self.serial = serial.wrapping_add(1);
        self.live.insert(key, Aim { target: None });
        Ticket { key }
    }

    /// Where a `CancelRequest` that carries `key` must go, if anywhere.
    ///
    /// A key that was never issued, one whose secret does not match, and one
    /// whose client is between requests all resolve to nothing. The last is
    /// what keeps a `CancelRequest` that arrives after its query finished from
    /// stopping whatever the connection runs next.
    pub fn target(&self, key: CancelKey) -> (target: Option<Target>)
        ensures
            target is Some <==> self@.target(key) is Some,
            target matches Some(t) ==> self@.target(key) == Some(t@),
    {
        match self.live.get(&key) {
            Some(aim) => match &aim.target {
                Some(target) => Some(
                    Target { instance: target.instance.clone(), backend: target.backend },
                ),
                None => None,
            },
            None => None,
        }
    }

    pub fn len(&self) -> (n: usize)
        ensures
            n == self@.live.dom().len(),
    {
        self.live.len()
    }

    pub fn is_empty(&self) -> (b: bool)
        ensures
            b == (self@.live.dom().len() == 0),
    {
        self.live.len() == 0
    }
}

/// One client's cancel key.
#[derive(Debug, PartialEq, Eq)]
pub struct Ticket {
    key: CancelKey,
}

impl View for Ticket {
    type V = CancelKey;

    closed spec fn view(&self) -> CancelKey {
        self.key
    }
}

impl Ticket {
    pub fn key(&self) -> (key: CancelKey)
        ensures
            key == self@,
    {
        self.key
    }

    /// Points the key at the backend that serves its client now.
    pub fn aim(&self, registry: &mut CancelRegistry, instance: InstanceId, backend: CancelKey)
        ensures
            final(registry)@ == (RegistryView {
                live: old(registry)@.live.insert(
                    self@,
                    Some(TargetView { instance: instance@, backend }),
                ),
                ..old(registry)@
            }),
    {
        registry.live.insert(self.key, Aim { target: Some(Target { instance, backend }) });
    }

    /// Points the key at nothing: its client is between requests.
    pub fn stand_down(&self, registry: &mut CancelRegistry)
        ensures
            final(registry)@ == (RegistryView {
                live: old(registry)@.live.insert(self@, None),
                ..old(registry)@
            }),
    {
        registry.live.insert(self.key, Aim { target: None });
    }

    /// Forgets the key: its client has left.
    pub fn leave(self, registry: &mut CancelRegistry)
        ensures
            final(registry)@ == (RegistryView {
                live: old(registry)@.live.remove(self@),
                ..old(registry)@
            }),
    {
        let _ = registry.live.remove(&self.key);
    }
}

/// Clients whose serials differ in their lowest nineteen bits get different
/// process ids.
pub proof fn law_different_serials_make_different_keys(tag: u16, a: u32, b: u32)
    requires
        tag <= 4095,
        a & 0x7_ffff != b & 0x7_ffff,
    ensures
        process_id_of(tag, a) != process_id_of(tag, b),
{
    lemma_process_id(tag, a);
    lemma_process_id(tag, b);
    let x = ((tag as u32) << 19) | (a & 0x7_ffff);
    let y = ((tag as u32) << 19) | (b & 0x7_ffff);
    assert(x & 0x7_ffff == a & 0x7_ffff) by (bit_vector)
        requires
            x == ((tag as u32) << 19) | (a & 0x7_ffff),
            tag <= 4095,
    ;
    assert(y & 0x7_ffff == b & 0x7_ffff) by (bit_vector)
        requires
            y == ((tag as u32) << 19) | (b & 0x7_ffff),
            tag <= 4095,
    ;
}

/// Keys of two proxies are told apart by their tags.
pub proof fn law_keys_of_two_proxies_differ(one: u16, other: u16, a: u32, b: u32)
    requires
        one <= 4095,
        other <= 4095,
        one != other,
    ensures
        process_id_of(one, a) != process_id_of(other, b),
{
    lemma_process_id(one, a);
    lemma_process_id(other, b);
}

/// A key leads where it was last aimed, and only the very key that was issued does:
/// one with another secret or another process id leads nowhere unless it was issued
/// itself.
pub proof fn law_only_the_issued_key_leads_anywhere(
    registry: RegistryView,
    key: CancelKey,
    other: CancelKey,
    target: TargetView,
)
    ensures
        ({
            let aimed = RegistryView { live: registry.live.insert(key, Some(target)), ..registry };
            let resting = RegistryView { live: registry.live.insert(key, None), ..registry };
            let gone = RegistryView { live: registry.live.remove(key), ..registry };
            &&& aimed.target(key) == Some(target)
            &&& resting.target(key) is None
            &&& gone.target(key) is None
            &&& other != key ==> aimed.target(other) == registry.target(other)
                && resting.target(other) == registry.target(other) && gone.target(other)
                == registry.target(other)
        }),
        !registry.live.contains_key(key) ==> registry.target(key) is None,
{
}

/// The tag that is read out of a key is the tag of the proxy that issued it, so that
/// any node knows where to send a request on.
pub proof fn law_a_key_carries_the_tag_of_its_proxy(registry: RegistryView, secret: i32)
    requires
        registry.tag <= 4095,
    ensures
        tag_in(registry.next_key(secret).process_id) == registry.tag,
        registry.next_key(secret).secret_key == secret,
        registry.next_key(secret).process_id >= 0,
{
    lemma_process_id(registry.tag, registry.serial);
}

} // verus!
