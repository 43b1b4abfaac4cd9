//! Tickets: portable locators that pair an owner's address with a content
//! hash and its format.
//!
//! The text form is the lowercase hexadecimal of a framed byte string:
//!
//! | bytes        | field                                             |
//! |--------------|---------------------------------------------------|
//! | 2            | the marker `s` `l`                                |
//! | 4            | the length of the whole frame, big-endian         |
//! | 1            | format: 0 raw, 1 collection                       |
//! | 32           | content hash                                      |
//! | 32           | owner node id                                     |
//! | 1 (+2+n)     | relay: 0 none, or 1, a 2-byte length and its bytes |
//! | 2 + 18 * k   | direct addresses: count, then ip (16) and port (2) |
//! | 32           | seal: the BLAKE3 digest of all bytes above        |
//! | 1            | checksum: the sum of all bytes before it, mod 256 |
//!
//! The length field counts the bytes above the seal. The frame states its
//! own length, is sealed with a digest and carries a checksum: a truncated
//! text, or one with any single character changed, is refused; a text that
//! reads as a ticket is exactly that ticket's text form, so no other text
//! reads as the same ticket (all proved in `ticket_laws`). The seal also
//! refuses reordered or otherwise altered bytes unless they collide under
//! BLAKE3.
use vstd::prelude::*;
use crate::digest::{blake3_of, content_digest, BlobHash};
use crate::error::SessionError;
use crate::store::BlobFormat;
use vstd::arithmetic::div_mod::lemma_add_mod_noop;

verus! {

/// A node's stable public identity.
pub type NodeId = [u8; 32];

/// One direct endpoint candidate: an IPv6 address (IPv4 written as an
/// IPv4-mapped address) and a port.
#[derive(Clone, Copy, Debug, PartialEq, Eq)]
pub struct EndpointAddr {
    pub ip: [u8; 16],
    pub port: u16,
}

/// Reachability information for an identity.
#[derive(Clone, Debug, PartialEq, Eq)]
pub struct NodeAddress {
    pub id: NodeId,
    /// The URL of a relay server that forwards to the node, as bytes.
    pub relay: Option<Vec<u8>>,
    pub direct: Vec<EndpointAddr>,
}

/// A portable locator for a blob held by a node.
#[derive(Clone, Debug, PartialEq, Eq)]
pub struct Ticket {
    pub owner: NodeAddress,
    pub hash: BlobHash,
    pub format: BlobFormat,
}

pub struct EndpointView {
    pub ip: Seq<u8>,
    pub port: u16,
}

pub struct NodeAddressView {
    pub id: Seq<u8>,
    pub relay: Option<Seq<u8>>,
    pub direct: Seq<EndpointView>,
}

pub struct TicketView {
    pub owner: NodeAddressView,
    pub hash: Seq<u8>,
    pub format: BlobFormat,
}

impl View for EndpointAddr {
    type V = EndpointView;

    open spec fn view(&self) -> EndpointView {
        EndpointView { ip: self.ip@, port: self.port }
    }
}

pub open spec fn relay_view(r: Option<Vec<u8>>) -> Option<Seq<u8>> {
    match r {
        Some(v) => Some(v@),
        None => None,
    }
}

impl View for NodeAddress {
    type V = NodeAddressView;

    open spec fn view(&self) -> NodeAddressView {
        NodeAddressView {
            id: self.id@,
            relay: relay_view(self.relay),
            direct: self.direct@.map_values(|e: EndpointAddr| e@),
        }
    }
}

impl View for Ticket {
    type V = TicketView;

    open spec fn view(&self) -> TicketView {
        TicketView { owner: self.owner@, hash: self.hash@, format: self.format }
    }
}

/// The largest relay length and direct-address count that the frame can carry.
pub const FIELD_MAX: usize = 65535;

/// The fixed sizes of a frame.
pub const HEADER_LEN: usize = 6;

pub const ENDPOINT_LEN: usize = 18;

/// A ticket whose owner's lists fit the frame's 2-byte counts.
pub open spec fn ticket_fits(t: TicketView) -> bool {
    &&& t.owner.direct.len() <= FIELD_MAX
    &&& match t.owner.relay {
        Some(u) => u.len() <= FIELD_MAX,
        None => true,
    }
}

/// A ticket as read from well-typed values: the keys have their sizes.
pub open spec fn ticket_shaped(t: TicketView) -> bool {
    &&& t.hash.len() == 32
    &&& t.owner.id.len() == 32
    &&& forall|i: int| 0 <= i < t.owner.direct.len() ==> (#[trigger] t.owner.direct[i]).ip.len() == 16
}

pub open spec fn be16(x: nat) -> Seq<u8> {
    seq![(x / 256) as u8, (x % 256) as u8]
}

pub open spec fn be32(x: nat) -> Seq<u8> {
    seq![(x / 16777216) as u8, ((x / 65536) % 256) as u8, ((x / 256) % 256) as u8, (x % 256) as u8]
}

pub open spec fn read16(b: Seq<u8>, at: int) -> nat {
    (b[at] as nat) * 256 + (b[at + 1] as nat)
}

pub open spec fn read32(b: Seq<u8>, at: int) -> nat {
    (((b[at] as nat) * 256 + (b[at + 1] as nat)) * 256 + (b[at + 2] as nat)) * 256 + (b[at + 3] as nat)
}

pub open spec fn format_tag(f: BlobFormat) -> u8 {
    match f {
        BlobFormat::Raw => 0,
        BlobFormat::Collection => 1,
    }
}

pub open spec fn relay_bytes(r: Option<Seq<u8>>) -> Seq<u8> {
    match r {
        None => seq![0u8],
        Some(u) => seq![1u8] + be16(u.len()) + u,
    }
}

pub open spec fn endpoint_bytes(e: EndpointView) -> Seq<u8> {
    e.ip + be16(e.port as nat)
}

pub open spec fn endpoints_bytes(s: Seq<EndpointView>) -> Seq<u8>
    decreases s.len(),
{
    if s.len() == 0 {
        Seq::empty()
    } else {
        endpoints_bytes(s.drop_last()) + endpoint_bytes(s.last())
    }
}

#[verifier::opaque]
pub open spec fn body_bytes(t: TicketView) -> Seq<u8> {
    seq![format_tag(t.format)] + t.hash + t.owner.id + relay_bytes(t.owner.relay) + be16(
        t.owner.direct.len(),
    ) + endpoints_bytes(t.owner.direct)
}

pub open spec fn byte_sum(s: Seq<u8>) -> nat
    decreases s.len(),
{
    if s.len() == 0 {
        0
    } else {
        byte_sum(s.drop_last()) + s.last() as nat
    }
}

pub open spec fn checksum(s: Seq<u8>) -> u8 {
    (byte_sum(s) % 256) as u8
}

/// The frame without its seal and checksum.
pub open spec fn unsealed_bytes(t: TicketView) -> Seq<u8> {
    seq![0x73u8, 0x6cu8] + be32((HEADER_LEN + body_bytes(t).len()) as nat) + body_bytes(t)
}

/// The frame without its checksum.
pub open spec fn sealed_bytes(t: TicketView) -> Seq<u8> {
    unsealed_bytes(t) + blake3_of(unsealed_bytes(t))
}

/// The framed bytes of a ticket.
#[verifier::opaque]
pub open spec fn ticket_bytes(t: TicketView) -> Seq<u8> {
    sealed_bytes(t).push(checksum(sealed_bytes(t)))
}

pub open spec fn hex_char(v: int) -> char {
    seq!['0', '1', '2', '3', '4', '5', '6', '7', '8', '9', 'a', 'b', 'c', 'd', 'e', 'f'][v]
}

/// Two lowercase hexadecimal digits per byte, high nibble first.
pub open spec fn hex_text(b: Seq<u8>) -> Seq<char> {
    Seq::new(
        2 * b.len(),
        |i: int|
            if i % 2 == 0 {
                hex_char(b[i / 2] as int / 16)
            } else {
                hex_char(b[i / 2] as int % 16)
            },
    )
}

/// The text form of a ticket.
pub open spec fn ticket_text(t: TicketView) -> Seq<char> {
    hex_text(ticket_bytes(t))
}

pub open spec fn digit_value(c: char) -> Option<int> {
    if '0' <= c && c <= '9' {
        Some((c as u32) as int - 48)
    } else if 'a' <= c && c <= 'f' {
        Some((c as u32) as int - 87)
    } else {
        None
    }
}

/// The bytes that a hexadecimal text spells, if it is one.
pub open spec fn hex_decode(s: Seq<char>) -> Option<Seq<u8>> {
    if s.len() % 2 == 0 && forall|i: int| 0 <= i < s.len() ==> (#[trigger] digit_value(s[i])) is Some {
        Some(
            Seq::new(
                s.len() / 2,
                |i: int| (digit_value(s[2 * i]).unwrap() * 16 + digit_value(s[2 * i + 1]).unwrap()) as u8,
            ),
        )
    } else {
        None
    }
}

pub open spec fn tag_format(tag: u8) -> BlobFormat {
    if tag == 0 {
        BlobFormat::Raw
    } else {
        BlobFormat::Collection
    }
}

pub open spec fn endpoint_at(b: Seq<u8>, at: int) -> EndpointView {
    EndpointView { ip: b.subrange(at, at + 16), port: read16(b, at + 16) as u16 }
}

/// Where the relay field of a frame ends, or -1 where its flag is unknown.
pub open spec fn relay_end(b: Seq<u8>) -> int {
    if b[71] == 0 {
        72
    } else if b[71] == 1 {
        74 + read16(b, 72) as int
    } else {
        -1
    }
}

/// The smallest unsealed frame: no relay, no direct addresses.
pub const MIN_CORE: usize = 74;

/// The ticket that an unsealed frame holds, if it is well formed.
pub open spec fn decode_core(b: Seq<u8>) -> Option<TicketView> {
    if b.len() < MIN_CORE {
        None
    } else if b[0] != 0x73u8 || b[1] != 0x6cu8 {
        None
    } else if read32(b, 2) != b.len() {
        None
    } else if b[6] > 1 {
        None
    } else if relay_end(b) < 0 || relay_end(b) + 2 > b.len() {
        None
    } else if relay_end(b) + 2 + ENDPOINT_LEN * read16(b, relay_end(b)) != b.len() {
        None
    } else {
        let start = relay_end(b) + 2;
        Some(
            TicketView {
                owner: NodeAddressView {
                    id: b.subrange(39, 71),
                    relay: if b[71] == 0 {
                        None
                    } else {
                        Some(b.subrange(74, relay_end(b)))
                    },
                    direct: Seq::new(
                        read16(b, relay_end(b)),
                        |i: int| endpoint_at(b, start + ENDPOINT_LEN * i),
                    ),
                },
                hash: b.subrange(7, 39),
                format: tag_format(b[6]),
            },
        )
    }
}

/// The ticket that a frame holds: its checksum matches, its length field
/// marks where the seal begins, the seal is the digest of what precedes it,
/// and that part is a well-formed unsealed frame.
pub open spec fn decode_bytes(b: Seq<u8>) -> Option<TicketView> {
    if b.len() < 7 {
        None
    } else if b.last() != checksum(b.drop_last()) {
        None
    } else if read32(b, 2) > b.len() - 1 {
        None
    } else if b.subrange(read32(b, 2) as int, b.len() - 1) != blake3_of(b.subrange(0, read32(b, 2) as int)) {
        None
    } else {
        decode_core(b.subrange(0, read32(b, 2) as int))
    }
}

/// The ticket that a text spells, if any.
pub open spec fn decode_text(s: Seq<char>) -> Option<TicketView> {
    match hex_decode(s) {
        Some(b) => decode_bytes(b),
        None => None,
    }
}

/// Relies on `String::push`: appends one character.
#[verifier::external_body]
fn push_char(s: &mut String, c: char)
    ensures
        final(s)@ == old(s)@.push(c),
{
    s.push(c)
}

/// The characters of a text, in order.
fn chars_of(s: &str) -> (r: Vec<char>)
    ensures
        r@ == s@,
{
    proof {
        broadcast use vstd::string::axiom_spec_iter;
    }
    let mut r: Vec<char> = Vec::new();
    for c in it: s.chars()
        invariant
            it.seq() == s@,
            r@ == it.seq().subrange(0, it.index() as int),
    {
        r.push(c);
        assert(r@ =~= it.seq().subrange(0, it.index() + 1));
    }
    assert(r@ =~= s@);
    r
}

fn push_bytes(v: &mut Vec<u8>, src: &[u8])
    ensures
        final(v)@ == old(v)@ + src@,
{
    let ghost start = v@;
    let mut i: usize = 0;
    while i < src.len()
        invariant
            i <= src@.len(),
            v@ == start + src@.subrange(0, i as int),
        decreases src@.len() - i,
    {
        v.push(src[i]);
        i = i + 1;
        assert(src@.subrange(0, i as int) =~= src@.subrange(0, i - 1).push(src@[i - 1]));
    }
    assert(src@.subrange(0, i as int) =~= src@);
}

fn push_be16(v: &mut Vec<u8>, x: u16)
    ensures
        final(v)@ == old(v)@ + be16(x as nat),
{
    let ghost start = v@;
    v.push((x / 256) as u8);
    v.push((x % 256) as u8);
    assert(v@ =~= start + be16(x as nat));
}

fn push_be32(v: &mut Vec<u8>, x: u32)
    ensures
        final(v)@ == old(v)@ + be32(x as nat),
{
    let ghost start = v@;
    v.push((x / 16777216) as u8);
    v.push(((x / 65536) % 256) as u8);
    v.push(((x / 256) % 256) as u8);
    v.push((x % 256) as u8);
    assert(v@ =~= start + be32(x as nat));
}

/// The sum of the first `len` bytes, mod 256.
fn checksum_prefix(v: &Vec<u8>, len: usize) -> (r: u8)
    requires
        len <= v@.len(),
    ensures
        r == checksum(v@.subrange(0, len as int)),
{
    let mut acc: u32 = 0;
    let mut i: usize = 0;
    while i < len
        invariant
            len <= v@.len(),
            i <= len,
            acc < 256,
            acc as nat == byte_sum(v@.subrange(0, i as int)) % 256,
        decreases len - i,
    {
        let ghost before = v@.subrange(0, i as int);
        proof {
            assert(v@.subrange(0, i + 1).drop_last() =~= before);
            lemma_add_mod_noop(byte_sum(before) as int, v@[i as int] as int, 256);
            assert((v[i as int] as int) % 256 == v[i as int] as int);
            assert((acc as int) % 256 == acc as int);
        }
        acc = (acc + v[i] as u32) % 256;
        i = i + 1;
    }
    acc as u8
}

fn hex_digit(x: u8) -> (c: char)
    requires
        x < 16,
    ensures
        c == hex_char(x as int),
{
    let table: [char; 16] = ['0', '1', '2', '3', '4', '5', '6', '7', '8', '9', 'a', 'b', 'c', 'd', 'e', 'f'];
    assert(table@ =~= seq!['0', '1', '2', '3', '4', '5', '6', '7', '8', '9', 'a', 'b', 'c', 'd', 'e', 'f']);
    table[x as usize]
}

fn hex_chars(b: &Vec<u8>) -> (r: Vec<char>)
    ensures
        r@ == hex_text(b@),
{
    let mut r: Vec<char> = Vec::new();
    let mut i: usize = 0;
    while i < b.len()
        invariant
            i <= b@.len(),
            r@ == hex_text(b@.subrange(0, i as int)),
        decreases b@.len() - i,
    {
        let ghost before = r@;
        r.push(hex_digit(b[i] / 16));
        r.push(hex_digit(b[i] % 16));
        i = i + 1;
        proof {
            let t = hex_text(b@.subrange(0, i as int));
            assert forall|k: int| 0 <= k < t.len() implies t[k] == r@[k] by {
                if k < 2 * (i - 1) {
                    assert(before[k] == hex_text(b@.subrange(0, i - 1))[k]);
                }
            }
            assert(r@ =~= t);
        }
    }
    assert(b@.subrange(0, i as int) =~= b@);
    r
}

pub proof fn lemma_endpoints_len(s: Seq<EndpointView>)
    requires
        forall|i: int| 0 <= i < s.len() ==> (#[trigger] s[i]).ip.len() == 16,
    ensures
        endpoints_bytes(s).len() == ENDPOINT_LEN * s.len(),
    decreases s.len(),
{
    if s.len() > 0 {
        assert forall|i: int| 0 <= i < s.drop_last().len() implies (#[trigger] s.drop_last()[i]).ip.len() == 16 by {
            assert(s.drop_last()[i] == s[i]);
        }
        lemma_endpoints_len(s.drop_last());
        assert(s.last() == s[s.len() - 1]);
    }
}

pub open spec fn endpoint_views(direct: Seq<EndpointAddr>) -> Seq<EndpointView> {
    direct.map_values(|e: EndpointAddr| e@)
}

fn push_endpoints(v: &mut Vec<u8>, direct: &Vec<EndpointAddr>)
    ensures
        final(v)@ == old(v)@ + endpoints_bytes(endpoint_views(direct@)),
{
    let ghost fixed = v@;
    let ghost views = endpoint_views(direct@);
    let mut i: usize = 0;
    while i < direct.len()
        invariant
            views == endpoint_views(direct@),
            i <= direct@.len(),
            v@ == fixed + endpoints_bytes(views.subrange(0, i as int)),
        decreases direct@.len() - i,
    {
        let e = direct[i];
        push_bytes(v, e.ip.as_slice());
        push_be16(v, e.port);
        i = i + 1;
        proof {
            let sub = views.subrange(0, i as int);
            assert(sub.drop_last() =~= views.subrange(0, i - 1));
            assert(sub.last() == e@);
            assert(v@ =~= fixed + endpoints_bytes(sub));
        }
    }
    assert(views.subrange(0, i as int) =~= views);
}

fn push_body(v: &mut Vec<u8>, t: &Ticket)
    requires
        ticket_fits(t@),
    ensures
        final(v)@ == old(v)@ + body_bytes(t@),
{
    let ghost start = v@;
    v.push(match t.format {
        BlobFormat::Raw => 0u8,
        BlobFormat::Collection => 1u8,
    });
    push_bytes(v, t.hash.as_slice());
    push_bytes(v, t.owner.id.as_slice());
    let ghost before_relay = v@;
    match &t.owner.relay {
        Some(u) => {
            v.push(1u8);
            push_be16(v, u.len() as u16);
            push_bytes(v, u.as_slice());
        },
        None => {
            v.push(0u8);
        },
    }
    assert(v@ =~= before_relay + relay_bytes(t@.owner.relay));
    push_be16(v, t.owner.direct.len() as u16);
    push_endpoints(v, &t.owner.direct);
    reveal(body_bytes);
    assert(v@ =~= start + body_bytes(t@));
}

/// The framed bytes of a ticket.
fn frame_bytes(t: &Ticket) -> (r: Vec<u8>)
    requires
        ticket_fits(t@),
    ensures
        r@ == ticket_bytes(t@),
{
    let n = t.owner.direct.len();
    let relay_len: usize = match &t.owner.relay {
        Some(u) => 3 + u.len(),
        None => 1,
    };
    proof {
        lemma_endpoints_len(t@.owner.direct);
        reveal(body_bytes);
        assert(body_bytes(t@).len() == 1 + 32 + 32 + relay_len + 2 + ENDPOINT_LEN * n);
    }
    let body_len: usize = 1 + 32 + 32 + relay_len + 2 + ENDPOINT_LEN * n;
    let mut v: Vec<u8> = Vec::new();
    v.push(0x73u8);
    v.push(0x6cu8);
    push_be32(&mut v, (HEADER_LEN + body_len) as u32);
    push_body(&mut v, t);
    assert(v@ =~= unsealed_bytes(t@));
    let seal = content_digest(v.as_slice());
    push_bytes(&mut v, seal.as_slice());
    assert(v@ =~= sealed_bytes(t@));
    let c = checksum_prefix(&v, v.len());
    assert(v@.subrange(0, v@.len() as int) =~= v@);
    v.push(c);
    reveal(ticket_bytes);
    v
}

fn digit_of(c: char) -> (r: Option<u8>)
    ensures
        r is Some <==> digit_value(c) is Some,
        r is Some ==> r.unwrap() as int == digit_value(c).unwrap() && r.unwrap() < 16,
{
    if '0' <= c && c <= '9' {
        Some((c as u32 - 48) as u8)
    } else if 'a' <= c && c <= 'f' {
        Some((c as u32 - 87) as u8)
    } else {
        None
    }
}

/// The bytes spelled by a lowercase hexadecimal text.
fn unhex(cs: &Vec<char>) -> (r: Option<Vec<u8>>)
    ensures
        match r {
            Some(b) => hex_decode(cs@) == Some(b@),
            None => hex_decode(cs@) is None,
        },
{
    if cs.len() % 2 != 0 {
        return None;
    }
    let half = cs.len() / 2;
    let mut out: Vec<u8> = Vec::new();
    let mut i: usize = 0;
    while i < half
        invariant
            half == cs@.len() / 2,
            cs@.len() % 2 == 0,
            cs@.len() <= usize::MAX,
            i <= half,
            out@.len() == i,
            forall|j: int| 0 <= j < 2 * i ==> (#[trigger] digit_value(cs@[j])) is Some,
            forall|j: int|
                0 <= j < i ==> #[trigger] out@[j] == (digit_value(cs@[2 * j]).unwrap() * 16
                    + digit_value(cs@[2 * j + 1]).unwrap()) as u8,
        decreases half - i,
    {
        let hi = digit_of(cs[2 * i]);
        let lo = digit_of(cs[2 * i + 1]);
        match (hi, lo) {
            (Some(h), Some(l)) => {
                out.push(h * 16 + l);
            },
            _ => {
                return None;
            },
        }
        i = i + 1;
        assert forall|j: int| 0 <= j < 2 * i implies (#[trigger] digit_value(cs@[j])) is Some by {
            if j >= 2 * (i - 1) {
                assert(j == 2 * (i - 1) || j == 2 * (i - 1) + 1);
            }
        }
    }
    let ghost expected = hex_decode(cs@);
    assert(expected is Some);
    assert(out@ =~= expected.unwrap());
    Some(out)
}

fn get16(b: &Vec<u8>, at: usize) -> (r: usize)
    requires
        at + 2 <= b@.len(),
    ensures
        r as nat == read16(b@, at as int),
        r <= 65535,
{
    let _ = b.len();
    b[at] as usize * 256 + b[at + 1] as usize
}

fn get32(b: &Vec<u8>, at: usize) -> (r: u64)
    requires
        at + 4 <= b@.len(),
    ensures
        r as nat == read32(b@, at as int),
{
    let _ = b.len();
    ((b[at] as u64 * 256 + b[at + 1] as u64) * 256 + b[at + 2] as u64) * 256 + b[at + 3] as u64
}

fn take32(b: &Vec<u8>, at: usize) -> (r: [u8; 32])
    requires
        at + 32 <= b@.len(),
    ensures
        r@ == b@.subrange(at as int, at + 32),
{
    let _ = b.len();
    let mut r: [u8; 32] = [0u8; 32];
    let mut k: usize = 0;
    while k < 32
        invariant
            at + 32 <= b@.len(),
            b@.len() <= usize::MAX,
            k <= 32,
            forall|j: int| 0 <= j < k ==> r@[j] == b@[at + j],
        decreases 32 - k,
    {
        r[k] = b[at + k];
        k = k + 1;
    }
    assert(r@ =~= b@.subrange(at as int, at + 32));
    r
}

fn take16(b: &Vec<u8>, at: usize) -> (r: [u8; 16])
    requires
        at + 16 <= b@.len(),
    ensures
        r@ == b@.subrange(at as int, at + 16),
{
    let _ = b.len();
    let mut r: [u8; 16] = [0u8; 16];
    let mut k: usize = 0;
    while k < 16
        invariant
            at + 16 <= b@.len(),
            b@.len() <= usize::MAX,
            k <= 16,
            forall|j: int| 0 <= j < k ==> r@[j] == b@[at + j],
        decreases 16 - k,
    {
        r[k] = b[at + k];
        k = k + 1;
    }
    assert(r@ =~= b@.subrange(at as int, at + 16));
    r
}

fn copy_range(b: &Vec<u8>, from: usize, to: usize) -> (r: Vec<u8>)
    requires
        from <= to <= b@.len(),
    ensures
        r@ == b@.subrange(from as int, to as int),
{
    let mut r: Vec<u8> = Vec::new();
    let mut k: usize = from;
    while k < to
        invariant
            from <= k <= to <= b@.len(),
            r@ == b@.subrange(from as int, k as int),
        decreases to - k,
    {
        r.push(b[k]);
        k = k + 1;
        assert(r@ =~= b@.subrange(from as int, k as int));
    }
    r
}

fn read_endpoints(b: &Vec<u8>, start: usize, n: usize) -> (r: Vec<EndpointAddr>)
    requires
        start + ENDPOINT_LEN * n <= b@.len(),
    ensures
        endpoint_views(r@) == Seq::new(n as nat, |i: int| endpoint_at(b@, start + ENDPOINT_LEN * i)),
{
    let _ = b.len();
    let mut r: Vec<EndpointAddr> = Vec::new();
    let mut i: usize = 0;
    while i < n
        invariant
            start + ENDPOINT_LEN * n <= b@.len(),
            b@.len() <= usize::MAX,
            i <= n,
            r@.len() == i,
            forall|j: int| 0 <= j < i ==> (#[trigger] r@[j])@ == endpoint_at(b@, start + ENDPOINT_LEN * j),
        decreases n - i,
    {
        proof {
            assert(ENDPOINT_LEN * i + ENDPOINT_LEN <= ENDPOINT_LEN * n) by (nonlinear_arith)
                requires i < n;
        }
        let at = start + ENDPOINT_LEN * i;
        let ip = take16(b, at);
        let port = get16(b, at + 16) as u16;
        r.push(EndpointAddr { ip, port });
        i = i + 1;
    }
    assert(endpoint_views(r@) =~= Seq::new(n as nat, |i: int| endpoint_at(b@, start + ENDPOINT_LEN * i)));
    r
}

/// The ticket held by an unsealed frame, if it is well formed.
fn parse_core(b: &Vec<u8>) -> (r: Option<Ticket>)
    ensures
        match r {
            Some(t) => decode_core(b@) == Some(t@),
            None => decode_core(b@) is None,
        },
{
    let len = b.len();
    if len < MIN_CORE {
        return None;
    }
    if b[0] != 0x73u8 || b[1] != 0x6cu8 {
        return None;
    }
    if get32(b, 2) != len as u64 {
        return None;
    }
    if b[6] > 1 {
        return None;
    }
    let flag = b[71];
    let end: usize = if flag == 0 {
        72
    } else if flag == 1 {
        74 + get16(b, 72)
    } else {
        return None;
    };
    assert(end as int == relay_end(b@));
    if end + 2 > len {
        return None;
    }
    let n = get16(b, end);
    if end + 2 + ENDPOINT_LEN * n != len {
        return None;
    }
    let hash = take32(b, 7);
    let id = take32(b, 39);
    let relay = if flag == 0 {
        None
    } else {
        Some(copy_range(b, 74, end))
    };
    let direct = read_endpoints(b, end + 2, n);
    let format = if b[6] == 0 {
        BlobFormat::Raw
    } else {
        BlobFormat::Collection
    };
    let t = Ticket { owner: NodeAddress { id, relay, direct }, hash, format };
    proof {
        let d = decode_core(b@).unwrap();
        assert(t@.owner.direct == d.owner.direct);
        assert(t@.owner.relay == d.owner.relay);
        assert(t@.owner == d.owner);
    }
    Some(t)
}

/// Whether `b[from..to]` is exactly the 32 bytes of `d`.
fn matches_at(b: &Vec<u8>, from: usize, to: usize, d: &[u8; 32]) -> (r: bool)
    requires
        from <= to <= b@.len(),
    ensures
        r == (b@.subrange(from as int, to as int) == d@),
{
    if to - from != 32 {
        assert(b@.subrange(from as int, to as int).len() != d@.len());
        return false;
    }
    let mut k: usize = 0;
    while k < 32
        invariant
            from + 32 == to <= b@.len(),
            k <= 32,
            forall|j: int| 0 <= j < k ==> b@[from + j] == d@[j],
        decreases 32 - k,
    {
        if b[from + k] != d[k] {
            assert(b@.subrange(from as int, to as int)[k as int] != d@[k as int]);
            return false;
        }
        k = k + 1;
    }
    assert(b@.subrange(from as int, to as int) =~= d@);
    true
}

/// The ticket held by a frame, if the frame is well formed.
fn parse_frame(b: &Vec<u8>) -> (r: Option<Ticket>)
    ensures
        match r {
            Some(t) => decode_bytes(b@) == Some(t@),
            None => decode_bytes(b@) is None,
        },
{
    let len = b.len();
    if len < 7 {
        return None;
    }
    let sum = checksum_prefix(b, len - 1);
    assert(b@.subrange(0, len - 1) =~= b@.drop_last());
    if b[len - 1] != sum {
        return None;
    }
    let core_len = get32(b, 2);
    if core_len > (len - 1) as u64 {
        return None;
    }
    let core_len = core_len as usize;
    let core = copy_range(b, 0, core_len);
    let seal = content_digest(core.as_slice());
    if !matches_at(b, core_len, len - 1, &seal) {
        return None;
    }
    parse_core(&core)
}

impl Ticket {
    /// Binds an owner's address, a hash and a format into a ticket; refused
    /// with `Protocol` where the owner's relay or address list is too long for
    /// the frame.
    pub fn new(owner: NodeAddress, hash: BlobHash, format: BlobFormat) -> (r: Result<
        Ticket,
        SessionError,
    >)
        ensures
            match r {
                Ok(t) => t@ == (TicketView { owner: owner@, hash: hash@, format }) && ticket_fits(t@),
                Err(e) => e == SessionError::Protocol && !ticket_fits(
                    TicketView { owner: owner@, hash: hash@, format },
                ),
            },
    {
        let t = Ticket { owner, hash, format };
        if t.fits() {
            Ok(t)
        } else {
            Err(SessionError::Protocol)
        }
    }

    /// Whether the ticket can be framed.
    pub fn fits(&self) -> (r: bool)
        ensures
            r == ticket_fits(self@),
    {
        let relay_ok = match &self.owner.relay {
            Some(u) => u.len() <= FIELD_MAX,
            None => true,
        };
        relay_ok && self.owner.direct.len() <= FIELD_MAX
    }

    /// The content hash the ticket points at.
    pub fn hash(&self) -> (r: BlobHash)
        ensures
            r@ == self@.hash,
    {
        self.hash
    }

    /// The address of the node that issued the ticket.
    pub fn node_addr(&self) -> (r: &NodeAddress)
        ensures
            r@ == self@.owner,
    {
        &self.owner
    }

    /// The portable text form: lowercase hexadecimal of the framed bytes.
    pub fn serialize(&self) -> (r: String)
        requires
            ticket_fits(self@),
        ensures
            r@ == ticket_text(self@),
    {
        let bytes = frame_bytes(self);
        let cs = hex_chars(&bytes);
        let mut text = String::new();
        let mut i: usize = 0;
        while i < cs.len()
            invariant
                i <= cs@.len(),
                text@ == cs@.subrange(0, i as int),
            decreases cs@.len() - i,
        {
            push_char(&mut text, cs[i]);
            i = i + 1;
            assert(text@ =~= cs@.subrange(0, i as int));
        }
        assert(cs@.subrange(0, i as int) =~= cs@);
        text
    }

    /// Reads a ticket from its text form; `Protocol` for any text that is not
    /// the text of a ticket.
    pub fn deserialize(s: &str) -> (r: Result<Ticket, SessionError>)
        ensures
            match r {
                Ok(t) => decode_text(s@) == Some(t@),
                Err(e) => decode_text(s@) is None && e == SessionError::Protocol,
            },
    {
        let cs = chars_of(s);
        match unhex(&cs) {
            Some(bytes) => match parse_frame(&bytes) {
                Some(t) => Ok(t),
                None => Err(SessionError::Protocol),
            },
            None => Err(SessionError::Protocol),
        }
    }
}

} // verus!
