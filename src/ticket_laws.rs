//! What the ticket text form guarantees: it reads back as the ticket it was
//! written from, and a cut or altered text is refused.
use vstd::prelude::*;
use crate::digest::blake3_of;
use crate::ticket::{
    Ticket,
    be16, be32, body_bytes, checksum, decode_bytes, decode_text, digit_value, endpoint_at,
    endpoint_bytes, endpoints_bytes, hex_char, hex_decode, hex_text, read16, read32, relay_bytes,
    relay_end, tag_format, format_tag, ticket_bytes, ticket_fits, ticket_shaped, ticket_text,
    unsealed_bytes, sealed_bytes, decode_core, byte_sum, EndpointView, TicketView, ENDPOINT_LEN, lemma_endpoints_len,
};

verus! {

proof fn lemma_digit_of_hex(v: int)
    requires
        0 <= v < 16,
    ensures
        digit_value(hex_char(v)) == Some(v),
{
    let t = seq!['0', '1', '2', '3', '4', '5', '6', '7', '8', '9', 'a', 'b', 'c', 'd', 'e', 'f'];
    assert(hex_char(v) == t[v]);
}

proof fn lemma_digit_injective(c: char, d: char)
    requires
        digit_value(c) is Some,
        digit_value(c) == digit_value(d),
    ensures
        c == d,
{
}

/// Reading a hexadecimal text back gives the bytes it was written from.
pub proof fn lemma_hex_round_trip(b: Seq<u8>)
    ensures
        hex_decode(hex_text(b)) == Some(b),
{
    let s = hex_text(b);
    assert forall|i: int| 0 <= i < s.len() implies (#[trigger] digit_value(s[i])) is Some by {
        if i % 2 == 0 {
            lemma_digit_of_hex(b[i / 2] as int / 16);
        } else {
            lemma_digit_of_hex(b[i / 2] as int % 16);
        }
    }
    let d = hex_decode(s).unwrap();
    assert forall|j: int| 0 <= j < b.len() implies d[j] == b[j] by {
        lemma_digit_of_hex(b[j] as int / 16);
        lemma_digit_of_hex(b[j] as int % 16);
        assert(s[2 * j] == hex_char(b[j] as int / 16));
        assert(s[2 * j + 1] == hex_char(b[j] as int % 16));
    }
    assert(d =~= b);
}

/// The first `2m` characters of a hexadecimal text spell the first `m` bytes.
pub proof fn lemma_hex_prefix(b: Seq<u8>, m: int)
    requires
        0 <= m <= b.len(),
    ensures
        hex_text(b).subrange(0, 2 * m) == hex_text(b.subrange(0, m)),
{
    assert(hex_text(b).subrange(0, 2 * m) =~= hex_text(b.subrange(0, m)));
}

proof fn lemma_be16(x: nat)
    requires
        x < 65536,
    ensures
        read16(be16(x), 0) == x,
{
    let b = be16(x);
    assert(b[0] as nat == x / 256);
    assert(b[1] as nat == x % 256);
}

proof fn lemma_be32(x: nat)
    requires
        x < 4294967296,
    ensures
        read32(be32(x), 0) == x,
{
    let b = be32(x);
    assert(b[0] as nat == x / 16777216);
    assert(b[1] as nat == (x / 65536) % 256);
    assert(b[2] as nat == (x / 256) % 256);
    assert(b[3] as nat == x % 256);
    assert((x / 16777216) * 256 + (x / 65536) % 256 == x / 65536);
    assert((x / 65536) * 256 + (x / 256) % 256 == x / 256);
    assert((x / 256) * 256 + x % 256 == x);
}

proof fn lemma_endpoints_index(s: Seq<EndpointView>, i: int)
    requires
        forall|k: int| 0 <= k < s.len() ==> (#[trigger] s[k]).ip.len() == 16,
        0 <= i < s.len(),
    ensures
        endpoints_bytes(s).subrange(ENDPOINT_LEN * i, ENDPOINT_LEN * i + ENDPOINT_LEN)
            == endpoint_bytes(s[i]),
    decreases s.len(),
{
    let front = s.drop_last();
    assert forall|k: int| 0 <= k < front.len() implies (#[trigger] front[k]).ip.len() == 16 by {
        assert(front[k] == s[k]);
    }
    lemma_endpoints_len(front);
    let all = endpoints_bytes(s);
    assert(all == endpoints_bytes(front) + endpoint_bytes(s.last()));
    if i == s.len() - 1 {
        assert(all.subrange(ENDPOINT_LEN * i, ENDPOINT_LEN * i + ENDPOINT_LEN) =~= endpoint_bytes(
            s.last(),
        ));
    } else {
        lemma_endpoints_index(front, i);
        assert(ENDPOINT_LEN * i + ENDPOINT_LEN <= ENDPOINT_LEN * front.len()) by (nonlinear_arith)
            requires
                i < front.len(),
        ;
        assert(all.subrange(ENDPOINT_LEN * i, ENDPOINT_LEN * i + ENDPOINT_LEN) =~= endpoints_bytes(
            front,
        ).subrange(ENDPOINT_LEN * i, ENDPOINT_LEN * i + ENDPOINT_LEN));
        assert(front[i] == s[i]);
    }
}

proof fn lemma_body_fields(t: TicketView)
    requires
        ticket_shaped(t),
    ensures
        ({
            let body = body_bytes(t);
            let rl = relay_bytes(t.owner.relay).len() as int;
            let n = t.owner.direct.len();
            &&& body.len() == 67 + rl + ENDPOINT_LEN * n
            &&& body[0] == format_tag(t.format)
            &&& body.subrange(1, 33) == t.hash
            &&& body.subrange(33, 65) == t.owner.id
            &&& body.subrange(65, 65 + rl) == relay_bytes(t.owner.relay)
            &&& body.subrange(65 + rl, 67 + rl) == be16(n)
            &&& body.subrange(67 + rl, body.len() as int) == endpoints_bytes(t.owner.direct)
        }),
{
    reveal(body_bytes);
    let body = body_bytes(t);
    let rl = relay_bytes(t.owner.relay).len() as int;
    lemma_endpoints_len(t.owner.direct);
    assert(body.subrange(1, 33) =~= t.hash);
    assert(body.subrange(33, 65) =~= t.owner.id);
    assert(body.subrange(65, 65 + rl) =~= relay_bytes(t.owner.relay));
    assert(body.subrange(65 + rl, 67 + rl) =~= be16(t.owner.direct.len()));
    assert(body.subrange(67 + rl, body.len() as int) =~= endpoints_bytes(t.owner.direct));
}

proof fn lemma_frame_parts(t: TicketView)
    ensures
        ({
            let body = body_bytes(t);
            let u = unsealed_bytes(t);
            let b = ticket_bytes(t);
            &&& u.len() == 6 + body.len()
            &&& u[0] == 0x73u8
            &&& u[1] == 0x6cu8
            &&& u.subrange(2, 6) == be32((6 + body.len()) as nat)
            &&& u.subrange(6, 6 + body.len() as int) == body
            &&& b.len() == u.len() + blake3_of(u).len() + 1
            &&& b.drop_last() == u + blake3_of(u)
            &&& b.last() == checksum(b.drop_last())
        }),
{
    reveal(ticket_bytes);
    let body = body_bytes(t);
    let u = unsealed_bytes(t);
    let b = ticket_bytes(t);
    assert(u.subrange(2, 6) =~= be32((6 + body.len()) as nat));
    assert(u.subrange(6, 6 + body.len() as int) =~= body);
    assert(b.drop_last() =~= sealed_bytes(t));
}

proof fn lemma_sub_of_sub(b: Seq<u8>, body: Seq<u8>, off: int, x: int, y: int)
    requires
        0 <= off,
        off + body.len() <= b.len(),
        b.subrange(off, off + body.len()) == body,
        0 <= x <= y <= body.len(),
    ensures
        b.subrange(off + x, off + y) == body.subrange(x, y),
        forall|k: int| x <= k < y ==> b[off + k] == body[k],
{
    assert forall|k: int| x <= k < y implies b[off + k] == body[k] by {
        assert(b.subrange(off, off + body.len())[k] == b[off + k]);
    }
    assert(b.subrange(off + x, off + y) =~= body.subrange(x, y));
}

proof fn lemma_direct_read_back(b: Seq<u8>, start: int, s: Seq<EndpointView>)
    requires
        forall|k: int| 0 <= k < s.len() ==> (#[trigger] s[k]).ip.len() == 16,
        0 <= start,
        start + ENDPOINT_LEN * s.len() <= b.len(),
        b.subrange(start, start + ENDPOINT_LEN * s.len()) == endpoints_bytes(s),
    ensures
        Seq::new(s.len(), |i: int| endpoint_at(b, start + ENDPOINT_LEN * i)) == s,
{
    lemma_endpoints_len(s);
    let eps = endpoints_bytes(s);
    let direct = Seq::new(s.len(), |i: int| endpoint_at(b, start + ENDPOINT_LEN * i));
    assert forall|i: int| 0 <= i < s.len() implies #[trigger] direct[i] == s[i] by {
        lemma_endpoints_index(s, i);
        assert(ENDPOINT_LEN * i + ENDPOINT_LEN <= ENDPOINT_LEN * s.len()) by (nonlinear_arith)
            requires
                i < s.len(),
        ;
        let at = start + ENDPOINT_LEN * i;
        let e = s[i];
        let eb = endpoint_bytes(e);
        lemma_sub_of_sub(b, eps, start, ENDPOINT_LEN * i, ENDPOINT_LEN * i + ENDPOINT_LEN);
        lemma_sub_of_sub(b, eb, at, 0, 18);
        assert(b.subrange(at, at + 16) =~= e.ip);
        lemma_be16(e.port as nat);
        assert(eb[16] == be16(e.port as nat)[0]);
        assert(eb[17] == be16(e.port as nat)[1]);
        assert(read16(b, at + 16) == e.port as nat);
    }
    assert(direct =~= s);
}

proof fn lemma_decode_fields(b: Seq<u8>, t: TicketView, end: int)
    requires
        b.len() >= 74,
        b[0] == 0x73u8,
        b[1] == 0x6cu8,
        read32(b, 2) == b.len(),
        b[6] == format_tag(t.format),
        b.subrange(7, 39) == t.hash,
        b.subrange(39, 71) == t.owner.id,
        relay_end(b) == end,
        match t.owner.relay {
            None => b[71] == 0,
            Some(r) => b[71] == 1 && b.subrange(74, end) == r,
        },
        read16(b, end) == t.owner.direct.len(),
        end + 2 + ENDPOINT_LEN * t.owner.direct.len() == b.len(),
        Seq::new(t.owner.direct.len(), |i: int| endpoint_at(b, end + 2 + ENDPOINT_LEN * i))
            == t.owner.direct,
    ensures
        decode_core(b) == Some(t),
{
    let d = decode_core(b).unwrap();
    assert(d.owner.relay == t.owner.relay);
    assert(d.owner == t.owner);
    assert(tag_format(format_tag(t.format)) == t.format);
}

/// The unsealed frame of a ticket reads back as that ticket.
proof fn lemma_core_round_trip(t: TicketView)
    requires
        ticket_fits(t),
        ticket_shaped(t),
    ensures
        decode_core(unsealed_bytes(t)) == Some(t),
{
    let n: int = t.owner.direct.len() as int;
    let body = body_bytes(t);
    let b = unsealed_bytes(t);
    lemma_body_fields(t);
    lemma_frame_parts(t);
    let rl = relay_bytes(t.owner.relay).len() as int;
    let end: int = 71 + rl;
    let blen = body.len() as int;
    lemma_be32((6 + body.len()) as nat);
    assert(read32(b, 2) == read32(b.subrange(2, 6), 0));
    lemma_sub_of_sub(b, body, 6, 0, 1);
    lemma_sub_of_sub(b, body, 6, 1, 33);
    lemma_sub_of_sub(b, body, 6, 33, 65);
    lemma_sub_of_sub(b, body, 6, 65, 65 + rl);
    lemma_sub_of_sub(b, body, 6, 65 + rl, 67 + rl);
    lemma_sub_of_sub(b, body, 6, 67 + rl, blen);
    let rb = relay_bytes(t.owner.relay);
    match t.owner.relay {
        None => {
            assert(rb[0] == 0);
            assert(body.subrange(65, 65 + rl)[0] == body[65]);
            assert(b[71] == body[65]);
            assert(b[71] == 0);
        },
        Some(r) => {
            lemma_sub_of_sub(b, rb, 71, 3, rl);
            assert(rb[0] == 1);
            assert(body.subrange(65, 65 + rl)[0] == body[65]);
            assert(b[71] == body[65]);
            lemma_be16(r.len());
            assert(rb[1] == be16(r.len())[0]);
            assert(rb[2] == be16(r.len())[1]);
            assert(rb.subrange(3, rl) =~= r);
        },
    }
    assert(relay_end(b) == end);
    assert(t.owner.relay is None ==> b[71] == 0);
    lemma_be16(n as nat);
    assert(read16(b, end) == read16(b.subrange(end, end + 2), 0));
    lemma_direct_read_back(b, end + 2, t.owner.direct);
    lemma_decode_fields(b, t, end);
}

/// The framed bytes of a ticket read back as that ticket.
pub proof fn lemma_frame_round_trip(t: TicketView)
    requires
        ticket_fits(t),
        ticket_shaped(t),
    ensures
        decode_bytes(ticket_bytes(t)) == Some(t),
{
    lemma_core_round_trip(t);
    lemma_frame_length(t);
}

/// A ticket's text form reads back as that ticket.
pub proof fn lemma_ticket_round_trip(t: Ticket)
    requires
        ticket_fits(t@),
    ensures
        decode_text(ticket_text(t@)) == Some(t@),
{
    assert(ticket_shaped(t@)) by {
        assert forall|i: int| 0 <= i < t@.owner.direct.len() implies (#[trigger] t@.owner.direct[i]).ip.len()
            == 16 by {
            assert(t@.owner.direct[i] == t.owner.direct@[i]@);
        }
    }
    lemma_hex_round_trip(ticket_bytes(t@));
    lemma_frame_round_trip(t@);
}

/// A frame states where its seal begins, and the seal and checksum match.
proof fn lemma_frame_length(t: TicketView)
    requires
        ticket_fits(t),
        ticket_shaped(t),
    ensures
        ({
            let b = ticket_bytes(t);
            let u = unsealed_bytes(t);
            &&& u.len() >= 74
            &&& b.len() == u.len() + blake3_of(u).len() + 1
            &&& read32(b, 2) == u.len()
            &&& b.subrange(0, u.len() as int) == u
            &&& b.subrange(u.len() as int, b.len() - 1) == blake3_of(u)
            &&& b.last() == checksum(b.drop_last())
        }),
{
    let b = ticket_bytes(t);
    let u = unsealed_bytes(t);
    lemma_body_fields(t);
    lemma_frame_parts(t);
    lemma_be32(u.len() as nat);
    let d = b.drop_last();
    assert(d =~= b.subrange(0, b.len() - 1));
    assert(d.subrange(0, u.len() as int) =~= u);
    assert(b.subrange(0, u.len() as int) =~= u);
    assert(b.subrange(u.len() as int, b.len() - 1) =~= d.subrange(u.len() as int, d.len() as int));
    assert(d.subrange(u.len() as int, d.len() as int) =~= blake3_of(u));
    assert(b.subrange(2, 6) =~= u.subrange(2, 6));
    assert(read32(b, 2) == read32(b.subrange(2, 6), 0));
    assert(read32(u, 2) == read32(u.subrange(2, 6), 0));
}

/// Any strict prefix of a ticket's text form is refused.
pub proof fn lemma_truncated_ticket_refused(t: Ticket, k: int)
    requires
        ticket_fits(t@),
        0 <= k < ticket_text(t@).len(),
    ensures
        decode_text(ticket_text(t@).subrange(0, k)) is None,
{
    assert(ticket_shaped(t@)) by {
        assert forall|i: int| 0 <= i < t@.owner.direct.len() implies (#[trigger] t@.owner.direct[i]).ip.len()
            == 16 by {
            assert(t@.owner.direct[i] == t.owner.direct@[i]@);
        }
    }
    let b = ticket_bytes(t@);
    let cut = ticket_text(t@).subrange(0, k);
    if k % 2 == 0 {
        let m = k / 2;
        lemma_hex_prefix(b, m);
        lemma_hex_round_trip(b.subrange(0, m));
        lemma_frame_length(t@);
        let u = unsealed_bytes(t@);
        let p = b.subrange(0, m);
        if p.len() >= 7 {
            assert(read32(p, 2) == read32(b, 2));
            if read32(p, 2) <= p.len() - 1 {
                assert(p.subrange(0, u.len() as int) =~= u);
                assert(p.subrange(u.len() as int, p.len() - 1).len() < blake3_of(u).len());
            }
        }
    }
}

proof fn lemma_byte_sum_update(s: Seq<u8>, j: int, v: u8)
    requires
        0 <= j < s.len(),
    ensures
        byte_sum(s.update(j, v)) + s[j] as nat == byte_sum(s) + v as nat,
    decreases s.len(),
{
    let u = s.update(j, v);
    if j == s.len() - 1 {
        assert(u.drop_last() =~= s.drop_last());
    } else {
        lemma_byte_sum_update(s.drop_last(), j, v);
        assert(u.drop_last() =~= s.drop_last().update(j, v));
    }
}

proof fn lemma_mod_step(a: nat, b: nat, o: int, x: int)
    requires
        0 <= o < 256,
        0 <= x < 256,
        a + o == b + x,
        a % 256 == b % 256,
    ensures
        o == x,
{
    assert(a == 256 * (a / 256) + a % 256);
    assert(b == 256 * (b / 256) + b % 256);
    assert(256 * (a / 256) - 256 * (b / 256) == x - o);
    if a / 256 > b / 256 {
        assert(256 * (a / 256) - 256 * (b / 256) >= 256) by (nonlinear_arith)
            requires
                a / 256 > b / 256,
        ;
    } else if a / 256 < b / 256 {
        assert(256 * (b / 256) - 256 * (a / 256) >= 256) by (nonlinear_arith)
            requires
                a / 256 < b / 256,
        ;
    }
}

/// Changing one byte of a frame breaks its checksum.
proof fn lemma_altered_frame_refused(t: TicketView, j: int, v: u8)
    requires
        ticket_fits(t),
        ticket_shaped(t),
        0 <= j < ticket_bytes(t).len(),
        v != ticket_bytes(t)[j],
    ensures
        decode_bytes(ticket_bytes(t).update(j, v)) is None,
{
    let b = ticket_bytes(t);
    let c = b.update(j, v);
    lemma_frame_length(t);
    if decode_bytes(c) is Some {
        if j == b.len() - 1 {
            assert(c.drop_last() =~= b.drop_last());
        } else {
            assert(c.drop_last() =~= b.drop_last().update(j, v));
            lemma_byte_sum_update(b.drop_last(), j, v);
            lemma_mod_step(byte_sum(c.drop_last()), byte_sum(b.drop_last()), b[j] as int, v as int);
        }
    }
}

/// Changing any one character of a ticket's text form makes it refused.
pub proof fn lemma_altered_ticket_refused(t: Ticket, i: int, ch: char)
    requires
        ticket_fits(t@),
        0 <= i < ticket_text(t@).len(),
        ch != ticket_text(t@)[i],
    ensures
        decode_text(ticket_text(t@).update(i, ch)) is None,
{
    assert(ticket_shaped(t@)) by {
        assert forall|k: int| 0 <= k < t@.owner.direct.len() implies (#[trigger] t@.owner.direct[k]).ip.len()
            == 16 by {
            assert(t@.owner.direct[k] == t.owner.direct@[k]@);
        }
    }
    let b = ticket_bytes(t@);
    let s = ticket_text(t@);
    let s2 = s.update(i, ch);
    lemma_hex_round_trip(b);
    if digit_value(ch) is None {
        assert(digit_value(s2[i]) is None);
    } else {
        assert forall|k: int| 0 <= k < s2.len() implies (#[trigger] digit_value(s2[k])) is Some by {
            if k != i {
                assert(s2[k] == s[k]);
                assert(digit_value(s[k]) is Some);
            }
        }
        let b2 = hex_decode(s2).unwrap();
        let j = i / 2;
        let hi = b[j] as int / 16;
        let lo = b[j] as int % 16;
        lemma_digit_of_hex(hi);
        lemma_digit_of_hex(lo);
        assert(s[2 * j] == hex_char(hi));
        assert(s[2 * j + 1] == hex_char(lo));
        if digit_value(ch) == digit_value(s[i]) {
            lemma_digit_injective(ch, s[i]);
        }
        if i == 2 * j {
            assert(s2[2 * j + 1] == s[2 * j + 1]);
            assert(b2[j] as int == digit_value(ch).unwrap() * 16 + lo);
        } else {
            assert(s2[2 * j] == s[2 * j]);
            assert(b2[j] as int == hi * 16 + digit_value(ch).unwrap());
        }
        assert(b[j] as int == hi * 16 + lo);
        assert(b2[j] != b[j]);
        assert forall|k: int| 0 <= k < b.len() && k != j implies b2[k] == b[k] by {
            assert(s2[2 * k] == s[2 * k]);
            assert(s2[2 * k + 1] == s[2 * k + 1]);
            assert(hex_decode(s).unwrap()[k] == b[k]);
        }
        assert(b2 =~= b.update(j, b2[j]));
        lemma_altered_frame_refused(t@, j, b2[j]);
    }
}

proof fn lemma_hex_of_digit(c: char)
    requires
        digit_value(c) is Some,
    ensures
        0 <= digit_value(c).unwrap() < 16,
        hex_char(digit_value(c).unwrap()) == c,
{
    let v = digit_value(c).unwrap();
    if v == 0 {
        assert(hex_char(0) == '0');
    } else if v == 1 {
        assert(hex_char(1) == '1');
    } else if v == 2 {
        assert(hex_char(2) == '2');
    } else if v == 3 {
        assert(hex_char(3) == '3');
    } else if v == 4 {
        assert(hex_char(4) == '4');
    } else if v == 5 {
        assert(hex_char(5) == '5');
    } else if v == 6 {
        assert(hex_char(6) == '6');
    } else if v == 7 {
        assert(hex_char(7) == '7');
    } else if v == 8 {
        assert(hex_char(8) == '8');
    } else if v == 9 {
        assert(hex_char(9) == '9');
    } else if v == 10 {
        assert(hex_char(10) == 'a');
    } else if v == 11 {
        assert(hex_char(11) == 'b');
    } else if v == 12 {
        assert(hex_char(12) == 'c');
    } else if v == 13 {
        assert(hex_char(13) == 'd');
    } else if v == 14 {
        assert(hex_char(14) == 'e');
    } else if v == 15 {
        assert(hex_char(15) == 'f');
    }
}

/// A hexadecimal text is the text of the bytes it spells.
pub proof fn lemma_hex_canonical(s: Seq<char>)
    requires
        hex_decode(s) is Some,
    ensures
        hex_text(hex_decode(s).unwrap()) == s,
{
    let b = hex_decode(s).unwrap();
    let t = hex_text(b);
    assert forall|i: int| 0 <= i < s.len() implies t[i] == s[i] by {
        let j = i / 2;
        assert(digit_value(s[2 * j]) is Some);
        assert(digit_value(s[2 * j + 1]) is Some);
        lemma_hex_of_digit(s[2 * j]);
        lemma_hex_of_digit(s[2 * j + 1]);
        let hi = digit_value(s[2 * j]).unwrap();
        let lo = digit_value(s[2 * j + 1]).unwrap();
        assert(b[j] as int == hi * 16 + lo);
        assert((hi * 16 + lo) / 16 == hi && (hi * 16 + lo) % 16 == lo) by (nonlinear_arith)
            requires
                0 <= hi < 16,
                0 <= lo < 16,
        ;
    }
    assert(t =~= s);
}

proof fn lemma_be16_read(b: Seq<u8>, at: int)
    requires
        0 <= at,
        at + 2 <= b.len(),
    ensures
        be16(read16(b, at)) == b.subrange(at, at + 2),
{
    let hi = b[at] as int;
    let lo = b[at + 1] as int;
    assert((hi * 256 + lo) / 256 == hi && (hi * 256 + lo) % 256 == lo) by (nonlinear_arith)
        requires
            0 <= hi < 256,
            0 <= lo < 256,
    ;
    assert(be16(read16(b, at)) =~= b.subrange(at, at + 2));
}

proof fn lemma_be32_read(b: Seq<u8>, at: int)
    requires
        0 <= at,
        at + 4 <= b.len(),
    ensures
        be32(read32(b, at)) == b.subrange(at, at + 4),
{
    let b0 = b[at] as int;
    let b1 = b[at + 1] as int;
    let b2 = b[at + 2] as int;
    let b3 = b[at + 3] as int;
    let x = ((b0 * 256 + b1) * 256 + b2) * 256 + b3;
    assert(x / 16777216 == b0 && (x / 65536) % 256 == b1 && (x / 256) % 256 == b2 && x % 256 == b3)
        by (nonlinear_arith)
        requires
            0 <= b0 < 256,
            0 <= b1 < 256,
            0 <= b2 < 256,
            0 <= b3 < 256,
            x == ((b0 * 256 + b1) * 256 + b2) * 256 + b3,
    ;
    assert(be32(read32(b, at)) =~= b.subrange(at, at + 4));
}

proof fn lemma_endpoints_read(b: Seq<u8>, start: int, n: int)
    requires
        0 <= start,
        0 <= n,
        start + ENDPOINT_LEN * n <= b.len(),
    ensures
        endpoints_bytes(Seq::new(n as nat, |i: int| endpoint_at(b, start + ENDPOINT_LEN * i)))
            == b.subrange(start, start + ENDPOINT_LEN * n),
    decreases n,
{
    let s = Seq::new(n as nat, |i: int| endpoint_at(b, start + ENDPOINT_LEN * i));
    if n > 0 {
        let front = Seq::new((n - 1) as nat, |i: int| endpoint_at(b, start + ENDPOINT_LEN * i));
        assert(s.drop_last() =~= front);
        assert(ENDPOINT_LEN * (n - 1) + ENDPOINT_LEN == ENDPOINT_LEN * n);
        lemma_endpoints_read(b, start, n - 1);
        let at = start + ENDPOINT_LEN * (n - 1);
        lemma_be16_read(b, at + 16);
        assert(endpoint_bytes(s.last()) =~= b.subrange(at, at + 18));
        assert(b.subrange(start, start + ENDPOINT_LEN * n) =~= b.subrange(start, at) + b.subrange(at, at + 18));
    } else {
        assert(b.subrange(start, start) =~= Seq::<u8>::empty());
    }
}

/// An unsealed frame that reads as a ticket is that ticket's unsealed frame.
proof fn lemma_core_canonical(u: Seq<u8>)
    requires
        decode_core(u) is Some,
    ensures
        unsealed_bytes(decode_core(u).unwrap()) == u,
{
    let t = decode_core(u).unwrap();
    let end = relay_end(u);
    let n = read16(u, end) as int;
    let start = end + 2;
    reveal(body_bytes);
    lemma_be32_read(u, 2);
    lemma_be16_read(u, end);
    lemma_endpoints_read(u, start, n);
    assert(t.hash == u.subrange(7, 39));
    assert(t.owner.id == u.subrange(39, 71));
    assert(format_tag(t.format) == u[6]);
    let rb = relay_bytes(t.owner.relay);
    if u[71] == 0 {
        assert(rb =~= u.subrange(71, 72));
    } else {
        lemma_be16_read(u, 72);
        assert(rb =~= u.subrange(71, end));
    }
    let body = body_bytes(t);
    assert(body =~= u.subrange(6, u.len() as int));
    assert(unsealed_bytes(t) =~= u);
}

/// A frame that reads as a ticket is that ticket's frame.
proof fn lemma_frame_canonical(b: Seq<u8>)
    requires
        decode_bytes(b) is Some,
    ensures
        ticket_bytes(decode_bytes(b).unwrap()) == b,
{
    let l = read32(b, 2) as int;
    let u = b.subrange(0, l);
    let t = decode_bytes(b).unwrap();
    lemma_core_canonical(u);
    reveal(ticket_bytes);
    assert(sealed_bytes(t) =~= b.drop_last());
    assert(ticket_bytes(t) =~= b);
}

/// A text that reads as a ticket is that ticket's text form. So no other
/// text, whether characters are changed, inserted or removed, ever reads as
/// the same ticket.
pub proof fn lemma_ticket_text_canonical(s: Seq<char>)
    requires
        decode_text(s) is Some,
    ensures
        ticket_text(decode_text(s).unwrap()) == s,
{
    let b = hex_decode(s).unwrap();
    lemma_hex_canonical(s);
    lemma_frame_canonical(b);
}

/// A text other than a ticket's own text form never reads as that ticket,
/// however it differs: changed, inserted or removed characters.
pub proof fn lemma_other_text_never_reads_as_ticket(t: Ticket, s: Seq<char>)
    requires
        s != ticket_text(t@),
    ensures
        decode_text(s) != Some(t@),
{
    if decode_text(s) is Some {
        lemma_ticket_text_canonical(s);
    }
}

} // verus!
