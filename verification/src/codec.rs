//! Little-endian byte codec for the wire protocol: the 4-byte frame length
//! prefix and the 16-byte correlation ID, plus the handshake reply sent by
//! the server on the first member flow of a session.

use vstd::prelude::*;
use vstd::arithmetic::power::pow;
use vstd::arithmetic::div_mod::lemma_fundamental_div_mod;

verus! {

/// The `k` low-order bytes of `v`, least significant first.
pub open spec fn le_bytes(v: nat, k: nat) -> Seq<u8>
    decreases k,
{
    if k == 0 {
        Seq::empty()
    } else {
        seq![(v % 256) as u8] + le_bytes(v / 256, (k - 1) as nat)
    }
}

/// The value of a little-endian byte string.
pub open spec fn le_value(s: Seq<u8>) -> nat
    decreases s.len(),
{
    if s.len() == 0 {
        0nat
    } else {
        (s[0] + 256 * le_value(s.skip(1))) as nat
    }
}

pub proof fn lemma_le_bytes_len(v: nat, k: nat)
    ensures
        le_bytes(v, k).len() == k,
    decreases k,
{
    if k > 0 {
        lemma_le_bytes_len(v / 256, (k - 1) as nat);
    }
}

pub proof fn lemma_le_value_bound(s: Seq<u8>)
    ensures
        le_value(s) < pow(256, s.len()),
    decreases s.len(),
{
    reveal(pow);
    if s.len() == 0 {
    } else {
        lemma_le_value_bound(s.skip(1));
        assert(pow(256, s.len()) == 256 * pow(256, (s.len() - 1) as nat));
    }
}

/// Encoding a value below `256^k` into `k` little-endian bytes and reading
/// the bytes back yields the value again.
pub proof fn lemma_le_round_trip(v: nat, k: nat)
    requires
        v < pow(256, k),
    ensures
        le_value(le_bytes(v, k)) == v,
    decreases k,
{
    reveal(pow);
    if k == 0 {
        assert(pow(256, 0) == 1);
    } else {
        assert(pow(256, k) == 256 * pow(256, (k - 1) as nat));
        lemma_fundamental_div_mod(v as int, 256);
        assert(v / 256 < pow(256, (k - 1) as nat));
        lemma_le_round_trip(v / 256, (k - 1) as nat);
        let s = le_bytes(v, k);
        assert(s.skip(1) =~= le_bytes(v / 256, (k - 1) as nat));
        assert(le_value(s) == v % 256 + 256 * (v / 256));
    }
}

pub proof fn lemma_pow256_4()
    ensures
        pow(256, 4) == 0x1_0000_0000,
{
    reveal_with_fuel(pow, 5);
}

pub proof fn lemma_pow256_16()
    ensures
        pow(256, 16) == 0x1_0000_0000_0000_0000_0000_0000_0000_0000,
{
    reveal_with_fuel(pow, 17);
}

/// Low-level little-endian encoder shared by the frame-length and
/// correlation-ID codecs.
fn encode_le(v: u128, k: usize) -> (r: Vec<u8>)
    ensures
        r@ == le_bytes(v as nat, k as nat),
{
    let mut r: Vec<u8> = Vec::new();
    let mut x: u128 = v;
    let mut i: usize = 0;
    proof {
        assert(le_bytes(v as nat, k as nat) =~= r@ + le_bytes(v as nat, k as nat));
    }
    while i < k
        invariant
            i <= k,
            r@.len() == i,
            le_bytes(v as nat, k as nat) == r@ + le_bytes(x as nat, (k - i) as nat),
        decreases k - i,
    {
        let ghost x0 = x as nat;
        let ghost rem = (k - i) as nat;
        r.push((x % 256) as u8);
        x = x / 256;
        i = i + 1;
        proof {
            assert(le_bytes(x0, rem) == seq![(x0 % 256) as u8] + le_bytes(x0 / 256, (rem - 1) as nat));
            assert(le_bytes(v as nat, k as nat) =~= r@ + le_bytes(x as nat, (k - i) as nat));
        }
    }
    proof {
        assert(le_bytes(v as nat, k as nat) =~= r@);
    }
    r
}

/// Low-level little-endian decoder shared by the frame-length and
/// correlation-ID codecs.
fn decode_le(b: &Vec<u8>) -> (r: u128)
    requires
        b@.len() <= 16,
    ensures
        r as nat == le_value(b@),
{
    let n = b.len();
    let mut x: u128 = 0;
    let mut i: usize = n;
    proof {
        assert(b@.skip(n as int) =~= Seq::<u8>::empty());
        vstd::arithmetic::power::lemma_pow_positive(256, 0);
    }
    while i > 0
        invariant
            i <= n,
            n == b@.len() <= 16,
            x as nat == le_value(b@.skip(i as int)),
            (x as nat) < pow(256, (n - i) as nat),
        decreases i,
    {
        proof {
            reveal(pow);
            vstd::arithmetic::power::lemma_pow_increases(256, (n - i) as nat, 15);
            assert(pow(256, 16) == 256 * pow(256, 15));
            lemma_pow256_16();
        }
        i = i - 1;
        x = x * 256 + (b[i] as u128);
        proof {
            reveal(pow);
            let s = b@.skip(i as int);
            assert(s.skip(1) =~= b@.skip(i + 1));
            assert(le_value(s) == s[0] + 256 * le_value(s.skip(1)));
            assert(pow(256, (n - i) as nat) == 256 * pow(256, (n - i - 1) as nat));
        }
    }
    proof {
        assert(b@.skip(0) =~= b@);
    }
    x
}

/// Encodes a frame-length prefix as 4 little-endian bytes.
pub fn encode_frame_len(len: u32) -> (r: Vec<u8>)
    ensures
        r@ == le_bytes(len as nat, 4),
{
    encode_le(len as u128, 4)
}

/// Decodes a 4-byte little-endian frame-length prefix.
pub fn decode_frame_len(b: &Vec<u8>) -> (r: u32)
    requires
        b@.len() == 4,
    ensures
        r as nat == le_value(b@),
{
    proof {
        lemma_le_value_bound(b@);
        lemma_pow256_4();
    }
    decode_le(b) as u32
}

/// Encodes a 128-bit correlation ID as 16 little-endian bytes, the form in
/// which it crosses the wire during the handshake.
pub fn encode_cid(cid: u128) -> (r: Vec<u8>)
    ensures
        r@ == le_bytes(cid as nat, 16),
{
    encode_le(cid, 16)
}

/// Decodes a 16-byte little-endian correlation ID.
pub fn decode_cid(b: &Vec<u8>) -> (r: u128)
    requires
        b@.len() == 16,
    ensures
        r as nat == le_value(b@),
{
    decode_le(b)
}

/// The handshake reply the server sends on the first member flow of a
/// session: the bond width as one byte, then the 16-byte correlation ID.
pub open spec fn handshake_reply(width: u8, cid: u128) -> Seq<u8> {
    seq![width] + le_bytes(cid as nat, 16)
}

/// Encodes the handshake reply.
pub fn encode_handshake_reply(width: u8, cid: u128) -> (r: Vec<u8>)
    ensures
        r@ == handshake_reply(width, cid),
{
    let mut r: Vec<u8> = Vec::new();
    r.push(width);
    let mut tail = encode_cid(cid);
    proof {
        let ghost head = r@;
        assert(head + tail@ =~= handshake_reply(width, cid));
    }
    r.append(&mut tail);
    r
}

/// Decodes a 17-byte handshake reply into the bond width and the
/// correlation ID.
pub fn decode_handshake_reply(b: &Vec<u8>) -> (r: (u8, u128))
    requires
        b@.len() == 17,
    ensures
        r.0 == b@[0],
        r.1 as nat == le_value(b@.skip(1)),
{
    let width = b[0];
    let mut tail: Vec<u8> = Vec::new();
    let mut i: usize = 1;
    while i < 17
        invariant
            1 <= i <= 17,
            b@.len() == 17,
            tail@ =~= b@.skip(1).take(i - 1),
        decreases 17 - i,
    {
        tail.push(b[i]);
        i = i + 1;
        proof {
            assert(tail@ =~= b@.skip(1).take(i - 1));
        }
    }
    proof {
        assert(b@.skip(1).take(16) =~= b@.skip(1));
    }
    let cid = decode_cid(&tail);
    (width, cid)
}

} // verus!
