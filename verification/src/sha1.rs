use vstd::prelude::*;

verus! {

// ---------------------------------------------------------------------------
// The SHA-1 algorithm as RFC 3174 describes it, over mathematical sequences.
// ---------------------------------------------------------------------------

/// Circular left shift of a 32-bit word by `n` bits (RFC 3174, section 3).
pub open spec fn rotl(x: u32, n: u32) -> u32 {
    ((x << n) | (x >> ((32 - n) as u32))) as u32
}

/// The logical function f(t; B, C, D) of RFC 3174, section 5.
pub open spec fn spec_f(t: int, b: u32, c: u32, d: u32) -> u32 {
    if 0 <= t <= 19 {
        (b & c) | (!b & d)
    } else if 20 <= t <= 39 {
        b ^ c ^ d
    } else if 40 <= t <= 59 {
        (b & c) | (b & d) | (c & d)
    } else if 60 <= t <= 79 {
        b ^ c ^ d
    } else {
        0
    }
}

/// The constant word K(t) of RFC 3174, section 5.
pub open spec fn spec_k(t: int) -> u32 {
    if 0 <= t <= 19 {
        0x5A827999
    } else if 20 <= t <= 39 {
        0x6ED9EBA1
    } else if 40 <= t <= 59 {
        0x8F1BBCDC
    } else if 60 <= t <= 79 {
        0xCA62C1D6
    } else {
        0
    }
}

/// The initial hash value H0..H4.
pub open spec fn initial_hash() -> Seq<u32> {
    seq![0x67452301u32, 0xEFCDAB89u32, 0x98BADCFEu32, 0x10325476u32, 0xC3D2E1F0u32]
}

/// The `t`-th 32-bit big-endian word of a 64-byte block.
pub open spec fn block_word(block: Seq<u8>, t: int) -> u32 {
    ((block[4 * t] as u32) << 24) | ((block[4 * t + 1] as u32) << 16) | ((block[4 * t + 2] as u32) << 8)
        | (block[4 * t + 3] as u32)
}

/// The message schedule W(t) of a block.
pub open spec fn schedule(block: Seq<u8>, t: nat) -> u32
    decreases t,
{
    if t < 16 {
        block_word(block, t as int)
    } else {
        rotl(
            schedule(block, (t - 3) as nat) ^ schedule(block, (t - 8) as nat) ^ schedule(
                block,
                (t - 14) as nat,
            ) ^ schedule(block, (t - 16) as nat),
            1,
        )
    }
}

/// One round of the compression function on the buffer A, B, C, D, E.
pub open spec fn round(s: Seq<u32>, w: u32, t: int) -> Seq<u32> {
    let temp = rotl(s[0], 5).wrapping_add(spec_f(t, s[1], s[2], s[3])).wrapping_add(s[4]).wrapping_add(
        w,
    ).wrapping_add(spec_k(t));
    seq![temp, s[0], rotl(s[1], 30), s[2], s[3]]
}

/// The buffer A, B, C, D, E after the first `t` rounds on `block`, starting from `h`.
pub open spec fn rounds(h: Seq<u32>, block: Seq<u8>, t: nat) -> Seq<u32>
    decreases t,
{
    if t == 0 {
        h
    } else {
        round(rounds(h, block, (t - 1) as nat), schedule(block, (t - 1) as nat), t - 1)
    }
}

/// The hash value after processing one 64-byte block.
pub open spec fn compress(h: Seq<u32>, block: Seq<u8>) -> Seq<u32> {
    let r = rounds(h, block, 80);
    seq![
        h[0].wrapping_add(r[0]),
        h[1].wrapping_add(r[1]),
        h[2].wrapping_add(r[2]),
        h[3].wrapping_add(r[3]),
        h[4].wrapping_add(r[4]),
    ]
}

/// The hash value after processing the first `n` 64-byte blocks of `data`, starting from `h`.
pub open spec fn hash_blocks(h: Seq<u32>, data: Seq<u8>, n: nat) -> Seq<u32>
    decreases n,
{
    if n == 0 {
        h
    } else {
        compress(hash_blocks(h, data, (n - 1) as nat), data.subrange(64 * (n - 1), 64 * (n as int)))
    }
}

/// The eight big-endian bytes of a 64-bit value.
pub open spec fn be64_bytes(x: u64) -> Seq<u8> {
    seq![
        (x >> 56) as u8,
        (x >> 48) as u8,
        (x >> 40) as u8,
        (x >> 32) as u8,
        (x >> 24) as u8,
        (x >> 16) as u8,
        (x >> 8) as u8,
        x as u8,
    ]
}

/// The four big-endian bytes of a 32-bit word.
pub open spec fn be32_bytes(x: u32) -> Seq<u8> {
    seq![(x >> 24) as u8, (x >> 16) as u8, (x >> 8) as u8, x as u8]
}

/// `count` zero bytes.
pub open spec fn zeros(count: nat) -> Seq<u8> {
    Seq::new(count, |i: int| 0u8)
}

/// Message padding of RFC 3174, section 4: a one bit, then zero bits up to 448 mod 512,
/// then the 64-bit length `bit_len`.
pub open spec fn pad_with_length(msg: Seq<u8>, bit_len: u64) -> Seq<u8> {
    msg + seq![0x80u8] + zeros(((55 - msg.len()) % 64) as nat) + be64_bytes(bit_len)
}

/// The padded message of RFC 3174: `msg` followed by its padding and its length in bits.
pub open spec fn sha1_padding(msg: Seq<u8>) -> Seq<u8> {
    pad_with_length(msg, (msg.len() * 8) as u64)
}

/// The 20-byte message digest: H0, H1, H2, H3, H4 in big-endian order.
pub open spec fn digest_bytes(h: Seq<u32>) -> Seq<u8> {
    be32_bytes(h[0]) + be32_bytes(h[1]) + be32_bytes(h[2]) + be32_bytes(h[3]) + be32_bytes(h[4])
}

/// SHA-1 of a message (RFC 3174).
pub open spec fn sha1(msg: Seq<u8>) -> Seq<u8> {
    let padded = sha1_padding(msg);
    digest_bytes(hash_blocks(initial_hash(), padded, padded.len() / 64))
}

// ---------------------------------------------------------------------------
// Lemmas on block hashing.
// ---------------------------------------------------------------------------

/// Hashing `k + m` blocks is hashing `m` blocks of the rest after hashing `k`.
pub proof fn lemma_hash_blocks_split(h: Seq<u32>, data: Seq<u8>, k: nat, m: nat)
    requires
        64 * ((k + m) as int) <= data.len(),
    ensures
        hash_blocks(h, data, k + m) == hash_blocks(hash_blocks(h, data, k), data.skip(64 * (k as int)), m),
    decreases m,
{
    if m > 0 {
        lemma_hash_blocks_split(h, data, k, (m - 1) as nat);
        assert(data.skip(64 * (k as int)).subrange(64 * (m - 1), 64 * (m as int)) =~= data.subrange(
            64 * (k + m - 1),
            64 * ((k + m) as int),
        ));
        assert((k + m - 1) as nat == (k + (m - 1)) as nat);
    }
}

/// Hashing depends only on the blocks hashed.
pub proof fn lemma_hash_blocks_prefix(h: Seq<u32>, a: Seq<u8>, b: Seq<u8>, n: nat)
    requires
        64 * (n as int) <= a.len(),
        64 * (n as int) <= b.len(),
        a.take(64 * (n as int)) == b.take(64 * (n as int)),
    ensures
        hash_blocks(h, a, n) == hash_blocks(h, b, n),
    decreases n,
{
    if n > 0 {
        assert(a.take(64 * (n - 1)) =~= a.take(64 * (n as int)).take(64 * (n - 1)));
        assert(b.take(64 * (n - 1)) =~= b.take(64 * (n as int)).take(64 * (n - 1)));
        lemma_hash_blocks_prefix(h, a, b, (n - 1) as nat);
        assert(a.subrange(64 * (n - 1), 64 * (n as int)) =~= a.take(64 * (n as int)).subrange(64 * (n - 1), 64 * (n as int)));
        assert(b.subrange(64 * (n - 1), 64 * (n as int)) =~= b.take(64 * (n as int)).subrange(64 * (n - 1), 64 * (n as int)));
    }
}

/// The padding of a message is its full blocks followed by the padding of its last,
/// partial block.
pub proof fn lemma_padding_split(msg: Seq<u8>, bit_len: u64, k: nat)
    requires
        64 * (k as int) <= msg.len(),
        msg.len() - 64 * (k as int) < 64,
    ensures
        pad_with_length(msg, bit_len) =~= msg.take(64 * (k as int)) + pad_with_length(msg.skip(64 * (k as int)), bit_len),
{
    let r = msg.len() - 64 * (k as int);
    assert((55 - msg.len()) % 64 == (55 - r) % 64) by {
        assert(55 - msg.len() == (55 - r) + 64 * (-(k as int)));
        vstd::arithmetic::div_mod::lemma_mod_multiples_vanish(-(k as int), 55 - r, 64);
    }
    assert(msg =~= msg.take(64 * (k as int)) + msg.skip(64 * (k as int)));
}

/// The padded message of RFC 3174, section 4: it fills whole 512-bit blocks, starts
/// with the message, goes on with a one bit (the byte `0x80`) and zero bytes, and ends
/// with the message's length in bits as a 64-bit big-endian number.
pub proof fn lemma_padding_shape(msg: Seq<u8>)
    ensures
        ({
            let p = sha1_padding(msg);
            &&& p.len() % 64 == 0
            &&& msg.len() + 9 <= p.len() < msg.len() + 73
            &&& p.take(msg.len() as int) == msg
            &&& p[msg.len() as int] == 0x80
            &&& forall|i: int| msg.len() < i < p.len() - 8 ==> #[trigger] p[i] == 0
            &&& p.skip(p.len() - 8) == be64_bytes((msg.len() * 8) as u64)
        }),
{
    let p = sha1_padding(msg);
    let z = (55 - msg.len()) % 64;
    assert(0 <= z < 64);
    assert((msg.len() + 1 + z + 8) % 64 == 0) by {
        vstd::arithmetic::div_mod::lemma_fundamental_div_mod(55 - msg.len(), 64);
    }
    assert(p.take(msg.len() as int) =~= msg);
    assert(p.skip(p.len() - 8) =~= be64_bytes((msg.len() * 8) as u64));
}

/// SHA-1 of a message is the hash, from the initial hash value, of the message padded
/// as RFC 3174, section 4 pads it: any byte string that fills whole 64-byte blocks, no
/// more than needed, and holds the message, then the byte `0x80`, then zero bytes,
/// then the message's length in bits as a 64-bit big-endian number.
pub proof fn lemma_sha1_of_padded_message(msg: Seq<u8>, p: Seq<u8>)
    requires
        p.len() % 64 == 0,
        msg.len() + 9 <= p.len() < msg.len() + 73,
        p.take(msg.len() as int) == msg,
        p[msg.len() as int] == 0x80,
        forall|i: int| msg.len() < i < p.len() - 8 ==> #[trigger] p[i] == 0,
        p.skip(p.len() - 8) == be64_bytes((msg.len() * 8) as u64),
    ensures
        sha1(msg) == digest_bytes(hash_blocks(initial_hash(), p, p.len() / 64)),
{
    let q = sha1_padding(msg);
    lemma_padding_shape(msg);
    let n = msg.len() as int;
    assert(p.len() == q.len()) by {
        vstd::arithmetic::div_mod::lemma_fundamental_div_mod(p.len() as int, 64);
        vstd::arithmetic::div_mod::lemma_fundamental_div_mod(q.len() as int, 64);
    }
    assert forall|i: int| 0 <= i < p.len() implies p[i] == q[i] by {
        if i < n {
            assert(p[i] == p.take(n)[i]);
            assert(q[i] == q.take(n)[i]);
        } else if i == n {
        } else if i < p.len() - 8 {
            assert(q[i] == 0);
        } else {
            let k = i - (p.len() - 8);
            assert(p[i] == p.skip(p.len() - 8)[k]);
            assert(q[i] == q.skip(q.len() - 8)[k]);
        }
    }
    assert(p =~= q);
}

// ---------------------------------------------------------------------------
// Executable SHA-1.
// ---------------------------------------------------------------------------

/// `x.rotate_left(n)` for `0 < n < 32`.
fn rotate_left(x: u32, n: u32) -> (r: u32)
    requires
        0 < n < 32,
    ensures
        r == rotl(x, n),
{
    (x << n) | (x >> (32 - n))
}

/// The logical function f(t; B, C, D) used in round `t`.
pub fn sha1_f(t: usize, b: u32, c: u32, d: u32) -> (r: u32)
    ensures
        r == spec_f(t as int, b, c, d),
{
    if t <= 19 {
        (b & c) | ((!b) & d)
    } else if t <= 39 {
        b ^ c ^ d
    } else if t <= 59 {
        (b & c) | (b & d) | (c & d)
    } else if t <= 79 {
        b ^ c ^ d
    } else {
        0
    }
}

/// The constant K(t) added in round `t`.
pub fn sha1_k(t: usize) -> (r: u32)
    ensures
        r == spec_k(t as int),
{
    if t <= 19 {
        0x5A827999
    } else if t <= 39 {
        0x6ED9EBA1
    } else if t <= 59 {
        0x8F1BBCDC
    } else if t <= 79 {
        0xCA62C1D6
    } else {
        0
    }
}

/// Processes one 64-byte block, updating the hash value H0..H4.
pub fn sha1_process_block(block: [u8; 64], hash: &mut [u32; 5])
    ensures
        final(hash)@ == compress(old(hash)@, block@),
{
    let mut abcde: [u32; 5] = *hash;
    let mut w: [u32; 80] = [0u32; 80];
    let mut t: usize = 0;
    while t < 16
        invariant
            t <= 16,
            block@.len() == 64,
            w@.len() == 80,
            forall|i: int| 0 <= i < t ==> w@[i] == #[trigger] schedule(block@, i as nat),
        decreases 16 - t,
    {
        let mut x: u32 = (block[t * 4] as u32) << 24;
        x = x | ((block[t * 4 + 1] as u32) << 16);
        x = x | ((block[t * 4 + 2] as u32) << 8);
        x = x | (block[t * 4 + 3] as u32);
        w[t] = x;
        assert(schedule(block@, t as nat) == block_word(block@, t as int));
        t = t + 1;
    }
    while t < 80
        invariant
            16 <= t <= 80,
            w@.len() == 80,
            forall|i: int| 0 <= i < t ==> w@[i] == #[trigger] schedule(block@, i as nat),
        decreases 80 - t,
    {
        let x = w[t - 3] ^ w[t - 8] ^ w[t - 14] ^ w[t - 16];
        assert(w@[t - 3] == schedule(block@, (t - 3) as nat));
        assert(w@[t - 8] == schedule(block@, (t - 8) as nat));
        assert(w@[t - 14] == schedule(block@, (t - 14) as nat));
        assert(w@[t - 16] == schedule(block@, (t - 16) as nat));
        w[t] = rotate_left(x, 1);
        t = t + 1;
    }
    let ghost h0 = hash@;
    let mut t: usize = 0;
    while t < 80
        invariant
            t <= 80,
            w@.len() == 80,
            forall|i: int| 0 <= i < 80 ==> w@[i] == #[trigger] schedule(block@, i as nat),
            abcde@ == rounds(h0, block@, t as nat),
            hash@ == h0,
        decreases 80 - t,
    {
        let ghost ti: int = t as int;
        assert(w@[ti] == schedule(block@, ti as nat));
        let temp = rotate_left(abcde[0], 5).wrapping_add(sha1_f(t, abcde[1], abcde[2], abcde[3])).wrapping_add(
            abcde[4],
        ).wrapping_add(w[t]).wrapping_add(sha1_k(t));
        let b30 = rotate_left(abcde[1], 30);
        abcde = [temp, abcde[0], b30, abcde[2], abcde[3]];
        t = t + 1;
        assert(abcde@ =~= rounds(h0, block@, t as nat));
    }
    let mut i: usize = 0;
    while i < 5
        invariant
            i <= 5,
            abcde@ == rounds(h0, block@, 80),
            forall|j: int| 0 <= j < i ==> hash@[j] == #[trigger] h0[j].wrapping_add(abcde@[j]),
            forall|j: int| i <= j < 5 ==> hash@[j] == h0[j],
        decreases 5 - i,
    {
        hash[i] = hash[i].wrapping_add(abcde[i]);
        i = i + 1;
    }
    assert(hash@ =~= compress(h0, block@));
}

/// Pads the last, partial block (its first `start` bytes are message) with a one
/// bit, zeros and the message length `len` in bits, and processes the one or two
/// blocks that result.
pub fn sha1_pad_block(block: &mut [u8; 64], start: usize, len: u64, hash: &mut [u32; 5])
    requires
        start < 64,
    ensures
        ({
            let tail = pad_with_length(old(block)@.take(start as int), len);
            &&& final(hash)@ == hash_blocks(old(hash)@, tail, tail.len() / 64)
            &&& final(block)@ == tail.subrange(tail.len() - 64, tail.len() as int)
        }),
{
    let ghost tail = pad_with_length(block@.take(start as int), len);
    let ghost h0 = hash@;
    let ghost msg = block@.take(start as int);
    block[start] = 0b10000000;
    let mut i: usize = start + 1;
    while i < 64
        invariant
            start < i <= 64,
            block@.len() == 64,
            block@.take(start as int) == msg,
            block@[start as int] == 0x80,
            forall|j: int| start < j < i ==> block@[j] == 0,
        decreases 64 - i,
    {
        block[i] = 0;
        i = i + 1;
    }
    if start >= 56 {
        assert((55 - start) % 64 == 119 - start);
        assert(tail.len() == 128);
        assert(block@ =~= tail.subrange(0, 64));
        sha1_process_block(*block, hash);
        let mut i: usize = 0;
        while i < 64
            invariant
                i <= 64,
                block@.len() == 64,
                hash@ == compress(h0, tail.subrange(0, 64)),
                forall|j: int| 0 <= j < i ==> block@[j] == 0,
            decreases 64 - i,
        {
            block[i] = 0;
            i = i + 1;
        }
    } else {
        assert((55 - start) % 64 == 55 - start);
        assert(tail.len() == 64);
    }
    block[56] = (len >> 56) as u8;
    block[57] = (len >> 48) as u8;
    block[58] = (len >> 40) as u8;
    block[59] = (len >> 32) as u8;
    block[60] = (len >> 24) as u8;
    block[61] = (len >> 16) as u8;
    block[62] = (len >> 8) as u8;
    block[63] = (len >> 0) as u8;
    assert((len >> 0) as u8 == len as u8) by (bit_vector);
    let ghost last = tail.subrange(tail.len() - 64, tail.len() as int);
    assert(block@ =~= last);
    let ghost mid = hash@;
    sha1_process_block(*block, hash);
    proof {
        assert(hash_blocks(h0, tail, 0) == h0);
        if start >= 56 {
            assert(mid == hash_blocks(h0, tail, 1)) by {
                assert(tail.subrange(0, 64) =~= tail.subrange(0int, 64int));
            }
            assert(tail.len() / 64 == 2);
        } else {
            assert(tail.len() / 64 == 1);
            assert(mid == hash_blocks(h0, tail, 0));
        }
    }
}

/// Computes the SHA-1 digest of `input`.
pub fn compute_sha1(input: &[u8]) -> (digest: [u8; 20])
    requires
        input@.len() * 8 <= usize::MAX,
    ensures
        digest@ == sha1(input@),
{
    let mut hash: [u32; 5] = [0x67452301, 0xEFCDAB89, 0x98BADCFE, 0x10325476, 0xC3D2E1F0];
    let mut res: [u8; 20] = [0u8; 20];
    let mut block: [u8; 64] = [0u8; 64];
    let mut idx: usize = 0;
    let ghost mut k: nat = 0;
    assert(hash@ =~= initial_hash());
    //process complete blocks
    while input.len() - idx >= 64
        invariant
            idx <= input@.len(),
            idx == 64 * (k as int),
            input@.len() * 8 <= usize::MAX,
            block@.len() == 64,
            hash@ == hash_blocks(initial_hash(), input@, k),
        decreases input@.len() - idx,
    {
        let mut i: usize = 0;
        while i < 64
            invariant
                i <= 64,
                idx + 64 <= input@.len(),
                input@.len() * 8 <= usize::MAX,
                block@.len() == 64,
                forall|j: int| 0 <= j < i ==> block@[j] == input@[idx + j],
            decreases 64 - i,
        {
            block[i] = input[idx + i];
            i = i + 1;
        }
        assert(block@ =~= input@.subrange(64 * (k as int), 64 * ((k + 1) as int)));
        sha1_process_block(block, &mut hash);
        idx = idx + 64;
        proof {
            k = k + 1;
        }
    }
    //last block with padding
    let rem = input.len() - idx;
    let mut i: usize = 0;
    while i < rem
        invariant
            i <= rem,
            rem == input@.len() - idx,
            input@.len() * 8 <= usize::MAX,
            block@.len() == 64,
            rem < 64,
            forall|j: int| 0 <= j < i ==> block@[j] == input@[idx + j],
        decreases rem - i,
    {
        block[i] = input[idx + i];
        i = i + 1;
    }
    let ghost h_full = hash@;
    let bit_len: u64 = (input.len() * 8) as u64;
    assert(block@.take(rem as int) =~= input@.skip(idx as int));
    sha1_pad_block(&mut block, rem, bit_len, &mut hash);
    proof {
        let msg = input@;
        let tail = pad_with_length(msg.skip(64 * (k as int)), bit_len);
        let padded = sha1_padding(msg);
        assert(bit_len == (msg.len() * 8) as u64);
        lemma_padding_split(msg, bit_len, k);
        assert(padded == msg.take(64 * (k as int)) + tail);
        let m = tail.len() / 64;
        assert(tail.len() == 64 || tail.len() == 128);
        assert(padded.len() / 64 == k + m);
        lemma_hash_blocks_split(initial_hash(), padded, k, m as nat);
        assert(padded.skip(64 * (k as int)) =~= tail);
        assert(padded.take(64 * (k as int)) =~= msg.take(64 * (k as int)));
        lemma_hash_blocks_prefix(initial_hash(), padded, msg, k);
        assert(hash@ == hash_blocks(initial_hash(), padded, padded.len() / 64));
    }
    //write hash to result
    let mut i: usize = 0;
    while i < 20
        invariant
            i <= 20,
            res@.len() == 20,
            forall|j: int| 0 <= j < i ==> res@[j] == #[trigger] digest_bytes(hash@)[j],
        decreases 20 - i,
    {
        assert(i >> 2 == i / 4) by (bit_vector);
        assert(i & 3 == i % 4) by (bit_vector);
        let w = hash[i >> 2];
        let sh = 8 * (3 - (i & 0x03));
        res[i] = (w >> sh) as u8;
        proof {
            assert((w >> 0u32) as u8 == w as u8) by (bit_vector);
            assert(res@[i as int] == digest_bytes(hash@)[i as int]);
        }
        i = i + 1;
    }
    assert(res@ =~= digest_bytes(hash@));
    res
}

} // verus!
