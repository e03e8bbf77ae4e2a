//! Keys for pointer authentication.
//!
//! The seeds of the device tree and words from the machine are hashed together, so
//! that a bad ingredient does not spoil a good one. Ten words are needed, two for each
//! key; one hash gives four.
use vstd::prelude::*;

use crate::boot::sha256;
use crate::bytes;

verus! {

/// Number of key words.
pub const KEY_WORDS: usize = 10;

/// What every hashed message starts with: `k0-pac-boot-key-v1`.
pub open spec fn domain() -> Seq<u8> {
    seq![
        0x6B,
        0x30,
        0x2D,
        0x70,
        0x61,
        0x63,
        0x2D,
        0x62,
        0x6F,
        0x6F,
        0x74,
        0x2D,
        0x6B,
        0x65,
        0x79,
        0x2D,
        0x76,
        0x31,
    ]
}

/// The bytes of a list of words, each the least significant byte first.
pub open spec fn words_bytes(words: Seq<u64>) -> Seq<u8>
    decreases words.len(),
{
    if words.len() == 0 {
        Seq::empty()
    } else {
        words_bytes(words.drop_last()) + bytes::le_bytes(words.last())
    }
}

/// The message that block `counter` is the hash of: the domain, the counter, the length
/// of the seed, the seed and the extra words.
pub open spec fn message(counter: u8, seed: Seq<u8>, extra: Seq<u64>) -> Seq<u8> {
    domain() + seq![counter] + bytes::le_bytes(seed.len() as u64) + seed + words_bytes(extra)
}

/// The key words in three blocks of 32 bytes: four in the first, four in the second,
/// two in the third.
pub open spec fn keys_in(b0: Seq<u8>, b1: Seq<u8>, b2: Seq<u8>) -> Seq<u64> {
    Seq::new(
        KEY_WORDS as nat,
        |i: int|
            if i < 4 {
                bytes::le64_at(b0, 8 * i) as u64
            } else if i < 8 {
                bytes::le64_at(b1, 8 * (i - 4)) as u64
            } else {
                bytes::le64_at(b2, 8 * (i - 8)) as u64
            },
    )
}

/// The message that block `counter` is the hash of.
pub fn block_message(counter: u8, seed: &[u8], extra: &[u64]) -> (r: Vec<u8>)
    ensures
        r@ == message(counter, seed@, extra@),
{
    let head: [u8; 18] = [
        0x6B,
        0x30,
        0x2D,
        0x70,
        0x61,
        0x63,
        0x2D,
        0x62,
        0x6F,
        0x6F,
        0x74,
        0x2D,
        0x6B,
        0x65,
        0x79,
        0x2D,
        0x76,
        0x31,
    ];
    let mut out: Vec<u8> = Vec::new();
    let mut i: usize = 0;
    while i < 18
        invariant
            i <= 18,
            out@ == head@.take(i as int),
        decreases 18 - i,
    {
        out.push(head[i]);
        i += 1;
        assert(out@ =~= head@.take(i as int));
    }
    assert(out@ =~= domain());
    out.push(counter);
    bytes::push_le64(&mut out, seed.len() as u64);
    let ghost start = domain() + seq![counter] + bytes::le_bytes(seed.len() as u64);
    assert(out@ =~= start + seed@.take(0));
    let mut j: usize = 0;
    while j < seed.len()
        invariant
            j <= seed.len(),
            out@ == start + seed@.take(j as int),
        decreases seed.len() - j,
    {
        out.push(seed[j]);
        j += 1;
        assert(out@ =~= start + seed@.take(j as int));
    }
    assert(seed@.take(seed@.len() as int) =~= seed@);
    assert(out@ =~= start + seed@ + words_bytes(extra@.take(0)));
    let mut k: usize = 0;
    while k < extra.len()
        invariant
            k <= extra.len(),
            out@ == start + seed@ + words_bytes(extra@.take(k as int)),
        decreases extra.len() - k,
    {
        bytes::push_le64(&mut out, extra[k]);
        k += 1;
        proof {
            let upto = extra@.take(k as int);
            assert(upto.drop_last() =~= extra@.take(k - 1));
            assert(out@ =~= start + seed@ + words_bytes(upto));
        }
    }
    assert(extra@.take(extra@.len() as int) =~= extra@);
    out
}

/// The key words in three blocks.
pub fn keys_from_blocks(b0: &[u8; 32], b1: &[u8; 32], b2: &[u8; 32]) -> (r: [u64; 10])
    ensures
        r@ == keys_in(b0@, b1@, b2@),
{
    let mut keys: [u64; 10] = [0u64;10];
    let mut i: usize = 0;
    while i < 10
        invariant
            i <= 10,
            forall|j: int| 0 <= j < i ==> keys@[j] == #[trigger] keys_in(b0@, b1@, b2@)[j],
        decreases 10 - i,
    {
        keys[i] = if i < 4 {
            bytes::le64(b0, 8 * i)
        } else if i < 8 {
            bytes::le64(b1, 8 * (i - 4))
        } else {
            bytes::le64(b2, 8 * (i - 8))
        };
        i += 1;
    }
    assert(keys@ =~= keys_in(b0@, b1@, b2@));
    keys
}

/// Derives the key words from the seed of the device tree, which may be empty, and
/// words from the machine (the counter, a hardware random number).
pub fn derive_pac_keys(seed: &[u8], extra: &[u64]) -> (r: [u64; 10])
    ensures
        r@ == keys_in(
            sha256::sha256(message(0, seed@, extra@)),
            sha256::sha256(message(1, seed@, extra@)),
            sha256::sha256(message(2, seed@, extra@)),
        ),
{
    let b0 = sha256::digest(block_message(0, seed, extra).as_slice());
    let b1 = sha256::digest(block_message(1, seed, extra).as_slice());
    let b2 = sha256::digest(block_message(2, seed, extra).as_slice());
    keys_from_blocks(&b0, &b1, &b2)
}

/// Different blocks are hashes of different messages.
pub proof fn lemma_blocks_differ(c1: u8, c2: u8, seed: Seq<u8>, extra: Seq<u64>)
    requires
        c1 != c2,
    ensures
        message(c1, seed, extra) != message(c2, seed, extra),
{
    assert(message(c1, seed, extra)[18] == c1);
    assert(message(c2, seed, extra)[18] == c2);
}

/// Each word has its 8 bytes, one after the other.
proof fn lemma_words(words: Seq<u64>, k: int)
    requires
        0 <= k < words.len(),
    ensures
        words_bytes(words).len() == 8 * words.len(),
        words_bytes(words).subrange(8 * k, 8 * k + 8) == bytes::le_bytes(words[k]),
    decreases words.len(),
{
    let rest = words.drop_last();
    if rest.len() > 0 {
        lemma_words(rest, if k < rest.len() {
            k
        } else {
            0
        });
    }
    let all = words_bytes(words);
    let last = bytes::le_bytes(words.last());
    assert(all == words_bytes(rest) + last);
    if k < rest.len() {
        assert(all.subrange(8 * k, 8 * k + 8) =~= words_bytes(rest).subrange(8 * k, 8 * k + 8));
    } else {
        assert(all.subrange(8 * k, 8 * k + 8) =~= last);
    }
}

/// Where the ingredients are in a hashed message: the text `k0-pac-boot-key-v1`, the
/// counter, the length of the seed, every byte of the seed and every extra word.
pub proof fn lemma_message(counter: u8, seed: Seq<u8>, extra: Seq<u64>)
    requires
        seed.len() <= u64::MAX,
    ensures
        ({
            let m = message(counter, seed, extra);
            let n = seed.len() as int;
            &&& m.len() == 27 + n + 8 * extra.len()
            &&& m.take(18) == seq![
                0x6Bu8, 0x30, 0x2D, 0x70, 0x61, 0x63, 0x2D, 0x62, 0x6F, 0x6F, 0x74, 0x2D, 0x6B,
                0x65, 0x79, 0x2D, 0x76, 0x31,
            ]
            &&& m[18] == counter
            &&& bytes::little(m, 19, 8) == n
            &&& m.subrange(27, 27 + n) == seed
            &&& forall|k: int|
                0 <= k < extra.len() ==> bytes::little(m, 27 + n + 8 * k, 8) == #[trigger] extra[k]
        }),
{
    reveal_with_fuel(bytes::little, 9);
    let m = message(counter, seed, extra);
    let n = seed.len() as int;
    let words = words_bytes(extra);
    if extra.len() > 0 {
        lemma_words(extra, 0);
    }
    assert(m.take(18) =~= domain());
    let len = bytes::le_bytes(seed.len() as u64);
    bytes::lemma_le_bytes(seed.len() as u64);
    assert(forall|i: int| 0 <= i < 8 ==> m[19 + i] == #[trigger] len[i]);
    assert(m[19] == len[0] && m[20] == len[1] && m[21] == len[2] && m[22] == len[3] && m[23]
        == len[4] && m[24] == len[5] && m[25] == len[6] && m[26] == len[7]);
    assert(m.subrange(27, 27 + n) =~= seed);
    assert forall|k: int| 0 <= k < extra.len() implies bytes::little(m, 27 + n + 8 * k, 8)
        == #[trigger] extra[k] by {
        lemma_words(extra, k);
        bytes::lemma_le_bytes(extra[k]);
        let b = bytes::le_bytes(extra[k]);
        let at = 27 + n + 8 * k;
        assert(forall|i: int|
            0 <= i < 8 ==> #[trigger] b[i] == words.subrange(8 * k, 8 * k + 8)[i]);
        assert(forall|i: int| 0 <= i < words.len() ==> m[27 + n + i] == #[trigger] words[i]);
        assert(m[at] == words[8 * k] && m[at + 1] == words[8 * k + 1] && m[at + 2] == words[8 * k
            + 2] && m[at + 3] == words[8 * k + 3] && m[at + 4] == words[8 * k + 4] && m[at + 5]
            == words[8 * k + 5] && m[at + 6] == words[8 * k + 6] && m[at + 7] == words[8 * k + 7]);
        assert(b[0] == words[8 * k] && b[1] == words[8 * k + 1] && b[2] == words[8 * k + 2] && b[3]
            == words[8 * k + 3] && b[4] == words[8 * k + 4] && b[5] == words[8 * k + 5] && b[6]
            == words[8 * k + 6] && b[7] == words[8 * k + 7]);
    }
}

/// No ingredient is lost: messages are alike only where the counter, the seed and the
/// extra words are.
pub proof fn lemma_all_counts(
    c1: u8,
    seed1: Seq<u8>,
    extra1: Seq<u64>,
    c2: u8,
    seed2: Seq<u8>,
    extra2: Seq<u64>,
)
    requires
        seed1.len() <= u64::MAX,
        seed2.len() <= u64::MAX,
        message(c1, seed1, extra1) == message(c2, seed2, extra2),
    ensures
        c1 == c2,
        seed1 == seed2,
        extra1 == extra2,
{
    lemma_message(c1, seed1, extra1);
    lemma_message(c2, seed2, extra2);
    let m = message(c1, seed1, extra1);
    let n = seed1.len() as int;
    assert(seed2.len() == n);
    assert forall|k: int| 0 <= k < extra1.len() implies extra1[k] == extra2[k] by {
        assert(bytes::little(m, 27 + n + 8 * k, 8) == extra1[k]);
        assert(bytes::little(m, 27 + n + 8 * k, 8) == extra2[k]);
    }
    assert(extra1 =~= extra2);
}

/// The key words are the words of the blocks, in order and each once: word `i` is the
/// word `i % 4` of block `i / 4`.
pub proof fn lemma_keys(b0: Seq<u8>, b1: Seq<u8>, b2: Seq<u8>, i: int)
    requires
        0 <= i < 10,
    ensures
        keys_in(b0, b1, b2).len() == 10,
        keys_in(b0, b1, b2)[i] == bytes::little(seq![b0, b1, b2][i / 4], 8 * (i % 4), 8),
{
    bytes::lemma_little(b0, 8 * (i % 4));
    bytes::lemma_little(b1, 8 * (i % 4));
    bytes::lemma_little(b2, 8 * (i % 4));
}

} // verus!
