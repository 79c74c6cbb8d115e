//! Embedding vectors and similarity ranking.
//!
//! An embedding is a fixed-length vector of IEEE 754 binary32 values. The
//! library carries each value as its 32-bit pattern (`u32`), so that storage
//! encoding, decoding and ranking are exact bit-level operations; the caller
//! converts between `f32` and bit patterns at the boundary.

use vstd::prelude::*;

verus! {

/// The byte at little-endian position `j` of the 32-bit word `w`.
pub open spec fn word_byte(w: u32, j: int) -> u8 {
    ((w >> (8 * j)) & 0xff) as u8
}

/// Little-endian byte encoding of a word sequence: four bytes per word.
pub open spec fn encoded_words(words: Seq<u32>) -> Seq<u8> {
    Seq::new(words.len() * 4, |i: int| word_byte(words[i / 4], i % 4))
}

/// The word formed from four little-endian bytes.
pub open spec fn word_of_bytes(b0: u8, b1: u8, b2: u8, b3: u8) -> u32 {
    (b0 as u32) | ((b1 as u32) << 8) | ((b2 as u32) << 16) | ((b3 as u32) << 24)
}

/// Words read from a byte sequence in groups of four; a trailing group of
/// fewer than four bytes is dropped.
pub open spec fn decoded_words(bytes: Seq<u8>) -> Seq<u32> {
    Seq::new(
        bytes.len() / 4,
        |i: int| word_of_bytes(bytes[4 * i], bytes[4 * i + 1], bytes[4 * i + 2], bytes[4 * i + 3]),
    )
}

/// Serialize a vector of 32-bit patterns to little-endian bytes for storage.
#[verifier::loop_isolation(false)]
pub fn vector_to_bytes(words: &Vec<u32>) -> (r: Vec<u8>)
    ensures
        r@ == encoded_words(words@),
{
    let mut r: Vec<u8> = Vec::new();
    let n = words.len();
    for i in 0..n
        invariant
            n == words@.len(),
            r@.len() == 4 * i,
            r@ =~= encoded_words(words@.take(i as int)),
    {
        let w = words[i];
        r.push((w & 0xff) as u8);
        r.push(((w >> 8) & 0xff) as u8);
        r.push(((w >> 16) & 0xff) as u8);
        r.push(((w >> 24) & 0xff) as u8);
        proof {
            assert(w & 0xff == (w >> 0) & 0xff) by (bit_vector);
            assert(r@ =~= encoded_words(words@.take(i + 1)));
        }
    }
    proof {
        assert(words@.take(n as int) =~= words@);
    }
    r
}

/// Deserialize stored bytes back to 32-bit patterns, four bytes per word;
/// a trailing partial group is dropped.
#[verifier::loop_isolation(false)]
pub fn bytes_to_vector(bytes: &Vec<u8>) -> (r: Vec<u32>)
    ensures
        r@ == decoded_words(bytes@),
{
    let mut r: Vec<u32> = Vec::new();
    let n = bytes.len() / 4;
    for i in 0..n
        invariant
            n == bytes@.len() / 4,
            r@.len() == i,
            r@ =~= decoded_words(bytes@).take(i as int),
    {
        proof {
            assert(4 * (bytes@.len() / 4) <= bytes@.len()) by (nonlinear_arith);
        }
        let b0 = bytes[4 * i];
        let b1 = bytes[4 * i + 1];
        let b2 = bytes[4 * i + 2];
        let b3 = bytes[4 * i + 3];
        let w = (b0 as u32) | ((b1 as u32) << 8) | ((b2 as u32) << 16) | ((b3 as u32) << 24);
        r.push(w);
        proof {
            assert(r@ =~= decoded_words(bytes@).take(i + 1));
        }
    }
    proof {
        assert(decoded_words(bytes@).take(n as int) =~= decoded_words(bytes@));
    }
    r
}

/// Encoding then decoding a word vector returns it exactly. Together with the
/// bijection between finite `f32` values and their bit patterns, this is the
/// exact byte-level round trip of stored embeddings.
pub proof fn lemma_vector_bytes_round_trip(words: Seq<u32>)
    ensures
        decoded_words(encoded_words(words)) == words,
{
    let enc = encoded_words(words);
    assert forall|i: int| 0 <= i < words.len() implies decoded_words(enc)[i] == words[i] by {
        let w = words[i];
        assert(enc[4 * i] == word_byte(w, 0));
        assert(enc[4 * i + 1] == word_byte(w, 1));
        assert(enc[4 * i + 2] == word_byte(w, 2));
        assert(enc[4 * i + 3] == word_byte(w, 3));
        assert(word_of_bytes(
            ((w >> 0) & 0xff) as u8,
            ((w >> 8) & 0xff) as u8,
            ((w >> 16) & 0xff) as u8,
            ((w >> 24) & 0xff) as u8,
        ) == w) by (bit_vector);
    }
    assert(decoded_words(enc) =~= words);
}

/// The order key of an `f32` bit pattern: an order embedding of the IEEE 754
/// total order into the unsigned order on `u32`, so that sorting keys
/// descending sorts scores descending.
pub open spec fn spec_score_key(bits: u32) -> u32 {
    if bits & 0x8000_0000 != 0 {
        !bits
    } else {
        bits | 0x8000_0000
    }
}

/// Turn an `f32` bit pattern into its sort key: negative patterns have all
/// bits flipped, non-negative ones have the sign bit set.
pub fn score_key(bits: u32) -> (r: u32)
    ensures
        r == spec_score_key(bits),
{
    if bits & 0x8000_0000 != 0 {
        !bits
    } else {
        bits | 0x8000_0000
    }
}

/// One ranked search hit: the asset, the order key of its similarity score,
/// and the position the asset had in the scanned input.
#[derive(Debug, Clone)]
pub struct ScoredEntry {
    pub asset_id: String,
    pub key: u32,
    pub ord: usize,
}

/// Strict ranking order: higher key first; on equal keys, earlier input
/// position first.
pub open spec fn ranks_before(a: ScoredEntry, b: ScoredEntry) -> bool {
    a.key > b.key || (a.key == b.key && a.ord < b.ord)
}

/// The entry that input position `p` of `entries` contributes to the ranking.
pub open spec fn entry_at(entries: Seq<(String, u32)>, p: int) -> ScoredEntry {
    ScoredEntry { asset_id: entries[p].0, key: entries[p].1, ord: p as usize }
}

/// Whether input position `p` is represented in the ranking `r`.
pub open spec fn in_ranking(r: Seq<ScoredEntry>, p: int) -> bool {
    exists|i: int| 0 <= i < r.len() && (#[trigger] r[i]).ord == p
}

proof fn lemma_ranks_total(a: ScoredEntry, b: ScoredEntry)
    requires
        a.ord != b.ord,
    ensures
        ranks_before(a, b) || ranks_before(b, a),
{
}

/// Rank scored assets: stable descending sort by key (ties keep input order)
/// followed by truncation to the best `k`. The contract pins the result
/// completely: it lists, in ranking order, the `min(k, n)` entries of the
/// input that every omitted entry ranks after.
#[verifier::loop_isolation(false)]
pub fn semantic_rank(entries: &Vec<(String, u32)>, k: usize) -> (r: Vec<ScoredEntry>)
    ensures
        r@.len() == if k < entries@.len() { k as int } else { entries@.len() as int },
        forall|i: int| 0 <= i < r@.len() ==> #[trigger] r@[i].ord < entries@.len(),
        forall|i: int| 0 <= i < r@.len() ==> #[trigger] r@[i] == entry_at(entries@, r@[i].ord as int),
        forall|i: int, j: int| 0 <= i < j < r@.len() ==> ranks_before(#[trigger] r@[i], #[trigger] r@[j]),
        forall|p: int|
            0 <= p < entries@.len() && !(#[trigger] in_ranking(r@, p)) ==> forall|i: int|
                0 <= i < r@.len() ==> ranks_before(#[trigger] r@[i], entry_at(entries@, p)),
        r@.len() > 0 ==> forall|p: int| 0 <= p < entries@.len() ==> r@[0].key >= (#[trigger] entries@[p]).1,
{
    let n = entries.len();
    let mut sorted: Vec<ScoredEntry> = Vec::new();
    for p in 0..n
        invariant
            n == entries@.len(),
            sorted@.len() == p,
            forall|i: int| 0 <= i < sorted@.len() ==> #[trigger] sorted@[i].ord < p,
            forall|i: int|
                0 <= i < sorted@.len() ==> #[trigger] sorted@[i] == entry_at(
                    entries@,
                    sorted@[i].ord as int,
                ),
            forall|i: int, j: int|
                0 <= i < j < sorted@.len() ==> ranks_before(
                    #[trigger] sorted@[i],
                    #[trigger] sorted@[j],
                ),
            forall|q: int| 0 <= q < p ==> #[trigger] in_ranking(sorted@, q),
    {
        let e = ScoredEntry { asset_id: entries[p].0.clone(), key: entries[p].1, ord: p };
        assert(e == entry_at(entries@, p as int));
        let mut pos: usize = 0;
        while pos < sorted.len() && !(e.key > sorted[pos].key || (e.key == sorted[pos].key
            && e.ord < sorted[pos].ord))
            invariant
                pos <= sorted@.len(),
                forall|i: int| 0 <= i < pos ==> ranks_before(#[trigger] sorted@[i], e),
            decreases sorted@.len() - pos,
        {
            proof {
                lemma_ranks_total(sorted@[pos as int], e);
            }
            pos = pos + 1;
        }
        assert(pos < sorted@.len() ==> ranks_before(e, sorted@[pos as int]));
        let ghost old_sorted = sorted@;
        sorted.insert(pos, e);
        proof {
            assert forall|i: int, j: int| 0 <= i < j < sorted@.len() implies ranks_before(
                #[trigger] sorted@[i],
                #[trigger] sorted@[j],
            ) by {
                if j < pos {
                } else if i < pos && j == pos {
                } else if i == pos {
                    // old_sorted[pos..] all rank after e: pos stopped at the
                    // first entry that e ranks before, and the rest follow by
                    // sortedness of old_sorted.
                    assert(ranks_before(e, old_sorted[pos as int]));
                    if j > pos + 1 {
                        assert(ranks_before(old_sorted[pos as int], old_sorted[j - 1]));
                    }
                } else if i > pos && j > pos {
                } else {
                    // i < pos < j
                    if j > pos {
                        assert(ranks_before(e, old_sorted[j - 1]) || j == pos + 1);
                    }
                }
            }
            assert forall|q: int| 0 <= q < p + 1 implies #[trigger] in_ranking(sorted@, q) by {
                if q == p {
                    assert(sorted@[pos as int].ord == q);
                } else {
                    assert(in_ranking(old_sorted, q));
                    let w = choose|i: int| 0 <= i < old_sorted.len() && (#[trigger] old_sorted[i]).ord == q;
                    if w < pos {
                        assert(sorted@[w].ord == q);
                    } else {
                        assert(sorted@[w + 1].ord == q);
                    }
                }
            }
        }
    }
    let ghost full = sorted@;
    let keep = if k < n { k } else { n };
    sorted.truncate(keep);
    proof {
        assert(sorted@ =~= full.take(keep as int));
        assert forall|p: int|
            0 <= p < entries@.len() && !(#[trigger] in_ranking(sorted@, p)) implies forall|i: int|
            0 <= i < sorted@.len() ==> ranks_before(#[trigger] sorted@[i], entry_at(entries@, p)) by {
            assert(in_ranking(full, p));
            let w = choose|i: int| 0 <= i < full.len() && (#[trigger] full[i]).ord == p;
            assert(full[w].ord == p);
            if w < keep {
                assert(sorted@[w] == full[w]);
                assert(in_ranking(sorted@, p));
            }
            assert(w >= keep);
            assert(full[w] == entry_at(entries@, p));
            assert forall|i: int| 0 <= i < sorted@.len() implies ranks_before(
                #[trigger] sorted@[i],
                entry_at(entries@, p),
            ) by {
                assert(ranks_before(full[i], full[w]));
            }
        }
        if sorted@.len() > 0 {
            assert forall|p: int| 0 <= p < entries@.len() implies sorted@[0].key >= (#[trigger] entries@[p]).1 by {
                if in_ranking(sorted@, p) {
                    let i = choose|i: int| 0 <= i < sorted@.len() && (#[trigger] sorted@[i]).ord == p;
                    assert(sorted@[i] == entry_at(entries@, p));
                    if i > 0 {
                        assert(ranks_before(sorted@[0], sorted@[i]));
                    }
                } else {
                    assert(ranks_before(sorted@[0], entry_at(entries@, p)));
                }
            }
        }
    }
    sorted
}

} // verus!
