//! Encoding: looking up each input character's code in the table, in input
//! order, and packing the concatenated bits into bytes. The whole pipeline
//! is a function of the input text alone, so two runs on the same text
//! yield the same table and the same bytes.

use vstd::prelude::*;
use crate::bits::{pack_bits, BitWriter, lemma_pack_bits_len};
use crate::codes::{code_entries, lookup, table_view, generate_binary_table, lookup_code};
use crate::freq::frequency_pairs;
use crate::tree::{build_from, leaves_of, huffman_tree_builder};

verus! {

/// The concatenation, over the text in order, of each character's code in
/// the table. A character without an entry contributes nothing; the
/// encoder treats that as fatal and never produces such an output.
pub open spec fn encoded_bits(text: Seq<char>, entries: Seq<(char, Seq<bool>)>) -> Seq<bool>
    decreases text.len(),
{
    if text.len() == 0 {
        Seq::empty()
    } else {
        encoded_bits(text.drop_last(), entries) + (match lookup(entries, text.last()) {
            Some(code) => code,
            None => Seq::empty(),
        })
    }
}

/// The summed lengths of the codes of the text's characters.
pub open spec fn total_code_len(text: Seq<char>, entries: Seq<(char, Seq<bool>)>) -> int
    decreases text.len(),
{
    if text.len() == 0 {
        0
    } else {
        total_code_len(text.drop_last(), entries) + (match lookup(entries, text.last()) {
            Some(code) => code.len() as int,
            None => 0,
        })
    }
}

/// Round-trip length: the encoded stream holds exactly as many bits as the
/// codes of the input characters sum to, and its packed form exactly
/// ceil(bits / 8) bytes.
pub proof fn lemma_round_trip_length(text: Seq<char>, entries: Seq<(char, Seq<bool>)>)
    ensures
        encoded_bits(text, entries).len() == total_code_len(text, entries),
        pack_bits(encoded_bits(text, entries)).len() == (total_code_len(text, entries) + 7) / 8,
    decreases text.len(),
{
    if text.len() > 0 {
        lemma_round_trip_length(text.drop_last(), entries);
    }
    lemma_pack_bits_len(encoded_bits(text, entries));
}

/// Looks up every character of the text in order and returns the
/// concatenated bits. Characters absent from the table are ruled out by
/// contract: the pipeline only calls this with the table derived from the
/// same text.
pub fn encode_text(text: &Vec<char>, table: &Vec<(char, Vec<bool>)>) -> (bits: Vec<bool>)
    requires
        forall|i: int|
            0 <= i < text@.len() ==> lookup(table_view(table@), text@[i]) is Some,
    ensures
        bits@ == encoded_bits(text@, table_view(table@)),
{
    let mut bits: Vec<bool> = Vec::new();
    let mut i: usize = 0;
    while i < text.len()
        invariant
            i <= text@.len(),
            forall|n: int|
                0 <= n < text@.len() ==> lookup(table_view(table@), text@[n]) is Some,
            bits@ == encoded_bits(text@.take(i as int), table_view(table@)),
        decreases text@.len() - i,
    {
        let ghost t1 = text@.take(i as int);
        let ghost t2 = text@.take(i as int + 1);
        proof {
            assert(t2.drop_last() =~= t1);
            assert(t2.last() == text@[i as int]);
        }
        let c = text[i];
        let found = lookup_code(table, c);
        match found {
            Some(code) => {
                let ghost b0 = bits@;
                let mut k: usize = 0;
                while k < code.len()
                    invariant
                        k <= code@.len(),
                        bits@ == b0 + code@.take(k as int),
                    decreases code@.len() - k,
                {
                    bits.push(code[k]);
                    proof {
                        assert(code@.take(k as int + 1) =~= code@.take(k as int).push(
                            code@[k as int],
                        ));
                        assert(b0 + code@.take(k as int + 1) =~= (b0 + code@.take(k as int)).push(
                            code@[k as int],
                        ));
                    }
                    k = k + 1;
                }
                proof {
                    assert(code@.take(k as int) =~= code@);
                    assert(bits@ == b0 + code@);
                    assert(encoded_bits(t2, table_view(table@)) == encoded_bits(
                        t1,
                        table_view(table@),
                    ) + code@);
                }
            },
            None => {
                proof {
                    assert(lookup(table_view(table@), text@[i as int]) is Some);
                    assert(false);
                }
            },
        }
        i = i + 1;
    }
    proof {
        assert(text@.take(i as int) =~= text@);
    }
    bits
}

/// Packs a bit sequence into bytes, most significant bit first, padding
/// the final partial byte with zeros in its low-order positions.
pub fn pack(bits: &Vec<bool>) -> (out: Vec<u8>)
    ensures
        out@ == pack_bits(bits@),
{
    let mut writer = BitWriter::new();
    let mut i: usize = 0;
    while i < bits.len()
        invariant
            i <= bits@.len(),
            writer.wf(),
            writer.bits() == bits@.take(i as int),
        decreases bits@.len() - i,
    {
        writer.write_bit(bits[i]);
        proof {
            assert(bits@.take(i as int + 1) =~= bits@.take(i as int).push(bits@[i as int]));
        }
        i = i + 1;
    }
    proof {
        assert(bits@.take(i as int) =~= bits@);
    }
    writer.flush()
}

/// The code table that the pipeline derives from a text: the table of the
/// tree built from the text's frequency table.
pub open spec fn table_spec(text: Seq<char>) -> Seq<(char, Seq<bool>)> {
    code_entries(build_from(leaves_of(frequency_pairs(text))), Seq::empty())
}

/// What the pipeline produces for a non-empty text: the packed encoding of
/// the text under its own derived code table.
pub open spec fn compress_spec(text: Seq<char>) -> Seq<u8> {
    pack_bits(encoded_bits(text, table_spec(text)))
}

/// Determinism: the output bytes are a function of the input text alone,
/// so any two runs on the same text produce identical bytes.
pub proof fn lemma_compress_deterministic(text: Seq<char>, b1: Seq<u8>, b2: Seq<u8>)
    requires
        b1 == compress_spec(text),
        b2 == compress_spec(text),
    ensures
        b1 == b2,
{
}

/// The whole pipeline: counts frequencies, builds the tree, derives the
/// code table, encodes the text and packs the bits. An empty text yields
/// no output at all; any other text yields exactly its packed encoding.
pub fn compress(text: &Vec<char>) -> (r: Option<Vec<u8>>)
    requires
        text@.len() <= u32::MAX,
    ensures
        r is Some <==> text@.len() > 0,
        match r {
            Some(bytes) => bytes@ == compress_spec(text@),
            None => true,
        },
{
    let tree = huffman_tree_builder(text);
    match tree {
        None => None,
        Some(root) => {
            let table = generate_binary_table(&root);
            proof {
                broadcast use vstd::seq_lib::group_to_multiset_ensures;

                assert forall|i: int| 0 <= i < text@.len() implies lookup(
                    table_view(table@),
                    text@[i],
                ) is Some by {
                    let c = text@[i];
                    crate::freq::lemma_count_of_member(text@, i);
                    crate::freq::lemma_distinct_contains(text@, c);
                    let k = choose|k: int|
                        0 <= k < crate::freq::distinct_chars(text@).len()
                            && crate::freq::distinct_chars(text@)[k] == c;
                    let fp = frequency_pairs(text@);
                    assert(fp[k].0 == c);
                    assert(fp.contains(fp[k]));
                    assert(root.leaves().to_multiset().count(fp[k]) > 0);
                    assert(root.leaves().contains(fp[k]));
                    let n = choose|n: int|
                        0 <= n < root.leaves().len() && root.leaves()[n] == fp[k];
                    crate::codes::lemma_lookup_some(root, Seq::empty(), c, n);
                }
            }
            let bits = encode_text(text, &table);
            let bytes = pack(&bits);
            Some(bytes)
        },
    }
}

} // verus!
