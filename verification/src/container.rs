//! The self-describing container: an 8-byte original-length field, an
//! 8-byte tree-length field, the serialized tree, and the encoded body,
//! all little-endian and byte-padded.

use vstd::prelude::*;
use vstd::arithmetic::div_mod::{lemma_div_is_ordered, lemma_fundamental_div_mod_converse};
use vstd::bytes::{
    lemma_auto_spec_u64_to_from_le_bytes, spec_u64_from_le_bytes, spec_u64_to_le_bytes,
    u64_from_le_bytes, u64_to_le_bytes,
};
use crate::bits::{bytes_bits, lemma_bytes_bits_len, pad_len};
use crate::codec::{
    decode, decode_bits, deser_spec, deserialize_tree, encode, encode_bits,
    lemma_deser_consumed, lemma_deser_ser, lemma_encode_decode_bits, lemma_ser_bits_min,
    lemma_strip_decode_bits, lemma_table_encode_agree, ser_bits, serialize_tree, table_bits,
    HuffError,
};
use crate::tree::{
    build_frequency_map, build_huffman_tree, contains_sym, generate_codes, lemma_count_occ_pos,
};

verus! {

/// What decoding owes for each container: the original bytes where the
/// container is well formed, otherwise the error for the first fault found:
/// a short container, material around an empty one, a missing or malformed
/// tree, or a body whose bits end before the declared length is reached.
pub open spec fn spec_decode_container(c: Seq<u8>) -> Result<Seq<u8>, HuffError> {
    if c.len() < 16 {
        Result::Err(HuffError::TruncatedBody)
    } else {
        let orig = spec_u64_from_le_bytes(c.subrange(0, 8));
        let tlen = spec_u64_from_le_bytes(c.subrange(8, 16));
        if orig == 0 {
            if tlen == 0 && c.len() == 16 {
                Result::Ok(Seq::empty())
            } else {
                Result::Err(HuffError::EmptyAlphabet)
            }
        } else if tlen == 0 {
            Result::Err(HuffError::EmptyAlphabet)
        } else if c.len() - 16 < tlen {
            Result::Err(HuffError::MalformedTree)
        } else {
            match deser_spec(bytes_bits(c.subrange(16, 16 + tlen as int))) {
                Option::None => Result::Err(HuffError::MalformedTree),
                Option::Some(p) => {
                    let used = (p.1 + 7) / 8;
                    match decode_bits(p.0, bytes_bits(c.skip(16 + used as int)), orig as nat) {
                        Option::Some(s) => Result::Ok(s),
                        Option::None => Result::Err(HuffError::TruncatedBody),
                    }
                },
            }
        }
    }
}

fn copy_range(bytes: &[u8], start: usize, end: usize) -> (r: Vec<u8>)
    requires
        start <= end <= bytes@.len(),
    ensures
        r@ == bytes@.subrange(start as int, end as int),
{
    let mut r: Vec<u8> = Vec::new();
    let mut i: usize = start;
    proof {
        assert(bytes@.subrange(start as int, start as int) =~= Seq::<u8>::empty());
    }
    while i < end
        invariant
            start <= i <= end <= bytes@.len(),
            r@ == bytes@.subrange(start as int, i as int),
        decreases end - i,
    {
        r.push(bytes[i]);
        i = i + 1;
        proof {
            assert(bytes@.subrange(start as int, i as int) =~= bytes@.subrange(
                start as int,
                i as int - 1,
            ).push(bytes@[i as int - 1]));
        }
    }
    r
}

/// Compresses the input into a container. The central promise is the round
/// trip: the returned container decodes to exactly the input.
pub fn encode_container(input: &[u8]) -> (r: Vec<u8>)
    ensures
        spec_decode_container(r@) == Result::Ok::<Seq<u8>, HuffError>(input@),
        r@.len() >= 16,
        spec_u64_from_le_bytes(r@.subrange(0, 8)) == input@.len(),
        input@.len() == 0 ==> r@.len() == 16 && spec_u64_from_le_bytes(r@.subrange(8, 16)) == 0,
{
    proof {
        lemma_auto_spec_u64_to_from_le_bytes();
    }
    if input.len() == 0 {
        let mut out = u64_to_le_bytes(0);
        let mut tl = u64_to_le_bytes(0);
        out.append(&mut tl);
        proof {
            assert(out@.subrange(0, 8) =~= spec_u64_to_le_bytes(0));
            assert(out@.subrange(8, 16) =~= spec_u64_to_le_bytes(0));
            assert(out@.len() == 16);
            assert(input@ =~= Seq::<u8>::empty());
        }
        return out;
    }
    let freq = build_frequency_map(input);
    let tree = match build_huffman_tree(&freq) {
        Option::Some(t) => t,
        Option::None => {
            proof {
                lemma_count_occ_pos(input@, 0);
            }
            vstd::pervasive::unreached()
        },
    };
    let codes = generate_codes(&tree);
    proof {
        assert forall|i: int|
            0 <= i < input@.len() implies (#[trigger] codes@[input@[i] as int]) is Some by {
            lemma_count_occ_pos(input@, i);
            assert(contains_sym(tree, input@[i]));
        }
    }
    let body = encode(input, &codes);
    let tree_data = serialize_tree(&tree);
    let ghost tdata = tree_data@;
    let ghost bdata = body@;
    let mut out = u64_to_le_bytes(input.len() as u64);
    let mut tl = u64_to_le_bytes(tree_data.len() as u64);
    let ghost orig_v = input.len() as u64;
    let ghost tlen_v = tree_data.len() as u64;
    out.append(&mut tl);
    let mut tree_data = tree_data;
    out.append(&mut tree_data);
    let mut body = body;
    out.append(&mut body);
    proof {
        let c = out@;
        assert(c =~= spec_u64_to_le_bytes(orig_v) + spec_u64_to_le_bytes(tlen_v) + tdata + bdata);
        assert(c.len() == 16 + tdata.len() + bdata.len());
        assert(c.subrange(0, 8) =~= spec_u64_to_le_bytes(orig_v));
        assert(c.subrange(8, 16) =~= spec_u64_to_le_bytes(tlen_v));
        assert(spec_u64_from_le_bytes(c.subrange(0, 8)) == orig_v);
        assert(spec_u64_from_le_bytes(c.subrange(8, 16)) == tlen_v);
        assert(orig_v == input@.len());
        assert(orig_v != 0);

        // The tree section.
        let n = ser_bits(tree).len();
        lemma_ser_bits_min(tree);
        lemma_bytes_bits_len(tdata);
        assert(8 * tdata.len() == n + pad_len(n));
        assert(tlen_v == tdata.len());
        assert(tlen_v != 0);
        assert(c.len() - 16 >= tlen_v);
        assert(c.subrange(16, 16 + tlen_v as int) =~= tdata);
        let pad = Seq::new(pad_len(n), |i: int| false);
        assert(bytes_bits(tdata) == ser_bits(tree) + pad);
        lemma_deser_ser(tree, pad);
        assert(deser_spec(bytes_bits(c.subrange(16, 16 + tlen_v as int))) == Option::Some(
            (crate::codec::strip_freqs(tree), n),
        ));

        // Deserialization consumes exactly the tree section's bytes.
        lemma_fundamental_div_mod_converse(
            n as int + 7,
            8,
            tdata.len() as int,
            7 - pad_len(n) as int,
        );
        assert((n + 7) / 8 == tdata.len());

        // The body section.
        assert(c.skip(16 + tdata.len() as int) =~= bdata);
        assert forall|i: int| 0 <= i < input@.len() implies contains_sym(
            tree,
            #[trigger] input@[i],
        ) by {
            lemma_count_occ_pos(input@, i);
        }
        let tb = table_bits(codes@, input@);
        lemma_table_encode_agree(tree, codes@, input@);
        assert(tb == encode_bits(tree, input@));
        let bpad = Seq::new(pad_len(tb.len()), |i: int| false);
        assert(bytes_bits(bdata) == encode_bits(tree, input@) + bpad);
        lemma_encode_decode_bits(tree, input@, bpad);
        assert(decode_bits(tree, bytes_bits(bdata), orig_v as nat) == Option::Some(input@));
        lemma_strip_decode_bits(tree, bytes_bits(bdata), orig_v as nat);
        assert(decode_bits(
            crate::codec::strip_freqs(tree),
            bytes_bits(c.skip(16 + tdata.len() as int)),
            orig_v as nat,
        ) == Option::Some(input@));
    }
    out
}

/// Decodes a container: exactly what `spec_decode_container` owes for the
/// given bytes, original bytes or error alike.
pub fn decode_container(bytes: &[u8]) -> (r: Result<Vec<u8>, HuffError>)
    ensures
        (match spec_decode_container(bytes@) {
            Result::Ok(s) => r matches Ok(v) && v@ == s,
            Result::Err(e) => r == Err::<Vec<u8>, HuffError>(e),
        }),
{
    let n = bytes.len();
    if n < 16 {
        return Err(HuffError::TruncatedBody);
    }
    let header = copy_range(bytes, 0, 8);
    let orig = u64_from_le_bytes(header.as_slice());
    let header2 = copy_range(bytes, 8, 16);
    let tlen64 = u64_from_le_bytes(header2.as_slice());
    if orig == 0 {
        if tlen64 == 0 && n == 16 {
            let empty_out: Vec<u8> = Vec::new();
            proof {
                assert(empty_out@ =~= Seq::<u8>::empty());
            }
            return Ok(empty_out);
        }
        return Err(HuffError::EmptyAlphabet);
    }
    if tlen64 == 0 {
        return Err(HuffError::EmptyAlphabet);
    }
    if tlen64 > (n - 16) as u64 {
        return Err(HuffError::MalformedTree);
    }
    let tlen = tlen64 as usize;
    let tree_slice = copy_range(bytes, 16, 16 + tlen);
    match deserialize_tree(tree_slice.as_slice()) {
        Err(e) => Err(e),
        Ok((tree, used)) => {
            proof {
                lemma_deser_consumed(bytes_bits(tree_slice@));
                lemma_bytes_bits_len(tree_slice@);
                let p = deser_spec(bytes_bits(tree_slice@)).unwrap();
                lemma_div_is_ordered(p.1 as int + 7, 8 * tlen as int + 7, 8);
                lemma_fundamental_div_mod_converse(8 * tlen as int + 7, 8, tlen as int, 7);
                assert(used <= tlen);
            }
            let body = copy_range(bytes, 16 + used, n);
            proof {
                assert(body@ =~= bytes@.skip(16 + used as int));
            }
            match decode(body.as_slice(), &tree, orig) {
                Ok(v) => Ok(v),
                Err(e) => Err(e),
            }
        },
    }
}

} // verus!
