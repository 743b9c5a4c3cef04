//! Stream encoding and decoding against a prefix tree, and pre-order
//! serialization of the tree itself.

use vstd::prelude::*;
use crate::bits::{
    byte_bits, bytes_bits, pad_bits, BitReader, BitWriter, lemma_byte_bits_inj,
};
use crate::tree::{code_for, contains_sym, enc_sym, Node};

verus! {

/// What can go wrong when a container is decoded.
#[derive(Debug, Clone, Copy, PartialEq, Eq, Structural)]
pub enum HuffError {
    /// The serialized tree ends before its pre-order traversal is complete.
    MalformedTree,
    /// The body's bits run out before the declared symbol count is reached.
    TruncatedBody,
    /// No tree is present although symbols are owed, or material follows an
    /// empty container.
    EmptyAlphabet,
}

/// One symbol decoded by walking a subtree along the bits: the symbol found
/// and the number of bits consumed.
pub open spec fn dec_one(t: Node, bits: Seq<bool>) -> Option<(u8, nat)>
    decreases t,
{
    match t {
        Node::Leaf { symbol, .. } => Option::Some((symbol, 0nat)),
        Node::Internal { left, right, .. } => {
            if bits.len() == 0 {
                Option::None
            } else {
                let sub = if bits[0] {
                    dec_one(*right, bits.skip(1))
                } else {
                    dec_one(*left, bits.skip(1))
                };
                match sub {
                    Option::None => Option::None,
                    Option::Some(p) => Option::Some((p.0, p.1 + 1)),
                }
            }
        },
    }
}

/// One symbol decoded from the root. The single leaf of a one-symbol tree
/// consumes one bit, mirroring its one-bit code.
pub open spec fn dec_top(t: Node, bits: Seq<bool>) -> Option<(u8, nat)> {
    match t {
        Node::Leaf { symbol, .. } => if bits.len() >= 1 {
            Option::Some((symbol, 1nat))
        } else {
            Option::None
        },
        Node::Internal { .. } => dec_one(t, bits),
    }
}

/// `count` symbols decoded in sequence from the front of the bits, or `None`
/// if they run out first.
pub open spec fn decode_bits(t: Node, bits: Seq<bool>, count: nat) -> Option<Seq<u8>>
    decreases count,
{
    if count == 0 {
        Option::Some(Seq::empty())
    } else {
        match dec_top(t, bits) {
            Option::None => Option::None,
            Option::Some(p) => match decode_bits(t, bits.skip(p.1 as int), (count - 1) as nat) {
                Option::None => Option::None,
                Option::Some(rest) => Option::Some(seq![p.0] + rest),
            },
        }
    }
}

/// The bit stream that a code table yields for an input.
pub open spec fn table_bits(codes: Seq<Option<Vec<bool>>>, input: Seq<u8>) -> Seq<bool>
    decreases input.len(),
{
    if input.len() == 0 {
        Seq::empty()
    } else {
        codes[input[0] as int].unwrap()@ + table_bits(codes, input.skip(1))
    }
}

/// The bit stream that a tree's codewords yield for an input.
pub open spec fn encode_bits(t: Node, input: Seq<u8>) -> Seq<bool>
    decreases input.len(),
{
    if input.len() == 0 {
        Seq::empty()
    } else {
        code_for(t, input[0]) + encode_bits(t, input.skip(1))
    }
}

/// Pre-order serialization of a tree: each leaf as a `1` bit followed by the
/// symbol's eight bits, each internal node as a `0` bit followed by its left
/// then right subtree. Frequencies are not serialized.
pub open spec fn ser_bits(t: Node) -> Seq<bool>
    decreases t,
{
    match t {
        Node::Leaf { symbol, .. } => seq![true] + byte_bits(symbol),
        Node::Internal { left, right, .. } => seq![false] + ser_bits(*left) + ser_bits(*right),
    }
}

/// The same tree with every frequency put to zero: all a deserializer can
/// recover, frequencies not being serialized.
pub open spec fn strip_freqs(t: Node) -> Node
    decreases t,
{
    match t {
        Node::Leaf { symbol, .. } => Node::Leaf { symbol, frequency: 0 },
        Node::Internal { left, right, .. } => Node::Internal {
            frequency: 0,
            left: Box::new(strip_freqs(*left)),
            right: Box::new(strip_freqs(*right)),
        },
    }
}

/// The tree read back from the front of a pre-order bit stream, with the
/// number of bits consumed; `None` if the stream is malformed or exhausted.
pub open spec fn deser_spec(bits: Seq<bool>) -> Option<(Node, nat)>
    decreases bits.len(),
{
    if bits.len() == 0 {
        Option::None
    } else if bits[0] {
        if bits.len() >= 9 {
            let sym = choose|b: u8| byte_bits(b) == bits.subrange(1, 9);
            Option::Some((Node::Leaf { symbol: sym, frequency: 0 }, 9nat))
        } else {
            Option::None
        }
    } else {
        match deser_spec(bits.skip(1)) {
            Option::None => Option::None,
            Option::Some(l) => if l.1 + 1 <= bits.len() {
                match deser_spec(bits.skip(l.1 as int + 1)) {
                    Option::None => Option::None,
                    Option::Some(r) => Option::Some(
                        (
                            Node::Internal {
                                frequency: 0,
                                left: Box::new(l.0),
                                right: Box::new(r.0),
                            },
                            1 + l.1 + r.1,
                        ),
                    ),
                }
            } else {
                Option::None
            },
        }
    }
}

/// Encodes the input against a code table: each byte's codeword in order,
/// the result zero-padded to whole bytes.
pub fn encode(input: &[u8], codes: &Vec<Option<Vec<bool>>>) -> (r: Vec<u8>)
    requires
        codes@.len() == 256,
        forall|i: int| 0 <= i < input@.len() ==> (#[trigger] codes@[input@[i] as int]) is Some,
    ensures
        bytes_bits(r@) == pad_bits(table_bits(codes@, input@)),
{
    let mut writer = BitWriter::new();
    let mut i: usize = 0;
    while i < input.len()
        invariant
            writer.wf(),
            codes@.len() == 256,
            i <= input@.len(),
            forall|j: int| 0 <= j < input@.len() ==> (#[trigger] codes@[input@[j] as int]) is Some,
            writer@ == table_bits(codes@, input@.take(i as int)),
        decreases input@.len() - i,
    {
        let b = input[i];
        match &codes[b as usize] {
            Option::Some(code) => {
                writer.write_bits(code.as_slice());
            },
            Option::None => {
                proof {
                    assert(codes@[input@[i as int] as int] is Some);
                }
                vstd::pervasive::unreached::<()>();
            },
        }
        i = i + 1;
        proof {
            lemma_table_bits_snoc(codes@, input@.take(i as int - 1), input@[i as int - 1]);
            assert(input@.take(i as int) =~= input@.take(i as int - 1).push(input@[i as int - 1]));
        }
    }
    proof {
        assert(input@.take(input@.len() as int) =~= input@);
    }
    writer.flush();
    writer.into_bytes()
}

proof fn lemma_table_bits_snoc(codes: Seq<Option<Vec<bool>>>, s: Seq<u8>, x: u8)
    ensures
        table_bits(codes, s.push(x)) == table_bits(codes, s) + codes[x as int].unwrap()@,
    decreases s.len(),
{
    if s.len() == 0 {
        assert(s.push(x)[0] == x);
        assert(s.push(x).skip(1) =~= Seq::<u8>::empty());
        assert(table_bits(codes, s.push(x)) == codes[x as int].unwrap()@ + table_bits(
            codes,
            Seq::<u8>::empty(),
        ));
        assert(table_bits(codes, s.push(x)) =~= table_bits(codes, s) + codes[x as int].unwrap()@);
    } else {
        assert(s.push(x)[0] == s[0]);
        assert(s.push(x).skip(1) =~= s.skip(1).push(x));
        lemma_table_bits_snoc(codes, s.skip(1), x);
        assert(table_bits(codes, s.push(x)) =~= table_bits(codes, s) + codes[x as int].unwrap()@);
    }
}

fn walk<'a>(node: &Node, reader: &mut BitReader<'a>) -> (r: Result<u8, HuffError>)
    requires
        old(reader).wf(),
    ensures
        final(reader).wf(),
        final(reader).spec_bits() == old(reader).spec_bits(),
        final(reader).spec_pos() >= old(reader).spec_pos(),
        (match dec_one(*node, old(reader).spec_bits().skip(old(reader).spec_pos() as int)) {
            Option::Some(p) => r == Ok::<u8, HuffError>(p.0) && final(reader).spec_pos() == old(
                reader,
            ).spec_pos() + p.1,
            Option::None => r == Err::<u8, HuffError>(HuffError::TruncatedBody),
        }),
    decreases *node,
{
    proof {
        old(reader).lemma_in_bounds();
    }
    let ghost rem = old(reader).spec_bits().skip(old(reader).spec_pos() as int);
    match node {
        Node::Leaf { symbol, .. } => Ok(*symbol),
        Node::Internal { left, right, .. } => {
            match reader.read_bit() {
                Option::None => {
                    proof {
                        assert(rem.len() == 0);
                    }
                    Err(HuffError::TruncatedBody)
                },
                Option::Some(bit) => {
                    proof {
                        assert(rem.len() > 0);
                        assert(rem[0] == bit);
                        assert(rem.skip(1) =~= old(reader).spec_bits().skip(
                            old(reader).spec_pos() as int + 1,
                        ));
                    }
                    let child = if bit {
                        &**right
                    } else {
                        &**left
                    };
                    let res = walk(child, reader);
                    proof {
                        assert(reader.spec_bits().skip(old(reader).spec_pos() as int + 1)
                            == rem.skip(1));
                    }
                    res
                },
            }
        },
    }
}

fn decode_symbol<'a>(root: &Node, reader: &mut BitReader<'a>) -> (r: Result<u8, HuffError>)
    requires
        old(reader).wf(),
    ensures
        final(reader).wf(),
        final(reader).spec_bits() == old(reader).spec_bits(),
        final(reader).spec_pos() >= old(reader).spec_pos(),
        (match dec_top(*root, old(reader).spec_bits().skip(old(reader).spec_pos() as int)) {
            Option::Some(p) => r == Ok::<u8, HuffError>(p.0) && final(reader).spec_pos() == old(
                reader,
            ).spec_pos() + p.1,
            Option::None => r == Err::<u8, HuffError>(HuffError::TruncatedBody),
        }),
{
    proof {
        old(reader).lemma_in_bounds();
    }
    match root {
        Node::Leaf { symbol, .. } => {
            match reader.read_bit() {
                Option::Some(_) => Ok(*symbol),
                Option::None => Err(HuffError::TruncatedBody),
            }
        },
        Node::Internal { .. } => walk(root, reader),
    }
}

/// Decodes `original_len` symbols from the packed bit buffer by walking the
/// tree, or reports a truncated body if the bits run out first.
pub fn decode(encoded: &[u8], root: &Node, original_len: u64) -> (r: Result<Vec<u8>, HuffError>)
    ensures
        (match decode_bits(*root, bytes_bits(encoded@), original_len as nat) {
            Option::Some(s) => r matches Ok(v) && v@ == s,
            Option::None => r == Err::<Vec<u8>, HuffError>(HuffError::TruncatedBody),
        }),
{
    let ghost all = bytes_bits(encoded@);
    let mut reader = BitReader::new(encoded);
    let mut out: Vec<u8> = Vec::new();
    let mut k: u64 = 0;
    proof {
        assert(all.skip(0) =~= all);
        if decode_bits(*root, all, original_len as nat) is Some {
            let rest = decode_bits(*root, all, original_len as nat).unwrap();
            assert(out@ + rest =~= rest);
        }
    }
    while k < original_len
        invariant
            reader.wf(),
            all == bytes_bits(encoded@),
            reader.spec_bits() == all,
            k <= original_len,
            out@.len() == k,
            decode_bits(*root, all, original_len as nat) == (match decode_bits(
                *root,
                reader.spec_bits().skip(reader.spec_pos() as int),
                (original_len - k) as nat,
            ) {
                Option::Some(rest) => Option::Some(out@ + rest),
                Option::None => Option::None::<Seq<u8>>,
            }),
        decreases original_len - k,
    {
        let ghost rem = reader.spec_bits().skip(reader.spec_pos() as int);
        let ghost cnt = (original_len - k) as nat;
        match decode_symbol(root, &mut reader) {
            Ok(s) => {
                let ghost out0 = out@;
                out.push(s);
                k = k + 1;
                proof {
                    reader.lemma_in_bounds();
                    let p = dec_top(*root, rem).unwrap();
                    let rem2 = reader.spec_bits().skip(reader.spec_pos() as int);
                    assert(rem2 =~= rem.skip(p.1 as int));
                    if decode_bits(*root, rem2, (original_len - k) as nat) is Some {
                        let rest2 = decode_bits(*root, rem2, (original_len - k) as nat).unwrap();
                        assert(decode_bits(*root, rem, cnt) == Option::Some(seq![p.0] + rest2));
                        assert(out0 + (seq![p.0] + rest2) =~= out@ + rest2);
                    } else {
                        assert(decode_bits(*root, rem, cnt) is None);
                    }
                }
            },
            Err(e) => {
                proof {
                    assert(dec_top(*root, rem) is None);
                    assert(decode_bits(*root, rem, cnt) is None);
                }
                return Err(e);
            },
        }
    }
    proof {
        let rem = reader.spec_bits().skip(reader.spec_pos() as int);
        assert(decode_bits(*root, rem, 0nat) == Option::Some(Seq::<u8>::empty()));
        assert(out@ + Seq::<u8>::empty() =~= out@);
    }
    Ok(out)
}

fn ser_node(node: &Node, writer: &mut BitWriter)
    requires
        old(writer).wf(),
    ensures
        final(writer).wf(),
        final(writer)@ == old(writer)@ + ser_bits(*node),
    decreases *node,
{
    match node {
        Node::Leaf { symbol, .. } => {
            writer.write_bit(true);
            let ghost w1 = writer@;
            let mut i: u8 = 0;
            while i < 8
                invariant
                    writer.wf(),
                    i <= 8,
                    writer@ == w1 + byte_bits(*symbol).take(i as int),
                decreases 8 - i,
            {
                let bit = (*symbol & (1u8 << ((7 - i) as u8))) != 0;
                proof {
                    let s = *symbol;
                    let k = i;
                    assert(((s & (1u8 << ((7 - k) as u8))) != 0) == (((s >> ((7 - k) as u8))
                        & 1u8) == 1u8)) by (bit_vector)
                        requires k < 8;
                }
                writer.write_bit(bit);
                i = i + 1;
                proof {
                    assert(byte_bits(*symbol).take(i as int) =~= byte_bits(*symbol).take(
                        i as int - 1,
                    ).push(bit));
                    assert(w1 + byte_bits(*symbol).take(i as int) =~= (w1 + byte_bits(
                        *symbol,
                    ).take(i as int - 1)).push(bit));
                }
            }
            proof {
                assert(byte_bits(*symbol).take(8) =~= byte_bits(*symbol));
                assert(w1 + byte_bits(*symbol) =~= old(writer)@ + ser_bits(*node));
            }
        },
        Node::Internal { left, right, .. } => {
            writer.write_bit(false);
            ser_node(&**left, writer);
            ser_node(&**right, writer);
            proof {
                assert(((old(writer)@.push(false) + ser_bits(**left)) + ser_bits(**right))
                    =~= old(writer)@ + ser_bits(*node));
            }
        },
    }
}

/// Serializes the tree pre-order and zero-pads the bits to whole bytes.
pub fn serialize_tree(root: &Node) -> (r: Vec<u8>)
    ensures
        bytes_bits(r@) == pad_bits(ser_bits(*root)),
{
    let mut writer = BitWriter::new();
    ser_node(root, &mut writer);
    proof {
        assert(Seq::<bool>::empty() + ser_bits(*root) =~= ser_bits(*root));
    }
    writer.flush();
    writer.into_bytes()
}

fn parse_node<'a>(reader: &mut BitReader<'a>) -> (r: Result<Node, HuffError>)
    requires
        old(reader).wf(),
    ensures
        final(reader).wf(),
        final(reader).spec_bits() == old(reader).spec_bits(),
        final(reader).spec_pos() >= old(reader).spec_pos(),
        (match deser_spec(old(reader).spec_bits().skip(old(reader).spec_pos() as int)) {
            Option::Some(p) => r == Ok::<Node, HuffError>(p.0) && final(reader).spec_pos() == old(
                reader,
            ).spec_pos() + p.1,
            Option::None => r == Err::<Node, HuffError>(HuffError::MalformedTree),
        }),
    decreases old(reader).spec_bits().len() - old(reader).spec_pos(),
{
    proof {
        old(reader).lemma_in_bounds();
    }
    let ghost rem = old(reader).spec_bits().skip(old(reader).spec_pos() as int);
    match reader.read_bit() {
        Option::None => {
            proof {
                assert(rem.len() == 0);
            }
            Err(HuffError::MalformedTree)
        },
        Option::Some(true) => {
            let mut sym: u8 = 0;
            let mut i: u8 = 0;
            proof {
                crate::bits::lemma_byte_bits_zero();
            }
            while i < 8
                invariant
                    reader.wf(),
                    i <= 8,
                    reader.spec_bits() == old(reader).spec_bits(),
                    rem == old(reader).spec_bits().skip(old(reader).spec_pos() as int),
                    reader.spec_pos() == old(reader).spec_pos() + 1 + i,
                    old(reader).spec_pos() + 1 + i <= reader.spec_bits().len(),
                    rem.len() >= 1 + i,
                    rem[0] == true,
                    byte_bits(sym).take(i as int) == rem.subrange(1, i as int + 1),
                    forall|j: int| i <= j < 8 ==> !byte_bits(sym)[j],
                decreases 8 - i,
            {
                match reader.read_bit() {
                    Option::None => {
                        proof {
                            reader.lemma_in_bounds();
                            assert(rem.len() == 1 + i);
                            assert(rem.len() < 9);
                            assert(deser_spec(rem) is None);
                        }
                        return Err(HuffError::MalformedTree);
                    },
                    Option::Some(bit) => {
                        let ghost sym0 = sym;
                        if bit {
                            sym = sym | (1u8 << ((7 - i) as u8));
                            proof {
                                crate::bits::lemma_set_bit(sym0, i);
                            }
                        }
                        proof {
                            assert forall|j: int| i + 1 <= j < 8 implies !byte_bits(sym)[j] by {
                                assert(!byte_bits(sym0)[j]);
                                if bit {
                                    assert(byte_bits(sym)[j] == byte_bits(sym0)[j]);
                                }
                            }
                            assert(rem[1 + i] == bit);
                            assert(byte_bits(sym).take(i as int + 1) =~= byte_bits(sym0).take(
                                i as int,
                            ).push(bit));
                            assert(rem.subrange(1, i as int + 2) =~= rem.subrange(
                                1,
                                i as int + 1,
                            ).push(bit));
                        }
                        i = i + 1;
                    },
                }
            }
            proof {
                assert(rem.len() >= 9);
                assert(rem[0] == true);
                assert(byte_bits(sym).take(8) =~= byte_bits(sym));
                assert(byte_bits(sym) == rem.subrange(1, 9));
                let c = choose|b: u8| byte_bits(b) == rem.subrange(1, 9);
                assert(byte_bits(c) == rem.subrange(1, 9));
                lemma_byte_bits_inj(c, sym);
            }
            Ok(Node::Leaf { symbol: sym, frequency: 0 })
        },
        Option::Some(false) => {
            proof {
                assert(rem[0] == false);
                assert(rem.skip(1) =~= old(reader).spec_bits().skip(
                    old(reader).spec_pos() as int + 1,
                ));
            }
            let left = match parse_node(reader) {
                Ok(l) => l,
                Err(e) => {
                    return Err(e);
                },
            };
            proof {
                reader.lemma_in_bounds();
                let p = deser_spec(rem.skip(1)).unwrap();
                assert(p.1 + 1 <= rem.len());
                assert(rem.skip(p.1 as int + 1) =~= reader.spec_bits().skip(
                    reader.spec_pos() as int,
                ));
            }
            let right = match parse_node(reader) {
                Ok(r) => r,
                Err(e) => {
                    return Err(e);
                },
            };
            Ok(Node::Internal { frequency: 0, left: Box::new(left), right: Box::new(right) })
        },
    }
}

pub proof fn lemma_enc_dec(t: Node, s: u8, rest: Seq<bool>)
    requires
        contains_sym(t, s),
    ensures
        dec_one(t, enc_sym(t, s) + rest) == Option::Some((s, enc_sym(t, s).len())),
    decreases t,
{
    match t {
        Node::Leaf { .. } => {
            assert(enc_sym(t, s).len() == 0);
        },
        Node::Internal { left, right, .. } => {
            let bits = enc_sym(t, s) + rest;
            if contains_sym(*left, s) {
                let el = enc_sym(*left, s);
                assert(enc_sym(t, s) == seq![false] + el);
                assert(bits[0] == false);
                assert(bits.skip(1) =~= el + rest);
                lemma_enc_dec(*left, s, rest);
            } else {
                let er = enc_sym(*right, s);
                assert(enc_sym(t, s) == seq![true] + er);
                assert(bits[0] == true);
                assert(bits.skip(1) =~= er + rest);
                lemma_enc_dec(*right, s, rest);
            }
        },
    }
}

pub proof fn lemma_code_dec_top(t: Node, s: u8, rest: Seq<bool>)
    requires
        contains_sym(t, s),
    ensures
        dec_top(t, code_for(t, s) + rest) == Option::Some((s, code_for(t, s).len())),
{
    if t is Leaf {
        assert((code_for(t, s) + rest).len() >= 1);
    } else {
        lemma_enc_dec(t, s, rest);
    }
}

/// Law (round trip at the bit level): decoding as many symbols as were
/// encoded from the encoded bit stream — whatever padding follows it —
/// returns exactly the input.
pub proof fn lemma_encode_decode_bits(t: Node, input: Seq<u8>, rest: Seq<bool>)
    requires
        forall|i: int| 0 <= i < input.len() ==> contains_sym(t, #[trigger] input[i]),
    ensures
        decode_bits(t, encode_bits(t, input) + rest, input.len()) == Option::Some(input),
    decreases input.len(),
{
    if input.len() == 0 {
        assert(encode_bits(t, input) + rest =~= rest);
        assert(input =~= Seq::<u8>::empty());
    } else {
        let c = code_for(t, input[0]);
        let tail = encode_bits(t, input.skip(1));
        let bits = encode_bits(t, input) + rest;
        assert(bits =~= c + (tail + rest));
        lemma_code_dec_top(t, input[0], tail + rest);
        assert(dec_top(t, bits) == Option::Some((input[0], c.len())));
        assert(bits.skip(c.len() as int) =~= tail + rest);
        assert forall|i: int| 0 <= i < input.skip(1).len() implies contains_sym(
            t,
            #[trigger] input.skip(1)[i],
        ) by {
            assert(input.skip(1)[i] == input[i + 1]);
        }
        lemma_encode_decode_bits(t, input.skip(1), rest);
        assert(seq![input[0]] + input.skip(1) =~= input);
    }
}

/// A table whose entries are the tree's codewords yields the tree's bit
/// stream.
pub proof fn lemma_table_encode_agree(t: Node, codes: Seq<Option<Vec<bool>>>, input: Seq<u8>)
    requires
        forall|i: int| 0 <= i < input.len() ==> contains_sym(t, #[trigger] input[i]),
        forall|s: u8| contains_sym(t, s) ==> (#[trigger] codes[s as int]).unwrap()@ == code_for(
            t,
            s,
        ),
    ensures
        table_bits(codes, input) == encode_bits(t, input),
    decreases input.len(),
{
    if input.len() > 0 {
        assert(contains_sym(t, input[0]));
        assert forall|i: int| 0 <= i < input.skip(1).len() implies contains_sym(
            t,
            #[trigger] input.skip(1)[i],
        ) by {
            assert(input.skip(1)[i] == input[i + 1]);
        }
        lemma_table_encode_agree(t, codes, input.skip(1));
    }
}

/// Whatever deserialization consumes lies between one bit and the whole
/// stream.
pub proof fn lemma_deser_consumed(bits: Seq<bool>)
    ensures
        (match deser_spec(bits) {
            Option::Some(p) => 1 <= p.1 <= bits.len(),
            Option::None => true,
        }),
    decreases bits.len(),
{
    if bits.len() == 0 {
    } else if bits[0] {
    } else {
        lemma_deser_consumed(bits.skip(1));
        if deser_spec(bits.skip(1)) is Some {
            let l = deser_spec(bits.skip(1)).unwrap();
            if l.1 + 1 <= bits.len() {
                lemma_deser_consumed(bits.skip(l.1 as int + 1));
            }
        }
    }
}

/// Serialized trees start with at least a full leaf record.
pub proof fn lemma_ser_bits_min(t: Node)
    ensures
        ser_bits(t).len() >= 9,
    decreases t,
{
    match t {
        Node::Leaf { .. } => {},
        Node::Internal { left, right, .. } => {
            lemma_ser_bits_min(*left);
            lemma_ser_bits_min(*right);
        },
    }
}

/// Law (tree round trip): the serialized bits of a tree, whatever follows
/// them, deserialize to the same tree with its frequencies zeroed —
/// the same leaf symbols at the same positions — consuming exactly the
/// tree's own bits.
pub proof fn lemma_deser_ser(t: Node, rest: Seq<bool>)
    ensures
        deser_spec(ser_bits(t) + rest) == Option::Some((strip_freqs(t), ser_bits(t).len())),
    decreases t,
{
    let bits = ser_bits(t) + rest;
    match t {
        Node::Leaf { symbol, .. } => {
            assert(ser_bits(t).len() == 9);
            assert(bits[0] == true);
            assert(byte_bits(symbol) == bits.subrange(1, 9)) by {
                assert(bits.subrange(1, 9) =~= byte_bits(symbol));
            }
            let c = choose|b: u8| byte_bits(b) == bits.subrange(1, 9);
            assert(byte_bits(c) == bits.subrange(1, 9));
            lemma_byte_bits_inj(c, symbol);
        },
        Node::Internal { left, right, .. } => {
            let sl = ser_bits(*left);
            let sr = ser_bits(*right);
            assert(bits[0] == false);
            assert(bits.skip(1) =~= sl + (sr + rest));
            lemma_deser_ser(*left, sr + rest);
            assert(sl.len() + 1 <= bits.len());
            assert(bits.skip(sl.len() as int + 1) =~= sr + rest);
            lemma_deser_ser(*right, rest);
            assert(ser_bits(t).len() == 1 + sl.len() + sr.len());
        },
    }
}

/// Law (tree serialization round trip, with padding): deserializing the
/// byte-padded serialization of any tree reproduces the tree, up to the
/// frequencies that are not serialized.
pub proof fn lemma_tree_serialization_round_trip(t: Node)
    ensures
        deser_spec(pad_bits(ser_bits(t))) == Option::Some((strip_freqs(t), ser_bits(t).len())),
{
    let pad = Seq::new(crate::bits::pad_len(ser_bits(t).len()), |i: int| false);
    assert(pad_bits(ser_bits(t)) == ser_bits(t) + pad);
    lemma_deser_ser(t, pad);
}

proof fn lemma_strip_dec_one(t: Node, bits: Seq<bool>)
    ensures
        dec_one(strip_freqs(t), bits) == dec_one(t, bits),
    decreases t,
{
    match t {
        Node::Leaf { .. } => {},
        Node::Internal { left, right, .. } => {
            if bits.len() > 0 {
                lemma_strip_dec_one(*left, bits.skip(1));
                lemma_strip_dec_one(*right, bits.skip(1));
            }
        },
    }
}

/// Decoding sees only the tree's shape and symbols, never its frequencies.
pub proof fn lemma_strip_decode_bits(t: Node, bits: Seq<bool>, count: nat)
    ensures
        decode_bits(strip_freqs(t), bits, count) == decode_bits(t, bits, count),
    decreases count,
{
    if count > 0 {
        lemma_strip_dec_one(t, bits);
        assert(dec_top(strip_freqs(t), bits) == dec_top(t, bits));
        if dec_top(t, bits) is Some {
            let p = dec_top(t, bits).unwrap();
            lemma_strip_decode_bits(t, bits.skip(p.1 as int), (count - 1) as nat);
        }
    }
}

/// Reads a tree back from its serialized bytes and reports how many whole
/// bytes of the slice its bits occupied, rounding a partial final byte up.
pub fn deserialize_tree(bytes: &[u8]) -> (r: Result<(Node, usize), HuffError>)
    ensures
        (match deser_spec(bytes_bits(bytes@)) {
            Option::Some(p) => r matches Ok(q) && q.0 == p.0 && q.1 == (p.1 + 7) / 8,
            Option::None => r == Err::<(Node, usize), HuffError>(HuffError::MalformedTree),
        }),
{
    let mut reader = BitReader::new(bytes);
    proof {
        assert(bytes_bits(bytes@).skip(0) =~= bytes_bits(bytes@));
    }
    match parse_node(&mut reader) {
        Ok(tree) => {
            let used = reader.bytes_consumed();
            Ok((tree, used))
        },
        Err(e) => Err(e),
    }
}

} // verus!
