//! The binary codec: a transaction is laid out as little-endian fixed-width
//! integers with count-prefixed input and output lists and length-prefixed
//! scripts, in this order:
//!
//! version (4) | input count (4) | inputs | output count (4) | outputs |
//! lock time (4)
//!
//! where each input is txid (32) | vout (4) | script length (4) | script |
//! sequence (4), and each output is value (8) | script length (4) | script.
//!
//! Decoding consumes exactly the bytes the layout calls for and rejects
//! everything else — short buffers, counts or lengths that run past the end,
//! and trailing bytes — with `InvalidTransaction`. Encoding and decoding are
//! proved inverse to one another for every encodable transaction.

use vstd::bytes::spec_u32_from_le_bytes;
use vstd::bytes::spec_u32_to_le_bytes;
use vstd::bytes::spec_u64_from_le_bytes;
use vstd::bytes::spec_u64_to_le_bytes;
use vstd::bytes::u32_from_le_bytes;
use vstd::bytes::u64_from_le_bytes;
use vstd::prelude::*;
use vstd::slice::slice_subrange;
use vstd::slice::slice_to_vec;

use crate::error::BitcoinError;
use crate::types::LegacyTransaction;
use crate::types::OutPoint;
use crate::types::OutPointModel;
use crate::types::TxInput;
use crate::types::TxOutput;
use crate::types::TxInputModel;
use crate::types::TxModel;
use crate::types::TxOutputModel;
use crate::types::input_views;
use crate::types::output_views;

verus! {

/// The unsigned 32-bit word whose little-endian bytes encode `v` in two's
/// complement.
pub open spec fn spec_i32_to_bits(v: i32) -> u32 {
    if v >= 0 {
        v as u32
    } else {
        (v + 0x1_0000_0000) as u32
    }
}

/// The signed value whose two's-complement bits are `x`.
pub open spec fn spec_i32_from_bits(x: u32) -> i32 {
    if x <= 0x7fff_ffff {
        x as i32
    } else {
        (x - 0x1_0000_0000) as i32
    }
}

/// Whether an input fits the wire layout: a 32-byte txid and a script whose
/// length fits the 32-bit length prefix.
pub open spec fn input_encodable(i: TxInputModel) -> bool {
    &&& i.previous_output.txid.len() == 32
    &&& i.script_sig.len() <= u32::MAX
}

/// Whether an output fits the wire layout: a script whose length fits the
/// 32-bit length prefix.
pub open spec fn output_encodable(o: TxOutputModel) -> bool {
    o.script_pubkey.len() <= u32::MAX
}

/// Whether a transaction fits the wire layout: both counts fit their 32-bit
/// prefixes and every input and output is itself encodable.
pub open spec fn tx_encodable(t: TxModel) -> bool {
    &&& t.inputs.len() <= u32::MAX
    &&& t.outputs.len() <= u32::MAX
    &&& forall|i: int| 0 <= i < t.inputs.len() ==> input_encodable(#[trigger] t.inputs[i])
    &&& forall|i: int| 0 <= i < t.outputs.len() ==> output_encodable(#[trigger] t.outputs[i])
}

/// The wire bytes of one input.
pub open spec fn spec_encode_input(i: TxInputModel) -> Seq<u8> {
    i.previous_output.txid + spec_u32_to_le_bytes(i.previous_output.vout) + spec_u32_to_le_bytes(
        i.script_sig.len() as u32,
    ) + i.script_sig + spec_u32_to_le_bytes(i.sequence)
}

/// The wire bytes of one output.
pub open spec fn spec_encode_output(o: TxOutputModel) -> Seq<u8> {
    spec_u64_to_le_bytes(o.value) + spec_u32_to_le_bytes(o.script_pubkey.len() as u32)
        + o.script_pubkey
}

/// The wire bytes of a list of inputs, in order.
pub open spec fn spec_encode_inputs(s: Seq<TxInputModel>) -> Seq<u8>
    decreases s.len(),
{
    if s.len() == 0 {
        Seq::empty()
    } else {
        spec_encode_input(s[0]) + spec_encode_inputs(s.drop_first())
    }
}

/// The wire bytes of a list of outputs, in order.
pub open spec fn spec_encode_outputs(s: Seq<TxOutputModel>) -> Seq<u8>
    decreases s.len(),
{
    if s.len() == 0 {
        Seq::empty()
    } else {
        spec_encode_output(s[0]) + spec_encode_outputs(s.drop_first())
    }
}

/// The full wire encoding of a transaction.
pub open spec fn spec_encode(t: TxModel) -> Seq<u8> {
    spec_u32_to_le_bytes(spec_i32_to_bits(t.version)) + spec_u32_to_le_bytes(
        t.inputs.len() as u32,
    ) + spec_encode_inputs(t.inputs) + spec_u32_to_le_bytes(t.outputs.len() as u32)
        + spec_encode_outputs(t.outputs) + spec_u32_to_le_bytes(t.lock_time)
}

/// Consumes one input from the front of `b`: the input read and the bytes
/// left over, or nothing if `b` is too short for it.
pub open spec fn spec_parse_input(b: Seq<u8>) -> Option<(TxInputModel, Seq<u8>)> {
    if b.len() < 44 {
        None
    } else {
        let slen = spec_u32_from_le_bytes(b.subrange(36, 40)) as int;
        if b.len() < 44 + slen {
            None
        } else {
            Some(
                (
                    TxInputModel {
                        previous_output: OutPointModel {
                            txid: b.subrange(0, 32),
                            vout: spec_u32_from_le_bytes(b.subrange(32, 36)),
                        },
                        script_sig: b.subrange(40, 40 + slen),
                        sequence: spec_u32_from_le_bytes(b.subrange(40 + slen, 44 + slen)),
                    },
                    b.skip(44 + slen),
                ),
            )
        }
    }
}

/// Consumes one output from the front of `b`.
pub open spec fn spec_parse_output(b: Seq<u8>) -> Option<(TxOutputModel, Seq<u8>)> {
    if b.len() < 12 {
        None
    } else {
        let slen = spec_u32_from_le_bytes(b.subrange(8, 12)) as int;
        if b.len() < 12 + slen {
            None
        } else {
            Some(
                (
                    TxOutputModel {
                        value: spec_u64_from_le_bytes(b.subrange(0, 8)),
                        script_pubkey: b.subrange(12, 12 + slen),
                    },
                    b.skip(12 + slen),
                ),
            )
        }
    }
}

/// Consumes exactly `n` inputs from the front of `b`.
pub open spec fn spec_parse_inputs(b: Seq<u8>, n: nat) -> Option<(Seq<TxInputModel>, Seq<u8>)>
    decreases n,
{
    if n == 0 {
        Some((Seq::empty(), b))
    } else {
        match spec_parse_input(b) {
            None => None,
            Some((x, rest)) => match spec_parse_inputs(rest, (n - 1) as nat) {
                None => None,
                Some((xs, rest2)) => Some((seq![x] + xs, rest2)),
            },
        }
    }
}

/// Consumes exactly `n` outputs from the front of `b`.
pub open spec fn spec_parse_outputs(b: Seq<u8>, n: nat) -> Option<(Seq<TxOutputModel>, Seq<u8>)>
    decreases n,
{
    if n == 0 {
        Some((Seq::empty(), b))
    } else {
        match spec_parse_output(b) {
            None => None,
            Some((x, rest)) => match spec_parse_outputs(rest, (n - 1) as nat) {
                None => None,
                Some((xs, rest2)) => Some((seq![x] + xs, rest2)),
            },
        }
    }
}

/// What decoding `b` yields: the transaction whose layout `b` spells out
/// exactly — declared counts honoured in full, every length in bounds, and
/// no trailing bytes — or nothing if `b` is malformed.
pub open spec fn spec_decode(b: Seq<u8>) -> Option<TxModel> {
    if b.len() < 8 {
        None
    } else {
        let version = spec_i32_from_bits(spec_u32_from_le_bytes(b.subrange(0, 4)));
        let n = spec_u32_from_le_bytes(b.subrange(4, 8));
        match spec_parse_inputs(b.skip(8), n as nat) {
            None => None,
            Some((inputs, r)) => {
                if r.len() < 4 {
                    None
                } else {
                    let m = spec_u32_from_le_bytes(r.subrange(0, 4));
                    match spec_parse_outputs(r.skip(4), m as nat) {
                        None => None,
                        Some((outputs, r2)) => {
                            if r2.len() == 4 {
                                Some(
                                    TxModel {
                                        version,
                                        inputs,
                                        outputs,
                                        lock_time: spec_u32_from_le_bytes(r2),
                                    },
                                )
                            } else {
                                None
                            }
                        },
                    }
                }
            },
        }
    }
}

/// Appending an input to a list appends its wire bytes to the list's.
proof fn lemma_encode_inputs_snoc(s: Seq<TxInputModel>, x: TxInputModel)
    ensures
        spec_encode_inputs(s.push(x)) == spec_encode_inputs(s) + spec_encode_input(x),
    decreases s.len(),
{
    if s.len() == 0 {
        assert(s.push(x)[0] == x);
        assert(s.push(x).drop_first() =~= Seq::<TxInputModel>::empty());
        assert(spec_encode_inputs(s.push(x)) == spec_encode_input(x) + spec_encode_inputs(
            Seq::<TxInputModel>::empty(),
        ));
        assert(spec_encode_input(x) + Seq::<u8>::empty() =~= spec_encode_input(x));
        assert(Seq::<u8>::empty() + spec_encode_input(x) =~= spec_encode_input(x));
    } else {
        assert(s.push(x)[0] == s[0]);
        assert(s.push(x).drop_first() =~= s.drop_first().push(x));
        lemma_encode_inputs_snoc(s.drop_first(), x);
        assert(spec_encode_inputs(s.push(x)) == spec_encode_input(s[0]) + (spec_encode_inputs(
            s.drop_first(),
        ) + spec_encode_input(x)));
        assert(spec_encode_input(s[0]) + (spec_encode_inputs(s.drop_first()) + spec_encode_input(
            x,
        )) =~= (spec_encode_input(s[0]) + spec_encode_inputs(s.drop_first())) + spec_encode_input(
            x,
        ));
    }
}

/// Appending an output to a list appends its wire bytes to the list's.
proof fn lemma_encode_outputs_snoc(s: Seq<TxOutputModel>, x: TxOutputModel)
    ensures
        spec_encode_outputs(s.push(x)) == spec_encode_outputs(s) + spec_encode_output(x),
    decreases s.len(),
{
    if s.len() == 0 {
        assert(s.push(x)[0] == x);
        assert(s.push(x).drop_first() =~= Seq::<TxOutputModel>::empty());
        assert(spec_encode_outputs(s.push(x)) == spec_encode_output(x) + spec_encode_outputs(
            Seq::<TxOutputModel>::empty(),
        ));
        assert(spec_encode_output(x) + Seq::<u8>::empty() =~= spec_encode_output(x));
        assert(Seq::<u8>::empty() + spec_encode_output(x) =~= spec_encode_output(x));
    } else {
        assert(s.push(x)[0] == s[0]);
        assert(s.push(x).drop_first() =~= s.drop_first().push(x));
        lemma_encode_outputs_snoc(s.drop_first(), x);
        assert(spec_encode_outputs(s.push(x)) == spec_encode_output(s[0]) + (spec_encode_outputs(
            s.drop_first(),
        ) + spec_encode_output(x)));
        assert(spec_encode_output(s[0]) + (spec_encode_outputs(s.drop_first()) + spec_encode_output(
            x,
        )) =~= (spec_encode_output(s[0]) + spec_encode_outputs(s.drop_first()))
            + spec_encode_output(x));
    }
}

/// The two's-complement bits of a signed word.
fn i32_to_bits(v: i32) -> (r: u32)
    ensures
        r == spec_i32_to_bits(v),
{
    if v >= 0 {
        v as u32
    } else {
        0xffff_ffffu32 - ((-(v + 1)) as u32)
    }
}

/// The signed word with the given two's-complement bits.
fn i32_from_bits(x: u32) -> (r: i32)
    ensures
        r == spec_i32_from_bits(x),
{
    if x <= 0x7fff_ffff {
        x as i32
    } else {
        -((0xffff_ffffu32 - x) as i32) - 1
    }
}

/// Appends the little-endian bytes of `x` to `out`.
fn push_u32_le(out: &mut Vec<u8>, x: u32)
    ensures
        final(out)@ == old(out)@ + spec_u32_to_le_bytes(x),
{
    let mut b = vstd::bytes::u32_to_le_bytes(x);
    out.append(&mut b);
}

/// Appends the little-endian bytes of `x` to `out`.
fn push_u64_le(out: &mut Vec<u8>, x: u64)
    ensures
        final(out)@ == old(out)@ + spec_u64_to_le_bytes(x),
{
    let mut b = vstd::bytes::u64_to_le_bytes(x);
    out.append(&mut b);
}

proof fn lemma_i32_bits_round_trip(v: i32)
    ensures
        spec_i32_from_bits(spec_i32_to_bits(v)) == v,
{
}

/// One encoded input parses back to itself, leaving the trailing bytes
/// untouched.
proof fn lemma_parse_input_of_encode(x: TxInputModel, rest: Seq<u8>)
    requires
        input_encodable(x),
    ensures
        spec_parse_input(spec_encode_input(x) + rest) == Some((x, rest)),
{
    vstd::bytes::lemma_auto_spec_u32_to_from_le_bytes();
    let b = spec_encode_input(x) + rest;
    let slen = x.script_sig.len() as int;
    assert(b.len() == 44 + slen + rest.len());
    assert(b.subrange(36, 40) =~= spec_u32_to_le_bytes(x.script_sig.len() as u32));
    assert(spec_u32_from_le_bytes(b.subrange(36, 40)) as int == slen);
    assert(b.subrange(0, 32) =~= x.previous_output.txid);
    assert(b.subrange(32, 36) =~= spec_u32_to_le_bytes(x.previous_output.vout));
    assert(b.subrange(40, 40 + slen) =~= x.script_sig);
    assert(b.subrange(40 + slen, 44 + slen) =~= spec_u32_to_le_bytes(x.sequence));
    assert(b.skip(44 + slen) =~= rest);
    assert(spec_parse_input(b)->Some_0.0 =~= x);
    assert(spec_parse_input(b) == Some((x, rest)));
}

/// One encoded output parses back to itself, leaving the trailing bytes
/// untouched.
proof fn lemma_parse_output_of_encode(x: TxOutputModel, rest: Seq<u8>)
    requires
        output_encodable(x),
    ensures
        spec_parse_output(spec_encode_output(x) + rest) == Some((x, rest)),
{
    vstd::bytes::lemma_auto_spec_u32_to_from_le_bytes();
    vstd::bytes::lemma_auto_spec_u64_to_from_le_bytes();
    let b = spec_encode_output(x) + rest;
    let slen = x.script_pubkey.len() as int;
    assert(b.len() == 12 + slen + rest.len());
    assert(b.subrange(8, 12) =~= spec_u32_to_le_bytes(x.script_pubkey.len() as u32));
    assert(spec_u32_from_le_bytes(b.subrange(8, 12)) as int == slen);
    assert(b.subrange(0, 8) =~= spec_u64_to_le_bytes(x.value));
    assert(b.subrange(12, 12 + slen) =~= x.script_pubkey);
    assert(b.skip(12 + slen) =~= rest);
    assert(spec_parse_output(b)->Some_0.0 =~= x);
    assert(spec_parse_output(b) == Some((x, rest)));
}

/// An encoded input list parses back to itself when its own length is the
/// declared count.
proof fn lemma_parse_inputs_of_encode(s: Seq<TxInputModel>, rest: Seq<u8>)
    requires
        forall|i: int| 0 <= i < s.len() ==> input_encodable(#[trigger] s[i]),
    ensures
        spec_parse_inputs(spec_encode_inputs(s) + rest, s.len()) == Some((s, rest)),
    decreases s.len(),
{
    if s.len() == 0 {
        assert(spec_encode_inputs(s) + rest =~= rest);
        assert(spec_parse_inputs(rest, 0) == Some((Seq::<TxInputModel>::empty(), rest)));
        assert(s =~= Seq::<TxInputModel>::empty());
    } else {
        let tail = s.drop_first();
        assert(forall|i: int| 0 <= i < tail.len() ==> input_encodable(#[trigger] tail[i])) by {
            assert(forall|i: int| 0 <= i < tail.len() ==> tail[i] == s[i + 1]);
        }
        lemma_parse_inputs_of_encode(tail, rest);
        let b = spec_encode_inputs(s) + rest;
        assert(b =~= spec_encode_input(s[0]) + (spec_encode_inputs(tail) + rest));
        lemma_parse_input_of_encode(s[0], spec_encode_inputs(tail) + rest);
        assert(spec_parse_inputs(b, s.len()) == Some((seq![s[0]] + tail, rest)));
        assert(seq![s[0]] + tail =~= s);
    }
}

/// An encoded output list parses back to itself when its own length is the
/// declared count.
proof fn lemma_parse_outputs_of_encode(s: Seq<TxOutputModel>, rest: Seq<u8>)
    requires
        forall|i: int| 0 <= i < s.len() ==> output_encodable(#[trigger] s[i]),
    ensures
        spec_parse_outputs(spec_encode_outputs(s) + rest, s.len()) == Some((s, rest)),
    decreases s.len(),
{
    if s.len() == 0 {
        assert(spec_encode_outputs(s) + rest =~= rest);
        assert(spec_parse_outputs(rest, 0) == Some((Seq::<TxOutputModel>::empty(), rest)));
        assert(s =~= Seq::<TxOutputModel>::empty());
    } else {
        let tail = s.drop_first();
        assert(forall|i: int| 0 <= i < tail.len() ==> output_encodable(#[trigger] tail[i])) by {
            assert(forall|i: int| 0 <= i < tail.len() ==> tail[i] == s[i + 1]);
        }
        lemma_parse_outputs_of_encode(tail, rest);
        let b = spec_encode_outputs(s) + rest;
        assert(b =~= spec_encode_output(s[0]) + (spec_encode_outputs(tail) + rest));
        lemma_parse_output_of_encode(s[0], spec_encode_outputs(tail) + rest);
        assert(spec_parse_outputs(b, s.len()) == Some((seq![s[0]] + tail, rest)));
        assert(seq![s[0]] + tail =~= s);
    }
}

/// Round-trip law: decoding the encoding of any transaction that fits the
/// wire layout yields exactly that transaction — every field, and the order
/// of the inputs and of the outputs, preserved.
pub proof fn lemma_decode_of_encode(t: TxModel)
    requires
        tx_encodable(t),
    ensures
        spec_decode(spec_encode(t)) == Some(t),
{
    vstd::bytes::lemma_auto_spec_u32_to_from_le_bytes();
    lemma_i32_bits_round_trip(t.version);
    let b = spec_encode(t);
    let ins = spec_encode_inputs(t.inputs);
    let outs = spec_encode_outputs(t.outputs);
    let mid = spec_u32_to_le_bytes(t.outputs.len() as u32) + outs + spec_u32_to_le_bytes(
        t.lock_time,
    );
    assert(b.len() >= 8);
    assert(b.subrange(0, 4) =~= spec_u32_to_le_bytes(spec_i32_to_bits(t.version)));
    assert(b.subrange(4, 8) =~= spec_u32_to_le_bytes(t.inputs.len() as u32));
    assert(spec_u32_from_le_bytes(b.subrange(4, 8)) as nat == t.inputs.len());
    assert(b.skip(8) =~= ins + mid);
    lemma_parse_inputs_of_encode(t.inputs, mid);
    assert(spec_parse_inputs(b.skip(8), t.inputs.len()) == Some((t.inputs, mid)));
    assert(mid.len() >= 4);
    assert(mid.subrange(0, 4) =~= spec_u32_to_le_bytes(t.outputs.len() as u32));
    assert(spec_u32_from_le_bytes(mid.subrange(0, 4)) as nat == t.outputs.len());
    assert(mid.skip(4) =~= outs + spec_u32_to_le_bytes(t.lock_time));
    lemma_parse_outputs_of_encode(t.outputs, spec_u32_to_le_bytes(t.lock_time));
    let fin = spec_u32_to_le_bytes(t.lock_time);
    assert(fin.len() == 4);
    assert(spec_decode(b)->Some_0 =~= t);
}

/// Truncation safety: a byte sequence shorter than the minimum header —
/// version, input count and lock time — never decodes.
pub proof fn lemma_decode_short_buffer(b: Seq<u8>)
    requires
        b.len() < 12,
    ensures
        spec_decode(b) is None,
{
    if b.len() >= 8 {
        let n = spec_u32_from_le_bytes(b.subrange(4, 8));
        if n == 0 {
            assert(spec_parse_inputs(b.skip(8), 0) == Some((Seq::<TxInputModel>::empty(), b.skip(8))));
            assert(b.skip(8).len() < 4);
        } else {
            assert(b.skip(8).len() < 44);
            assert(spec_parse_input(b.skip(8)) is None);
            assert(spec_parse_inputs(b.skip(8), n as nat) is None);
        }
    }
}

proof fn lemma_parse_inputs_count(b: Seq<u8>, n: nat)
    requires
        spec_parse_inputs(b, n) is Some,
    ensures
        spec_parse_inputs(b, n)->Some_0.0.len() == n,
    decreases n,
{
    if n > 0 {
        let (x, rest) = spec_parse_input(b)->Some_0;
        lemma_parse_inputs_count(rest, (n - 1) as nat);
    }
}

/// Count honesty: when decoding succeeds, the transaction carries exactly
/// as many inputs as the count field of the byte stream declared.
pub proof fn lemma_decode_input_count(b: Seq<u8>)
    requires
        spec_decode(b) is Some,
    ensures
        spec_decode(b)->Some_0.inputs.len() == spec_u32_from_le_bytes(b.subrange(4, 8)),
{
    let n = spec_u32_from_le_bytes(b.subrange(4, 8));
    lemma_parse_inputs_count(b.skip(8), n as nat);
}

/// Reads one input from `data` starting at `pos`, returning it with the
/// position just past it, or nothing where [`spec_parse_input`] finds the
/// remaining bytes too short.
#[verifier::loop_isolation(false)]
fn parse_input_at(data: &[u8], pos: usize) -> (r: Option<(TxInput, usize)>)
    requires
        pos <= data@.len(),
    ensures
        (match r {
            Some(v) => pos <= v.1 <= data@.len() && spec_parse_input(data@.skip(pos as int))
                == Some((v.0@, data@.skip(v.1 as int))),
            None => spec_parse_input(data@.skip(pos as int)) is None,
        }),
{
    let ghost b = data@.skip(pos as int);
    if data.len() - pos < 44 {
        return None;
    }
    let mut txid = [0u8; 32];
    let mut k: usize = 0;
    while k < 32
        invariant
            k <= 32,
            forall|t: int| 0 <= t < k ==> txid@[t] == data@[pos + t],
        decreases 32 - k,
    {
        txid[k] = data[pos + k];
        k += 1;
    }
    proof {
        assert(txid@ =~= b.subrange(0, 32));
    }
    let vout = u32_from_le_bytes(slice_subrange(data, pos + 32, pos + 36));
    let slen32 = u32_from_le_bytes(slice_subrange(data, pos + 36, pos + 40));
    proof {
        assert(data@.subrange(pos as int + 32, pos as int + 36) =~= b.subrange(32, 36));
        assert(data@.subrange(pos as int + 36, pos as int + 40) =~= b.subrange(36, 40));
    }
    let slen = slen32 as usize;
    if data.len() - pos - 44 < slen {
        assert(b.len() < 44 + slen32 as int);
        return None;
    }
    let script = slice_to_vec(slice_subrange(data, pos + 40, pos + 40 + slen));
    let sequence = u32_from_le_bytes(slice_subrange(data, pos + 40 + slen, pos + 44 + slen));
    let end = pos + 44 + slen;
    let inp = TxInput { previous_output: OutPoint { txid, vout }, script_sig: script, sequence };
    proof {
        assert(script@ =~= b.subrange(40, 40 + slen as int));
        assert(data@.subrange(pos as int + 40 + slen as int, pos as int + 44 + slen as int)
            =~= b.subrange(40 + slen as int, 44 + slen as int));
        assert(b.skip(44 + slen as int) =~= data@.skip(end as int));
        assert(inp@ =~= (TxInputModel {
            previous_output: OutPointModel {
                txid: b.subrange(0, 32),
                vout: spec_u32_from_le_bytes(b.subrange(32, 36)),
            },
            script_sig: b.subrange(40, 40 + slen as int),
            sequence: spec_u32_from_le_bytes(b.subrange(40 + slen as int, 44 + slen as int)),
        }));
        assert(spec_parse_input(b) == Some((inp@, data@.skip(end as int))));
    }
    Some((inp, end))
}

/// Reads one output from `data` starting at `pos`, returning it with the
/// position just past it, or nothing where [`spec_parse_output`] finds the
/// remaining bytes too short.
fn parse_output_at(data: &[u8], pos: usize) -> (r: Option<(TxOutput, usize)>)
    requires
        pos <= data@.len(),
    ensures
        (match r {
            Some(v) => pos <= v.1 <= data@.len() && spec_parse_output(data@.skip(pos as int))
                == Some((v.0@, data@.skip(v.1 as int))),
            None => spec_parse_output(data@.skip(pos as int)) is None,
        }),
{
    let ghost b = data@.skip(pos as int);
    if data.len() - pos < 12 {
        return None;
    }
    let value = u64_from_le_bytes(slice_subrange(data, pos, pos + 8));
    let slen32 = u32_from_le_bytes(slice_subrange(data, pos + 8, pos + 12));
    proof {
        assert(data@.subrange(pos as int, pos as int + 8) =~= b.subrange(0, 8));
        assert(data@.subrange(pos as int + 8, pos as int + 12) =~= b.subrange(8, 12));
    }
    let slen = slen32 as usize;
    if data.len() - pos - 12 < slen {
        assert(b.len() < 12 + slen32 as int);
        return None;
    }
    let script = slice_to_vec(slice_subrange(data, pos + 12, pos + 12 + slen));
    let end = pos + 12 + slen;
    let outp = TxOutput { value, script_pubkey: script };
    proof {
        assert(script@ =~= b.subrange(12, 12 + slen as int));
        assert(b.skip(12 + slen as int) =~= data@.skip(end as int));
        assert(outp@ =~= (TxOutputModel {
            value: spec_u64_from_le_bytes(b.subrange(0, 8)),
            script_pubkey: b.subrange(12, 12 + slen as int),
        }));
        assert(spec_parse_output(b) == Some((outp@, data@.skip(end as int))));
    }
    Some((outp, end))
}

/// Types with a canonical binary serialization.
pub trait BitcoinSerialize {
    /// Whether the value fits the serialized form's limits.
    spec fn serializable(&self) -> bool;

    /// The serialized bytes of the value.
    spec fn serialized(&self) -> Seq<u8>;

    /// Serializes the value.
    fn serialize(&self) -> (r: Vec<u8>)
        requires
            self.serializable(),
        ensures
            r@ == self.serialized(),
    ;
}

impl BitcoinSerialize for LegacyTransaction {
    open spec fn serializable(&self) -> bool {
        tx_encodable(self@)
    }

    open spec fn serialized(&self) -> Seq<u8> {
        spec_encode(self@)
    }

    fn serialize(&self) -> (r: Vec<u8>) {
        let mut out: Vec<u8> = Vec::new();
        push_u32_le(&mut out, i32_to_bits(self.version));
        push_u32_le(&mut out, self.inputs.len() as u32);
        let mut i: usize = 0;
        while i < self.inputs.len()
            invariant
                i <= self.inputs.len(),
                tx_encodable(self@),
                out@ == spec_u32_to_le_bytes(spec_i32_to_bits(self.version)) + spec_u32_to_le_bytes(
                    self@.inputs.len() as u32,
                ) + spec_encode_inputs(input_views(self.inputs@).take(i as int)),
            decreases self.inputs@.len() - i,
        {
            let ghost views = input_views(self.inputs@);
            proof {
                assert(views[i as int] == self.inputs@[i as int]@);
                assert(input_encodable(self@.inputs[i as int]));
            }
            let inp = &self.inputs[i];
            out.extend_from_slice(inp.previous_output.txid.as_slice());
            push_u32_le(&mut out, inp.previous_output.vout);
            push_u32_le(&mut out, inp.script_sig.len() as u32);
            out.extend_from_slice(inp.script_sig.as_slice());
            push_u32_le(&mut out, inp.sequence);
            proof {
                lemma_encode_inputs_snoc(views.take(i as int), views[i as int]);
                assert(views.take(i as int + 1) =~= views.take(i as int).push(views[i as int]));
                assert(out@ =~= spec_u32_to_le_bytes(spec_i32_to_bits(self.version))
                    + spec_u32_to_le_bytes(self@.inputs.len() as u32) + spec_encode_inputs(
                    views.take(i as int + 1),
                ));
            }
            i += 1;
        }
        proof {
            assert(input_views(self.inputs@).take(self.inputs@.len() as int) =~= input_views(
                self.inputs@,
            ));
        }
        push_u32_le(&mut out, self.outputs.len() as u32);
        let mut j: usize = 0;
        while j < self.outputs.len()
            invariant
                j <= self.outputs.len(),
                tx_encodable(self@),
                out@ == spec_u32_to_le_bytes(spec_i32_to_bits(self.version)) + spec_u32_to_le_bytes(
                    self@.inputs.len() as u32,
                ) + spec_encode_inputs(self@.inputs) + spec_u32_to_le_bytes(
                    self@.outputs.len() as u32,
                ) + spec_encode_outputs(output_views(self.outputs@).take(j as int)),
            decreases self.outputs@.len() - j,
        {
            let ghost views = output_views(self.outputs@);
            proof {
                assert(views[j as int] == self.outputs@[j as int]@);
                assert(output_encodable(self@.outputs[j as int]));
            }
            let outp = &self.outputs[j];
            push_u64_le(&mut out, outp.value);
            push_u32_le(&mut out, outp.script_pubkey.len() as u32);
            out.extend_from_slice(outp.script_pubkey.as_slice());
            proof {
                lemma_encode_outputs_snoc(views.take(j as int), views[j as int]);
                assert(views.take(j as int + 1) =~= views.take(j as int).push(views[j as int]));
                assert(out@ =~= spec_u32_to_le_bytes(spec_i32_to_bits(self.version))
                    + spec_u32_to_le_bytes(self@.inputs.len() as u32) + spec_encode_inputs(
                    self@.inputs,
                ) + spec_u32_to_le_bytes(self@.outputs.len() as u32) + spec_encode_outputs(
                    views.take(j as int + 1),
                ));
            }
            j += 1;
        }
        proof {
            assert(output_views(self.outputs@).take(self.outputs@.len() as int) =~= output_views(
                self.outputs@,
            ));
        }
        push_u32_le(&mut out, self.lock_time);
        proof {
            assert(out@ =~= spec_encode(self@));
        }
        out
    }
}

impl LegacyTransaction {
    /// Whether this transaction fits the wire layout's 32-bit count and
    /// length prefixes.
    fn check_encodable(&self) -> (r: bool)
        ensures
            r == tx_encodable(self@),
    {
        if self.inputs.len() > u32::MAX as usize {
            return false;
        }
        if self.outputs.len() > u32::MAX as usize {
            return false;
        }
        let mut i: usize = 0;
        while i < self.inputs.len()
            invariant
                i <= self.inputs.len(),
                forall|k: int| 0 <= k < i ==> input_encodable(#[trigger] self@.inputs[k]),
            decreases self.inputs@.len() - i,
        {
            proof {
                assert(self@.inputs[i as int] == self.inputs@[i as int]@);
            }
            if self.inputs[i].script_sig.len() > u32::MAX as usize {
                assert(!input_encodable(self@.inputs[i as int]));
                return false;
            }
            i += 1;
        }
        let mut j: usize = 0;
        while j < self.outputs.len()
            invariant
                j <= self.outputs.len(),
                self@.inputs.len() <= u32::MAX,
                forall|k: int| 0 <= k < self@.inputs.len() ==> input_encodable(
                    #[trigger] self@.inputs[k],
                ),
                forall|k: int| 0 <= k < j ==> output_encodable(#[trigger] self@.outputs[k]),
            decreases self.outputs@.len() - j,
        {
            proof {
                assert(self@.outputs[j as int] == self.outputs@[j as int]@);
            }
            if self.outputs[j].script_pubkey.len() > u32::MAX as usize {
                assert(!output_encodable(self@.outputs[j as int]));
                return false;
            }
            j += 1;
        }
        true
    }

    /// Decodes a transaction from `data`, which must spell out the wire
    /// layout exactly: short buffers, counts or script lengths that run
    /// past the end of `data`, and trailing bytes are all rejected with
    /// `InvalidTransaction`. Never panics and never reads out of bounds.
    #[verifier::loop_isolation(false)]
    pub fn decode(data: &[u8]) -> (r: Result<LegacyTransaction, BitcoinError>)
        ensures
            (match r {
                Ok(t) => spec_decode(data@) == Some(t@),
                Err(e) => spec_decode(data@) is None && e == BitcoinError::InvalidTransaction,
            }),
    {
        if data.len() < 8 {
            return Err(BitcoinError::InvalidTransaction);
        }
        let vbits = u32_from_le_bytes(slice_subrange(data, 0, 4));
        let version = i32_from_bits(vbits);
        let n = u32_from_le_bytes(slice_subrange(data, 4, 8));
        let mut inputs: Vec<TxInput> = Vec::new();
        let mut pos: usize = 8;
        let mut i: u32 = 0;
        while i < n
            invariant
                i <= n,
                8 <= pos <= data@.len(),
                spec_parse_inputs(data@.skip(8), n as nat) == (match spec_parse_inputs(
                    data@.skip(pos as int),
                    (n - i) as nat,
                ) {
                    Some(v) => Some::<(Seq<TxInputModel>, Seq<u8>)>(
                        (input_views(inputs@) + v.0, v.1),
                    ),
                    None => None::<(Seq<TxInputModel>, Seq<u8>)>,
                }),
            decreases n - i,
        {
            match parse_input_at(data, pos) {
                None => {
                    assert(spec_parse_inputs(data@.skip(pos as int), (n - i) as nat) is None);
                    assert(spec_decode(data@) is None);
                    return Err(BitcoinError::InvalidTransaction);
                },
                Some(step) => {
                    let (inp, end) = step;
                    let ghost prev = inputs@;
                    inputs.push(inp);
                    proof {
                        assert(input_views(prev.push(inp)) =~= input_views(prev).push(inp@));
                        match spec_parse_inputs(data@.skip(end as int), (n - (i + 1)) as nat) {
                            Some(v) => {
                                assert(spec_parse_inputs(data@.skip(pos as int), (n - i) as nat)
                                    == Some::<(Seq<TxInputModel>, Seq<u8>)>(
                                    (seq![inp@] + v.0, v.1),
                                ));
                                assert(input_views(prev) + (seq![inp@] + v.0) =~= input_views(
                                    prev,
                                ).push(inp@) + v.0);
                            },
                            None => {
                                assert(spec_parse_inputs(data@.skip(pos as int), (n - i) as nat)
                                    is None);
                            },
                        }
                    }
                    pos = end;
                    i += 1;
                },
            }
        }
        proof {
            assert(input_views(inputs@) + Seq::<TxInputModel>::empty() =~= input_views(inputs@));
            assert(spec_parse_inputs(data@.skip(8), n as nat) == Some::<
                (Seq<TxInputModel>, Seq<u8>),
            >((input_views(inputs@), data@.skip(pos as int))));
        }
        if data.len() - pos < 4 {
            return Err(BitcoinError::InvalidTransaction);
        }
        let m = u32_from_le_bytes(slice_subrange(data, pos, pos + 4));
        proof {
            assert(data@.subrange(pos as int, pos as int + 4) =~= data@.skip(
                pos as int,
            ).subrange(0, 4));
        }
        let opos: usize = pos + 4;
        proof {
            assert(data@.skip(opos as int) =~= data@.skip(pos as int).skip(4));
        }
        let mut outputs: Vec<TxOutput> = Vec::new();
        let mut pos2: usize = opos;
        let mut j: u32 = 0;
        while j < m
            invariant
                j <= m,
                opos <= pos2 <= data@.len(),
                spec_parse_outputs(data@.skip(opos as int), m as nat) == (match spec_parse_outputs(
                    data@.skip(pos2 as int),
                    (m - j) as nat,
                ) {
                    Some(v) => Some::<(Seq<TxOutputModel>, Seq<u8>)>(
                        (output_views(outputs@) + v.0, v.1),
                    ),
                    None => None::<(Seq<TxOutputModel>, Seq<u8>)>,
                }),
            decreases m - j,
        {
            match parse_output_at(data, pos2) {
                None => {
                    assert(spec_parse_outputs(data@.skip(pos2 as int), (m - j) as nat) is None);
                    assert(spec_decode(data@) is None);
                    return Err(BitcoinError::InvalidTransaction);
                },
                Some(step) => {
                    let (outp, end) = step;
                    let ghost prev = outputs@;
                    outputs.push(outp);
                    proof {
                        assert(output_views(prev.push(outp)) =~= output_views(prev).push(outp@));
                        match spec_parse_outputs(data@.skip(end as int), (m - (j + 1)) as nat) {
                            Some(v) => {
                                assert(spec_parse_outputs(data@.skip(pos2 as int), (m - j) as nat)
                                    == Some::<(Seq<TxOutputModel>, Seq<u8>)>(
                                    (seq![outp@] + v.0, v.1),
                                ));
                                assert(output_views(prev) + (seq![outp@] + v.0) =~= output_views(
                                    prev,
                                ).push(outp@) + v.0);
                            },
                            None => {
                                assert(spec_parse_outputs(data@.skip(pos2 as int), (m - j) as nat)
                                    is None);
                            },
                        }
                    }
                    pos2 = end;
                    j += 1;
                },
            }
        }
        proof {
            assert(output_views(outputs@) + Seq::<TxOutputModel>::empty() =~= output_views(
                outputs@,
            ));
            assert(spec_parse_outputs(data@.skip(opos as int), m as nat) == Some::<
                (Seq<TxOutputModel>, Seq<u8>),
            >((output_views(outputs@), data@.skip(pos2 as int))));
        }
        if data.len() - pos2 != 4 {
            assert(data@.skip(pos2 as int).len() != 4);
            return Err(BitcoinError::InvalidTransaction);
        }
        let lock_time = u32_from_le_bytes(slice_subrange(data, pos2, pos2 + 4));
        proof {
            assert(data@.subrange(pos2 as int, pos2 as int + 4) =~= data@.skip(pos2 as int));
        }
        let t = LegacyTransaction { version, inputs, outputs, lock_time };
        proof {
            assert(spec_decode(data@) == Some(t@));
        }
        Ok(t)
    }

    /// Serializes this transaction after checking the wire-format limits,
    /// reporting `InvalidTransaction` for one whose counts or script
    /// lengths exceed their 32-bit prefixes instead of wrapping around.
    pub fn encode(&self) -> (r: Result<Vec<u8>, BitcoinError>)
        ensures
            (match r {
                Ok(b) => tx_encodable(self@) && b@ == spec_encode(self@),
                Err(e) => !tx_encodable(self@) && e == BitcoinError::InvalidTransaction,
            }),
    {
        if !self.check_encodable() {
            return Err(BitcoinError::InvalidTransaction);
        }
        Ok(self.serialize())
    }
}

} // verus!
