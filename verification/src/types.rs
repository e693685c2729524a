//! Domain types: outpoints, transaction inputs and outputs, and the
//! transaction itself, together with their mathematical models.
//!
//! Each executable type has a `View` onto a ghost model over `Seq`, and the
//! contracts of the builder and of the codec are stated over these models.

use vstd::prelude::*;

verus! {

/// A generic pair of coordinates.
#[derive(Debug, Clone, PartialEq, Eq)]
pub struct Point<T> {
    pub x: T,
    pub y: T,
}

impl<T> Point<T> {
    pub fn new(x: T, y: T) -> (r: Self)
        ensures
            r.x == x,
            r.y == y,
    {
        Point { x, y }
    }
}

/// A reference to a specific output of a prior transaction: the transaction
/// id and the index of the output being spent. The txid is a fixed-size
/// array, so a wrong-sized id is impossible to construct.
#[derive(Debug, Clone, PartialEq, Eq)]
pub struct OutPoint {
    pub txid: [u8; 32],
    pub vout: u32,
}

/// One transaction input: the outpoint it spends, an opaque unlocking
/// script, and a sequence number.
#[derive(Debug, Clone, PartialEq, Eq)]
pub struct TxInput {
    pub previous_output: OutPoint,
    pub script_sig: Vec<u8>,
    pub sequence: u32,
}

/// One transaction output: a value in the smallest currency unit and an
/// opaque locking script.
#[derive(Debug, Clone, PartialEq, Eq)]
pub struct TxOutput {
    pub value: u64,
    pub script_pubkey: Vec<u8>,
}

/// A legacy-format transaction. The order of inputs and of outputs is
/// significant and is preserved exactly by the builder and by the codec.
#[derive(Debug, Clone, PartialEq, Eq)]
pub struct LegacyTransaction {
    pub version: i32,
    pub inputs: Vec<TxInput>,
    pub outputs: Vec<TxOutput>,
    pub lock_time: u32,
}

/// Mathematical model of an outpoint.
#[verifier::ext_equal]
pub ghost struct OutPointModel {
    pub txid: Seq<u8>,
    pub vout: u32,
}

/// Mathematical model of a transaction input.
#[verifier::ext_equal]
pub ghost struct TxInputModel {
    pub previous_output: OutPointModel,
    pub script_sig: Seq<u8>,
    pub sequence: u32,
}

/// Mathematical model of a transaction output.
#[verifier::ext_equal]
pub ghost struct TxOutputModel {
    pub value: u64,
    pub script_pubkey: Seq<u8>,
}

/// Mathematical model of a transaction.
#[verifier::ext_equal]
pub ghost struct TxModel {
    pub version: i32,
    pub inputs: Seq<TxInputModel>,
    pub outputs: Seq<TxOutputModel>,
    pub lock_time: u32,
}

impl View for OutPoint {
    type V = OutPointModel;

    open spec fn view(&self) -> OutPointModel {
        OutPointModel { txid: self.txid@, vout: self.vout }
    }
}

impl View for TxInput {
    type V = TxInputModel;

    open spec fn view(&self) -> TxInputModel {
        TxInputModel {
            previous_output: self.previous_output@,
            script_sig: self.script_sig@,
            sequence: self.sequence,
        }
    }
}

impl View for TxOutput {
    type V = TxOutputModel;

    open spec fn view(&self) -> TxOutputModel {
        TxOutputModel { value: self.value, script_pubkey: self.script_pubkey@ }
    }
}

/// The models of a sequence of inputs, in order.
pub open spec fn input_views(s: Seq<TxInput>) -> Seq<TxInputModel> {
    s.map_values(|x: TxInput| x@)
}

/// The models of a sequence of outputs, in order.
pub open spec fn output_views(s: Seq<TxOutput>) -> Seq<TxOutputModel> {
    s.map_values(|x: TxOutput| x@)
}

impl View for LegacyTransaction {
    type V = TxModel;

    open spec fn view(&self) -> TxModel {
        TxModel {
            version: self.version,
            inputs: input_views(self.inputs@),
            outputs: output_views(self.outputs@),
            lock_time: self.lock_time,
        }
    }
}

} // verus!
