//! A fluent builder for [`LegacyTransaction`]: each setter consumes the
//! builder and returns it for further chaining; `build` yields the finished
//! transaction. No validation happens at build time — an empty input list is
//! legal at this layer.

use vstd::prelude::*;

use crate::types::LegacyTransaction;
use crate::types::TxInput;
use crate::types::TxOutput;

verus! {

/// Accumulates the fields of a transaction. Fresh builders start from the
/// conventional defaults: version 1, no inputs, no outputs, lock time 0.
pub struct LegacyTransactionBuilder {
    pub version: i32,
    pub inputs: Vec<TxInput>,
    pub outputs: Vec<TxOutput>,
    pub lock_time: u32,
}

impl Default for LegacyTransactionBuilder {
    fn default() -> (r: Self)
        ensures
            r.version == 1,
            r.inputs@ == Seq::<TxInput>::empty(),
            r.outputs@ == Seq::<TxOutput>::empty(),
            r.lock_time == 0,
    {
        LegacyTransactionBuilder {
            version: 1,
            inputs: Vec::new(),
            outputs: Vec::new(),
            lock_time: 0,
        }
    }
}

impl LegacyTransactionBuilder {
    /// A fresh builder in the default state.
    pub fn new() -> (r: Self)
        ensures
            r.version == 1,
            r.inputs@ == Seq::<TxInput>::empty(),
            r.outputs@ == Seq::<TxOutput>::empty(),
            r.lock_time == 0,
    {
        Self::default()
    }

    /// Overwrites the version; all other fields are kept.
    pub fn version(self, version: i32) -> (r: Self)
        ensures
            r.version == version,
            r.inputs == self.inputs,
            r.outputs == self.outputs,
            r.lock_time == self.lock_time,
    {
        LegacyTransactionBuilder {
            version,
            inputs: self.inputs,
            outputs: self.outputs,
            lock_time: self.lock_time,
        }
    }

    /// Appends one input; the inputs already added keep their order.
    pub fn add_input(self, input: TxInput) -> (r: Self)
        ensures
            r.version == self.version,
            r.inputs@ == self.inputs@.push(input),
            r.outputs == self.outputs,
            r.lock_time == self.lock_time,
    {
        let mut inputs = self.inputs;
        inputs.push(input);
        LegacyTransactionBuilder {
            version: self.version,
            inputs,
            outputs: self.outputs,
            lock_time: self.lock_time,
        }
    }

    /// Appends one output; the outputs already added keep their order.
    pub fn add_output(self, output: TxOutput) -> (r: Self)
        ensures
            r.version == self.version,
            r.inputs == self.inputs,
            r.outputs@ == self.outputs@.push(output),
            r.lock_time == self.lock_time,
    {
        let mut outputs = self.outputs;
        outputs.push(output);
        LegacyTransactionBuilder {
            version: self.version,
            inputs: self.inputs,
            outputs,
            lock_time: self.lock_time,
        }
    }

    /// Overwrites the lock time; all other fields are kept.
    pub fn lock_time(self, lock_time: u32) -> (r: Self)
        ensures
            r.version == self.version,
            r.inputs == self.inputs,
            r.outputs == self.outputs,
            r.lock_time == lock_time,
    {
        LegacyTransactionBuilder {
            version: self.version,
            inputs: self.inputs,
            outputs: self.outputs,
            lock_time,
        }
    }

    /// Finalizes the builder into a transaction, carrying every accumulated
    /// field over unchanged.
    pub fn build(self) -> (r: LegacyTransaction)
        ensures
            r.version == self.version,
            r.inputs == self.inputs,
            r.outputs == self.outputs,
            r.lock_time == self.lock_time,
    {
        LegacyTransaction {
            version: self.version,
            inputs: self.inputs,
            outputs: self.outputs,
            lock_time: self.lock_time,
        }
    }
}

impl LegacyTransaction {
    /// A fresh builder, as an alternative entry point to construction.
    pub fn builder() -> (r: LegacyTransactionBuilder)
        ensures
            r.version == 1,
            r.inputs@ == Seq::<TxInput>::empty(),
            r.outputs@ == Seq::<TxOutput>::empty(),
            r.lock_time == 0,
    {
        LegacyTransactionBuilder::new()
    }
}

} // verus!
