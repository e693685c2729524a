use legacy_tx::LegacyTransaction;
use legacy_tx::LegacyTransactionBuilder;
use legacy_tx::OutPoint;
use legacy_tx::TxInput;
use legacy_tx::TxOutput;

fn input_with_vout(vout: u32) -> TxInput {
    TxInput {
        previous_output: OutPoint { txid: [7u8; 32], vout },
        script_sig: vec![0xAB, vout as u8],
        sequence: 0xFFFF_FFFF,
    }
}

#[test]
fn builder_defaults() {
    let tx = LegacyTransactionBuilder::new().build();
    assert_eq!(tx.version, 1);
    assert!(tx.inputs.is_empty());
    assert!(tx.outputs.is_empty());
    assert_eq!(tx.lock_time, 0);
}

#[test]
fn builder_entry_point_matches_new() {
    let a = LegacyTransaction::builder().build();
    let b = LegacyTransactionBuilder::new().build();
    assert_eq!(a, b);
}

#[test]
fn builder_overwrites_version_and_lock_time() {
    let tx = LegacyTransactionBuilder::new().version(-3).version(2).lock_time(9).lock_time(750_000).build();
    assert_eq!(tx.version, 2);
    assert_eq!(tx.lock_time, 750_000);
}

#[test]
fn builder_preserves_input_order() {
    let a = input_with_vout(0);
    let b = input_with_vout(1);
    let tx = LegacyTransactionBuilder::new().add_input(a.clone()).add_input(b.clone()).build();
    assert_eq!(tx.inputs, vec![a, b]);
}

#[test]
fn builder_preserves_output_order() {
    let a = TxOutput { value: 1, script_pubkey: vec![0x51] };
    let b = TxOutput { value: 2, script_pubkey: vec![0x52] };
    let tx = LegacyTransactionBuilder::new().add_output(a.clone()).add_output(b.clone()).build();
    assert_eq!(tx.outputs, vec![a, b]);
}
