use legacy_tx::BitcoinError;
use legacy_tx::BitcoinSerialize;
use legacy_tx::LegacyTransaction;
use legacy_tx::LegacyTransactionBuilder;
use legacy_tx::OutPoint;
use legacy_tx::TxInput;
use legacy_tx::TxOutput;

fn push_u32(buf: &mut Vec<u8>, x: u32) {
    buf.extend_from_slice(&x.to_le_bytes());
}

fn push_u64(buf: &mut Vec<u8>, x: u64) {
    buf.extend_from_slice(&x.to_le_bytes());
}

fn sample_transaction() -> LegacyTransaction {
    LegacyTransactionBuilder::new()
        .version(2)
        .add_input(TxInput {
            previous_output: OutPoint { txid: [0x11; 32], vout: 7 },
            script_sig: vec![0xDE, 0xAD],
            sequence: 0xFFFF_FFFF,
        })
        .add_input(TxInput {
            previous_output: OutPoint { txid: [0x22; 32], vout: 0 },
            script_sig: vec![],
            sequence: 0,
        })
        .add_output(TxOutput { value: 5_000, script_pubkey: vec![0x51] })
        .add_output(TxOutput { value: u64::MAX, script_pubkey: vec![] })
        .lock_time(101)
        .build()
}

fn sample_bytes() -> Vec<u8> {
    let mut b = Vec::new();
    push_u32(&mut b, 2); // version
    push_u32(&mut b, 2); // input count
    b.extend_from_slice(&[0x11; 32]);
    push_u32(&mut b, 7);
    push_u32(&mut b, 2);
    b.extend_from_slice(&[0xDE, 0xAD]);
    push_u32(&mut b, 0xFFFF_FFFF);
    b.extend_from_slice(&[0x22; 32]);
    push_u32(&mut b, 0);
    push_u32(&mut b, 0);
    push_u32(&mut b, 0);
    push_u32(&mut b, 2); // output count
    push_u64(&mut b, 5_000);
    push_u32(&mut b, 1);
    b.push(0x51);
    push_u64(&mut b, u64::MAX);
    push_u32(&mut b, 0);
    push_u32(&mut b, 101); // lock time
    b
}

#[test]
fn serialize_matches_wire_layout_exactly() {
    assert_eq!(sample_transaction().serialize(), sample_bytes());
}

#[test]
fn serialize_empty_transaction_exact_bytes() {
    let tx = LegacyTransactionBuilder::new().build();
    assert_eq!(
        tx.serialize(),
        vec![1, 0, 0, 0, 0, 0, 0, 0, 0, 0, 0, 0, 0, 0, 0, 0]
    );
}

#[test]
fn serialize_negative_version_two_complement() {
    let tx = LegacyTransactionBuilder::new().version(-1).build();
    assert_eq!(
        tx.serialize(),
        vec![0xFF, 0xFF, 0xFF, 0xFF, 0, 0, 0, 0, 0, 0, 0, 0, 0, 0, 0, 0]
    );
}

#[test]
fn encode_agrees_with_serialize() {
    let tx = sample_transaction();
    assert_eq!(tx.encode().unwrap(), tx.serialize());
}

#[test]
fn decode_matches_wire_layout_exactly() {
    let tx = LegacyTransaction::decode(&sample_bytes()).unwrap();
    assert_eq!(tx, sample_transaction());
}

#[test]
fn round_trip_preserves_every_field_and_order() {
    let tx = sample_transaction();
    let decoded = LegacyTransaction::decode(&tx.serialize()).unwrap();
    assert_eq!(decoded, tx);
}

#[test]
fn round_trip_empty_transaction() {
    let tx = LegacyTransactionBuilder::new().version(-7).lock_time(42).build();
    let decoded = LegacyTransaction::decode(&tx.serialize()).unwrap();
    assert_eq!(decoded, tx);
}

#[test]
fn decode_short_buffers_rejected() {
    for len in 0..12 {
        let bytes = vec![0u8; len];
        assert_eq!(
            LegacyTransaction::decode(&bytes),
            Err(BitcoinError::InvalidTransaction),
            "length {len} must be rejected"
        );
    }
}

#[test]
fn decode_reports_declared_input_count() {
    let tx = LegacyTransaction::decode(&sample_bytes()).unwrap();
    assert_eq!(tx.inputs.len(), 2);
    assert_eq!(tx.outputs.len(), 2);
}

#[test]
fn decode_input_count_overrunning_buffer_rejected() {
    let mut b = Vec::new();
    push_u32(&mut b, 1); // version
    push_u32(&mut b, 5); // claims five inputs, none present
    push_u32(&mut b, 0);
    push_u32(&mut b, 0);
    assert_eq!(LegacyTransaction::decode(&b), Err(BitcoinError::InvalidTransaction));
}

#[test]
fn decode_script_length_overrunning_buffer_rejected() {
    let mut b = Vec::new();
    push_u32(&mut b, 1); // version
    push_u32(&mut b, 1); // one input
    b.extend_from_slice(&[0x33; 32]);
    push_u32(&mut b, 0); // vout
    push_u32(&mut b, 100); // script length far past the end
    push_u32(&mut b, 0); // sequence
    push_u32(&mut b, 0); // output count
    push_u32(&mut b, 0); // lock time
    assert_eq!(LegacyTransaction::decode(&b), Err(BitcoinError::InvalidTransaction));
}

#[test]
fn decode_output_value_little_endian() {
    let mut b = Vec::new();
    push_u32(&mut b, 1);
    push_u32(&mut b, 0);
    push_u32(&mut b, 1); // one output
    b.extend_from_slice(&[0x08, 0x07, 0x06, 0x05, 0x04, 0x03, 0x02, 0x01]);
    push_u32(&mut b, 0);
    push_u32(&mut b, 0);
    let tx = LegacyTransaction::decode(&b).unwrap();
    assert_eq!(tx.outputs[0].value, 0x0102_0304_0506_0708);
}

#[test]
fn decode_trailing_bytes_rejected() {
    let mut b = sample_bytes();
    b.push(0);
    assert_eq!(LegacyTransaction::decode(&b), Err(BitcoinError::InvalidTransaction));
}

#[test]
fn decode_never_panics_on_arbitrary_prefixes() {
    let full = sample_bytes();
    for len in 0..full.len() {
        assert_eq!(
            LegacyTransaction::decode(&full[..len]),
            Err(BitcoinError::InvalidTransaction),
            "strict prefix of length {len} must be rejected"
        );
    }
}
