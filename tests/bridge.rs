use avm_bridge::avm::{
    complete_execution, decode_transaction_results, encode_transaction_contexts, execute,
    AvmError, RuntimeLifecycle,
};
use avm_bridge::callback::{avm_address, avm_bytes, avm_value, WorldState};
use avm_bridge::codec::{DecodeError, NativeDecoder, NativeEncoder};
use avm_bridge::store::{bytes_equal, starts_with, ByteMap};
use avm_bridge::types::{TransactionContext, TransactionResult, AVM_CALL, AVM_CREATE};
use avm_bridge::value::{checked_add, checked_sub};

fn sample_context() -> TransactionContext {
    TransactionContext {
        transaction_type: AVM_CREATE,
        address: [1u8; 32].to_vec(),
        caller: [2u8; 32].to_vec(),
        origin: [3u8; 32].to_vec(),
        nonce: 0,
        value: Vec::new(),
        data: vec![9, 8, 7],
        energy_limit: 1_000_000,
        energy_price: 1,
        transaction_hash: [4u8; 32].to_vec(),
        basic_cost: 200_000,
        transaction_timestamp: 2,
        block_timestamp: 3,
        block_number: 4,
        block_energy_limit: 5_000_000,
        block_coinbase: [4u8; 32].to_vec(),
        block_previous_hash: [5u8; 32].to_vec(),
        block_difficulty: Vec::new(),
        internal_call_depth: 0,
    }
}

fn code_and_arguments(code: &Vec<u8>, arguments: Option<&Vec<u8>>) -> Vec<u8> {
    let mut encoder = NativeEncoder::new();
    encoder.encode_bytes(code);
    match arguments {
        Some(arg) => encoder.encode_bytes(arg),
        None => {}
    }
    encoder.to_bytes()
}

fn response_21000() -> Vec<u8> {
    let mut e = NativeEncoder::new();
    e.encode_int32(0);
    e.encode_bytes(&[]);
    e.encode_long(21000);
    e.encode_int32(0);
    e.encode_int32(0);
    e.to_bytes()
}

fn assert_same_context(a: &TransactionContext, b: &TransactionContext) {
    assert_eq!(a.transaction_type, b.transaction_type);
    assert_eq!(a.address, b.address);
    assert_eq!(a.caller, b.caller);
    assert_eq!(a.origin, b.origin);
    assert_eq!(a.nonce, b.nonce);
    assert_eq!(a.value, b.value);
    assert_eq!(a.data, b.data);
    assert_eq!(a.energy_limit, b.energy_limit);
    assert_eq!(a.energy_price, b.energy_price);
    assert_eq!(a.transaction_hash, b.transaction_hash);
    assert_eq!(a.basic_cost, b.basic_cost);
    assert_eq!(a.transaction_timestamp, b.transaction_timestamp);
    assert_eq!(a.block_timestamp, b.block_timestamp);
    assert_eq!(a.block_number, b.block_number);
    assert_eq!(a.block_energy_limit, b.block_energy_limit);
    assert_eq!(a.block_coinbase, b.block_coinbase);
    assert_eq!(a.block_previous_hash, b.block_previous_hash);
    assert_eq!(a.block_difficulty, b.block_difficulty);
    assert_eq!(a.internal_call_depth, b.internal_call_depth);
}

#[test]
fn test_avm_hello_world() {
    let mut tx = sample_context();
    tx.data = code_and_arguments(&vec![0xca, 0xfe, 0xba, 0xbe], None);
    let transactions = vec![tx];
    let mut lifecycle = RuntimeLifecycle::new();
    assert!(lifecycle.ensure_started());
    let results = execute(&mut lifecycle, &transactions, |payload: Vec<u8>| {
        assert_eq!(&payload[0..4], &[0, 0, 0, 1]);
        let mut e = NativeEncoder::new();
        e.encode_int32(1);
        e.encode_bytes(&response_21000());
        Some(e.to_bytes())
    })
    .unwrap();
    assert_eq!(results.len(), 1);
    assert_eq!(results[0].code, 0);
    assert_eq!(lifecycle.attachment_count(), 0);
}

#[test]
fn encoder_writes_big_endian() {
    let mut e = NativeEncoder::new();
    e.encode_byte(0xab);
    e.encode_int32(0x01020304);
    e.encode_long(0x0102030405060708);
    e.encode_bytes(&[7, 8]);
    assert_eq!(
        e.to_bytes(),
        vec![0xab, 1, 2, 3, 4, 1, 2, 3, 4, 5, 6, 7, 8, 0, 0, 0, 2, 7, 8]
    );
}

#[test]
fn primitives_round_trip() {
    let mut e = NativeEncoder::new();
    e.encode_byte(200);
    e.encode_int32(u32::MAX - 5);
    e.encode_long(u64::MAX - 7);
    e.encode_bytes(&[1, 2, 3]);
    e.encode_bytes(&[]);
    let bytes = e.to_bytes();
    let mut d = NativeDecoder::new(&bytes);
    assert_eq!(d.decode_byte(), Ok(200));
    assert_eq!(d.decode_int(), Ok(u32::MAX - 5));
    assert_eq!(d.decode_long(), Ok(u64::MAX - 7));
    assert_eq!(d.decode_bytes(), Ok(vec![1, 2, 3]));
    assert_eq!(d.decode_bytes(), Ok(vec![]));
    assert!(d.is_done());
    assert_eq!(d.decode_byte(), Err(DecodeError::Truncated));
}

#[test]
fn short_reads_fail() {
    let bytes = vec![0u8, 0, 0];
    let mut d = NativeDecoder::new(&bytes);
    assert_eq!(d.decode_int(), Err(DecodeError::Truncated));
    assert_eq!(d.decode_long(), Err(DecodeError::Truncated));
    let framed = vec![0u8, 0, 0, 5, 1, 2];
    let mut d = NativeDecoder::new(&framed);
    assert_eq!(d.decode_bytes(), Err(DecodeError::Truncated));
    assert_eq!(d.decode_int(), Ok(5));
}

#[test]
fn context_round_trip_field_for_field() {
    let ctx = sample_context();
    let bytes = ctx.to_bytes();
    let back = TransactionContext::from_bytes(&bytes).unwrap();
    assert_same_context(&ctx, &back);
}

#[test]
fn context_prefixes_fail_to_decode() {
    let bytes = sample_context().to_bytes();
    for n in 0..bytes.len() {
        assert!(TransactionContext::from_bytes(&bytes[..n]).is_err());
    }
}

#[test]
fn context_encoding_starts_with_tag_and_address() {
    let mut ctx = sample_context();
    ctx.transaction_type = AVM_CALL;
    let bytes = ctx.to_bytes();
    assert_eq!(bytes[0], 3);
    assert_eq!(&bytes[1..5], &[0, 0, 0, 32]);
    assert_eq!(bytes.len(), 1 + 6 * 36 + 4 + (4 + 3) + 4 + 7 * 8 + 2 * 4);
}

#[test]
fn result_decodes_energy_and_no_logs() {
    let r = TransactionResult::new(response_21000()).unwrap();
    assert_eq!(r.code, 0);
    assert!(r.return_data.is_empty());
    assert_eq!(r.energy_used, 21000);
    assert_eq!(r.storage_root_hash, 0);
    assert_eq!(r.logs.len(), 0);
}

#[test]
fn result_decodes_logs_and_topics() {
    let mut e = NativeEncoder::new();
    e.encode_int32(1);
    e.encode_bytes(&[5, 5]);
    e.encode_long(7);
    e.encode_int32(9);
    e.encode_int32(1);
    e.encode_bytes(&[1u8; 32]);
    e.encode_int32(2);
    e.encode_bytes(&[10]);
    e.encode_bytes(&[11, 12]);
    e.encode_bytes(&[13]);
    let r = TransactionResult::new(e.to_bytes()).unwrap();
    assert_eq!(r.code, 1);
    assert_eq!(r.return_data, vec![5, 5]);
    assert_eq!(r.storage_root_hash, 9);
    assert_eq!(r.logs.len(), 1);
    assert_eq!(r.logs[0].address, vec![1u8; 32]);
    assert_eq!(r.logs[0].topics, vec![vec![10], vec![11, 12]]);
    assert_eq!(r.logs[0].data, vec![13]);
}

#[test]
fn truncated_result_fails() {
    let full = response_21000();
    for n in 0..full.len() {
        assert!(matches!(TransactionResult::new(full[..n].to_vec()), Err(DecodeError::Truncated)));
    }
}

#[test]
fn empty_batch_encodes_zero_count() {
    let bytes = encode_transaction_contexts(&Vec::new());
    assert_eq!(bytes, vec![0, 0, 0, 0]);
    let results = decode_transaction_results(&bytes).unwrap();
    assert!(results.is_empty());
}

#[test]
fn empty_batch_executes_to_empty_list() {
    let mut lifecycle = RuntimeLifecycle::new();
    lifecycle.ensure_started();
    let r = execute(&mut lifecycle, &Vec::new(), |p: Vec<u8>| Some(p));
    assert_eq!(r.unwrap().len(), 0);
    assert_eq!(lifecycle.attachment_count(), 0);
}

#[test]
fn batch_frames_each_context() {
    let ctx = sample_context();
    let one = ctx.to_bytes();
    let bytes = encode_transaction_contexts(&vec![sample_context(), sample_context()]);
    assert_eq!(&bytes[0..4], &[0, 0, 0, 2]);
    let n = one.len() as u32;
    assert_eq!(&bytes[4..8], &n.to_be_bytes());
    assert_eq!(&bytes[8..8 + one.len()], &one[..]);
    assert_eq!(bytes.len(), 4 + 2 * (4 + one.len()));
}

#[test]
fn absent_response_is_execution_failure() {
    let mut lifecycle = RuntimeLifecycle::new();
    lifecycle.ensure_started();
    lifecycle.attach();
    let r = execute(&mut lifecycle, &vec![sample_context()], |_p: Vec<u8>| None);
    assert!(matches!(r, Err(AvmError::ExecutionFailed)));
    assert_eq!(lifecycle.attachment_count(), 1);
}

#[test]
fn malformed_response_is_decoding_failure() {
    let mut lifecycle = RuntimeLifecycle::new();
    lifecycle.ensure_started();
    let r = execute(&mut lifecycle, &vec![sample_context()], |_p: Vec<u8>| Some(vec![0, 0, 0, 1, 0]));
    assert!(matches!(r, Err(AvmError::Decoding)));
    assert_eq!(lifecycle.attachment_count(), 0);
    assert!(matches!(complete_execution(None), Err(AvmError::ExecutionFailed)));
}

#[test]
fn lifecycle_boots_once() {
    let mut lifecycle = RuntimeLifecycle::new();
    assert!(!lifecycle.started());
    assert!(lifecycle.ensure_started());
    assert!(!lifecycle.ensure_started());
    assert!(lifecycle.started());
    lifecycle.attach();
    lifecycle.attach();
    assert_eq!(lifecycle.attachment_count(), 2);
    lifecycle.detach();
    assert_eq!(lifecycle.attachment_count(), 1);
}

#[test]
fn unset_storage_is_absent_not_empty() {
    let mut w = WorldState::new();
    let a = avm_address { bytes: [7u8; 32] };
    let key = avm_bytes::from_vec(vec![1, 2]);
    assert!(w.get_storage(&a, &key).is_null());
    assert!(w.get_code(&a).is_null());
    w.put_storage(&a, &key, &avm_bytes::from_vec(Vec::new()));
    let v = w.get_storage(&a, &key);
    assert!(!v.is_null());
    assert_eq!(v.length(), 0);
    w.put_storage(&a, &key, &avm_bytes::new_null_bytes());
    assert!(w.get_storage(&a, &key).is_null());
    let other = avm_address { bytes: [8u8; 32] };
    w.put_storage(&a, &key, &avm_bytes::from_vec(vec![42]));
    assert!(w.get_storage(&other, &key).is_null());
    assert_eq!(w.get_storage(&a, &key).release_bytes(), Some(vec![42]));
    assert!(w.get_storage(&a, &avm_bytes::new_null_bytes()).is_null());
}

#[test]
fn code_put_get_and_delete() {
    let mut w = WorldState::new();
    let a = avm_address { bytes: [1u8; 32] };
    w.create_account(&a);
    assert_eq!(w.has_account_state(&a), 1);
    w.put_code(&a, &avm_bytes::from_vec(vec![0xde, 0xad]));
    assert_eq!(w.get_code(&a).release_bytes(), Some(vec![0xde, 0xad]));
    w.delete_account(&a);
    assert_eq!(w.has_account_state(&a), 0);
    assert!(w.get_code(&a).is_null());
}

#[test]
fn nonce_and_balance() {
    let mut w = WorldState::new();
    let a = avm_address { bytes: [3u8; 32] };
    assert_eq!(w.get_nonce(&a), 0);
    w.increment_nonce(&a);
    w.increment_nonce(&a);
    assert_eq!(w.get_nonce(&a), 2);
    let mut v = [0u8; 32];
    v[31] = 0xff;
    w.increase_balance(&a, &avm_value { bytes: v });
    w.increase_balance(&a, &avm_value { bytes: v });
    let b = w.get_balance(&a).bytes;
    assert_eq!(&b[30..], &[1, 0xfe]);
    let mut one = [0u8; 32];
    one[31] = 1;
    w.decrease_balance(&a, &avm_value { bytes: one });
    assert_eq!(&w.get_balance(&a).bytes[30..], &[1, 0xfd]);
    w.decrease_balance(&a, &avm_value { bytes: [0xffu8; 32] });
    assert_eq!(&w.get_balance(&a).bytes[30..], &[1, 0xfd]);
    assert_eq!(w.get_nonce(&a), 2);
    let missing = avm_address { bytes: [9u8; 32] };
    assert_eq!(w.get_balance(&missing).bytes, [0u8; 32]);
}

#[test]
fn value_arithmetic_carries_and_bounds() {
    let mut a = [0u8; 32];
    a[31] = 0xff;
    a[30] = 0xff;
    let mut one = [0u8; 32];
    one[31] = 1;
    let s = checked_add(&a, &one).unwrap();
    assert_eq!(&s[29..], &[1, 0, 0]);
    assert_eq!(checked_add(&[0xffu8; 32], &one), None);
    assert_eq!(checked_sub(&s, &one), Some(a));
    assert_eq!(checked_sub(&one, &a), None);
}

#[test]
fn new_fixed_bytes_is_zeroed() {
    let b = avm_bytes::new_fixed_bytes(3);
    assert!(!b.is_null());
    assert_eq!(b.release_bytes(), Some(vec![0, 0, 0]));
    assert_eq!(avm_bytes::new_null_bytes().length(), 0);
}

#[test]
fn byte_map_replaces_and_removes() {
    let mut m: ByteMap<u32> = ByteMap::new();
    m.insert(vec![1], 10);
    m.insert(vec![1, 2], 12);
    m.insert(vec![1], 11);
    assert_eq!(m.get(&[1]), Some(&11));
    assert_eq!(m.get(&[1, 2]), Some(&12));
    m.remove(&[1]);
    assert_eq!(m.get(&[1]), None);
    assert_eq!(m.get(&[1, 2]), Some(&12));
    assert!(bytes_equal(&[1, 2], &[1, 2]));
    assert!(!bytes_equal(&[1, 2], &[1, 3]));
    assert!(!bytes_equal(&[1], &[1, 3]));
}

#[test]
fn truncated_response_fails() {
    let mut e = NativeEncoder::new();
    e.encode_int32(2);
    e.encode_bytes(&response_21000());
    e.encode_bytes(&response_21000());
    let full = e.to_bytes();
    assert_eq!(decode_transaction_results(&full).unwrap().len(), 2);
    for n in 0..full.len() {
        assert!(decode_transaction_results(&full[..n].to_vec()).is_err());
    }
}

#[test]
fn result_with_bad_frame_is_decoding_failure() {
    let mut e = NativeEncoder::new();
    e.encode_int32(1);
    e.encode_bytes(&[0, 0, 0]);
    assert_eq!(decode_transaction_results(&e.to_bytes()).err(), Some(DecodeError::Truncated));
}

#[test]
fn delete_account_clears_its_storage_only() {
    let mut w = WorldState::new();
    let a = avm_address { bytes: [1u8; 32] };
    let b = avm_address { bytes: [2u8; 32] };
    let key = avm_bytes::from_vec(vec![5]);
    w.create_account(&a);
    w.put_storage(&a, &key, &avm_bytes::from_vec(vec![6]));
    w.put_storage(&b, &key, &avm_bytes::from_vec(vec![7]));
    w.delete_account(&a);
    assert!(w.get_storage(&a, &key).is_null());
    assert_eq!(w.get_storage(&b, &key).release_bytes(), Some(vec![7]));
}

#[test]
fn byte_map_removes_by_prefix() {
    let mut m: ByteMap<u8> = ByteMap::new();
    m.insert(vec![1, 1], 1);
    m.insert(vec![1, 2], 2);
    m.insert(vec![2, 1], 3);
    m.insert(vec![1], 4);
    m.remove_prefixed(&[1]);
    assert_eq!(m.get(&[1, 1]), None);
    assert_eq!(m.get(&[1, 2]), None);
    assert_eq!(m.get(&[1]), None);
    assert_eq!(m.get(&[2, 1]), Some(&3));
    assert!(starts_with(&[1, 2, 3], &[1, 2]));
    assert!(!starts_with(&[1], &[1, 2]));
    assert!(starts_with(&[1], &[]));
}
