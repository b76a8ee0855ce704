use bitcoin_hashes::sha256d;
use blockchain_core::block::{Block, BlockHeader, BlockchainHash, MerkleRoot};
use blockchain_core::hash::{blockchain_merkle_root, merkle_pair, Hash256};
use blockchain_core::transaction::{OutPoint, Transaction, TxIn, TxOut};
use blockchain_core::uint::Uint256;
use blockchain_core::util::{BitArray, Error};

fn h(b: u8) -> Hash256 {
    Hash256([b; 32])
}

fn dsha(data: &[u8]) -> Hash256 {
    Hash256(sha256d::hash(data).to_byte_array())
}

fn header(target: u32) -> BlockHeader {
    BlockHeader {
        block_version: 1,
        prev_blockhash: h(0),
        merkle_root: h(7),
        timestamp: 1231006505,
        height: 0,
        target,
        nonce: 2083236893,
    }
}

fn tx_with_script(script: Vec<u8>) -> Transaction {
    Transaction {
        version: 1,
        lock_time: 0,
        input_ent: vec![TxIn {
            previous_out: OutPoint::new(h(3), 1),
            sequence: 0xffff_ffff,
            value_in: 0,
            sig_script: script,
        }],
        output_ent: vec![TxOut { value_out: 50, pkscript: vec![0x51] }],
    }
}

#[test]
fn genesis_compact_target_decodes() {
    let t = header(0x1d00ffff).compute_target();
    assert_eq!(t, Uint256([0, 0, 0, 0x0000_0000_ffff_0000]));
}

#[test]
fn genesis_target_encodes_back() {
    let t = Uint256([0, 0, 0, 0x0000_0000_ffff_0000]);
    assert_eq!(BlockHeader::compute_compact_target_from_u256(&t), 0x1d00ffff);
}

#[test]
fn compact_zero_and_sign_bit() {
    assert_eq!(header(0).compute_target(), Uint256([0, 0, 0, 0]));
    assert_eq!(header(0x04923456).compute_target(), Uint256([0, 0, 0, 0]));
    assert_eq!(header(0x01803456).compute_target(), Uint256([0, 0, 0, 0]));
}

#[test]
fn compact_small_exponents() {
    assert_eq!(header(0x03123456).compute_target(), Uint256([0x123456, 0, 0, 0]));
    assert_eq!(header(0x02123456).compute_target(), Uint256([0x1234, 0, 0, 0]));
    assert_eq!(header(0x05009234).compute_target(), Uint256([0x9234_0000, 0, 0, 0]));
}

#[test]
fn compact_encoding_moves_sign_bit() {
    let t = Uint256([0x9234_0000, 0, 0, 0]);
    assert_eq!(BlockHeader::compute_compact_target_from_u256(&t), 0x05009234);
    assert_eq!(BlockHeader::compute_compact_target_from_u256(&Uint256([0x80, 0, 0, 0])), 0x02008000);
    assert_eq!(BlockHeader::compute_compact_target_from_u256(&Uint256([0x12, 0, 0, 0])), 0x01120000);
    assert_eq!(BlockHeader::compute_compact_target_from_u256(&Uint256([0, 0, 0, 0])), 0);
}

#[test]
fn compact_round_trip() {
    for bits in [0x1d00ffffu32, 0x1b0404cb, 0x05009234, 0x03123456, 0x1a05db8b] {
        let t = header(bits).compute_target();
        assert_eq!(BlockHeader::compute_compact_target_from_u256(&t), bits);
        let back = header(BlockHeader::compute_compact_target_from_u256(&t)).compute_target();
        assert_eq!(back, t);
    }
}

#[test]
fn merkle_root_of_nothing_is_zero() {
    assert_eq!(blockchain_merkle_root(vec![]), Hash256([0; 32]));
}

#[test]
fn merkle_root_of_one_is_itself() {
    assert_eq!(blockchain_merkle_root(vec![h(9)]), h(9));
}

#[test]
fn merkle_root_of_two_hashes_concatenation() {
    let mut data = vec![1u8; 32];
    data.extend_from_slice(&[2u8; 32]);
    assert_eq!(blockchain_merkle_root(vec![h(1), h(2)]), dsha(&data));
    assert_eq!(merkle_pair(&h(1), &h(2)), dsha(&data));
}

#[test]
fn merkle_root_odd_count_duplicates_last() {
    let left = merkle_pair(&h(1), &h(2));
    let right = merkle_pair(&h(3), &h(3));
    assert_eq!(blockchain_merkle_root(vec![h(1), h(2), h(3)]), merkle_pair(&left, &right));
    assert_ne!(blockchain_merkle_root(vec![h(1), h(2), h(3)]), blockchain_merkle_root(vec![h(1), h(2)]));
}

#[test]
fn outpoint_null() {
    let n = OutPoint::null();
    assert!(n.is_null());
    assert_eq!(n.vout, u32::MAX);
    assert_eq!(n.txid, Hash256([0; 32]));
    assert!(!OutPoint::new(Hash256([0; 32]), 0).is_null());
    assert!(!OutPoint::new(h(1), u32::MAX).is_null());
}

#[test]
fn coinbase_needs_one_null_input() {
    let mut tx = tx_with_script(vec![1, 2, 3]);
    assert!(!tx.is_coin_base());
    tx.input_ent[0].previous_out = OutPoint::null();
    assert!(tx.is_coin_base());
    let extra = tx.input_ent[0].clone();
    tx.input_ent.push(extra);
    assert!(!tx.is_coin_base());
    tx.input_ent.clear();
    assert!(!tx.is_coin_base());
}

#[test]
fn transaction_encoding_layout() {
    let tx = tx_with_script(vec![0xaa, 0xbb]);
    let mut expected = vec![1, 0, 0, 0, 0, 0, 0, 0, 1];
    expected.extend_from_slice(&[3u8; 32]);
    expected.extend_from_slice(&[1, 0, 0, 0, 0xff, 0xff, 0xff, 0xff, 2, 0xaa, 0xbb, 1]);
    expected.extend_from_slice(&[50, 0, 0, 0, 0, 0, 0, 0, 1, 0x51]);
    assert_eq!(tx.encode(), expected);
    assert_eq!(tx.txid(), dsha(&expected));
}

#[test]
fn norm_txid_ignores_unlocking_scripts() {
    let a = tx_with_script(vec![1, 2, 3]);
    let b = tx_with_script(vec![9; 300]);
    assert_eq!(a.norm_txid(), b.norm_txid());
    assert_ne!(a.txid(), b.txid());
    assert_eq!(a.norm_txid(), tx_with_script(vec![]).txid());
}

#[test]
fn header_encoding_and_hash() {
    let hd = header(0x1d00ffff);
    let bytes = hd.encode();
    assert_eq!(bytes.len(), 4 + 32 + 32 + 4 + 8 + 4 + 4);
    assert_eq!(&bytes[0..4], &[1, 0, 0, 0]);
    assert_eq!(&bytes[80..84], &[0xff, 0xff, 0x00, 0x1d]);
    assert_eq!(hd.blockchain_hash(), dsha(&bytes));
    let block = Block { header: hd, txdata: vec![] };
    assert_eq!(block.blockchain_hash(), hd.blockchain_hash());
}

#[test]
fn target_mismatch_is_reported_first() {
    let hd = header(0x1d00ffff);
    let wrong = Uint256([1, 0, 0, 0]);
    assert_eq!(hd.validate_pow_of_block(&wrong), Err(Error::BlockTargetError));
}

#[test]
fn hash_above_target_fails_proof_of_work() {
    let hd = header(0);
    assert_eq!(hd.validate_pow_of_block(&Uint256([0, 0, 0, 0])), Err(Error::BlockProofOfWorkError));
    let hd = header(0x1d00ffff);
    let target = hd.compute_target();
    assert_eq!(hd.validate_pow_of_block(&target), Err(Error::BlockProofOfWorkError));
}

#[test]
fn hash_below_target_passes() {
    let hd = header(0x2100_8000);
    let target = hd.compute_target();
    let hash = hd.blockchain_hash().0;
    let top = hash[31];
    let expected = if top < 0x80 || (top == 0x80 && hash[..31].iter().all(|b| *b == 0)) {
        Ok(())
    } else {
        Err(Error::BlockProofOfWorkError)
    };
    assert_eq!(target, Uint256([0, 0, 0, 0x8000_0000_0000_0000]));
    assert_eq!(hd.validate_pow_of_block(&target), expected);
}

#[test]
fn genesis_total_work() {
    assert_eq!(header(0x1d00ffff).block_total_work(), Uint256([0x1_0001_0001, 0, 0, 0]));
}

#[test]
fn total_work_falls_as_target_rises() {
    let low = header(0x1b0404cb).block_total_work();
    let high = header(0x1d00ffff).block_total_work();
    assert!(high.le(&low) && !high.same_as(&low));
}

#[test]
fn difficulty_of_genesis_is_one() {
    let max = header(0x1d00ffff).compute_target();
    assert_eq!(header(0x1d00ffff).compute_difficulty(&max), 1);
    assert_eq!(header(0x1b0404cb).compute_difficulty(&max), 16307);
}

#[test]
fn merkle_check_of_block() {
    let txs = vec![tx_with_script(vec![1]), tx_with_script(vec![2])];
    let mut data = txs[0].txid().0.to_vec();
    data.extend_from_slice(&txs[1].txid().0);
    let mut hd = header(0x1d00ffff);
    hd.merkle_root = dsha(&data);
    let block = Block { header: hd, txdata: txs };
    assert_eq!(block.merkle_root(), dsha(&data));
    assert!(block.check_merkle_root());
    let mut other = block.clone();
    other.header.merkle_root = h(0);
    assert!(!other.check_merkle_root());
}

#[test]
fn increment_carries_and_wraps() {
    let mut a = Uint256([u64::MAX, u64::MAX, 5, 0]);
    a.increment_by_one();
    assert_eq!(a, Uint256([0, 0, 6, 0]));
    let mut m = Uint256([u64::MAX; 4]);
    m.increment_by_one();
    assert_eq!(m, Uint256([0; 4]));
}

#[test]
fn arithmetic_basics() {
    let a = Uint256([u64::MAX, 1, 0, 0]);
    let b = Uint256([1, 0, 0, 0]);
    assert_eq!(a.wrapping_add(&b), Uint256([0, 2, 0, 0]));
    assert_eq!(b.wrapping_sub(&a), Uint256([2, u64::MAX - 1, u64::MAX, u64::MAX]));
    assert_eq!(a.shl(64), Uint256([0, u64::MAX, 1, 0]));
    assert_eq!(a.shl(1), Uint256([u64::MAX - 1, 3, 0, 0]));
    assert_eq!(a.shr(1), Uint256([u64::MAX, 0, 0, 0]));
    assert_eq!(a.shl(256), Uint256([0; 4]));
    assert_eq!(a.shr(300), Uint256([0; 4]));
    assert_eq!(a.bits(), 65);
    assert_eq!(Uint256([0; 4]).bits(), 0);
    assert_eq!(a.complement(), Uint256([0, u64::MAX - 1, u64::MAX, u64::MAX]));
    assert_eq!(a.low_u32(), u32::MAX);
}

#[test]
fn division_is_exact() {
    let a = Uint256([0, 0, 0, 1]);
    let b = Uint256([3, 0, 0, 0]);
    assert_eq!(a.divide(&b), Uint256([0x5555_5555_5555_5555, 0x5555_5555_5555_5555, 0x5555_5555_5555_5555, 0]));
    assert_eq!(Uint256([100, 0, 0, 0]).divide(&Uint256([7, 0, 0, 0])), Uint256([14, 0, 0, 0]));
    let big = Uint256([u64::MAX; 4]);
    assert_eq!(big.divide(&big), Uint256([1, 0, 0, 0]));
    assert_eq!(big.divide(&Uint256([1, 0, 0, 0])), big);
}

#[test]
fn error_descriptions() {
    assert_eq!(Error::BlockProofOfWorkError.description(), "block target not below the target");
    assert_eq!(Error::BlockTargetError.description(), "incorrect block target");
}

#[test]
fn header_decodes_its_encoding() {
    let hd = header(0x1b0404cb);
    let bytes = hd.encode();
    assert_eq!(BlockHeader::decode(&bytes), Ok(hd));
}

#[test]
fn header_decode_rejects_wrong_lengths() {
    let bytes = header(0x1d00ffff).encode();
    assert_eq!(BlockHeader::decode(&bytes[..87].to_vec()), Err(Error::DecodeError));
    let mut longer = bytes.clone();
    longer.push(0);
    assert_eq!(BlockHeader::decode(&longer), Err(Error::DecodeError));
    assert_eq!(BlockHeader::decode(&vec![]), Err(Error::DecodeError));
    assert_eq!(Error::DecodeError.description(), "invalid encoding");
}

#[test]
fn bit_array_view() {
    let a = Uint256([0b1011_0000, 0, 0, 1]);
    assert!(a.is_bit_set(4));
    assert!(!a.is_bit_set(6));
    assert!(a.is_bit_set(192));
    assert!(!a.is_bit_set(300));
    assert_eq!(a.trailing_zeros(), 4);
    assert_eq!(Uint256::all_zeros_value().trailing_zeros(), 256);
    assert_eq!(Uint256([0, 0, 0, 1 << 63]).trailing_zeros(), 255);
    assert_eq!(a.mask(6), Uint256([0b11_0000, 0, 0, 0]));
    assert_eq!(a.mask(300), a);
    assert_eq!(a.as_bit_slice(4, 8), Uint256([0b1011, 0, 0, 0]));
    assert_eq!(Uint256::repr_one(), Uint256([1, 0, 0, 0]));
}

#[test]
fn defaults() {
    assert!(OutPoint::default().is_null());
    let out = TxOut::default();
    assert_eq!(out.value_out, 0);
    assert!(out.pkscript.is_empty());
}

#[test]
fn block_encoding_layout() {
    let hd = header(0x1d00ffff);
    let tx = tx_with_script(vec![7]);
    let block = Block { header: hd, txdata: vec![tx.clone()] };
    let mut expected = hd.encode();
    expected.push(1);
    expected.extend_from_slice(&tx.encode());
    assert_eq!(block.encode(), expected);
}

#[test]
fn long_script_uses_wide_length_prefix() {
    let tx = tx_with_script(vec![0xab; 300]);
    let bytes = tx.encode();
    // version, lock time, input count, outpoint, sequence, then the prefix
    assert_eq!(&bytes[49..52], &[0xfd, 0x2c, 0x01]);
    assert_eq!(bytes.len(), 9 + 36 + 4 + 3 + 300 + 1 + 8 + 1 + 1);
}

#[test]
fn transaction_decodes_its_encoding() {
    let tx = tx_with_script(vec![0xab; 300]);
    let bytes = tx.encode();
    let back = Transaction::decode(&bytes).unwrap();
    assert_eq!(back, tx);
    assert_eq!(back.encode(), bytes);
}

#[test]
fn transaction_decode_rejects_truncated_and_trailing() {
    let bytes = tx_with_script(vec![1, 2, 3]).encode();
    assert_eq!(Transaction::decode(&bytes[..bytes.len() - 1].to_vec()), Err(Error::DecodeError));
    let mut longer = bytes.clone();
    longer.push(0);
    assert_eq!(Transaction::decode(&longer), Err(Error::DecodeError));
    assert_eq!(Transaction::decode(&vec![1, 0, 0, 0]), Err(Error::DecodeError));
}

#[test]
fn transaction_decode_rejects_wide_prefix_for_small_count() {
    let tx = Transaction { version: 2, lock_time: 5, input_ent: vec![], output_ent: vec![] };
    let bytes = tx.encode();
    assert_eq!(bytes, vec![2, 0, 0, 0, 5, 0, 0, 0, 0, 0]);
    assert_eq!(Transaction::decode(&bytes), Ok(tx));
    let wide = vec![2, 0, 0, 0, 5, 0, 0, 0, 0xfd, 0, 0, 0];
    assert_eq!(Transaction::decode(&wide), Err(Error::DecodeError));
}

#[test]
fn multiply_carries_across_words() {
    let a = Uint256([u64::MAX, u64::MAX, 0, 0]);
    assert_eq!(a.multiply_by_u32(2), Uint256([u64::MAX - 1, u64::MAX, 1, 0]));
    assert_eq!(Uint256([0x1_0000_0000, 0, 0, 0]).multiply_by_u32(0xffff_ffff), Uint256([0xffff_ffff_0000_0000, 0, 0, 0]));
    assert_eq!(Uint256([0, 0, 0, 1 << 63]).multiply_by_u32(2), Uint256([0; 4]));
    assert_eq!(Uint256([7, 0, 0, 0]).multiply_by_u32(0), Uint256([0; 4]));
}
