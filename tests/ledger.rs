use threshold_signer::ledger::{
    message_to_sign, receive_hashables, send_hashables, to_hex_string, u64_from_hex_str, Account,
    AdapterError, Amount, BlockHash, BlockHashBuilder, LazyBlockHash, Link, OpenBlock, RawKey,
    Signature, StateHashables,
};
use threshold_signer::paths::FilePaths;
use threshold_signer::text::IntParseError;

const BURN: &str = "nano_1111111111111111111111111111111111111111111111111111hifc8npp";

#[test]
fn hex_renderings() {
    assert_eq!(to_hex_string(255), "00000000000000FF");
    assert_eq!(to_hex_string(u64::MAX), "FFFFFFFFFFFFFFFF");
    let mut bytes = [0u8; 32];
    bytes[0] = 0xAB;
    bytes[31] = 0x01;
    let h = BlockHash(bytes);
    assert_eq!(h.encode_hex(), format!("AB{}01", "0".repeat(60)));
    assert_eq!(Link(bytes).encode_hex(), h.encode_hex());
    let sig = Signature { bytes: [0x5a; 64] };
    assert_eq!(sig.encode_hex(), "5A".repeat(64));
}

#[test]
fn hex_numbers_are_read() {
    assert_eq!(u64_from_hex_str("ff"), Ok(255));
    assert_eq!(u64_from_hex_str("+10"), Ok(16));
    assert_eq!(u64_from_hex_str(""), Err(IntParseError::Empty));
    assert_eq!(u64_from_hex_str("+"), Err(IntParseError::InvalidDigit));
    assert_eq!(u64_from_hex_str("-1"), Err(IntParseError::InvalidDigit));
    assert_eq!(u64_from_hex_str("1g"), Err(IntParseError::InvalidDigit));
    assert_eq!(u64_from_hex_str("FFFFFFFFFFFFFFFF"), Ok(u64::MAX));
    assert_eq!(u64_from_hex_str("10000000000000000"), Err(IntParseError::Overflow));
    assert_eq!(Amount::decode_hex("DEADBEEF").unwrap().raw, 0xDEADBEEF);
    assert_eq!(Amount::decode_hex("1".repeat(33).as_str()), Err(IntParseError::Overflow));
}

#[test]
fn amounts_in_decimal() {
    assert_eq!(Amount::raw(0).to_string_dec(), "0");
    assert_eq!(Amount::raw(u128::MAX).to_string_dec(), u128::MAX.to_string());
    assert_eq!(Amount::decode_dec("1000000").unwrap(), Amount::raw(1_000_000));
    assert_eq!(Amount::decode_dec(&u128::MAX.to_string()).unwrap(), Amount::raw(u128::MAX));
    assert_eq!(Amount::decode_dec("340282366920938463463374607431768211456"), Err(IntParseError::Overflow));
    assert_eq!(Amount::decode_dec("12a"), Err(IntParseError::InvalidDigit));
}

#[test]
fn zero_hash() {
    assert!(BlockHash::zero().is_zero());
    assert!(!BlockHash([1; 32]).is_zero());
    assert_eq!(BlockHash::zero().as_bytes(), &[0u8; 32]);
}

#[test]
fn burn_account_text() {
    assert_eq!(Account([0; 32]).encode_account(), BURN);
    assert_eq!(Account::decode_account(BURN).unwrap(), Account([0; 32]));
}

#[test]
fn account_text_round_trip() {
    let mut key = [0u8; 32];
    for (i, b) in key.iter_mut().enumerate() {
        *b = (i * 37 + 11) as u8;
    }
    let text = Account(key).encode_account();
    assert_eq!(text.len(), 65);
    assert!(text.starts_with("nano_"));
    assert_eq!(Account::decode_account(&text).unwrap(), Account(key));
    assert!(Account::decode_account("nano_0").is_err());
    assert!(Account::decode_account("nano_l").is_err());
}

fn fields(balance: u128) -> StateHashables {
    StateHashables {
        account: Account([1; 32]),
        previous: BlockHash([2; 32]),
        representative: Account([3; 32]),
        balance: Amount::raw(balance),
        link: Link([4; 32]),
    }
}

#[test]
fn state_message_is_blake2b_of_the_layout() {
    let h = fields(0x0102);
    let mut pre = vec![0u8; 31];
    pre.push(6);
    pre.extend_from_slice(&[1; 32]);
    pre.extend_from_slice(&[2; 32]);
    pre.extend_from_slice(&[3; 32]);
    pre.extend_from_slice(&0x0102u128.to_be_bytes());
    pre.extend_from_slice(&[4; 32]);
    let expected = BlockHashBuilder::new().update(&pre).build();
    assert_eq!(message_to_sign(&h), expected);
    assert_eq!(message_to_sign(&h), message_to_sign(&fields(0x0102)));
    assert_ne!(message_to_sign(&h), message_to_sign(&fields(0x0103)));
    assert!(!expected.is_zero());
}

#[test]
fn builder_matches_one_pass() {
    let a = BlockHashBuilder::new().update(&[1, 2]).update(&[3]).build();
    let b = BlockHashBuilder::new().update(&[1, 2, 3]).build();
    assert_eq!(a, b);
    assert_ne!(a, BlockHashBuilder::new().update(&[1, 2, 4]).build());
}

#[test]
fn lazy_hash_is_kept() {
    let mut lazy = LazyBlockHash::new();
    let first = lazy.hash(&fields(5));
    assert_eq!(first, message_to_sign(&fields(5)));
    assert_eq!(lazy.hash(&fields(6)), first);
}

#[test]
fn open_block_hash() {
    let mut block = OpenBlock::new(BlockHash([9; 32]), Account([8; 32]), Account([7; 32]), &RawKey::new([0; 32]), &Account([7; 32]), 42);
    let mut pre = vec![9u8; 32];
    pre.extend_from_slice(&[8; 32]);
    pre.extend_from_slice(&[7; 32]);
    assert_eq!(block.hash(), BlockHashBuilder::new().update(&pre).build());
    assert_eq!(block.work, 42);
    assert_eq!(block.signature.bytes, [0u8; 64]);
}

#[test]
fn receive_and_send_fields() {
    let r = receive_hashables(Account([1; 32]), BlockHash([2; 32]), Account([3; 32]), Amount::raw(10), Amount::raw(5), BlockHash([4; 32])).unwrap();
    assert_eq!(r, fields(15));
    assert_eq!(
        receive_hashables(Account([1; 32]), BlockHash([2; 32]), Account([3; 32]), Amount::raw(u128::MAX), Amount::raw(1), BlockHash([4; 32])),
        Err(AdapterError::BalanceOverflow)
    );
    let s = send_hashables(Account([1; 32]), BlockHash([2; 32]), Account([3; 32]), Amount::raw(10), Amount::raw(4), BURN).unwrap();
    assert_eq!(s.balance, Amount::raw(6));
    assert_eq!(s.link, Link([0; 32]));
    assert_eq!(
        send_hashables(Account([1; 32]), BlockHash([2; 32]), Account([3; 32]), Amount::raw(3), Amount::raw(4), BURN),
        Err(AdapterError::InsufficientBalance)
    );
    assert_eq!(
        send_hashables(Account([1; 32]), BlockHash([2; 32]), Account([3; 32]), Amount::raw(3), Amount::raw(1), "nano_0"),
        Err(AdapterError::InvalidDestination)
    );
}

#[test]
fn artifact_paths() {
    let f = FilePaths::new("/tmp/ceremony");
    assert_eq!(f.contributor_secret_key(2), "/tmp/ceremony/contributor_secret_key2.json");
    assert_eq!(f.signing_share(13), "/tmp/ceremony/signing_share13.json");
    assert_eq!(f.generation_output(1), "/tmp/ceremony/generation_output1.json");
    assert_eq!(f.signing_nonce(3), "/tmp/ceremony/signing_nonce3.json");
    assert_eq!(f.recipients(), "/tmp/ceremony/recipients.json");
    assert_eq!(f.all_messages(), "/tmp/ceremony/all_messages.json");
    assert_eq!(f.threshold_public_key(), "/tmp/ceremony/threshold_public_key.json");
    assert_eq!(f.signing_commitments(), "/tmp/ceremony/signing_commitments.json");
    assert_eq!(f.signing_packages(), "/tmp/ceremony/signing_packages.json");
    assert_eq!(f.threshold_signature(), "/tmp/ceremony/threshold_signature.json");
    assert_eq!(f.extrinsic_info(), "/tmp/ceremony/extrinsic_info.json");
    assert_eq!(FilePaths::new("dir/").recipients(), "dir/recipients.json");
    assert_eq!(FilePaths::new("").recipients(), "recipients.json");
    assert_eq!(FilePaths::new(".").signing_share(0), "./signing_share0.json");
}

#[test]
fn block_hashes_are_read_from_hex() {
    let text = format!("ab{}01", "0".repeat(60));
    let mut bytes = [0u8; 32];
    bytes[0] = 0xAB;
    bytes[31] = 1;
    assert_eq!(BlockHash::decode_hex(&text), Some(BlockHash(bytes)));
    assert_eq!(BlockHash::decode_hex(&BlockHash(bytes).encode_hex()), Some(BlockHash(bytes)));
    assert_eq!(BlockHash::decode_hex("abcd"), None);
    assert_eq!(BlockHash::decode_hex(&"zz".repeat(32)), None);
    assert_eq!(FilePaths::new("w").parameters(), "w/parameters.json");
}

#[test]
fn state_block_json_fields() {
    let block = threshold_signer::ledger::StateBlock {
        work: 0xABC,
        signature: Signature { bytes: [0x11; 64] },
        hashables: StateHashables {
            account: Account([0; 32]),
            previous: BlockHash([2; 32]),
            representative: Account([0; 32]),
            balance: Amount::raw(1234),
            link: Link([0; 32]),
        },
        hash: LazyBlockHash::new(),
        sideband: None,
    };
    let fields = block.json_fields();
    let names: Vec<&str> = fields.iter().map(|(n, _)| n.as_str()).collect();
    assert_eq!(names, vec!["type", "account", "previous", "representative", "balance", "link", "link_as_account", "signature", "work"]);
    assert_eq!(fields[0].1, "state");
    assert_eq!(fields[1].1, BURN);
    assert_eq!(fields[2].1, "02".repeat(32));
    assert_eq!(fields[4].1, "1234");
    assert_eq!(fields[6].1, BURN);
    assert_eq!(fields[7].1, "11".repeat(64));
    assert_eq!(fields[8].1, "0000000000000ABC");
}

#[test]
fn open_block_json_fields() {
    let block = OpenBlock::new(BlockHash([9; 32]), Account([0; 32]), Account([0; 32]), &RawKey::new([0; 32]), &Account([0; 32]), 1);
    let fields = block.json_fields();
    let names: Vec<&str> = fields.iter().map(|(n, _)| n.as_str()).collect();
    assert_eq!(names, vec!["type", "source", "representative", "account", "work", "signature"]);
    assert_eq!(fields[0].1, "open");
    assert_eq!(fields[1].1, "09".repeat(32));
    assert_eq!(fields[4].1, "0000000000000001");
}

#[test]
fn digest_of_nothing_is_blake2b_256() {
    let h = BlockHashBuilder::new().build();
    assert_eq!(h.encode_hex(), "0E5751C026E543B2E8AB2EB06099DAA1D1E5DF47778F7787FAAB45CDF12FE3A8");
}
