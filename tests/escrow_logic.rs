use notary_escrow::{
    build_indexed_key, check_approval_threshold, check_caller_is_notary, check_time_lock,
    decode_hex, encode_hex, find_value, format_u32, parse_u32, parse_u8_digit, record_approval,
    record_audit, record_revocation, ACCOUNT_ID_SIZE, ERR_ALREADY_APPROVED, ERR_BAD_CONFIG,
    ERR_NOT_APPROVED, ERR_WRONG_ACCOUNT, SUCCESS,
};

/// Create a mock 20-byte AccountID from a simple seed value.
/// Each seed produces a unique, deterministic AccountID.
fn mock_account(seed: u8) -> [u8; ACCOUNT_ID_SIZE] {
    let mut id = [0u8; ACCOUNT_ID_SIZE];
    id[0] = seed;
    id[19] = seed; // put seed at both ends for distinctness
    id
}

/// Encode a mock account as hex string bytes.
fn mock_account_hex(seed: u8) -> [u8; 40] {
    let account = mock_account(seed);
    let mut hex = [0u8; 40];
    encode_hex(&account, &mut hex).unwrap();
    hex
}

/// Build contract data for a single-notary escrow (threshold=1).
fn single_notary_data(notary_seed: u8) -> (Vec<u8>, [u8; ACCOUNT_ID_SIZE]) {
    let account = mock_account(notary_seed);
    let hex = mock_account_hex(notary_seed);
    let mut data = Vec::new();
    data.extend_from_slice(b"notary_count=1;threshold=1;notary_0=");
    data.extend_from_slice(&hex);
    (data, account)
}

/// Build contract data for a 2-of-3 multi-notary escrow.
fn multi_notary_data(seeds: [u8; 3]) -> (Vec<u8>, [[u8; ACCOUNT_ID_SIZE]; 3]) {
    let accounts = [mock_account(seeds[0]), mock_account(seeds[1]), mock_account(seeds[2])];
    let hex0 = mock_account_hex(seeds[0]);
    let hex1 = mock_account_hex(seeds[1]);
    let hex2 = mock_account_hex(seeds[2]);

    let mut data = Vec::new();
    data.extend_from_slice(b"notary_count=3;threshold=2");
    data.extend_from_slice(b";notary_0=");
    data.extend_from_slice(&hex0);
    data.extend_from_slice(b";notary_1=");
    data.extend_from_slice(&hex1);
    data.extend_from_slice(b";notary_2=");
    data.extend_from_slice(&hex2);

    (data, accounts)
}

// ═════════════════════════════════════════════════════════════
// find_value TESTS
// ═════════════════════════════════════════════════════════════

#[test]
fn find_value_single_entry() {
    // A data string with just one key=value pair
    assert_eq!(find_value(b"key=val", b"key"), Some(b"val" as &[u8]));
}

#[test]
fn find_value_multiple_entries() {
    // Standard semicolon-delimited format
    let data = b"a=1;b=2;c=3";
    assert_eq!(find_value(data, b"a"), Some(b"1" as &[u8]));
    assert_eq!(find_value(data, b"b"), Some(b"2" as &[u8]));
    assert_eq!(find_value(data, b"c"), Some(b"3" as &[u8]));
}

#[test]
fn find_value_missing_key() {
    // Key that doesn't exist returns None
    assert_eq!(find_value(b"a=1;b=2", b"c"), None);
}

#[test]
fn find_value_empty_data() {
    // Empty data always returns None
    assert_eq!(find_value(b"", b"key"), None);
}

#[test]
fn find_value_empty_value() {
    // Key exists but value is empty
    assert_eq!(find_value(b"key=", b"key"), Some(b"" as &[u8]));
}

#[test]
fn find_value_partial_key_match() {
    // "notary" should not match "notary_count"
    assert_eq!(find_value(b"notary_count=3;notary=bad", b"notary"), Some(b"bad" as &[u8]));
    assert_eq!(find_value(b"notary_count=3", b"notary"), None);
}

#[test]
fn find_value_duplicate_keys_returns_first() {
    // If duplicate keys exist, first one wins
    assert_eq!(find_value(b"x=first;x=second", b"x"), Some(b"first" as &[u8]));
}

#[test]
fn find_value_value_with_special_chars() {
    // Values can contain any bytes except semicolons
    assert_eq!(find_value(b"k=abc123!@#", b"k"), Some(b"abc123!@#" as &[u8]));
}

// ═════════════════════════════════════════════════════════════
// parse_u8_digit TESTS
// ═════════════════════════════════════════════════════════════

#[test]
fn parse_digit_valid() {
    for i in 0..=9u8 {
        assert_eq!(parse_u8_digit(&[b'0' + i]), Some(i));
    }
}

#[test]
fn parse_digit_invalid() {
    assert_eq!(parse_u8_digit(b""), None);        // empty
    assert_eq!(parse_u8_digit(b"10"), None);       // two digits
    assert_eq!(parse_u8_digit(b"a"), None);        // not a digit
    assert_eq!(parse_u8_digit(b" "), None);        // space
}

// ═════════════════════════════════════════════════════════════
// parse_u32 TESTS
// ═════════════════════════════════════════════════════════════

#[test]
fn parse_u32_valid() {
    assert_eq!(parse_u32(b"0"), Some(0));
    assert_eq!(parse_u32(b"1"), Some(1));
    assert_eq!(parse_u32(b"42"), Some(42));
    assert_eq!(parse_u32(b"1000"), Some(1000));
    assert_eq!(parse_u32(b"4294967295"), Some(u32::MAX));
}

#[test]
fn parse_u32_invalid() {
    assert_eq!(parse_u32(b""), None);
    assert_eq!(parse_u32(b"abc"), None);
    assert_eq!(parse_u32(b"12x"), None);
    assert_eq!(parse_u32(b"-1"), None);
}

#[test]
fn parse_u32_overflow() {
    // One more than u32::MAX should overflow
    assert_eq!(parse_u32(b"4294967296"), None);
}

// ═════════════════════════════════════════════════════════════
// HEX ENCODING/DECODING TESTS
// ═════════════════════════════════════════════════════════════

#[test]
fn hex_roundtrip() {
    let original = [0xDE, 0xAD, 0xBE, 0xEF];
    let mut hex = [0u8; 8];
    let hex_len = encode_hex(&original, &mut hex).unwrap();
    assert_eq!(&hex[..hex_len], b"deadbeef");

    let mut decoded = [0u8; 4];
    let dec_len = decode_hex(&hex[..hex_len], &mut decoded).unwrap();
    assert_eq!(&decoded[..dec_len], &original);
}

#[test]
fn hex_decode_uppercase() {
    let mut out = [0u8; 2];
    assert_eq!(decode_hex(b"FF", &mut out), Some(1));  // "FF" = 1 byte
    assert_eq!(out[0], 0xFF);
}

#[test]
fn hex_decode_invalid() {
    let mut out = [0u8; 4];
    assert_eq!(decode_hex(b"xyz", &mut out), None);    // odd length
    assert_eq!(decode_hex(b"gg", &mut out), None);     // invalid chars
}

#[test]
fn hex_encode_empty() {
    let mut out = [0u8; 0];
    assert_eq!(encode_hex(&[], &mut out), Some(0));
}

#[test]
fn hex_encode_buffer_too_small() {
    let mut out = [0u8; 2]; // need 4 for 2 bytes
    assert_eq!(encode_hex(&[0xAB, 0xCD], &mut out), None);
}

// ═════════════════════════════════════════════════════════════
// format_u32 TESTS
// ═════════════════════════════════════════════════════════════

#[test]
fn format_u32_values() {
    let mut buf = [0u8; 10];

    let len = format_u32(0, &mut buf);
    assert_eq!(&buf[..len], b"0");

    let len = format_u32(1, &mut buf);
    assert_eq!(&buf[..len], b"1");

    let len = format_u32(42, &mut buf);
    assert_eq!(&buf[..len], b"42");

    let len = format_u32(1000, &mut buf);
    assert_eq!(&buf[..len], b"1000");

    let len = format_u32(4294967295, &mut buf);
    assert_eq!(&buf[..len], b"4294967295");
}

// ═════════════════════════════════════════════════════════════
// build_indexed_key TESTS
// ═════════════════════════════════════════════════════════════

#[test]
fn indexed_key_builds_correctly() {
    let mut buf = [0u8; 16];
    let len = build_indexed_key(b"notary_", 0, &mut buf);
    assert_eq!(&buf[..len], b"notary_0");

    let len = build_indexed_key(b"approval_", 3, &mut buf);
    assert_eq!(&buf[..len], b"approval_3");
}

// ═════════════════════════════════════════════════════════════
// CALLER AUTHORIZATION TESTS
// ═════════════════════════════════════════════════════════════

#[test]
fn single_notary_authorized() {
    // Authorized notary should be recognized
    let (data, account) = single_notary_data(0x01);
    assert_eq!(check_caller_is_notary(&data, &account), Ok(0));
}

#[test]
fn single_notary_unauthorized() {
    // Random account should be rejected
    let (data, _) = single_notary_data(0x01);
    let impostor = mock_account(0xFF);
    assert_eq!(check_caller_is_notary(&data, &impostor), Err(ERR_WRONG_ACCOUNT));
}

#[test]
fn multi_notary_all_recognized() {
    // All three notaries should be recognized with correct indices
    let (data, accounts) = multi_notary_data([0x01, 0x02, 0x03]);
    assert_eq!(check_caller_is_notary(&data, &accounts[0]), Ok(0));
    assert_eq!(check_caller_is_notary(&data, &accounts[1]), Ok(1));
    assert_eq!(check_caller_is_notary(&data, &accounts[2]), Ok(2));
}

#[test]
fn multi_notary_impostor_rejected() {
    // Account not in the notary list should be rejected
    let (data, _) = multi_notary_data([0x01, 0x02, 0x03]);
    let impostor = mock_account(0x99);
    assert_eq!(check_caller_is_notary(&data, &impostor), Err(ERR_WRONG_ACCOUNT));
}

#[test]
fn notary_check_no_config() {
    // Missing notary_count in data should return BAD_CONFIG
    let data = b"threshold=1";
    let account = mock_account(0x01);
    assert_eq!(check_caller_is_notary(data, &account), Err(ERR_BAD_CONFIG));
}

#[test]
fn notary_check_zero_count() {
    // Zero notaries is invalid config
    let data = b"notary_count=0;threshold=1";
    let account = mock_account(0x01);
    assert_eq!(check_caller_is_notary(data, &account), Err(ERR_BAD_CONFIG));
}

#[test]
fn notary_check_count_exceeds_max() {
    // More than MAX_NOTARIES is invalid
    let data = b"notary_count=9;threshold=1";
    let account = mock_account(0x01);
    assert_eq!(check_caller_is_notary(data, &account), Err(ERR_BAD_CONFIG));
}

#[test]
fn notary_check_similar_accounts() {
    // Two accounts that differ by one byte should not cross-match
    let (data, account) = single_notary_data(0x01);
    let mut similar = account;
    similar[10] = 0xFF; // change one byte in the middle
    assert_eq!(check_caller_is_notary(&data, &similar), Err(ERR_WRONG_ACCOUNT));
}

// ═════════════════════════════════════════════════════════════
// APPROVAL THRESHOLD TESTS
// ═════════════════════════════════════════════════════════════

#[test]
fn threshold_met_exactly() {
    // 2 approvals with threshold=2 should pass
    let data = b"threshold=2;approval_count=2";
    assert_eq!(check_approval_threshold(data), SUCCESS);
}

#[test]
fn threshold_exceeded() {
    // 3 approvals with threshold=2 should still pass
    let data = b"threshold=2;approval_count=3";
    assert_eq!(check_approval_threshold(data), SUCCESS);
}

#[test]
fn threshold_not_met() {
    // 1 approval with threshold=2 should fail
    let data = b"threshold=2;approval_count=1";
    assert_eq!(check_approval_threshold(data), ERR_NOT_APPROVED);
}

#[test]
fn threshold_zero_approvals() {
    // No approvals at all
    let data = b"threshold=2";
    assert_eq!(check_approval_threshold(data), ERR_NOT_APPROVED);
}

#[test]
fn threshold_of_one() {
    // Single approval needed and met
    let data = b"threshold=1;approval_count=1";
    assert_eq!(check_approval_threshold(data), SUCCESS);
}

#[test]
fn threshold_missing_config() {
    // No threshold in data = bad config
    let data = b"approval_count=5";
    assert_eq!(check_approval_threshold(data), ERR_BAD_CONFIG);
}

// ═════════════════════════════════════════════════════════════
// TIME-LOCK TESTS
// ═════════════════════════════════════════════════════════════

#[test]
fn time_lock_with_finish_after() {
    // FinishAfter is set — protocol enforced it, so we pass
    assert_eq!(check_time_lock(Some(781364800)), SUCCESS);
}

#[test]
fn time_lock_without_finish_after() {
    // No FinishAfter — no time-lock, still passes
    assert_eq!(check_time_lock(None), SUCCESS);
}

// ═════════════════════════════════════════════════════════════
// APPROVAL RECORDING TESTS
// ═════════════════════════════════════════════════════════════

#[test]
fn record_first_approval() {
    // First notary approves — approval_count goes from 0 to 1
    let (data, accounts) = multi_notary_data([0x01, 0x02, 0x03]);
    let new_data = record_approval(&data, 0, &accounts[0], 100).unwrap();
    let new_len = new_data.len();
    let new_slice = &new_data[..new_len];

    // Verify approval_0=1 is present
    assert_eq!(find_value(new_slice, b"approval_0"), Some(b"1" as &[u8]));
    // Verify count incremented
    assert_eq!(find_value(new_slice, b"approval_count"), Some(b"1" as &[u8]));
    // Verify notary config is preserved
    assert_eq!(find_value(new_slice, b"notary_count"), Some(b"3" as &[u8]));
    assert_eq!(find_value(new_slice, b"threshold"), Some(b"2" as &[u8]));
}

#[test]
fn record_second_approval_different_notary() {
    // Second notary approves after first — count goes to 2
    let (data, accounts) = multi_notary_data([0x01, 0x02, 0x03]);

    // First approval
    let data1 = record_approval(&data, 0, &accounts[0], 100).unwrap();
    let len1 = data1.len();
    // Second approval (different notary)
    let data2 = record_approval(&data1[..len1], 1, &accounts[1], 101).unwrap();
    let len2 = data2.len();
    let result = &data2[..len2];

    assert_eq!(find_value(result, b"approval_0"), Some(b"1" as &[u8]));
    assert_eq!(find_value(result, b"approval_1"), Some(b"1" as &[u8]));
    assert_eq!(find_value(result, b"approval_count"), Some(b"2" as &[u8]));
}

#[test]
fn record_duplicate_approval_rejected() {
    // Same notary trying to approve twice should fail
    let (data, accounts) = multi_notary_data([0x01, 0x02, 0x03]);

    let data1 = record_approval(&data, 0, &accounts[0], 100).unwrap();
    let len1 = data1.len();
    let result = record_approval(&data1[..len1], 0, &accounts[0], 101);

    assert_eq!(result, Err(ERR_ALREADY_APPROVED));
}

#[test]
fn record_all_three_approvals() {
    // All three notaries approve — threshold easily met
    let (data, accounts) = multi_notary_data([0x01, 0x02, 0x03]);

    let d1 = record_approval(&data, 0, &accounts[0], 100).unwrap();
    let l1 = d1.len();
    let d2 = record_approval(&d1[..l1], 1, &accounts[1], 101).unwrap();
    let l2 = d2.len();
    let d3 = record_approval(&d2[..l2], 2, &accounts[2], 102).unwrap();
    let l3 = d3.len();

    let result = &d3[..l3];
    assert_eq!(find_value(result, b"approval_count"), Some(b"3" as &[u8]));
    assert_eq!(check_approval_threshold(result), SUCCESS);
}

// ═════════════════════════════════════════════════════════════
// REVOCATION TESTS
// ═════════════════════════════════════════════════════════════

#[test]
fn revoke_existing_approval() {
    // Approve then revoke — count should go back to 0
    let (data, accounts) = multi_notary_data([0x01, 0x02, 0x03]);

    let d1 = record_approval(&data, 0, &accounts[0], 100).unwrap();
    let l1 = d1.len();
    assert_eq!(find_value(&d1[..l1], b"approval_count"), Some(b"1" as &[u8]));

    let d2 = record_revocation(&d1[..l1], 0);
    let l2 = d2.len();
    assert_eq!(find_value(&d2[..l2], b"approval_0"), Some(b"0" as &[u8]));
    assert_eq!(find_value(&d2[..l2], b"approval_count"), Some(b"0" as &[u8]));
}

#[test]
fn revoke_then_reapprove() {
    // Approve → revoke → approve again should work
    let (data, accounts) = multi_notary_data([0x01, 0x02, 0x03]);

    let d1 = record_approval(&data, 0, &accounts[0], 100).unwrap();
    let l1 = d1.len();
    let d2 = record_revocation(&d1[..l1], 0);
    let l2 = d2.len();
    // Should be able to approve again after revoking
    let d3 = record_approval(&d2[..l2], 0, &accounts[0], 102).unwrap();
    let l3 = d3.len();
    assert_eq!(find_value(&d3[..l3], b"approval_0"), Some(b"1" as &[u8]));
    assert_eq!(find_value(&d3[..l3], b"approval_count"), Some(b"1" as &[u8]));
}

#[test]
fn revoke_unapproved_notary() {
    // Revoking when you haven't approved yet — count stays at 0
    let (data, _) = multi_notary_data([0x01, 0x02, 0x03]);

    let d1 = record_revocation(&data, 0);
    let l1 = d1.len();
    assert_eq!(find_value(&d1[..l1], b"approval_0"), Some(b"0" as &[u8]));
    assert_eq!(find_value(&d1[..l1], b"approval_count"), Some(b"0" as &[u8]));
}

#[test]
fn partial_revoke_preserves_others() {
    // Two notaries approve, one revokes — other approval preserved
    let (data, accounts) = multi_notary_data([0x01, 0x02, 0x03]);

    let d1 = record_approval(&data, 0, &accounts[0], 100).unwrap();
    let l1 = d1.len();
    let d2 = record_approval(&d1[..l1], 1, &accounts[1], 101).unwrap();
    let l2 = d2.len();
    assert_eq!(find_value(&d2[..l2], b"approval_count"), Some(b"2" as &[u8]));

    // Notary 0 revokes
    let d3 = record_revocation(&d2[..l2], 0);
    let l3 = d3.len();
    assert_eq!(find_value(&d3[..l3], b"approval_0"), Some(b"0" as &[u8]));
    assert_eq!(find_value(&d3[..l3], b"approval_1"), Some(b"1" as &[u8]));
    assert_eq!(find_value(&d3[..l3], b"approval_count"), Some(b"1" as &[u8]));
}

// ═════════════════════════════════════════════════════════════
// AUDIT TRAIL TESTS
// ═════════════════════════════════════════════════════════════

#[test]
fn audit_records_denial() {
    let data = b"threshold=2;approval_count=0";
    let audit = record_audit(data, ERR_NOT_APPROVED, 42);
    let len = audit.len();
    let result = &audit[..len];

    assert_eq!(find_value(result, b"last_result"), Some(b"not_approved" as &[u8]));
    assert_eq!(find_value(result, b"last_attempt_seq"), Some(b"42" as &[u8]));
    // Other fields are kept
    assert_eq!(find_value(result, b"threshold"), Some(b"2" as &[u8]));
}

#[test]
fn audit_records_success() {
    let data = b"threshold=1;approval_count=1";
    let audit = record_audit(data, SUCCESS, 999);
    let len = audit.len();
    let result = &audit[..len];

    assert_eq!(find_value(result, b"last_result"), Some(b"approved" as &[u8]));
    assert_eq!(find_value(result, b"last_attempt_seq"), Some(b"999" as &[u8]));
}

#[test]
fn audit_records_wrong_account() {
    let data = b"threshold=2";
    let audit = record_audit(data, ERR_WRONG_ACCOUNT, 1);
    let len = audit.len();
    let result = &audit[..len];
    assert_eq!(find_value(result, b"last_result"), Some(b"wrong_account" as &[u8]));
}

#[test]
fn audit_overwrites_previous_audit() {
    // First attempt denied
    let data = b"threshold=2;approval_count=0";
    let d1 = record_audit(data, ERR_NOT_APPROVED, 10);
    let l1 = d1.len();

    // Second attempt also denied — should overwrite first audit
    let d2 = record_audit(&d1[..l1], ERR_WRONG_ACCOUNT, 20);
    let l2 = d2.len();
    let result = &d2[..l2];

    assert_eq!(find_value(result, b"last_result"), Some(b"wrong_account" as &[u8]));
    assert_eq!(find_value(result, b"last_attempt_seq"), Some(b"20" as &[u8]));
}

// ═════════════════════════════════════════════════════════════
// FULL END-TO-END FLOW TESTS
// ═════════════════════════════════════════════════════════════

/// Simulate the full escrow lifecycle with multi-sig
#[test]
fn full_lifecycle_2_of_3() {
    let (data, accounts) = multi_notary_data([0x01, 0x02, 0x03]);

    // Step 1: No approvals — finish should fail
    assert_eq!(check_approval_threshold(&data), ERR_NOT_APPROVED);

    // Step 2: Notary 0 approves
    let d1 = record_approval(&data, 0, &accounts[0], 100).unwrap();
    let l1 = d1.len();
    assert_eq!(check_approval_threshold(&d1[..l1]), ERR_NOT_APPROVED); // still only 1

    // Step 3: Notary 2 approves (skipping notary 1)
    let d2 = record_approval(&d1[..l1], 2, &accounts[2], 101).unwrap();
    let l2 = d2.len();
    assert_eq!(check_approval_threshold(&d2[..l2]), SUCCESS); // 2-of-3 met!

    // Step 4: Verify all notary config is intact
    assert_eq!(find_value(&d2[..l2], b"notary_count"), Some(b"3" as &[u8]));
    assert_eq!(find_value(&d2[..l2], b"threshold"), Some(b"2" as &[u8]));
}

#[test]
fn full_lifecycle_single_notary() {
    let (data, account) = single_notary_data(0xAB);

    // Notary is authorized
    assert_eq!(check_caller_is_notary(&data, &account), Ok(0));

    // No approvals yet
    assert_eq!(check_approval_threshold(&data), ERR_NOT_APPROVED);

    // Approve
    let d1 = record_approval(&data, 0, &account, 50).unwrap();
    let l1 = d1.len();
    assert_eq!(check_approval_threshold(&d1[..l1]), SUCCESS);
}

#[test]
fn full_lifecycle_approve_revoke_reapprove() {
    let (data, accounts) = multi_notary_data([0x01, 0x02, 0x03]);

    // Notary 0 and 1 approve
    let d1 = record_approval(&data, 0, &accounts[0], 100).unwrap();
    let l1 = d1.len();
    let d2 = record_approval(&d1[..l1], 1, &accounts[1], 101).unwrap();
    let l2 = d2.len();
    assert_eq!(check_approval_threshold(&d2[..l2]), SUCCESS);

    // Notary 0 revokes — no longer at threshold
    let d3 = record_revocation(&d2[..l2], 0);
    let l3 = d3.len();
    assert_eq!(check_approval_threshold(&d3[..l3]), ERR_NOT_APPROVED);

    // Notary 2 approves — back to threshold
    let d4 = record_approval(&d3[..l3], 2, &accounts[2], 103).unwrap();
    let l4 = d4.len();
    assert_eq!(check_approval_threshold(&d4[..l4]), SUCCESS);
}

#[test]
fn impostor_cannot_approve_even_with_data_access() {
    // Even if an attacker could write to the data field,
    // they can't pass the check_caller_is_notary check
    let (data, _) = multi_notary_data([0x01, 0x02, 0x03]);
    let impostor = mock_account(0xFF);
    assert_eq!(check_caller_is_notary(&data, &impostor), Err(ERR_WRONG_ACCOUNT));
}

// ═════════════════════════════════════════════════════════════
// EDGE CASES AND ADVERSARIAL INPUTS
// ═════════════════════════════════════════════════════════════

#[test]
fn corrupt_data_graceful_failure() {
    // Garbage data should fail with BAD_CONFIG, not panic
    let garbage = b"asdfghjkl;12345;no_equals_here";
    let account = mock_account(0x01);
    assert_eq!(check_caller_is_notary(garbage, &account), Err(ERR_BAD_CONFIG));
    assert_eq!(check_approval_threshold(garbage), ERR_BAD_CONFIG);
}

#[test]
fn data_with_only_semicolons() {
    let data = b";;;";
    let account = mock_account(0x01);
    assert_eq!(check_caller_is_notary(data, &account), Err(ERR_BAD_CONFIG));
}

#[test]
fn very_long_value_doesnt_panic() {
    // A value that's very long should be handled safely
    let mut data = Vec::new();
    data.extend_from_slice(b"notary_count=1;threshold=1;notary_0=");
    data.extend_from_slice(&[b'a'; 1000]); // invalid but shouldn't panic
    let account = mock_account(0x01);
    // Should fail cleanly (hex won't match), not panic
    assert_eq!(check_caller_is_notary(&data, &account), Err(ERR_WRONG_ACCOUNT));
}

#[test]
fn max_notaries_boundary() {
    // MAX_NOTARIES (5) should work
    let data = b"notary_count=5;threshold=3";
    // Should not return BAD_CONFIG for count
    assert_ne!(check_approval_threshold(data), ERR_BAD_CONFIG);
}

#[test]
fn approval_count_cannot_go_negative() {
    // Revoking from 0 should stay at 0
    let data = b"notary_count=1;threshold=1;approval_count=0";
    let d = record_revocation(data, 0);
    let l = d.len();
    assert_eq!(find_value(&d[..l], b"approval_count"), Some(b"0" as &[u8]));
}

#[test]
fn data_preserved_through_operations() {
    // Custom data fields set at EscrowCreate time should survive operations
    let (mut data, accounts) = multi_notary_data([0x01, 0x02, 0x03]);
    data.extend_from_slice(b";custom_field=hello;another=world");

    let d1 = record_approval(&data, 0, &accounts[0], 100).unwrap();
    let l1 = d1.len();
    let result = &d1[..l1];

    // Custom fields should still be there
    assert_eq!(find_value(result, b"custom_field"), Some(b"hello" as &[u8]));
    assert_eq!(find_value(result, b"another"), Some(b"world" as &[u8]));
}
