use vstd::prelude::*;

use crate::codec::{
    append_field, bytes_equal, entries, entry_bytes, field_of, find_value, free_of, has_key, join,
    kept, lemma_append_field_join, lemma_entries_of_join, lemma_entries_shape,
    lemma_field_of_entry, lemma_lookup_in_absent, lemma_lookup_in_at, lemma_lookup_in_concat,
    lemma_lookup_in_retained, lemma_rebuilt_again, lemma_rebuilt_len, lemma_retained_shape,
    lookup, put_field, rebuild_excluding, rebuilt, retained, EQUALS, RECORD_CAPACITY, SEPARATOR,
};
use crate::scalar::{
    all_digits, build_indexed_key, decimal_digits, digit_of, encode_hex, format_u32, hex_of,
    indexed_key, lemma_decimal_digits_bound, lemma_decimal_digits_len, lemma_decimal_round_trip,
    lemma_hex_round_trip, lemma_u32_digits, parse_u8_digit, pow10,
};

verus! {

/// Bytes in an account identity.
pub const ACCOUNT_ID_SIZE: usize = 20;

/// Largest number of notaries a record can register.
pub const MAX_NOTARIES: usize = 5;

/// The escrow may be finished, or the change was applied.
pub const SUCCESS: i32 = 1;

/// The caller is not a registered notary.
pub const ERR_WRONG_ACCOUNT: i32 = -1;

/// Reserved: the release time has not come (never returned).
pub const ERR_TOO_EARLY: i32 = -2;

/// Fewer notaries have approved than the threshold asks for.
pub const ERR_NOT_APPROVED: i32 = -3;

/// The record could not be read or written.
pub const ERR_DATA_READ: i32 = -4;

/// A call to the host failed.
pub const ERR_HOST_CALL: i32 = -5;

/// The roster or the threshold of the record is missing or malformed.
pub const ERR_BAD_CONFIG: i32 = -6;

/// The notary has already approved.
pub const ERR_ALREADY_APPROVED: i32 = -7;

/// Reserved: too soon after the last attempt (never returned).
pub const ERR_COOLDOWN: i32 = -8;

/// Reserved: ledgers that were meant to separate two finish attempts. No
/// check reads it yet.
pub const COOLDOWN_LEDGERS: u32 = 10;

pub open spec fn notary_count_key() -> Seq<u8> {
    seq![110, 111, 116, 97, 114, 121, 95, 99, 111, 117, 110, 116]
}

pub open spec fn threshold_key() -> Seq<u8> {
    seq![116, 104, 114, 101, 115, 104, 111, 108, 100]
}

pub open spec fn notary_prefix() -> Seq<u8> {
    seq![110, 111, 116, 97, 114, 121, 95]
}

pub open spec fn approval_prefix() -> Seq<u8> {
    seq![97, 112, 112, 114, 111, 118, 97, 108, 95]
}

pub open spec fn approval_count_key() -> Seq<u8> {
    seq![97, 112, 112, 114, 111, 118, 97, 108, 95, 99, 111, 117, 110, 116]
}

pub open spec fn approver_prefix() -> Seq<u8> {
    seq![97, 112, 112, 114, 111, 118, 101, 114, 95]
}

pub open spec fn approve_seq_prefix() -> Seq<u8> {
    seq![97, 112, 112, 114, 111, 118, 101, 95, 115, 101, 113, 95]
}

pub open spec fn last_result_key() -> Seq<u8> {
    seq![108, 97, 115, 116, 95, 114, 101, 115, 117, 108, 116]
}

pub open spec fn last_attempt_seq_key() -> Seq<u8> {
    seq![108, 97, 115, 116, 95, 97, 116, 116, 101, 109, 112, 116, 95, 115, 101, 113]
}

/// The audit tag that a record keeps for an outcome code.
pub open spec fn outcome_tag(code: i32) -> Seq<u8> {
    if code > 0 {
        seq![97, 112, 112, 114, 111, 118, 101, 100]
    } else if code == -1 {
        seq![119, 114, 111, 110, 103, 95, 97, 99, 99, 111, 117, 110, 116]
    } else if code == -2 {
        seq![116, 111, 111, 95, 101, 97, 114, 108, 121]
    } else if code == -3 {
        seq![110, 111, 116, 95, 97, 112, 112, 114, 111, 118, 101, 100]
    } else if code == -4 {
        seq![100, 97, 116, 97, 95, 114, 101, 97, 100, 95, 101, 114, 114]
    } else if code == -5 {
        seq![104, 111, 115, 116, 95, 99, 97, 108, 108, 95, 101, 114, 114]
    } else if code == -6 {
        seq![98, 97, 100, 95, 99, 111, 110, 102, 105, 103]
    } else if code == -8 {
        seq![99, 111, 111, 108, 100, 111, 119, 110]
    } else {
        seq![117, 110, 107, 110, 111, 119, 110]
    }
}

/// The one-digit value that the record holds for `key`, if any.
pub open spec fn digit_field(d: Seq<u8>, key: Seq<u8>) -> Option<u8> {
    match lookup(d, key) {
        Some(v) => digit_of(v),
        None => None,
    }
}

/// The stored approval counter; absent or malformed counts as zero.
pub open spec fn approval_count_of(d: Seq<u8>) -> u8 {
    match digit_field(d, approval_count_key()) {
        Some(c) => c,
        None => 0,
    }
}

pub open spec fn approval_key(i: nat) -> Seq<u8> {
    indexed_key(approval_prefix(), i)
}

/// Whether the record marks notary `i` as having approved.
pub open spec fn is_approved(d: Seq<u8>, i: nat) -> bool {
    lookup(d, approval_key(i)) == Some(seq![49u8])
}

/// The first of notaries `0..n` whose stored identity is `hex`.
pub open spec fn first_notary(d: Seq<u8>, hex: Seq<u8>, n: nat) -> Option<nat>
    decreases n,
{
    if n == 0 {
        None
    } else {
        match first_notary(d, hex, (n - 1) as nat) {
            Some(i) => Some(i),
            None => if lookup(d, indexed_key(notary_prefix(), (n - 1) as nat)) == Some(hex) {
                Some((n - 1) as nat)
            } else {
                None
            },
        }
    }
}

/// The notary index of `caller`, or why there is none.
pub open spec fn resolve(d: Seq<u8>, caller: Seq<u8>) -> Result<u8, i32> {
    match digit_field(d, notary_count_key()) {
        None => Err(ERR_BAD_CONFIG),
        Some(n) => if n == 0 || n > MAX_NOTARIES {
            Err(ERR_BAD_CONFIG)
        } else {
            match first_notary(d, hex_of(caller), n as nat) {
                Some(i) => Ok(i as u8),
                None => Err(ERR_WRONG_ACCOUNT),
            }
        },
    }
}

/// Once a notary is found among the first `m`, it stays the first among more.
pub proof fn lemma_first_notary_stays(d: Seq<u8>, hex: Seq<u8>, m: nat, n: nat)
    requires
        m <= n,
        first_notary(d, hex, m) is Some,
    ensures
        first_notary(d, hex, n) == first_notary(d, hex, m),
    decreases n - m,
{
    if m < n {
        lemma_first_notary_stays(d, hex, m, (n - 1) as nat);
    }
}

/// The threshold decision: success once the stored counter reaches the
/// threshold.
pub open spec fn threshold_outcome(d: Seq<u8>) -> i32 {
    match digit_field(d, threshold_key()) {
        None => ERR_BAD_CONFIG,
        Some(t) => if approval_count_of(d) >= t {
            SUCCESS
        } else {
            ERR_NOT_APPROVED
        },
    }
}

/// The fields that an approval or a revocation of notary `i` replaces.
pub open spec fn slot_fields(i: nat) -> Seq<Seq<u8>> {
    seq![
        approval_key(i),
        approval_count_key(),
        indexed_key(approver_prefix(), i),
        indexed_key(approve_seq_prefix(), i),
    ]
}

/// The record after notary `i`, identified by `caller`, approves at
/// transaction sequence `seq`.
pub open spec fn approved_record(d: Seq<u8>, i: nat, caller: Seq<u8>, seq: u32) -> Seq<u8> {
    let base = rebuilt(d, slot_fields(i));
    let r1 = append_field(base, approval_key(i), seq![49u8]);
    let r2 = append_field(
        r1,
        approval_count_key(),
        decimal_digits(approval_count_of(d) as nat + 1),
    );
    let r3 = append_field(r2, indexed_key(approver_prefix(), i), hex_of(caller));
    append_field(r3, indexed_key(approve_seq_prefix(), i), decimal_digits(seq as nat))
}

/// The counter after a revocation of notary `i`: one less if it had
/// approved, never below zero.
pub open spec fn revoked_count(d: Seq<u8>, i: nat) -> u8 {
    if is_approved(d, i) && approval_count_of(d) > 0 {
        (approval_count_of(d) - 1) as u8
    } else {
        approval_count_of(d)
    }
}

/// The record after notary `i` revokes its approval.
pub open spec fn revoked_record(d: Seq<u8>, i: nat) -> Seq<u8> {
    let base = rebuilt(d, slot_fields(i));
    let r1 = append_field(base, approval_key(i), seq![48u8]);
    append_field(r1, approval_count_key(), decimal_digits(revoked_count(d, i) as nat))
}

pub open spec fn audit_fields() -> Seq<Seq<u8>> {
    seq![last_result_key(), last_attempt_seq_key()]
}

/// The record stamped with the outcome `code` of an attempt at sequence `seq`.
pub open spec fn audited_record(d: Seq<u8>, code: i32, seq: u32) -> Seq<u8> {
    let base = rebuilt(d, audit_fields());
    let r1 = append_field(base, last_result_key(), outcome_tag(code));
    append_field(r1, last_attempt_seq_key(), decimal_digits(seq as nat))
}

fn key_vec(prefix: &[u8], index: u8) -> (r: Vec<u8>)
    requires
        prefix@.len() <= 12,
    ensures
        r@ == indexed_key(prefix@, index as nat),
{
    proof {
        lemma_u32_digits(index as u32);
    }
    let mut buf: Vec<u8> = vec![0u8; 24];
    let n = build_indexed_key(prefix, index, buf.as_mut_slice());
    buf.truncate(n);
    buf
}

fn digits_vec(value: u32) -> (r: Vec<u8>)
    ensures
        r@ == decimal_digits(value as nat),
{
    proof {
        lemma_u32_digits(value);
    }
    let mut buf: Vec<u8> = vec![0u8; 10];
    let n = format_u32(value, buf.as_mut_slice());
    buf.truncate(n);
    buf
}

fn hex_vec(caller: &[u8; ACCOUNT_ID_SIZE]) -> (r: Vec<u8>)
    ensures
        r@ == hex_of(caller@),
{
    let mut buf: Vec<u8> = vec![0u8; 40];
    let _ = encode_hex(caller.as_slice(), buf.as_mut_slice());
    assert(buf@ =~= hex_of(caller@));
    buf
}

fn stored_digit(data: &[u8], key: &[u8]) -> (r: Option<u8>)
    ensures
        r == digit_field(data@, key@),
{
    match find_value(data, key) {
        Some(v) => parse_u8_digit(v),
        None => None,
    }
}

/// Finds the notary slot registered for `caller`: `Ok(index)`, or
/// `ERR_BAD_CONFIG` when `notary_count` is missing, not one digit, zero or
/// above `MAX_NOTARIES`, or `ERR_WRONG_ACCOUNT` when no registered identity
/// is the caller's.
pub fn check_caller_is_notary(data: &[u8], caller: &[u8; ACCOUNT_ID_SIZE]) -> (r: Result<u8, i32>)
    ensures
        r == resolve(data@, caller@),
{
    let count_key: [u8; 12] = [110, 111, 116, 97, 114, 121, 95, 99, 111, 117, 110, 116];
    assert(count_key@ == notary_count_key());
    let count = match stored_digit(data, count_key.as_slice()) {
        Some(c) => c,
        None => return Err(ERR_BAD_CONFIG),
    };
    if count == 0 || count as usize > MAX_NOTARIES {
        return Err(ERR_BAD_CONFIG);
    }
    let caller_hex = hex_vec(caller);
    let prefix: [u8; 7] = [110, 111, 116, 97, 114, 121, 95];
    assert(prefix@ == notary_prefix());
    let mut i: u8 = 0;
    while i < count
        invariant
            0 <= i <= count,
            prefix@ == notary_prefix(),
            caller_hex@ == hex_of(caller@),
            digit_field(data@, notary_count_key()) == Some(count),
            1 <= count <= MAX_NOTARIES,
            first_notary(data@, hex_of(caller@), i as nat) is None,
        decreases count - i,
    {
        let key = key_vec(prefix.as_slice(), i);
        if let Some(stored) = find_value(data, key.as_slice()) {
            if bytes_equal(stored, caller_hex.as_slice()) {
                assert(first_notary(data@, hex_of(caller@), (i + 1) as nat) == Some(i as nat));
                proof {
                    lemma_first_notary_stays(data@, hex_of(caller@), (i + 1) as nat, count as nat);
                }
                return Ok(i);
            }
        }
        i = i + 1;
    }
    Err(ERR_WRONG_ACCOUNT)
}

/// Compares the stored approval counter (absent: zero) with the one-digit
/// threshold: `SUCCESS` when it is reached, `ERR_NOT_APPROVED` when not,
/// `ERR_BAD_CONFIG` when the threshold is missing or malformed.
pub fn check_approval_threshold(data: &[u8]) -> (r: i32)
    ensures
        r == threshold_outcome(data@),
{
    let threshold_name: [u8; 9] = [116, 104, 114, 101, 115, 104, 111, 108, 100];
    assert(threshold_name@ == threshold_key());
    let threshold = match stored_digit(data, threshold_name.as_slice()) {
        Some(t) => t,
        None => return ERR_BAD_CONFIG,
    };
    let count_name: [u8; 14] = [97, 112, 112, 114, 111, 118, 97, 108, 95, 99, 111, 117, 110, 116];
    assert(count_name@ == approval_count_key());
    let approval_count = match stored_digit(data, count_name.as_slice()) {
        Some(c) => c,
        None => 0,
    };
    if approval_count >= threshold {
        SUCCESS
    } else {
        ERR_NOT_APPROVED
    }
}

/// The release-time check. The host enforces the escrow's release time
/// before the contract runs, so reaching this point means it has passed
/// (or none is set).
pub fn check_time_lock(finish_after: Option<u32>) -> (r: i32)
    ensures
        r == SUCCESS,
{
    match finish_after {
        Some(_) => SUCCESS,
        None => SUCCESS,
    }
}

fn slot_field_keys(notary_index: u8) -> (r: Vec<Vec<u8>>)
    ensures
        r.deep_view() == slot_fields(notary_index as nat),
{
    let approval: [u8; 9] = [97, 112, 112, 114, 111, 118, 97, 108, 95];
    let count: [u8; 14] = [97, 112, 112, 114, 111, 118, 97, 108, 95, 99, 111, 117, 110, 116];
    let approver: [u8; 9] = [97, 112, 112, 114, 111, 118, 101, 114, 95];
    let seq_prefix: [u8; 12] = [97, 112, 112, 114, 111, 118, 101, 95, 115, 101, 113, 95];
    assert(approval@ == approval_prefix());
    assert(count@ == approval_count_key());
    assert(approver@ == approver_prefix());
    assert(seq_prefix@ == approve_seq_prefix());
    let mut keys: Vec<Vec<u8>> = Vec::new();
    keys.push(key_vec(approval.as_slice(), notary_index));
    keys.push(vstd::slice::slice_to_vec(count.as_slice()));
    keys.push(key_vec(approver.as_slice(), notary_index));
    keys.push(key_vec(seq_prefix.as_slice(), notary_index));
    proof {
        let dv = keys.deep_view();
        assert forall|j: int| 0 <= j < 4 implies dv[j] == keys@[j]@ by {
            assert(dv[j] == keys@[j].deep_view());
            assert(keys@[j].deep_view() =~= keys@[j]@);
        }
        assert(dv =~= slot_fields(notary_index as nat));
    }
    keys
}

/// Builds the record after notary `notary_index` (identity `caller`)
/// approves at `tx_sequence`: every entry but the slot's approval bit,
/// approver and sequence and the counter is kept in order, then
/// `approval_<i>=1`, the counter plus one, `approver_<i>` and
/// `approve_seq_<i>` are appended. Fails with `ERR_ALREADY_APPROVED`,
/// changing nothing, when the slot is already approved.
pub fn record_approval(
    existing_data: &[u8],
    notary_index: u8,
    caller: &[u8; ACCOUNT_ID_SIZE],
    tx_sequence: u32,
) -> (r: Result<Vec<u8>, i32>)
    requires
        existing_data@.len() <= RECORD_CAPACITY,
    ensures
        is_approved(existing_data@, notary_index as nat) ==> r == Err::<Vec<u8>, i32>(
            ERR_ALREADY_APPROVED,
        ),
        !is_approved(existing_data@, notary_index as nat) ==> r is Ok && r.unwrap()@
            == approved_record(existing_data@, notary_index as nat, caller@, tx_sequence),
        r is Ok ==> r.unwrap()@.len() <= RECORD_CAPACITY,
{
    let ghost d = existing_data@;
    let ghost i = notary_index as nat;
    let approval: [u8; 9] = [97, 112, 112, 114, 111, 118, 97, 108, 95];
    assert(approval@ == approval_prefix());
    let approval_name = key_vec(approval.as_slice(), notary_index);
    if let Some(val) = find_value(existing_data, approval_name.as_slice()) {
        if val.len() == 1 && val[0] == 49 {
            assert(val@ =~= seq![49u8]);
            return Err(ERR_ALREADY_APPROVED);
        }
        assert(val@ != seq![49u8]);
    }
    let count_name: [u8; 14] = [97, 112, 112, 114, 111, 118, 97, 108, 95, 99, 111, 117, 110, 116];
    assert(count_name@ == approval_count_key());
    let current_count: u8 = match stored_digit(existing_data, count_name.as_slice()) {
        Some(c) => c,
        None => 0,
    };
    let excluded = slot_field_keys(notary_index);
    let mut buf = rebuild_excluding(existing_data, &excluded);
    let base_len = buf.len();
    buf.resize(RECORD_CAPACITY, 0);
    assert(buf@.take(base_len as int) =~= rebuilt(d, slot_fields(i)));
    let one: [u8; 1] = [49];
    assert(one@ =~= seq![49u8]);
    let mut pos = put_field(buf.as_mut_slice(), base_len, approval_name.as_slice(), one.as_slice());
    let count_digits = digits_vec(current_count as u32 + 1);
    pos = put_field(buf.as_mut_slice(), pos, count_name.as_slice(), count_digits.as_slice());
    let approver: [u8; 9] = [97, 112, 112, 114, 111, 118, 101, 114, 95];
    assert(approver@ == approver_prefix());
    let approver_name = key_vec(approver.as_slice(), notary_index);
    let caller_hex = hex_vec(caller);
    pos = put_field(buf.as_mut_slice(), pos, approver_name.as_slice(), caller_hex.as_slice());
    let seq_prefix: [u8; 12] = [97, 112, 112, 114, 111, 118, 101, 95, 115, 101, 113, 95];
    assert(seq_prefix@ == approve_seq_prefix());
    let seq_name = key_vec(seq_prefix.as_slice(), notary_index);
    let seq_digits = digits_vec(tx_sequence);
    pos = put_field(buf.as_mut_slice(), pos, seq_name.as_slice(), seq_digits.as_slice());
    buf.truncate(pos);
    Ok(buf)
}

/// Builds the record after notary `notary_index` revokes its approval: the
/// same fields as for an approval are dropped, then `approval_<i>=0` and the
/// counter (one less if the slot was approved, never below zero) are
/// appended.
pub fn record_revocation(existing_data: &[u8], notary_index: u8) -> (r: Vec<u8>)
    requires
        existing_data@.len() <= RECORD_CAPACITY,
    ensures
        r@ == revoked_record(existing_data@, notary_index as nat),
        r@.len() <= RECORD_CAPACITY,
{
    let ghost d = existing_data@;
    let ghost i = notary_index as nat;
    let approval: [u8; 9] = [97, 112, 112, 114, 111, 118, 97, 108, 95];
    assert(approval@ == approval_prefix());
    let approval_name = key_vec(approval.as_slice(), notary_index);
    let was_approved = match find_value(existing_data, approval_name.as_slice()) {
        Some(v) => {
            let b = v.len() == 1 && v[0] == 49;
            assert(b == (v@ == seq![49u8])) by {
                if v@.len() == 1 && v@[0] == 49 {
                    assert(v@ =~= seq![49u8]);
                }
            }
            b
        },
        None => false,
    };
    let count_name: [u8; 14] = [97, 112, 112, 114, 111, 118, 97, 108, 95, 99, 111, 117, 110, 116];
    assert(count_name@ == approval_count_key());
    let current_count: u8 = match stored_digit(existing_data, count_name.as_slice()) {
        Some(c) => c,
        None => 0,
    };
    let new_count = if was_approved && current_count > 0 {
        current_count - 1
    } else {
        current_count
    };
    let excluded = slot_field_keys(notary_index);
    let mut buf = rebuild_excluding(existing_data, &excluded);
    let base_len = buf.len();
    buf.resize(RECORD_CAPACITY, 0);
    assert(buf@.take(base_len as int) =~= rebuilt(d, slot_fields(i)));
    let zero: [u8; 1] = [48];
    assert(zero@ =~= seq![48u8]);
    let mut pos = put_field(buf.as_mut_slice(), base_len, approval_name.as_slice(), zero.as_slice());
    let count_digits = digits_vec(new_count as u32);
    pos = put_field(buf.as_mut_slice(), pos, count_name.as_slice(), count_digits.as_slice());
    buf.truncate(pos);
    buf
}

fn outcome_tag_bytes(code: i32) -> (r: Vec<u8>)
    ensures
        r@ == outcome_tag(code),
{
    let tag: Vec<u8> = if code > 0 {
        let t: [u8; 8] = [97, 112, 112, 114, 111, 118, 101, 100];
        vstd::slice::slice_to_vec(t.as_slice())
    } else if code == -1 {
        let t: [u8; 13] = [119, 114, 111, 110, 103, 95, 97, 99, 99, 111, 117, 110, 116];
        vstd::slice::slice_to_vec(t.as_slice())
    } else if code == -2 {
        let t: [u8; 9] = [116, 111, 111, 95, 101, 97, 114, 108, 121];
        vstd::slice::slice_to_vec(t.as_slice())
    } else if code == -3 {
        let t: [u8; 12] = [110, 111, 116, 95, 97, 112, 112, 114, 111, 118, 101, 100];
        vstd::slice::slice_to_vec(t.as_slice())
    } else if code == -4 {
        let t: [u8; 13] = [100, 97, 116, 97, 95, 114, 101, 97, 100, 95, 101, 114, 114];
        vstd::slice::slice_to_vec(t.as_slice())
    } else if code == -5 {
        let t: [u8; 13] = [104, 111, 115, 116, 95, 99, 97, 108, 108, 95, 101, 114, 114];
        vstd::slice::slice_to_vec(t.as_slice())
    } else if code == -6 {
        let t: [u8; 10] = [98, 97, 100, 95, 99, 111, 110, 102, 105, 103];
        vstd::slice::slice_to_vec(t.as_slice())
    } else if code == -8 {
        let t: [u8; 8] = [99, 111, 111, 108, 100, 111, 119, 110];
        vstd::slice::slice_to_vec(t.as_slice())
    } else {
        let t: [u8; 7] = [117, 110, 107, 110, 111, 119, 110];
        vstd::slice::slice_to_vec(t.as_slice())
    };
    tag
}

/// Stamps the record with the outcome of a finish attempt: drops any
/// earlier `last_result` and `last_attempt_seq`, keeps every other entry in
/// order, then appends `last_result=<tag>` and `last_attempt_seq=<seq>`.
pub fn record_audit(existing_data: &[u8], result_code: i32, tx_sequence: u32) -> (r: Vec<u8>)
    requires
        existing_data@.len() <= RECORD_CAPACITY,
    ensures
        r@ == audited_record(existing_data@, result_code, tx_sequence),
        r@.len() <= RECORD_CAPACITY,
{
    let ghost d = existing_data@;
    let result_name: [u8; 11] = [108, 97, 115, 116, 95, 114, 101, 115, 117, 108, 116];
    let seq_name: [u8; 16] = [
        108, 97, 115, 116, 95, 97, 116, 116, 101, 109, 112, 116, 95, 115, 101, 113,
    ];
    assert(result_name@ == last_result_key());
    assert(seq_name@ == last_attempt_seq_key());
    let mut excluded: Vec<Vec<u8>> = Vec::new();
    excluded.push(vstd::slice::slice_to_vec(result_name.as_slice()));
    excluded.push(vstd::slice::slice_to_vec(seq_name.as_slice()));
    proof {
        let dv = excluded.deep_view();
        assert forall|j: int| 0 <= j < 2 implies dv[j] == excluded@[j]@ by {
            assert(dv[j] == excluded@[j].deep_view());
            assert(excluded@[j].deep_view() =~= excluded@[j]@);
        }
        assert(dv =~= audit_fields());
    }
    let mut buf = rebuild_excluding(existing_data, &excluded);
    let base_len = buf.len();
    buf.resize(RECORD_CAPACITY, 0);
    assert(buf@.take(base_len as int) =~= rebuilt(d, audit_fields()));
    let tag = outcome_tag_bytes(result_code);
    let mut pos = put_field(buf.as_mut_slice(), base_len, result_name.as_slice(), tag.as_slice());
    let seq_digits = digits_vec(tx_sequence);
    pos = put_field(buf.as_mut_slice(), pos, seq_name.as_slice(), seq_digits.as_slice());
    buf.truncate(pos);
    buf
}

/// The outcome of a finish attempt by `caller`: the resolver's refusal,
/// else the threshold decision (the release-time check always passes once
/// the host runs the contract).
pub open spec fn finish_outcome(d: Seq<u8>, caller: Seq<u8>) -> i32 {
    match resolve(d, caller) {
        Err(e) => e,
        Ok(_) => threshold_outcome(d),
    }
}

/// The decision of a finish attempt: resolves the caller, checks the
/// release time and the threshold, and stamps the outcome into the record.
/// Returns the outcome and the stamped record, to be written back.
pub fn finish_decision(
    data: &[u8],
    caller: &[u8; ACCOUNT_ID_SIZE],
    finish_after: Option<u32>,
    tx_sequence: u32,
) -> (r: (i32, Vec<u8>))
    requires
        data@.len() <= RECORD_CAPACITY,
    ensures
        r.0 == finish_outcome(data@, caller@),
        r.1@ == audited_record(data@, r.0, tx_sequence),
        r.1@.len() <= RECORD_CAPACITY,
{
    let outcome = match check_caller_is_notary(data, caller) {
        Err(code) => code,
        Ok(_) => {
            let time_result = check_time_lock(finish_after);
            if time_result != SUCCESS {
                time_result
            } else {
                check_approval_threshold(data)
            }
        },
    };
    (outcome, record_audit(data, outcome, tx_sequence))
}

/// The decision of an approval call: resolves the caller to a notary slot
/// and records its approval. Returns the record to write back, or the
/// outcome code that refuses the call.
pub fn approval_decision(data: &[u8], caller: &[u8; ACCOUNT_ID_SIZE], tx_sequence: u32) -> (r:
    Result<Vec<u8>, i32>)
    requires
        data@.len() <= RECORD_CAPACITY,
    ensures
        match resolve(data@, caller@) {
            Err(e) => r == Err::<Vec<u8>, i32>(e),
            Ok(i) => if is_approved(data@, i as nat) {
                r == Err::<Vec<u8>, i32>(ERR_ALREADY_APPROVED)
            } else {
                r is Ok && r.unwrap()@ == approved_record(data@, i as nat, caller@, tx_sequence)
            },
        },
{
    match check_caller_is_notary(data, caller) {
        Err(code) => Err(code),
        Ok(index) => record_approval(data, index, caller, tx_sequence),
    }
}

/// The decision of a revocation call: resolves the caller to a notary slot
/// and clears its approval. Returns the record to write back, or the
/// outcome code that refuses the call.
pub fn revocation_decision(data: &[u8], caller: &[u8; ACCOUNT_ID_SIZE]) -> (r: Result<
    Vec<u8>,
    i32,
>)
    requires
        data@.len() <= RECORD_CAPACITY,
    ensures
        match resolve(data@, caller@) {
            Err(e) => r == Err::<Vec<u8>, i32>(e),
            Ok(i) => r is Ok && r.unwrap()@ == revoked_record(data@, i as nat),
        },
{
    match check_caller_is_notary(data, caller) {
        Err(code) => Err(code),
        Ok(index) => Ok(record_revocation(data, index)),
    }
}

/// Bytes that may stand as a key: not empty, without `;` or `=`.
pub open spec fn clean_key(k: Seq<u8>) -> bool {
    k.len() > 0 && free_of(k, SEPARATOR) && free_of(k, EQUALS)
}

proof fn lemma_fixed_keys_clean()
    ensures
        clean_key(notary_prefix()),
        clean_key(approval_prefix()),
        clean_key(approval_count_key()),
        clean_key(approver_prefix()),
        clean_key(approve_seq_prefix()),
        clean_key(last_result_key()),
        clean_key(last_attempt_seq_key()),
{
}

proof fn lemma_indexed_key_clean(prefix: Seq<u8>, i: u8)
    requires
        clean_key(prefix),
    ensures
        clean_key(indexed_key(prefix, i as nat)),
        prefix.len() < indexed_key(prefix, i as nat).len() <= prefix.len() + 3,
        forall|j: int|
            prefix.len() <= j < indexed_key(prefix, i as nat).len() ==> 48 <= #[trigger] indexed_key(
                prefix,
                i as nat,
            )[j] <= 57,
{
    reveal_with_fuel(pow10, 4);
    lemma_decimal_digits_len(i as nat);
    lemma_decimal_digits_bound(i as nat, 3);
    let k = indexed_key(prefix, i as nat);
    let dg = decimal_digits(i as nat);
    assert forall|j: int| prefix.len() <= j < k.len() implies 48 <= #[trigger] k[j] <= 57 by {
        assert(k[j] == dg[j - prefix.len()]);
    }
}

proof fn lemma_digits_value_clean(n: nat)
    ensures
        free_of(decimal_digits(n), SEPARATOR),
{
    lemma_decimal_digits_len(n);
    let dg = decimal_digits(n);
    assert forall|j: int| 0 <= j < dg.len() implies dg[j] != SEPARATOR by {
        assert(all_digits(dg));
    }
}

proof fn lemma_hex_value_clean(b: Seq<u8>)
    ensures
        free_of(hex_of(b), SEPARATOR),
{
    let h = hex_of(b);
    assert forall|j: int| 0 <= j < h.len() implies h[j] != SEPARATOR by {
        let x = b[j / 2];
        assert(x / 16 < 16 && x % 16 < 16) by (bit_vector);
    }
}

proof fn lemma_entry_clean(k: Seq<u8>, v: Seq<u8>)
    requires
        clean_key(k),
        free_of(v, SEPARATOR),
    ensures
        entry_bytes(k, v).len() > 0,
        free_of(entry_bytes(k, v), SEPARATOR),
        field_of(entry_bytes(k, v)) == Some((k, v)),
{
    lemma_field_of_entry(k, v);
    let e = entry_bytes(k, v);
    assert forall|j: int| 0 <= j < e.len() implies e[j] != SEPARATOR by {
        if j < k.len() {
            assert(e[j] == k[j]);
        } else if j > k.len() {
            assert(e[j] == v[j - k.len() - 1]);
        }
    }
}

/// The entries that an approval of notary `i` appends.
pub open spec fn approval_tail(d: Seq<u8>, i: nat, caller: Seq<u8>, seq: u32) -> Seq<Seq<u8>> {
    seq![
        entry_bytes(approval_key(i), seq![49u8]),
        entry_bytes(approval_count_key(), decimal_digits(approval_count_of(d) as nat + 1)),
        entry_bytes(indexed_key(approver_prefix(), i), hex_of(caller)),
        entry_bytes(indexed_key(approve_seq_prefix(), i), decimal_digits(seq as nat)),
    ]
}

/// The entries that a revocation of notary `i` appends.
pub open spec fn revocation_tail(d: Seq<u8>, i: nat) -> Seq<Seq<u8>> {
    seq![
        entry_bytes(approval_key(i), seq![48u8]),
        entry_bytes(approval_count_key(), decimal_digits(revoked_count(d, i) as nat)),
    ]
}

/// The entries that an audit stamp appends.
pub open spec fn audit_tail(code: i32, seq: u32) -> Seq<Seq<u8>> {
    seq![
        entry_bytes(last_result_key(), outcome_tag(code)),
        entry_bytes(last_attempt_seq_key(), decimal_digits(seq as nat)),
    ]
}

/// The kept entries of a record are not empty and hold no `;`.
proof fn lemma_kept_entries_clean(d: Seq<u8>, excluded: Seq<Seq<u8>>)
    ensures
        forall|j: int|
            0 <= j < retained(entries(d), excluded).len() ==> (#[trigger] retained(
                entries(d),
                excluded,
            )[j]).len() > 0 && free_of(retained(entries(d), excluded)[j], SEPARATOR),
{
    let es = entries(d);
    let r = retained(es, excluded);
    lemma_entries_shape(d);
    lemma_retained_shape(es, excluded);
    assert forall|j: int| 0 <= j < r.len() implies (#[trigger] r[j]).len() > 0 && free_of(
        r[j],
        SEPARATOR,
    ) by {
        assert(kept(r[j], excluded));
        let w = choose|w: int| 0 <= w < es.len() && es[w] == r[j];
    }
}

proof fn lemma_count_small(d: Seq<u8>)
    ensures
        approval_count_of(d) <= 9,
        decimal_digits(approval_count_of(d) as nat + 1).len() <= 2,
        decimal_digits(approval_count_of(d) as nat).len() <= 2,
{
    reveal_with_fuel(pow10, 3);
    lemma_decimal_digits_bound(approval_count_of(d) as nat + 1, 2);
    lemma_decimal_digits_bound(approval_count_of(d) as nat, 2);
}

/// An approval keeps the kept entries and appends its four fields, when the
/// record leaves room for them.
pub proof fn lemma_approved_shape(d: Seq<u8>, i: u8, caller: Seq<u8>, seq: u32)
    requires
        rebuilt(d, slot_fields(i as nat)).len() + 128 <= RECORD_CAPACITY,
        caller.len() == ACCOUNT_ID_SIZE,
    ensures
        approved_record(d, i as nat, caller, seq) == join(
            retained(entries(d), slot_fields(i as nat)) + approval_tail(d, i as nat, caller, seq),
        ),
        entries(approved_record(d, i as nat, caller, seq)) == retained(
            entries(d),
            slot_fields(i as nat),
        ) + approval_tail(d, i as nat, caller, seq),
{
    let ex = slot_fields(i as nat);
    let r = retained(entries(d), ex);
    let t = approval_tail(d, i as nat, caller, seq);
    lemma_kept_entries_clean(d, ex);
    lemma_rebuilt_len(d, ex);
    lemma_fixed_keys_clean();
    lemma_indexed_key_clean(approval_prefix(), i);
    lemma_indexed_key_clean(approver_prefix(), i);
    lemma_indexed_key_clean(approve_seq_prefix(), i);
    lemma_count_small(d);
    lemma_u32_digits(seq);
    lemma_digits_value_clean(approval_count_of(d) as nat + 1);
    lemma_digits_value_clean(seq as nat);
    lemma_hex_value_clean(caller);
    assert(free_of(seq![49u8], SEPARATOR));
    lemma_entry_clean(approval_key(i as nat), seq![49u8]);
    lemma_entry_clean(approval_count_key(), decimal_digits(approval_count_of(d) as nat + 1));
    lemma_entry_clean(indexed_key(approver_prefix(), i as nat), hex_of(caller));
    lemma_entry_clean(indexed_key(approve_seq_prefix(), i as nat), decimal_digits(seq as nat));
    let r1 = r.push(t[0]);
    let r2 = r1.push(t[1]);
    let r3 = r2.push(t[2]);
    let r4 = r3.push(t[3]);
    lemma_append_field_join(r, approval_key(i as nat), seq![49u8]);
    assert forall|j: int| 0 <= j < r1.len() implies (#[trigger] r1[j]).len() > 0 by {
        if j < r.len() {
            assert(r1[j] == r[j]);
        }
    }
    lemma_append_field_join(
        r1,
        approval_count_key(),
        decimal_digits(approval_count_of(d) as nat + 1),
    );
    assert forall|j: int| 0 <= j < r2.len() implies (#[trigger] r2[j]).len() > 0 by {
        if j < r1.len() {
            assert(r2[j] == r1[j]);
        }
    }
    lemma_append_field_join(r2, indexed_key(approver_prefix(), i as nat), hex_of(caller));
    assert forall|j: int| 0 <= j < r3.len() implies (#[trigger] r3[j]).len() > 0 by {
        if j < r2.len() {
            assert(r3[j] == r2[j]);
        }
    }
    lemma_append_field_join(
        r3,
        indexed_key(approve_seq_prefix(), i as nat),
        decimal_digits(seq as nat),
    );
    assert(r4 =~= r + t);
    let all = r + t;
    assert forall|j: int| 0 <= j < all.len() implies (#[trigger] all[j]).len() > 0 && free_of(
        all[j],
        SEPARATOR,
    ) by {
        if j < r.len() {
            assert(all[j] == r[j]);
        } else {
            assert(all[j] == t[j - r.len()]);
        }
    }
    lemma_entries_of_join(all);
}

/// A revocation keeps the kept entries and appends its two fields, when the
/// record leaves room for them.
pub proof fn lemma_revoked_shape(d: Seq<u8>, i: u8)
    requires
        rebuilt(d, slot_fields(i as nat)).len() + 128 <= RECORD_CAPACITY,
    ensures
        revoked_record(d, i as nat) == join(
            retained(entries(d), slot_fields(i as nat)) + revocation_tail(d, i as nat),
        ),
        entries(revoked_record(d, i as nat)) == retained(entries(d), slot_fields(i as nat))
            + revocation_tail(d, i as nat),
{
    let ex = slot_fields(i as nat);
    let r = retained(entries(d), ex);
    let t = revocation_tail(d, i as nat);
    lemma_kept_entries_clean(d, ex);
    lemma_rebuilt_len(d, ex);
    lemma_fixed_keys_clean();
    lemma_indexed_key_clean(approval_prefix(), i);
    lemma_count_small(d);
    assert(revoked_count(d, i as nat) <= approval_count_of(d));
    reveal_with_fuel(pow10, 3);
    lemma_decimal_digits_bound(revoked_count(d, i as nat) as nat, 2);
    lemma_digits_value_clean(revoked_count(d, i as nat) as nat);
    assert(free_of(seq![48u8], SEPARATOR));
    lemma_entry_clean(approval_key(i as nat), seq![48u8]);
    lemma_entry_clean(approval_count_key(), decimal_digits(revoked_count(d, i as nat) as nat));
    let r1 = r.push(t[0]);
    let r2 = r1.push(t[1]);
    lemma_append_field_join(r, approval_key(i as nat), seq![48u8]);
    assert forall|j: int| 0 <= j < r1.len() implies (#[trigger] r1[j]).len() > 0 by {
        if j < r.len() {
            assert(r1[j] == r[j]);
        }
    }
    lemma_append_field_join(
        r1,
        approval_count_key(),
        decimal_digits(revoked_count(d, i as nat) as nat),
    );
    assert(r2 =~= r + t);
    let all = r + t;
    assert forall|j: int| 0 <= j < all.len() implies (#[trigger] all[j]).len() > 0 && free_of(
        all[j],
        SEPARATOR,
    ) by {
        if j < r.len() {
            assert(all[j] == r[j]);
        } else {
            assert(all[j] == t[j - r.len()]);
        }
    }
    lemma_entries_of_join(all);
}

proof fn lemma_tags_clean(code: i32)
    ensures
        free_of(outcome_tag(code), SEPARATOR),
        outcome_tag(code).len() <= 13,
{
}

/// An audit stamp keeps the kept entries and appends its two fields, when
/// the record leaves room for them.
pub proof fn lemma_audited_shape(d: Seq<u8>, code: i32, seq: u32)
    requires
        rebuilt(d, audit_fields()).len() + 128 <= RECORD_CAPACITY,
    ensures
        audited_record(d, code, seq) == join(
            retained(entries(d), audit_fields()) + audit_tail(code, seq),
        ),
        entries(audited_record(d, code, seq)) == retained(entries(d), audit_fields())
            + audit_tail(code, seq),
{
    let ex = audit_fields();
    let r = retained(entries(d), ex);
    let t = audit_tail(code, seq);
    lemma_kept_entries_clean(d, ex);
    lemma_rebuilt_len(d, ex);
    lemma_fixed_keys_clean();
    lemma_u32_digits(seq);
    lemma_digits_value_clean(seq as nat);
    lemma_tags_clean(code);
    lemma_entry_clean(last_result_key(), outcome_tag(code));
    lemma_entry_clean(last_attempt_seq_key(), decimal_digits(seq as nat));
    let r1 = r.push(t[0]);
    let r2 = r1.push(t[1]);
    lemma_append_field_join(r, last_result_key(), outcome_tag(code));
    assert forall|j: int| 0 <= j < r1.len() implies (#[trigger] r1[j]).len() > 0 by {
        if j < r.len() {
            assert(r1[j] == r[j]);
        }
    }
    lemma_append_field_join(r1, last_attempt_seq_key(), decimal_digits(seq as nat));
    assert(r2 =~= r + t);
    let all = r + t;
    assert forall|j: int| 0 <= j < all.len() implies (#[trigger] all[j]).len() > 0 && free_of(
        all[j],
        SEPARATOR,
    ) by {
        if j < r.len() {
            assert(all[j] == r[j]);
        } else {
            assert(all[j] == t[j - r.len()]);
        }
    }
    lemma_entries_of_join(all);
}

/// The keys of an approval's fields are pairwise different and are exactly
/// the replaced fields.
proof fn lemma_slot_keys(i: u8)
    ensures
        approval_key(i as nat) != approval_count_key(),
        approval_key(i as nat) != indexed_key(approver_prefix(), i as nat),
        approval_key(i as nat) != indexed_key(approve_seq_prefix(), i as nat),
        approval_count_key() != indexed_key(approver_prefix(), i as nat),
        approval_count_key() != indexed_key(approve_seq_prefix(), i as nat),
        indexed_key(approver_prefix(), i as nat) != indexed_key(approve_seq_prefix(), i as nat),
        slot_fields(i as nat).contains(approval_key(i as nat)),
        slot_fields(i as nat).contains(approval_count_key()),
        slot_fields(i as nat).contains(indexed_key(approver_prefix(), i as nat)),
        slot_fields(i as nat).contains(indexed_key(approve_seq_prefix(), i as nat)),
{
    lemma_fixed_keys_clean();
    lemma_indexed_key_clean(approval_prefix(), i);
    lemma_indexed_key_clean(approver_prefix(), i);
    lemma_indexed_key_clean(approve_seq_prefix(), i);
    let k0 = approval_key(i as nat);
    let k1 = approval_count_key();
    let k2 = indexed_key(approver_prefix(), i as nat);
    let k3 = indexed_key(approve_seq_prefix(), i as nat);
    assert(k0[6] == approval_prefix()[6] && k0[7] == approval_prefix()[7]);
    assert(k2[6] == approver_prefix()[6] && k2[7] == approver_prefix()[7]);
    assert(k3[6] == approve_seq_prefix()[6] && k3[7] == approve_seq_prefix()[7]);
    assert(k0[6] == 97 && k1[6] == 97 && k2[6] == 101 && k3[6] == 101);
    assert(k2[7] == 114 && k3[7] == 95);
    assert(48 <= k0[9] <= 57 && k1[9] == 99);
    let ex = slot_fields(i as nat);
    assert(ex[0] == k0 && ex[1] == k1 && ex[2] == k2 && ex[3] == k3);
}

/// What a record reads after an approval of notary `i`: the slot approved,
/// the counter one up, the approver's identity and the sequence recorded.
pub proof fn lemma_approval_reads(d: Seq<u8>, i: u8, caller: Seq<u8>, seq: u32)
    requires
        rebuilt(d, slot_fields(i as nat)).len() + 128 <= RECORD_CAPACITY,
        caller.len() == ACCOUNT_ID_SIZE,
    ensures
        is_approved(approved_record(d, i as nat, caller, seq), i as nat),
        lookup(approved_record(d, i as nat, caller, seq), approval_count_key()) == Some(
            decimal_digits(approval_count_of(d) as nat + 1),
        ),
        approval_count_of(d) < 9 ==> approval_count_of(approved_record(d, i as nat, caller, seq))
            == approval_count_of(d) + 1,
        lookup(approved_record(d, i as nat, caller, seq), indexed_key(approver_prefix(), i as nat))
            == Some(hex_of(caller)),
        lookup(
            approved_record(d, i as nat, caller, seq),
            indexed_key(approve_seq_prefix(), i as nat),
        ) == Some(decimal_digits(seq as nat)),
{
    let ex = slot_fields(i as nat);
    let r = retained(entries(d), ex);
    let t = approval_tail(d, i as nat, caller, seq);
    lemma_approved_shape(d, i, caller, seq);
    lemma_slot_keys(i);
    lemma_fixed_keys_clean();
    lemma_indexed_key_clean(approval_prefix(), i);
    lemma_indexed_key_clean(approver_prefix(), i);
    lemma_indexed_key_clean(approve_seq_prefix(), i);
    lemma_field_of_entry(approval_key(i as nat), seq![49u8]);
    lemma_field_of_entry(approval_count_key(), decimal_digits(approval_count_of(d) as nat + 1));
    lemma_field_of_entry(indexed_key(approver_prefix(), i as nat), hex_of(caller));
    lemma_field_of_entry(indexed_key(approve_seq_prefix(), i as nat), decimal_digits(seq as nat));
    let k0 = approval_key(i as nat);
    let k1 = approval_count_key();
    let k2 = indexed_key(approver_prefix(), i as nat);
    let k3 = indexed_key(approve_seq_prefix(), i as nat);
    lemma_lookup_in_retained(entries(d), ex, k0);
    lemma_lookup_in_retained(entries(d), ex, k1);
    lemma_lookup_in_retained(entries(d), ex, k2);
    lemma_lookup_in_retained(entries(d), ex, k3);
    lemma_lookup_in_concat(r, t, k0);
    lemma_lookup_in_concat(r, t, k1);
    lemma_lookup_in_concat(r, t, k2);
    lemma_lookup_in_concat(r, t, k3);
    lemma_lookup_in_at(t, 0, k0);
    lemma_lookup_in_at(t, 1, k1);
    lemma_lookup_in_at(t, 2, k2);
    lemma_lookup_in_at(t, 3, k3);
    if approval_count_of(d) < 9 {
        let n = approval_count_of(d) as nat + 1;
        assert(decimal_digits(n) == seq![(48 + n) as u8]);
    }
}

/// What a record reads after a revocation of notary `i`: the slot cleared
/// and the counter as `revoked_count` says.
pub proof fn lemma_revocation_reads(d: Seq<u8>, i: u8)
    requires
        rebuilt(d, slot_fields(i as nat)).len() + 128 <= RECORD_CAPACITY,
    ensures
        lookup(revoked_record(d, i as nat), approval_key(i as nat)) == Some(seq![48u8]),
        !is_approved(revoked_record(d, i as nat), i as nat),
        approval_count_of(revoked_record(d, i as nat)) == revoked_count(d, i as nat),
{
    let ex = slot_fields(i as nat);
    let r = retained(entries(d), ex);
    let t = revocation_tail(d, i as nat);
    lemma_revoked_shape(d, i);
    lemma_slot_keys(i);
    lemma_count_small(d);
    lemma_fixed_keys_clean();
    lemma_indexed_key_clean(approval_prefix(), i);
    lemma_field_of_entry(approval_key(i as nat), seq![48u8]);
    lemma_field_of_entry(approval_count_key(), decimal_digits(revoked_count(d, i as nat) as nat));
    let k0 = approval_key(i as nat);
    let k1 = approval_count_key();
    lemma_lookup_in_retained(entries(d), ex, k0);
    lemma_lookup_in_retained(entries(d), ex, k1);
    lemma_lookup_in_concat(r, t, k0);
    lemma_lookup_in_concat(r, t, k1);
    lemma_lookup_in_at(t, 0, k0);
    lemma_lookup_in_at(t, 1, k1);
    let n = revoked_count(d, i as nat) as nat;
    assert(decimal_digits(n) == seq![(48 + n) as u8]);
    assert(seq![48u8] != seq![49u8]) by {
        assert(seq![48u8][0] != seq![49u8][0]);
    }
}

/// Approving the same notary twice in a row: after the first approval the
/// slot reads as approved, so `record_approval` refuses the second with
/// `ERR_ALREADY_APPROVED` and nothing is written.
pub proof fn lemma_approve_twice_refused(d: Seq<u8>, i: u8, caller: Seq<u8>, seq: u32)
    requires
        d.len() + 128 <= RECORD_CAPACITY,
        caller.len() == ACCOUNT_ID_SIZE,
    ensures
        is_approved(approved_record(d, i as nat, caller, seq), i as nat),
{
    lemma_rebuilt_len(d, slot_fields(i as nat));
    lemma_approval_reads(d, i, caller, seq);
}

/// Approving an unapproved slot raises the stored counter by one (while it
/// stays one digit), so sequential approvals of distinct notaries add up.
pub proof fn lemma_approval_counts_up(d: Seq<u8>, i: u8, caller: Seq<u8>, seq: u32)
    requires
        d.len() + 128 <= RECORD_CAPACITY,
        caller.len() == ACCOUNT_ID_SIZE,
        approval_count_of(d) < 9,
    ensures
        approval_count_of(approved_record(d, i as nat, caller, seq)) == approval_count_of(d) + 1,
        digit_field(approved_record(d, i as nat, caller, seq), threshold_key()) == digit_field(
            d,
            threshold_key(),
        ),
{
    lemma_rebuilt_len(d, slot_fields(i as nat));
    lemma_approval_reads(d, i, caller, seq);
    lemma_fields_kept_by_approval(d, i, caller, seq, threshold_key());
}

proof fn lemma_tail_not_kept(i: u8, t: Seq<Seq<u8>>)
    requires
        forall|j: int|
            0 <= j < t.len() ==> field_of(#[trigger] t[j]) is Some && slot_fields(i as nat).contains(
                field_of(t[j]).unwrap().0,
            ),
    ensures
        forall|j: int| 0 <= j < t.len() ==> !kept(#[trigger] t[j], slot_fields(i as nat)),
{
}

/// A field that an approval of notary `i` does not replace reads the same
/// after it.
pub proof fn lemma_fields_kept_by_approval(
    d: Seq<u8>,
    i: u8,
    caller: Seq<u8>,
    seq: u32,
    key: Seq<u8>,
)
    requires
        rebuilt(d, slot_fields(i as nat)).len() + 128 <= RECORD_CAPACITY,
        caller.len() == ACCOUNT_ID_SIZE,
        !slot_fields(i as nat).contains(key),
    ensures
        lookup(approved_record(d, i as nat, caller, seq), key) == lookup(d, key),
{
    let ex = slot_fields(i as nat);
    let r = retained(entries(d), ex);
    let t = approval_tail(d, i as nat, caller, seq);
    lemma_approved_shape(d, i, caller, seq);
    lemma_slot_keys(i);
    lemma_fixed_keys_clean();
    lemma_indexed_key_clean(approval_prefix(), i);
    lemma_indexed_key_clean(approver_prefix(), i);
    lemma_indexed_key_clean(approve_seq_prefix(), i);
    lemma_field_of_entry(approval_key(i as nat), seq![49u8]);
    lemma_field_of_entry(approval_count_key(), decimal_digits(approval_count_of(d) as nat + 1));
    lemma_field_of_entry(indexed_key(approver_prefix(), i as nat), hex_of(caller));
    lemma_field_of_entry(indexed_key(approve_seq_prefix(), i as nat), decimal_digits(seq as nat));
    assert forall|j: int| 0 <= j < t.len() implies !has_key(#[trigger] t[j], key) by {
        assert(ex.contains(field_of(t[j]).unwrap().0));
    }
    lemma_lookup_in_absent(t, key);
    lemma_lookup_in_retained(entries(d), ex, key);
    lemma_lookup_in_concat(r, t, key);
}

/// A field that a revocation of notary `i` does not replace reads the same
/// after it.
pub proof fn lemma_fields_kept_by_revocation(d: Seq<u8>, i: u8, key: Seq<u8>)
    requires
        rebuilt(d, slot_fields(i as nat)).len() + 128 <= RECORD_CAPACITY,
        !slot_fields(i as nat).contains(key),
    ensures
        lookup(revoked_record(d, i as nat), key) == lookup(d, key),
{
    let ex = slot_fields(i as nat);
    let r = retained(entries(d), ex);
    let t = revocation_tail(d, i as nat);
    lemma_revoked_shape(d, i);
    lemma_slot_keys(i);
    lemma_count_small(d);
    lemma_fixed_keys_clean();
    lemma_indexed_key_clean(approval_prefix(), i);
    lemma_field_of_entry(approval_key(i as nat), seq![48u8]);
    lemma_field_of_entry(approval_count_key(), decimal_digits(revoked_count(d, i as nat) as nat));
    assert forall|j: int| 0 <= j < t.len() implies !has_key(#[trigger] t[j], key) by {
        assert(ex.contains(field_of(t[j]).unwrap().0));
    }
    lemma_lookup_in_absent(t, key);
    lemma_lookup_in_retained(entries(d), ex, key);
    lemma_lookup_in_concat(r, t, key);
}

/// A field other than the two audit fields reads the same after an audit
/// stamp; the stamp itself reads back as the outcome's tag and the sequence.
pub proof fn lemma_audit_reads(d: Seq<u8>, code: i32, seq: u32, key: Seq<u8>)
    requires
        rebuilt(d, audit_fields()).len() + 128 <= RECORD_CAPACITY,
    ensures
        !audit_fields().contains(key) ==> lookup(audited_record(d, code, seq), key) == lookup(
            d,
            key,
        ),
        lookup(audited_record(d, code, seq), last_result_key()) == Some(outcome_tag(code)),
        lookup(audited_record(d, code, seq), last_attempt_seq_key()) == Some(
            decimal_digits(seq as nat),
        ),
{
    let ex = audit_fields();
    let r = retained(entries(d), ex);
    let t = audit_tail(code, seq);
    lemma_audited_shape(d, code, seq);
    lemma_fixed_keys_clean();
    lemma_field_of_entry(last_result_key(), outcome_tag(code));
    lemma_field_of_entry(last_attempt_seq_key(), decimal_digits(seq as nat));
    let k0 = last_result_key();
    let k1 = last_attempt_seq_key();
    assert(ex[0] == k0 && ex[1] == k1);
    assert(k0 != k1) by {
        assert(k0.len() != k1.len());
    }
    lemma_lookup_in_retained(entries(d), ex, k0);
    lemma_lookup_in_retained(entries(d), ex, k1);
    lemma_lookup_in_concat(r, t, k0);
    lemma_lookup_in_concat(r, t, k1);
    lemma_lookup_in_at(t, 0, k0);
    lemma_lookup_in_at(t, 1, k1);
    if !ex.contains(key) {
        assert forall|j: int| 0 <= j < t.len() implies !has_key(#[trigger] t[j], key) by {
            assert(ex[j] == field_of(t[j]).unwrap().0);
        }
        lemma_lookup_in_absent(t, key);
        lemma_lookup_in_retained(entries(d), ex, key);
        lemma_lookup_in_concat(r, t, key);
    }
}

proof fn lemma_approval_rebuilds_same(d: Seq<u8>, i: u8, caller: Seq<u8>, seq: u32)
    requires
        rebuilt(d, slot_fields(i as nat)).len() + 128 <= RECORD_CAPACITY,
        caller.len() == ACCOUNT_ID_SIZE,
    ensures
        rebuilt(approved_record(d, i as nat, caller, seq), slot_fields(i as nat)) == rebuilt(
            d,
            slot_fields(i as nat),
        ),
{
    let ex = slot_fields(i as nat);
    let t = approval_tail(d, i as nat, caller, seq);
    lemma_approved_shape(d, i, caller, seq);
    lemma_slot_keys(i);
    lemma_fixed_keys_clean();
    lemma_indexed_key_clean(approval_prefix(), i);
    lemma_indexed_key_clean(approver_prefix(), i);
    lemma_indexed_key_clean(approve_seq_prefix(), i);
    lemma_field_of_entry(approval_key(i as nat), seq![49u8]);
    lemma_field_of_entry(approval_count_key(), decimal_digits(approval_count_of(d) as nat + 1));
    lemma_field_of_entry(indexed_key(approver_prefix(), i as nat), hex_of(caller));
    lemma_field_of_entry(indexed_key(approve_seq_prefix(), i as nat), decimal_digits(seq as nat));
    lemma_tail_not_kept(i, t);
    lemma_rebuilt_again(d, approved_record(d, i as nat, caller, seq), t, ex);
}

proof fn lemma_revocation_rebuilds_same(d: Seq<u8>, i: u8)
    requires
        rebuilt(d, slot_fields(i as nat)).len() + 128 <= RECORD_CAPACITY,
    ensures
        rebuilt(revoked_record(d, i as nat), slot_fields(i as nat)) == rebuilt(
            d,
            slot_fields(i as nat),
        ),
{
    let ex = slot_fields(i as nat);
    let t = revocation_tail(d, i as nat);
    lemma_revoked_shape(d, i);
    lemma_slot_keys(i);
    lemma_count_small(d);
    lemma_fixed_keys_clean();
    lemma_indexed_key_clean(approval_prefix(), i);
    lemma_field_of_entry(approval_key(i as nat), seq![48u8]);
    lemma_field_of_entry(approval_count_key(), decimal_digits(revoked_count(d, i as nat) as nat));
    lemma_tail_not_kept(i, t);
    lemma_rebuilt_again(d, revoked_record(d, i as nat), t, ex);
}

/// Approve, revoke, then approve again by the same notary: the revocation
/// clears the slot so the second approval is accepted, and the result is
/// exactly the record that a single approval (with the later sequence)
/// gives.
pub proof fn lemma_revoke_then_reapprove(
    d: Seq<u8>,
    i: u8,
    caller: Seq<u8>,
    first_seq: u32,
    second_seq: u32,
)
    requires
        d.len() + 128 <= RECORD_CAPACITY,
        caller.len() == ACCOUNT_ID_SIZE,
        approval_count_of(d) < 9,
    ensures
        !is_approved(revoked_record(approved_record(d, i as nat, caller, first_seq), i as nat), i as nat),
        approved_record(
            revoked_record(approved_record(d, i as nat, caller, first_seq), i as nat),
            i as nat,
            caller,
            second_seq,
        ) == approved_record(d, i as nat, caller, second_seq),
{
    let ex = slot_fields(i as nat);
    let r1 = approved_record(d, i as nat, caller, first_seq);
    lemma_rebuilt_len(d, ex);
    lemma_approval_reads(d, i, caller, first_seq);
    lemma_approval_rebuilds_same(d, i, caller, first_seq);
    assert(revoked_count(r1, i as nat) == approval_count_of(d));
    let r2 = revoked_record(r1, i as nat);
    lemma_revocation_reads(r1, i);
    lemma_revocation_rebuilds_same(r1, i);
    assert(approval_count_of(r2) == approval_count_of(d));
    assert(rebuilt(r2, ex) == rebuilt(d, ex));
}

/// A caller resolves to a slot only when that slot stores exactly the
/// caller's hex identity, so no other identity (one differing in a single
/// byte included) resolves to the same slot; a missing, malformed, zero or
/// too large notary count refuses every caller with `ERR_BAD_CONFIG`.
pub proof fn lemma_resolution_exact(d: Seq<u8>, caller: Seq<u8>, other: Seq<u8>)
    ensures
        resolve(d, caller) is Ok ==> lookup(
            d,
            indexed_key(notary_prefix(), resolve(d, caller).unwrap() as nat),
        ) == Some(hex_of(caller)),
        resolve(d, caller) is Ok && other != caller ==> resolve(d, other) != resolve(d, caller),
        (match digit_field(d, notary_count_key()) {
            None => true,
            Some(n) => n == 0 || n > MAX_NOTARIES,
        }) ==> resolve(d, caller) == Err::<u8, i32>(ERR_BAD_CONFIG),
{
    if let Some(n) = digit_field(d, notary_count_key()) {
        if n != 0 && n <= MAX_NOTARIES {
            lemma_first_notary_found(d, hex_of(caller), n as nat);
            lemma_first_notary_found(d, hex_of(other), n as nat);
            if resolve(d, caller) is Ok && other != caller && resolve(d, other) == resolve(
                d,
                caller,
            ) {
                lemma_hex_round_trip(caller);
                lemma_hex_round_trip(other);
                assert(hex_of(caller) == hex_of(other));
                assert(caller =~= other);
            }
        }
    }
}

proof fn lemma_first_notary_found(d: Seq<u8>, hex: Seq<u8>, n: nat)
    ensures
        first_notary(d, hex, n) is Some ==> first_notary(d, hex, n).unwrap() < n && lookup(
            d,
            indexed_key(notary_prefix(), first_notary(d, hex, n).unwrap()),
        ) == Some(hex),
    decreases n,
{
    if n > 0 {
        lemma_first_notary_found(d, hex, (n - 1) as nat);
    }
}

proof fn lemma_approval_keys_differ(i: u8, j: u8)
    requires
        i != j,
    ensures
        !slot_fields(i as nat).contains(approval_key(j as nat)),
{
    lemma_fixed_keys_clean();
    lemma_indexed_key_clean(approval_prefix(), i);
    lemma_indexed_key_clean(approval_prefix(), j);
    lemma_indexed_key_clean(approver_prefix(), i);
    lemma_indexed_key_clean(approve_seq_prefix(), i);
    let kj = approval_key(j as nat);
    let ex = slot_fields(i as nat);
    assert(kj[6] == approval_prefix()[6]);
    assert(48 <= kj[9] <= 57);
    if ex.contains(kj) {
        let w = choose|w: int| 0 <= w < ex.len() && ex[w] == kj;
        if w == 0 {
            let dp = approval_prefix().len() as int;
            assert(decimal_digits(i as nat) =~= approval_key(i as nat).skip(dp));
            assert(decimal_digits(j as nat) =~= kj.skip(dp));
            lemma_decimal_round_trip(i as nat);
            lemma_decimal_round_trip(j as nat);
        } else if w == 1 {
            assert(ex[1][9] == 99);
        } else if w == 2 {
            assert(ex[2][6] == approver_prefix()[6]);
        } else {
            assert(ex[3][6] == approve_seq_prefix()[6]);
        }
    }
}

/// Approvals by two notaries one after the other each raise the stored
/// counter by one and leave the threshold untouched; when the notaries
/// differ and the second had not approved, the second approval is not
/// refused. From a record without approvals, two approvals meet a
/// threshold of two.
pub proof fn lemma_two_approvals(
    d: Seq<u8>,
    i: u8,
    j: u8,
    first_caller: Seq<u8>,
    second_caller: Seq<u8>,
    first_seq: u32,
    second_seq: u32,
)
    requires
        d.len() + 256 <= RECORD_CAPACITY,
        first_caller.len() == ACCOUNT_ID_SIZE,
        second_caller.len() == ACCOUNT_ID_SIZE,
        approval_count_of(d) < 8,
    ensures
        i != j && !is_approved(d, j as nat) ==> !is_approved(
            approved_record(d, i as nat, first_caller, first_seq),
            j as nat,
        ),
        approval_count_of(
            approved_record(
                approved_record(d, i as nat, first_caller, first_seq),
                j as nat,
                second_caller,
                second_seq,
            ),
        ) == approval_count_of(d) + 2,
        threshold_outcome(
            approved_record(
                approved_record(d, i as nat, first_caller, first_seq),
                j as nat,
                second_caller,
                second_seq,
            ),
        ) == (match digit_field(d, threshold_key()) {
            None => ERR_BAD_CONFIG,
            Some(t) => if approval_count_of(d) + 2 >= t {
                SUCCESS
            } else {
                ERR_NOT_APPROVED
            },
        }),
{
    let r1 = approved_record(d, i as nat, first_caller, first_seq);
    lemma_rebuilt_len(d, slot_fields(i as nat));
    lemma_approval_counts_up(d, i, first_caller, first_seq);
    lemma_approved_shape(d, i, first_caller, first_seq);
    lemma_kept_entries_clean(d, slot_fields(i as nat));
    assert(r1.len() <= d.len() + 128) by {
        let base = rebuilt(d, slot_fields(i as nat));
        assert(r1.len() <= base.len() + 4 + 14 + 17 + 53 + 26) by {
            lemma_fixed_keys_clean();
            lemma_indexed_key_clean(approval_prefix(), i);
            lemma_indexed_key_clean(approver_prefix(), i);
            lemma_indexed_key_clean(approve_seq_prefix(), i);
            lemma_count_small(d);
            lemma_u32_digits(first_seq);
        }
    }
    lemma_approval_counts_up(r1, j, second_caller, second_seq);
    if i != j && !is_approved(d, j as nat) {
        lemma_approval_keys_differ(i, j);
        lemma_fields_kept_by_approval(d, i, first_caller, first_seq, approval_key(j as nat));
    }
}

} // verus!
