//! Approval records of a notarised escrow: a flat `key=value;...` record
//! codec, decimal and hex scalars, and the notary ledger that resolves
//! callers, records approvals and revocations, checks the threshold and
//! stamps audit fields.

pub mod codec;
pub mod escrow;
pub mod scalar;

pub use codec::{find_value, rebuild_excluding, write_entry, write_separator, RECORD_CAPACITY};
pub use escrow::{
    approval_decision, check_approval_threshold, check_caller_is_notary, check_time_lock,
    finish_decision, record_approval, record_audit, record_revocation, revocation_decision,
    ACCOUNT_ID_SIZE, COOLDOWN_LEDGERS, ERR_ALREADY_APPROVED, ERR_BAD_CONFIG, ERR_COOLDOWN, ERR_DATA_READ,
    ERR_HOST_CALL, ERR_NOT_APPROVED, ERR_TOO_EARLY, ERR_WRONG_ACCOUNT, MAX_NOTARIES, SUCCESS,
};
pub use scalar::{
    build_indexed_key, decode_hex, encode_hex, format_u32, hex_digit, parse_u32, parse_u8_digit,
};
