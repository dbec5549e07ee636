//! Errors raised by the MVCC layer.
//!
//! `Serialization` is the ordinary way a conflicting writer learns to abort
//! and retry; `ReadOnly` rejects mutation under a non-mutable mode; `Value`
//! reports a bad input (an unknown snapshot version, an inactive transaction,
//! a malformed key); `Internal` indicates a corrupted store.

use vstd::prelude::*;
use vstd::string::StringExecFns;
use vstd::string::StrSliceExecFns;

verus! {

#[derive(Clone, Debug, PartialEq, Eq)]
pub enum Error {
    /// A write would overwrite a version that is invisible to the writer's
    /// snapshot (first-writer-wins conflict).
    Serialization,
    /// A mutation was attempted under a mode that cannot mutate.
    ReadOnly,
    /// A bad input value.
    Value(String),
    /// A corrupted store.
    Internal(String),
}

/// The decimal digit character for `d` in `0..10`.
pub open spec fn digit_char(d: nat) -> char {
    if d == 0 { '0' }
    else if d == 1 { '1' }
    else if d == 2 { '2' }
    else if d == 3 { '3' }
    else if d == 4 { '4' }
    else if d == 5 { '5' }
    else if d == 6 { '6' }
    else if d == 7 { '7' }
    else if d == 8 { '8' }
    else { '9' }
}

/// The decimal rendering of `n`, most significant digit first.
pub open spec fn dec_digits(n: nat) -> Seq<char>
    decreases n,
{
    if n < 10 {
        seq![digit_char(n)]
    } else {
        dec_digits(n / 10) + seq![digit_char(n % 10)]
    }
}

fn digit_str(d: u64) -> (r: &'static str)
    requires
        d < 10,
    ensures
        r@ == seq![digit_char(d as nat)],
{
    match d {
        0 => {
            proof { reveal_strlit("0"); }
            assert("0"@ =~= seq![digit_char(0)]);
            "0"
        }
        1 => {
            proof { reveal_strlit("1"); }
            assert("1"@ =~= seq![digit_char(1)]);
            "1"
        }
        2 => {
            proof { reveal_strlit("2"); }
            assert("2"@ =~= seq![digit_char(2)]);
            "2"
        }
        3 => {
            proof { reveal_strlit("3"); }
            assert("3"@ =~= seq![digit_char(3)]);
            "3"
        }
        4 => {
            proof { reveal_strlit("4"); }
            assert("4"@ =~= seq![digit_char(4)]);
            "4"
        }
        5 => {
            proof { reveal_strlit("5"); }
            assert("5"@ =~= seq![digit_char(5)]);
            "5"
        }
        6 => {
            proof { reveal_strlit("6"); }
            assert("6"@ =~= seq![digit_char(6)]);
            "6"
        }
        7 => {
            proof { reveal_strlit("7"); }
            assert("7"@ =~= seq![digit_char(7)]);
            "7"
        }
        8 => {
            proof { reveal_strlit("8"); }
            assert("8"@ =~= seq![digit_char(8)]);
            "8"
        }
        9 => {
            proof { reveal_strlit("9"); }
            assert("9"@ =~= seq![digit_char(9)]);
            "9"
        }
        _ => {
            proof { assert(false); }
            "9"
        }
    }
}

/// Renders `n` in decimal.
pub fn u64_string(n: u64) -> (s: String)
    ensures
        s@ == dec_digits(n as nat),
    decreases n,
{
    if n < 10 {
        String::from_str(digit_str(n))
    } else {
        let mut s = u64_string(n / 10);
        s.append(digit_str(n % 10));
        s
    }
}

/// The message reported when resuming a transaction that is not active.
pub open spec fn no_active_txn_message(id: u64) -> Seq<char> {
    "No active transaction "@ + dec_digits(id as nat)
}

/// The message reported when a snapshot version has no persisted snapshot.
pub open spec fn snapshot_missing_message(version: u64) -> Seq<char> {
    "Snapshot not found for version "@ + dec_digits(version as nat)
}

/// The message reported when a stored integer ends before its 8 bytes.
pub open spec fn u64_decode_message(n: u64) -> Seq<char> {
    "Unable to decode u64, got "@ + dec_digits(n as nat) + " bytes"@
}

/// Builds the error for an integer cut short after `n` bytes.
pub fn u64_decode_error(n: u64) -> (e: Error)
    ensures
        e matches Error::Value(m) && m@ == u64_decode_message(n),
{
    let mut s = String::from_str("Unable to decode u64, got ");
    let digits = u64_string(n);
    s.append(digits.as_str());
    s.append(" bytes");
    Error::Value(s)
}

/// Builds the error for resuming an inactive transaction.
pub fn no_active_txn_error(id: u64) -> (e: Error)
    ensures
        e matches Error::Value(m) && m@ == no_active_txn_message(id),
{
    let mut s = String::from_str("No active transaction ");
    let digits = u64_string(id);
    s.append(digits.as_str());
    Error::Value(s)
}

/// Builds the error for a missing persisted snapshot.
pub fn snapshot_missing_error(version: u64) -> (e: Error)
    ensures
        e matches Error::Value(m) && m@ == snapshot_missing_message(version),
{
    let mut s = String::from_str("Snapshot not found for version ");
    let digits = u64_string(version);
    s.append(digits.as_str());
    Error::Value(s)
}

} // verus!
