//! Where one transaction keeps its files: a segment of vector data and a
//! delete log, each in a directory of its kind, under the transaction's name.
use crate::errors::DiskStructError;
use vstd::prelude::*;

verus! {

/// The directory, below the base directory, that holds the segments.
pub const SEGMENT: &'static str = "segment";

/// The directory, below the base directory, that holds the delete logs.
pub const DELETE_LOG: &'static str = "delete_log";

/// The character of the decimal digit `d`.
pub open spec fn digit(d: nat) -> char
    recommends
        d < 10,
{
    (48 + d) as u8 as char
}

/// `n` written in decimal, without leading zeros.
pub open spec fn decimal(n: nat) -> Seq<char>
    decreases n,
{
    if n < 10 {
        seq![digit(n)]
    } else {
        decimal(n / 10).push(digit(n % 10))
    }
}

/// The name of the files of transaction `txn_id`: `txn_` and the number.
pub open spec fn txn_name(txn_id: usize) -> Seq<char> {
    "txn_"@ + decimal(txn_id as nat)
}

/// Calls `String::push`.
///
/// Assumed: the character is appended at the end and nothing else changes.
#[verifier::external_body]
fn push_char(s: &mut String, c: char)
    ensures
        final(s)@ == old(s)@.push(c),
{
    s.push(c)
}

/// Appends `n` in decimal to `s`.
fn push_decimal(s: &mut String, n: usize)
    ensures
        final(s)@ == old(s)@ + decimal(n as nat),
    decreases n,
{
    if n >= 10 {
        push_decimal(s, n / 10);
    }
    let d = (n % 10) as u8;
    push_char(s, (48 + d) as char);
    proof {
        if n >= 10 {
            assert(s@ =~= old(s)@ + decimal(n as nat));
        } else {
            assert(s@ =~= old(s)@ + decimal(n as nat));
        }
    }
}

/// One transaction's place on disk.
pub struct TxnEntity {
    /// The base directory of the index.
    pub base_path: String,
    /// The transaction.
    pub txn_id: usize,
}

impl TxnEntity {
    /// Makes the transaction known. Nothing is kept, so asking again for a
    /// transaction that is known succeeds as the first time.
    pub fn create(txn_id: usize) -> (r: Result<(), DiskStructError>)
        ensures
            r is Ok,
    {
        Ok(())
    }

    /// The name under which the transaction's files stand.
    pub fn name(&self) -> (s: String)
        ensures
            s@ == txn_name(self.txn_id),
    {
        let mut s = "txn_".to_owned();
        push_decimal(&mut s, self.txn_id);
        s
    }

    /// The place of the transaction's segment: the base directory, the
    /// directory of the segments and the transaction's name, to be joined in
    /// this order.
    pub fn segment_path(&self) -> (parts: Vec<String>)
        ensures
            parts@.len() == 3,
            parts@[0]@ == self.base_path@,
            parts@[1]@ == SEGMENT@,
            parts@[2]@ == txn_name(self.txn_id),
    {
        let mut parts: Vec<String> = Vec::new();
        parts.push(self.base_path.clone());
        parts.push(SEGMENT.to_owned());
        parts.push(self.name());
        parts
    }

    /// The place of the transaction's delete log: the base directory, the
    /// directory of the delete logs and the transaction's name, to be joined
    /// in this order.
    pub fn delete_log_path(&self) -> (parts: Vec<String>)
        ensures
            parts@.len() == 3,
            parts@[0]@ == self.base_path@,
            parts@[1]@ == DELETE_LOG@,
            parts@[2]@ == txn_name(self.txn_id),
    {
        let mut parts: Vec<String> = Vec::new();
        parts.push(self.base_path.clone());
        parts.push(DELETE_LOG.to_owned());
        parts.push(self.name());
        parts
    }
}

} // verus!
