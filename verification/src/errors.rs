use vstd::prelude::*;

verus! {

/// Everything that can make a ledger operation fail.
#[derive(Clone, Copy, Debug, PartialEq, Eq, Structural)]
pub enum LedgerError {
    /// The chain store holds no tip pointer yet.
    NotInitialized,
    /// A transaction failed signature verification, or could not be checked.
    InvalidTransaction,
    /// The spendable outputs of the sender do not cover the amount.
    InsufficientFunds,
    /// A referenced prior transaction or output was not supplied.
    MissingPrevTx,
    /// The address text does not decode to a public-key hash.
    AddressDecode,
    /// A keyspace holds an entry that cannot be read back.
    StorageFailure,
    /// A value cannot be put into, or hashed in, its canonical byte form.
    SerializationFailure,
    /// No wallet is held under the address.
    UnknownWallet,
    /// A signing secret of the wrong size.
    InvalidKey,
    /// A block was asked for without any transaction.
    EmptyBlock,
    /// A count or an amount left the range of its integer type.
    Overflow,
    /// The system clock gave no time after the Unix epoch.
    ClockUnavailable,
    /// The operating system gave no random bytes.
    EntropyUnavailable,
}

impl LedgerError {
    /// A short description for diagnostics.
    pub fn message(&self) -> (text: &'static str)
        ensures
            text@ == error_text(*self),
    {
        match self {
            LedgerError::NotInitialized => "must create a new blockchain first",
            LedgerError::InvalidTransaction => "invalid transaction",
            LedgerError::InsufficientFunds => "not enough outputs to fulfill transaction",
            LedgerError::MissingPrevTx => "can't find a referenced transaction",
            LedgerError::AddressDecode => "malformed address",
            LedgerError::StorageFailure => "unreadable entry in a keyspace",
            LedgerError::SerializationFailure => "value has no canonical byte form",
            LedgerError::UnknownWallet => "no wallet under this address",
            LedgerError::InvalidKey => "signing secret of the wrong size",
        LedgerError::EmptyBlock => "a block needs at least one transaction",
            LedgerError::Overflow => "integer range exceeded",
            LedgerError::ClockUnavailable => "system clock is before the Unix epoch",
            LedgerError::EntropyUnavailable => "no random bytes available",
        }
    }
}

/// The diagnostic text of each error.
pub open spec fn error_text(e: LedgerError) -> Seq<char> {
    match e {
        LedgerError::NotInitialized => "must create a new blockchain first"@,
        LedgerError::InvalidTransaction => "invalid transaction"@,
        LedgerError::InsufficientFunds => "not enough outputs to fulfill transaction"@,
        LedgerError::MissingPrevTx => "can't find a referenced transaction"@,
        LedgerError::AddressDecode => "malformed address"@,
        LedgerError::StorageFailure => "unreadable entry in a keyspace"@,
        LedgerError::SerializationFailure => "value has no canonical byte form"@,
        LedgerError::UnknownWallet => "no wallet under this address"@,
        LedgerError::InvalidKey => "signing secret of the wrong size"@,
        LedgerError::EmptyBlock => "a block needs at least one transaction"@,
        LedgerError::Overflow => "integer range exceeded"@,
        LedgerError::ClockUnavailable => "system clock is before the Unix epoch"@,
        LedgerError::EntropyUnavailable => "no random bytes available"@,
    }
}

} // verus!
