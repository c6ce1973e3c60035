//! The data handed to and returned by the settlement calculation.
use vstd::prelude::*;
use vstd::string::StringExecFns;

verus! {

/// Largest total that the legs of one side of a settled transfer may add up
/// to: a third of `i128::MAX`. A sender's debit is its amount and two fees of at
/// most that amount each, and every change must fit in an `i128`.
pub const MAX_TOTAL: i128 = 56713727820156410577229101238628035242;

/// An amount of one denomination. In an instruction or a snapshot the amount is
/// what is held or moved; in a settlement it is a signed change.
#[derive(Clone, Debug)]
pub struct Coin {
    pub denom: String,
    pub amount: i128,
}

/// The coins of one address: a snapshot entry, a leg of a transfer, or the
/// changes that a settlement applies to that address.
#[derive(Clone, Debug)]
pub struct Balance {
    pub address: String,
    pub coins: Vec<Coin>,
}

/// A proposed transfer: `inputs` are debited, `outputs` are credited.
#[derive(Clone, Debug)]
pub struct MultiSend {
    pub inputs: Vec<Balance>,
    pub outputs: Vec<Balance>,
}

/// A rate in `[0, 1]`, held exactly as `numerator / denominator`.
#[derive(Clone, Copy, Debug)]
pub struct Rate {
    pub numerator: u32,
    pub denominator: u32,
}

impl Rate {
    /// The rate lies in `[0, 1]`.
    pub open spec fn wf(self) -> bool {
        0 < self.denominator && self.numerator <= self.denominator
    }

    /// The rate `numerator / denominator`, or `None` unless it lies in `[0, 1]`.
    pub fn new(numerator: u32, denominator: u32) -> (r: Option<Rate>)
        ensures
            r == (if 0 < denominator && numerator <= denominator {
                Some(Rate { numerator, denominator })
            } else {
                None
            }),
    {
        if 0 < denominator && numerator <= denominator {
            Some(Rate { numerator, denominator })
        } else {
            None
        }
    }

    /// The rate zero.
    pub fn zero() -> (r: Rate)
        ensures
            r.wf(),
            r.numerator == 0,
    {
        Rate { numerator: 0, denominator: 1 }
    }
}

/// What governs transfers of one denomination: the issuer, exempt from fees on
/// its own sends, a burn rate whose fees vanish, and a commission rate whose fees
/// are paid to the issuer.
#[derive(Clone, Debug)]
pub struct DenomDefinition {
    pub denom: String,
    pub issuer: String,
    pub burn_rate: Rate,
    pub commission_rate: Rate,
}

impl DenomDefinition {
    /// Both rates lie in `[0, 1]`.
    pub open spec fn wf(self) -> bool {
        self.burn_rate.wf() && self.commission_rate.wf()
    }
}

/// Why a transfer is rejected as a whole.
#[derive(Clone, Debug, PartialEq, Eq)]
pub enum SettlementError {
    /// For some denomination the inputs and the outputs add up differently.
    UnbalancedTransaction,
    /// The sender of an input leg holds less of the denomination than the leg
    /// moves plus the fees it owes.
    InsufficientBalance { address: String, denom: String },
}

impl SettlementError {
    /// The rejection as text.
    pub fn message(&self) -> (r: String)
        ensures
            r@ == match self {
                SettlementError::UnbalancedTransaction => "Invalid Multi Send Tx"@,
                SettlementError::InsufficientBalance { address, denom } => "Inssuficient wallet balance on "@
                    + address@ + " for coin "@ + denom@,
            },
    {
        match self {
            SettlementError::UnbalancedTransaction => String::from_str("Invalid Multi Send Tx"),
            SettlementError::InsufficientBalance { address, denom } => {
                let mut m = String::from_str("Inssuficient wallet balance on ");
                m.append(address.as_str());
                m.append(" for coin ");
                m.append(denom.as_str());
                m
            },
        }
    }
}

} // verus!
