use vstd::prelude::*;
use crate::error::LedgerError;

verus! {

/// Seconds in one day.
pub const ONE_DAY_IN_SECONDS: u32 = 86_400;

/// Seconds in one year of the Gregorian calendar, on average.
pub const ONE_YEAR_IN_SECONDS: u32 = 31_556_952;

/// Token units in one whole token.
pub const TOKEN_UNITS: u128 = 1_000_000_000_000_000_000;

/// Conversion of a count of whole tokens into token units.
pub trait ToOtto: Sized {
    /// Whether the count, in token units, fits in 128 bits.
    spec fn otto_fits(self) -> bool;

    /// The count in token units.
    spec fn spec_to_otto(self) -> nat;

    fn to_otto(self) -> (units: u128)
        requires
            self.otto_fits(),
        ensures
            units == self.spec_to_otto(),
    ;
}

impl ToOtto for u128 {
    open spec fn otto_fits(self) -> bool {
        self * TOKEN_UNITS <= u128::MAX
    }

    open spec fn spec_to_otto(self) -> nat {
        (self * TOKEN_UNITS) as nat
    }

    fn to_otto(self) -> (units: u128) {
        self * TOKEN_UNITS
    }
}

impl ToOtto for u64 {
    open spec fn otto_fits(self) -> bool {
        true
    }

    open spec fn spec_to_otto(self) -> nat {
        (self * TOKEN_UNITS) as nat
    }

    fn to_otto(self) -> (units: u128) {
        assert(self * TOKEN_UNITS <= u128::MAX) by (nonlinear_arith)
            requires
                self <= u64::MAX,
                TOKEN_UNITS == 1_000_000_000_000_000_000,
        ;
        let count: u128 = self as u128;
        count * TOKEN_UNITS
    }
}

/// Gas units in one tera-gas.
pub const ONE_TERA_GAS: u64 = 1_000_000_000_000;

/// Gas that one `ft_transfer_call` of the token standard is budgeted with.
pub const FT_TRANSFER_CALL_GAS: u64 = 30_000_000_000_000;

/// Tera-gas reserved for the reconciliation callback.
pub const CALLBACK_TGAS: u64 = 5;

/// `near_sdk_contract_tools::ft::nep141::GAS_FOR_FT_TRANSFER_CALL`, read as a
/// number of gas units. What is claimed of it is the value that the constant
/// is defined with: 25 tera-gas plus 5 tera-gas for resolving the transfer.
#[verifier::external_body]
fn gas_for_ft_transfer_call() -> (gas: u64)
    ensures
        gas == FT_TRANSFER_CALL_GAS,
{
    near_sdk_contract_tools::ft::nep141::GAS_FOR_FT_TRANSFER_CALL.as_gas()
}

/// `near_sdk::Gas::from_tgas` followed by `as_gas`: the number of gas units in
/// `tgas` tera-gas. The multiplication inside overflows above the bound, which
/// `requires` leaves out.
#[verifier::external_body]
fn gas_from_tgas(tgas: u64) -> (gas: u64)
    requires
        tgas * ONE_TERA_GAS <= u64::MAX,
    ensures
        gas == tgas * ONE_TERA_GAS,
{
    near_sdk::Gas::from_tgas(tgas).as_gas()
}

/// `near_sdk::Gas::saturating_add` on two amounts of gas units: their sum,
/// or `u64::MAX` where the sum does not fit.
#[verifier::external_body]
fn gas_saturating_add(left: u64, right: u64) -> (gas: u64)
    ensures
        gas == if left + right <= u64::MAX { (left + right) as u64 } else { u64::MAX },
{
    near_sdk::Gas::from_gas(left).saturating_add(near_sdk::Gas::from_gas(right)).as_gas()
}

/// Gas that one transfer of a batch is budgeted with: the token call and the
/// callback's share.
pub open spec fn gas_per_transfer() -> nat {
    (FT_TRANSFER_CALL_GAS + CALLBACK_TGAS * ONE_TERA_GAS) as nat
}

/// Gas that a batch of `transfers` transfers needs.
pub open spec fn gas_needed(transfers: nat) -> nat {
    gas_per_transfer() * transfers
}

/// The gas budget of one transfer, from the token standard's constant and the
/// callback's reserve.
pub fn transfer_gas() -> (gas: u64)
    ensures
        gas == gas_per_transfer(),
{
    let call: u64 = gas_for_ft_transfer_call();
    let callback: u64 = gas_from_tgas(CALLBACK_TGAS);
    gas_saturating_add(call, callback)
}

/// The block time in whole seconds, where a 32-bit timestamp can hold it.
pub fn now(block_timestamp_ms: u64) -> (seconds: Option<u32>)
    ensures
        block_timestamp_ms / 1_000 <= u32::MAX ==> seconds == Some(
            (block_timestamp_ms / 1_000) as u32,
        ),
        block_timestamp_ms / 1_000 > u32::MAX ==> seconds is None,
{
    let seconds: u64 = block_timestamp_ms / 1_000;
    if seconds <= u32::MAX as u64 {
        Some(seconds as u32)
    } else {
        None
    }
}

/// The gas that a call has left of what was attached to it.
pub fn gas_left(prepaid_gas: u64, used_gas: u64) -> (left: u64)
    requires
        used_gas <= prepaid_gas,
    ensures
        left == prepaid_gas - used_gas,
{
    prepaid_gas - used_gas
}

/// Refuses to go on where less gas is left than is needed.
pub fn assert_gas(gas_left: u64, gas_needed: u64) -> (result: Result<(), LedgerError>)
    ensures
        gas_left < gas_needed ==> result == Err::<(), LedgerError>(LedgerError::NotEnoughGas),
        gas_left >= gas_needed ==> result is Ok,
{
    if gas_left < gas_needed {
        Err(LedgerError::NotEnoughGas)
    } else {
        Ok(())
    }
}

} // verus!
