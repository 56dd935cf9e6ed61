//! What has to be configured before the challenger runs.

use crate::types::{zero_address, Address};
use vstd::prelude::*;

verus! {

/// What is missing from the configuration.
#[derive(Clone, Copy, Debug, PartialEq, Eq, Structural)]
pub enum SettingsError {
    /// The address of the rollup's contract.
    EntrypointMissing,
    /// The address of the contract that takes deposits.
    DepositsMissing,
    /// The key that challenges are signed with.
    PrivateKeyMissing,
}

impl SettingsError {
    /// What an error says.
    pub open spec fn text(self) -> &'static str {
        match self {
            SettingsError::EntrypointMissing => "Entrypoint address not configured",
            SettingsError::DepositsMissing => "Deposits address not configured",
            SettingsError::PrivateKeyMissing => "challenger_private_key not configured",
        }
    }

    /// What the error says.
    pub fn message(&self) -> (r: &'static str)
        ensures
            r@ == self.text()@,
    {
        match self {
            SettingsError::EntrypointMissing => "Entrypoint address not configured",
            SettingsError::DepositsMissing => "Deposits address not configured",
            SettingsError::PrivateKeyMissing => "challenger_private_key not configured",
        }
    }
}

/// What is missing from a configuration, if anything is: a key only where challenges are
/// submitted.
pub open spec fn missing_setting(
    entrypoint: Address,
    deposits: Address,
    dry_run: bool,
    has_private_key: bool,
) -> Option<SettingsError> {
    if entrypoint == zero_address() {
        Some(SettingsError::EntrypointMissing)
    } else if deposits == zero_address() {
        Some(SettingsError::DepositsMissing)
    } else if !dry_run && !has_private_key {
        Some(SettingsError::PrivateKeyMissing)
    } else {
        None
    }
}

/// Whether everything is configured that is needed. Fails exactly where something is
/// missing.
pub fn check_settings(
    entrypoint: Address,
    deposits: Address,
    dry_run: bool,
    has_private_key: bool,
) -> (r: Result<(), SettingsError>)
    ensures
        r is Ok <==> missing_setting(entrypoint, deposits, dry_run, has_private_key) is None,
        r matches Err(e) ==> missing_setting(entrypoint, deposits, dry_run, has_private_key)
            == Some(e),
{
    let zero = Address::zero();
    if entrypoint == zero {
        Err(SettingsError::EntrypointMissing)
    } else if deposits == zero {
        Err(SettingsError::DepositsMissing)
    } else if !dry_run && !has_private_key {
        Err(SettingsError::PrivateKeyMissing)
    } else {
        Ok(())
    }
}

/// A configuration is complete exactly where both contracts are named and, unless it is a dry run,
/// there is a key; else the first of these that is missing is named.
pub proof fn law_settings_are_complete_iff(
    entrypoint: Address,
    deposits: Address,
    dry_run: bool,
    has_private_key: bool,
)
    ensures
        missing_setting(entrypoint, deposits, dry_run, has_private_key) is None <==> {
            &&& entrypoint != zero_address()
            &&& deposits != zero_address()
            &&& dry_run || has_private_key
        },
        entrypoint == zero_address() ==> missing_setting(
            entrypoint,
            deposits,
            dry_run,
            has_private_key,
        ) == Some(SettingsError::EntrypointMissing),
        entrypoint != zero_address() && deposits == zero_address() ==> missing_setting(
            entrypoint,
            deposits,
            dry_run,
            has_private_key,
        ) == Some(SettingsError::DepositsMissing),
{
}

} // verus!
