//! The data that the projects pallet keeps and reports: funding kinds, proposals,
//! spend records, events and errors.
use vstd::prelude::*;

verus! {

/// An account of the runtime this pallet is configured for, held as its SCALE encoding
/// followed by zeroes up to 32 bytes: `AccountId32` as it is, a `u64` account as its eight
/// little-endian bytes and zeroes.
pub type AccountId = [u8; 32];

/// Balances of the runtime's currency.
pub type Balance = u128;

/// Block numbers as given by the block number provider.
pub type BlockNumber = u64;

/// Beneficiaries of approved treasury spends.
pub type Beneficiary = u128;

/// An index of a proposal. Just a `u32`.
pub type ProposalIndex = u32;

/// Index of an approved treasury spend.
pub type SpendIndex = u32;

/// Funding options tailored to meet the needs of diverse projects
/// and investor interests.
#[derive(Clone, Copy, PartialEq, Eq, Structural, Debug)]
pub enum Funding {
    Donation,
    Rewards,
    Equity,
    Milestone,
}

/// The state of the payment claim.
#[derive(Clone, Copy, PartialEq, Eq, Structural, Debug)]
pub enum PaymentState {
    /// Pending claim.
    Pending,
    /// Payment attempted with a payment identifier.
    Attempted,
    /// Payment failed.
    Failed,
}

/// Info regarding an approved treasury spend.
#[derive(Clone, Copy, PartialEq, Eq, Structural, Debug)]
pub struct SpendStatus {
    /// The asset amount of the spend.
    pub amount: Balance,
    /// The beneficiary of the spend.
    pub beneficiary: Beneficiary,
    /// The block number from which the spend can be claimed.
    pub valid_from: BlockNumber,
    /// The block number by which the spend has to be claimed.
    pub expire_at: BlockNumber,
    /// The status of the payout/claim.
    pub status: PaymentState,
}

/// A spending proposal.
#[derive(Clone, Copy, PartialEq, Eq, Debug)]
pub struct Proposal {
    pub index: ProposalIndex,
    /// The account proposing it.
    pub proposer: AccountId,
    /// The (total) amount that should be paid if the proposal is accepted.
    pub value: Balance,
    /// The account to whom the payment should be made if the proposal is accepted.
    pub beneficiary: AccountId,
    /// The amount held on deposit (reserved) for making this proposal.
    pub bond: Balance,
    pub funding: Funding,
}

/// The proposals that one manager holds for one funding type.
#[derive(Debug)]
pub struct ManagerEntry {
    pub manager: AccountId,
    pub funding: Funding,
    pub proposals: Vec<Proposal>,
}

/// Events that the pallet deposits.
#[derive(Clone, Copy, PartialEq, Eq, Debug)]
pub enum Event {
    Spending { budget_remaining: Balance },
    Burnt { burnt_funds: Balance },
    Rollover { rollover_balance: Balance },
    SpendApproved { proposal_index: ProposalIndex, amount: Balance, beneficiary: AccountId },
    UpdatedInactive { reactivated: Balance, deactivated: Balance },
    Awarded { proposal_index: ProposalIndex, award: Balance, account: AccountId },
}

/// Errors of the pallet's calls.
#[derive(Clone, Copy, PartialEq, Eq, Structural, Debug)]
pub enum Error {
    /// Manager already exists for the given funding type.
    AlreadyAManager,
    /// Cannot remove a manager with active proposals.
    ActiveProposalsExist,
    TooManyApprovals,
    ManagerNotFound,
    InsufficientPermission,
    UnauthorizedManager,
    TooManyProposals,
}

/// Why a call was refused: its origin was not allowed, or the pallet refused it.
#[derive(Clone, Copy, PartialEq, Eq, Structural, Debug)]
pub enum DispatchError {
    BadOrigin,
    Module(Error),
}

} // verus!
