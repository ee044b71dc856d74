use ltip_ledger::common::{
    assert_gas, gas_left, now, transfer_gas, ToOtto, ONE_DAY_IN_SECONDS, ONE_YEAR_IN_SECONDS,
};
use ltip_ledger::config::ConfigApi;
use ltip_ledger::context::Context;
use ltip_ledger::grant::GrantApi;
use ltip_ledger::init::InitApi;
use ltip_ledger::error::LedgerError;
use ltip_ledger::event::{LtipEvent, OrderUpdateData};
use ltip_ledger::ft_receiver::{FtMessage, IssueData};
use ltip_ledger::grant::{GrantView, TransferKey};
use ltip_ledger::reconcile::TransferResult;
use ltip_ledger::{Account, Config, Contract, Grant, Role};

const CLIFF_DURATION: u32 = 1000;
const FULL_UNLOCK_DURATION: u32 = 2000;

fn accounts(index: usize) -> String {
    ["alice", "bob", "charlie", "danny", "eugene", "fargo"][index].to_string()
}

fn get_context(predecessor: String) -> Context {
    let privileged = predecessor == accounts(0) || predecessor == accounts(1);
    Context {
        predecessor,
        roles: if privileged { vec![Role::Executor, Role::Issuer] } else { vec![] },
        paused: false,
        now: 0,
        gas_left: 300_000_000_000_000,
    }
}

fn init_contract_with_spare(spare_balance: u128) -> Contract {
    let mut contract = Contract::new(accounts(0), CLIFF_DURATION, FULL_UNLOCK_DURATION);
    contract.spare_balance = spare_balance;
    contract
}

fn grant(total_amount: u128, claimed_amount: u128, order_amount: u128) -> Grant {
    Grant { total_amount, claimed_amount, order_amount, terminated_at: None }
}

fn insert_account(contract: &mut Contract, account_id: String, grants: Vec<(u32, Grant)>) {
    contract.accounts.push((account_id, Account { grants }));
}

fn account_of<'a>(contract: &'a Contract, account_id: &String) -> Option<&'a Account> {
    contract.accounts.iter().find(|(id, _)| id == account_id).map(|(_, account)| account)
}

fn grant_at(contract: &Contract, account_id: &String, issue_at: u32) -> Grant {
    let account = account_of(contract, account_id).unwrap();
    account.grants.iter().find(|(at, _)| *at == issue_at).map(|(_, grant)| *grant).unwrap()
}

fn grant_mut<'a>(contract: &'a mut Contract, account_id: &String, issue_at: u32) -> &'a mut Grant {
    let account =
        contract.accounts.iter_mut().find(|(id, _)| id == account_id).map(|(_, a)| a).unwrap();
    account.grants.iter_mut().find(|(at, _)| *at == issue_at).map(|(_, grant)| grant).unwrap()
}

fn pending_of<'a>(
    pending: &'a Vec<(String, Vec<(u32, u128)>)>,
    account_id: &String,
) -> Option<&'a Vec<(u32, u128)>> {
    pending.iter().find(|(id, _)| id == account_id).map(|(_, transfers)| transfers)
}

fn key(account_id: String, issue_at: u32) -> TransferKey {
    TransferKey { account_id, issue_at }
}

// --- the scenarios of a grant of 10000 issued at 1000, cliff 1000, vesting 2000

#[test]
fn scenario_claim_buy_claim() {
    let beneficiary = accounts(2);
    let mut contract = init_contract_with_spare(50_000);
    let mut operator = get_context(accounts(0));
    operator.now = 1000;
    contract.issue(&operator, 1000, vec![(beneficiary.clone(), 10_000)]).unwrap();
    assert_eq!(contract.spare_balance, 40_000);

    let mut claimer = get_context(beneficiary.clone());
    claimer.now = 4000;
    let report = contract.claim(&claimer).unwrap();
    assert_eq!(grant_at(&contract, &beneficiary, 1000).order_amount, 10_000);
    assert_eq!(
        report,
        Some(LtipEvent::OrderUpdate(vec![OrderUpdateData { issue_at: 1000, amount: 10_000 }]))
    );

    operator.now = 4000;
    contract.buy(&operator, vec![beneficiary.clone()], 3000).unwrap();
    let grant = grant_at(&contract, &beneficiary, 1000);
    assert_eq!(grant.claimed_amount, 3000);
    assert_eq!(grant.order_amount, 0);
    assert_eq!(contract.spare_balance, 43_000);

    contract.claim(&claimer).unwrap();
    assert_eq!(grant_at(&contract, &beneficiary, 1000).order_amount, 7000);
}

#[test]
fn scenario_authorize_then_failed_transfer() {
    let beneficiary = accounts(2);
    let mut contract = init_contract_with_spare(0);
    contract.create_grant_internal(&beneficiary, 1000, 10_000, None).unwrap();
    let mut claimer = get_context(beneficiary.clone());
    claimer.now = 4000;
    contract.claim(&claimer).unwrap();

    let mut operator = get_context(accounts(0));
    operator.now = 4000;
    let authorization =
        contract.authorize(&operator, vec![beneficiary.clone()], Some(5000)).unwrap();

    assert!(authorization.pause);
    assert_eq!(authorization.transfers, vec![(beneficiary.clone(), 5000)]);
    assert_eq!(authorization.transfer_keys, vec![key(beneficiary.clone(), 1000)]);
    let grant = grant_at(&contract, &beneficiary, 1000);
    assert_eq!(grant.claimed_amount, 5000);
    assert_eq!(grant.order_amount, 0);
    assert_eq!(contract.get_pending_transfers(), vec![(beneficiary.clone(), vec![(1000, 5000)])]);

    operator.paused = true;
    let reconciliation = contract
        .on_authorize_complete(
            &operator,
            authorization.transfer_keys,
            vec![TransferResult::Failed],
        )
        .unwrap();

    assert!(reconciliation.unpause);
    let grant = grant_at(&contract, &beneficiary, 1000);
    assert_eq!(grant.claimed_amount, 0);
    assert_eq!(grant.order_amount, 5000);
    assert!(contract.pending_transfers.is_empty());
    assert_eq!(contract.spare_balance, 0);
}

#[test]
fn scenario_authorize_then_successful_transfer() {
    let beneficiary = accounts(2);
    let mut contract = init_contract_with_spare(0);
    insert_account(&mut contract, beneficiary.clone(), vec![(1000, grant(10_000, 0, 10_000))]);

    let mut operator = get_context(accounts(0));
    operator.now = 4000;
    let authorization =
        contract.authorize(&operator, vec![beneficiary.clone()], Some(5000)).unwrap();

    operator.paused = true;
    contract
        .on_authorize_complete(
            &operator,
            authorization.transfer_keys,
            vec![TransferResult::Successful],
        )
        .unwrap();

    let grant = grant_at(&contract, &beneficiary, 1000);
    assert_eq!(grant.claimed_amount, 5000);
    assert_eq!(grant.order_amount, 0);
    assert!(contract.pending_transfers.is_empty());
}

#[test]
fn scenario_issue_beyond_the_spare_balance() {
    let mut operator = get_context(accounts(0));
    operator.now = 1000;
    let mut contract = init_contract_with_spare(9_999);
    let before = contract.clone();

    let result = contract.issue(&operator, 1000, vec![(accounts(2), 4_000), (accounts(3), 6_000)]);

    assert_eq!(result, Err(LedgerError::InsufficientSpareBalance));
    assert_eq!(contract, before);
}

#[test]
fn scenario_terminate_during_cliff() {
    let beneficiary = accounts(2);
    let mut contract = init_contract_with_spare(100);
    insert_account(&mut contract, beneficiary.clone(), vec![(1000, grant(10_000, 2000, 1500))]);

    let mut operator = get_context(accounts(0));
    operator.now = 1200;
    assert!(contract.is_terminable(&beneficiary, 1200, 1200));
    contract.terminate(&operator, beneficiary.clone(), 1200).unwrap();

    let grant = grant_at(&contract, &beneficiary, 1000);
    assert_eq!(grant.total_amount, 2000);
    assert_eq!(grant.order_amount, 0);
    assert_eq!(grant.claimed_amount, 2000);
    // 2000 claimed at 5 a second: 400 seconds after the cliff's end
    assert_eq!(grant.terminated_at, Some(2400));
    assert_eq!(contract.spare_balance, 100 + 8000);
}

// --- claim

#[test]
fn claim_is_refused_while_paused() {
    let mut contract = init_contract_with_spare(0);
    insert_account(&mut contract, accounts(2), vec![(1000, grant(10_000, 0, 0))]);
    let before = contract.clone();
    let mut claimer = get_context(accounts(2));
    claimer.now = 4000;
    claimer.paused = true;

    assert_eq!(contract.claim(&claimer), Err(LedgerError::Paused));
    assert_eq!(contract, before);
}

#[test]
fn claim_opens_an_account_for_a_new_caller() {
    let mut contract = init_contract_with_spare(0);
    let mut claimer = get_context(accounts(3));
    claimer.now = 4000;

    assert_eq!(contract.claim(&claimer), Ok(None));
    assert_eq!(contract.accounts, vec![(accounts(3), Account { grants: vec![] })]);

    assert_eq!(contract.claim(&claimer), Ok(None));
    assert_eq!(contract.accounts.len(), 1);
}

#[test]
fn claim_reports_the_grants_of_which_something_has_vested() {
    let mut contract = init_contract_with_spare(0);
    insert_account(
        &mut contract,
        accounts(2),
        vec![
            (1000, grant(10_000, 4000, 0)),
            (1500, grant(8000, 0, 0)),
            (3000, grant(6000, 0, 0)),
        ],
    );
    let mut claimer = get_context(accounts(2));
    claimer.now = 3000;

    let report = contract.claim(&claimer).unwrap();

    // at 3000: half of the first grant, a quarter of the second, none of the third
    assert_eq!(
        report,
        Some(LtipEvent::OrderUpdate(vec![
            OrderUpdateData { issue_at: 1000, amount: 1000 },
            OrderUpdateData { issue_at: 1500, amount: 2000 },
        ]))
    );
    assert_eq!(grant_at(&contract, &accounts(2), 1000), grant(10_000, 4000, 1000));
    assert_eq!(grant_at(&contract, &accounts(2), 1500), grant(8000, 0, 2000));
    assert_eq!(grant_at(&contract, &accounts(2), 3000), grant(6000, 0, 0));
}

#[test]
fn claim_keeps_an_order_that_exceeds_what_has_vested() {
    let mut contract = init_contract_with_spare(0);
    insert_account(&mut contract, accounts(2), vec![(1000, grant(10_000, 3000, 4000))]);
    let mut claimer = get_context(accounts(2));
    claimer.now = 3000;

    // 5000 have vested, 7000 are claimed or on order
    let report = contract.claim(&claimer).unwrap();

    assert_eq!(grant_at(&contract, &accounts(2), 1000), grant(10_000, 3000, 4000));
    assert_eq!(
        report,
        Some(LtipEvent::OrderUpdate(vec![OrderUpdateData { issue_at: 1000, amount: 4000 }]))
    );
}

#[test]
fn claim_of_a_terminated_grant_stops_at_its_termination() {
    let mut contract = init_contract_with_spare(0);
    insert_account(&mut contract, accounts(2), vec![(1000, grant(10_000, 0, 0))]);
    let mut operator = get_context(accounts(0));
    operator.now = 2500;
    contract.terminate(&operator, accounts(2), 2500).unwrap();
    assert_eq!(grant_at(&contract, &accounts(2), 1000).total_amount, 2500);
    assert_eq!(grant_at(&contract, &accounts(2), 1000).terminated_at, Some(2500));

    let mut claimer = get_context(accounts(2));
    claimer.now = 2250;
    contract.claim(&claimer).unwrap();
    // half of the 500 seconds to the termination
    assert_eq!(grant_at(&contract, &accounts(2), 1000).order_amount, 1250);

    claimer.now = 9000;
    contract.claim(&claimer).unwrap();
    assert_eq!(grant_at(&contract, &accounts(2), 1000).order_amount, 2500);
}

// --- buy and decline

#[test]
fn buy_is_refused_while_paused() {
    let mut contract = init_contract_with_spare(0);
    insert_account(&mut contract, accounts(2), vec![(1000, grant(10_000, 0, 5000))]);
    let before = contract.clone();
    let mut operator = get_context(accounts(0));
    operator.paused = true;

    assert_eq!(contract.buy(&operator, vec![accounts(2)], 5000), Err(LedgerError::Paused));
    assert_eq!(contract, before);
}

#[test]
fn buy_of_a_beneficiary_named_twice_settles_once() {
    let mut contract = init_contract_with_spare(0);
    insert_account(&mut contract, accounts(2), vec![(1000, grant(10_000, 0, 5000))]);
    let operator = get_context(accounts(0));

    contract.buy(&operator, vec![accounts(2), accounts(2)], 5000).unwrap();

    assert_eq!(grant_at(&contract, &accounts(2), 1000), grant(10_000, 2500, 0));
    assert_eq!(contract.spare_balance, 2500);
}

#[test]
fn buy_at_all_basis_points_settles_the_whole_order() {
    let mut contract = init_contract_with_spare(7);
    insert_account(&mut contract, accounts(2), vec![(1000, grant(u128::MAX - 7, 0, u128::MAX - 7))]);
    let operator = get_context(accounts(0));

    contract.buy(&operator, vec![accounts(2)], 10_000).unwrap();

    assert_eq!(grant_at(&contract, &accounts(2), 1000), grant(u128::MAX - 7, u128::MAX - 7, 0));
    assert_eq!(contract.spare_balance, u128::MAX);
}

// --- authorize

#[test]
fn authorize_moves_order_into_pending_transfers() {
    let mut contract = init_contract_with_spare(0);
    contract.create_grant_internal(&accounts(2), 1_000, 10_000, None).unwrap();
    grant_mut(&mut contract, &accounts(2), 1_000).order_amount = 4_000;
    let operator = get_context(accounts(0));

    contract.authorize(&operator, vec![accounts(2)], Some(5_000)).unwrap();

    let pending = contract.get_pending_transfers();
    let transfers = pending_of(&pending, &accounts(2)).unwrap();
    assert_eq!(transfers[0].1, 2_000);
}

#[test]
fn authorize_requires_executor_role() {
    let mut contract = init_contract_with_spare(0);
    contract.create_grant_internal(&accounts(2), 1_000, 10_000, None).unwrap();
    let stranger = get_context(accounts(2));

    let result = contract.authorize(&stranger, vec![accounts(2)], Some(10_000));

    assert_eq!(result, Err(LedgerError::Unauthorized(Role::Executor)));
    assert!(contract.get_pending_transfers().is_empty());
}

#[test]
fn authorize_is_refused_while_paused() {
    let mut contract = init_contract_with_spare(0);
    insert_account(&mut contract, accounts(2), vec![(1000, grant(10_000, 0, 100))]);
    let before = contract.clone();
    let mut operator = get_context(accounts(0));
    operator.paused = true;

    assert_eq!(contract.authorize(&operator, vec![accounts(2)], None), Err(LedgerError::Paused));
    assert_eq!(contract, before);
}

#[test]
fn authorize_fails_with_insufficient_gas() {
    let mut contract = init_contract_with_spare(0);
    contract.create_grant_internal(&accounts(2), 1_000, 10_000, None).unwrap();
    grant_mut(&mut contract, &accounts(2), 1_000).order_amount = 100;
    contract.pending_transfers.push((accounts(3), vec![(7, 9)]));
    let before = contract.clone();
    let mut operator = get_context(accounts(0));
    operator.gas_left = 1_000_000_000_000;

    let result = contract.authorize(&operator, vec![accounts(2)], Some(10_000));

    assert_eq!(result, Err(LedgerError::NotEnoughGas));
    assert_eq!(contract, before);
}

#[test]
fn authorize_needs_35_tera_gas_for_each_transfer() {
    let mut contract = init_contract_with_spare(0);
    insert_account(
        &mut contract,
        accounts(2),
        vec![(1000, grant(10_000, 0, 100)), (2000, grant(10_000, 0, 200))],
    );
    insert_account(&mut contract, accounts(3), vec![(1000, grant(10_000, 0, 300))]);
    let mut operator = get_context(accounts(0));

    operator.gas_left = 3 * 35_000_000_000_000 - 1;
    let result = contract.authorize(&operator, vec![accounts(2), accounts(3)], None);
    assert_eq!(result, Err(LedgerError::NotEnoughGas));
    assert_eq!(grant_at(&contract, &accounts(2), 1000), grant(10_000, 0, 100));

    operator.gas_left = 3 * 35_000_000_000_000;
    let authorization = contract.authorize(&operator, vec![accounts(2), accounts(3)], None).unwrap();
    assert_eq!(
        authorization.transfers,
        vec![(accounts(2), 100), (accounts(2), 200), (accounts(3), 300)]
    );
    assert_eq!(
        authorization.transfer_keys,
        vec![key(accounts(2), 1000), key(accounts(2), 2000), key(accounts(3), 1000)]
    );
    assert_eq!(transfer_gas(), 35_000_000_000_000);
}

#[test]
fn authorize_of_nothing_needs_no_gas_and_still_pauses() {
    let mut contract = init_contract_with_spare(0);
    insert_account(&mut contract, accounts(2), vec![(1000, grant(10_000, 0, 0))]);
    contract.pending_transfers.push((accounts(2), vec![(1000, 5)]));
    let mut operator = get_context(accounts(0));
    operator.gas_left = 0;

    let authorization = contract.authorize(&operator, vec![accounts(2)], None).unwrap();

    assert!(authorization.pause);
    assert!(authorization.transfers.is_empty());
    assert!(authorization.transfer_keys.is_empty());
    assert!(contract.pending_transfers.is_empty());
}

#[test]
fn authorize_skips_an_order_of_which_nothing_is_settled() {
    let mut contract = init_contract_with_spare(0);
    insert_account(
        &mut contract,
        accounts(2),
        vec![(1000, grant(10_000, 0, 99)), (2000, grant(10_000, 0, 100))],
    );
    let operator = get_context(accounts(0));

    // one percent
    let authorization = contract.authorize(&operator, vec![accounts(2)], Some(100)).unwrap();

    assert_eq!(authorization.transfers, vec![(accounts(2), 1)]);
    assert_eq!(authorization.transfer_keys, vec![key(accounts(2), 2000)]);
    assert_eq!(grant_at(&contract, &accounts(2), 1000), grant(10_000, 0, 99));
    assert_eq!(grant_at(&contract, &accounts(2), 2000), grant(10_000, 1, 0));
    assert_eq!(contract.pending_transfers, vec![(accounts(2), vec![(2000, 1)])]);
}

#[test]
fn authorize_of_a_beneficiary_named_twice_sends_once() {
    let mut contract = init_contract_with_spare(0);
    insert_account(&mut contract, accounts(2), vec![(1000, grant(10_000, 0, 4000))]);
    let operator = get_context(accounts(0));

    let authorization =
        contract.authorize(&operator, vec![accounts(2), accounts(2)], Some(2500)).unwrap();

    assert_eq!(authorization.transfers, vec![(accounts(2), 1000)]);
    assert_eq!(grant_at(&contract, &accounts(2), 1000), grant(10_000, 1000, 0));
    assert_eq!(contract.pending_transfers, vec![(accounts(2), vec![(1000, 1000)])]);
}

// --- reconciliation

#[test]
fn on_authorize_complete_reverts_failed_transfers_using_keys() {
    let mut contract = init_contract_with_spare(0);
    contract.create_grant_internal(&accounts(2), 1000, 1_000, None).unwrap();
    contract.create_grant_internal(&accounts(3), 1000, 1_000, None).unwrap();
    grant_mut(&mut contract, &accounts(2), 1000).claimed_amount = 100;
    grant_mut(&mut contract, &accounts(3), 1000).claimed_amount = 200;
    contract.pending_transfers.push((accounts(2), vec![(1000, 100)]));
    contract.pending_transfers.push((accounts(3), vec![(1000, 200)]));
    let mut operator = get_context(accounts(0));
    operator.paused = true;

    contract
        .on_authorize_complete(
            &operator,
            vec![key(accounts(2), 1000), key(accounts(3), 1000)],
            vec![TransferResult::Successful, TransferResult::Failed],
        )
        .unwrap();

    let grant_one = grant_at(&contract, &accounts(2), 1000);
    assert_eq!(grant_one.claimed_amount, 100);
    assert_eq!(grant_one.order_amount, 0);
    let grant_two = grant_at(&contract, &accounts(3), 1000);
    assert_eq!(grant_two.claimed_amount, 0);
    assert_eq!(grant_two.order_amount, 200);
    assert!(contract.pending_transfers.is_empty());
}

#[test]
fn on_authorize_complete_is_refused_while_running() {
    let mut contract = init_contract_with_spare(0);
    insert_account(&mut contract, accounts(2), vec![(1000, grant(1000, 100, 0))]);
    contract.pending_transfers.push((accounts(2), vec![(1000, 100)]));
    let before = contract.clone();
    let operator = get_context(accounts(0));

    let result = contract.on_authorize_complete(
        &operator,
        vec![key(accounts(2), 1000)],
        vec![TransferResult::Failed],
    );

    assert_eq!(result, Err(LedgerError::NotPaused));
    assert_eq!(contract, before);
}

#[test]
fn on_authorize_complete_goes_by_the_keys_not_by_the_record() {
    let mut contract = init_contract_with_spare(0);
    insert_account(&mut contract, accounts(2), vec![(1000, grant(1000, 100, 0))]);
    insert_account(&mut contract, accounts(3), vec![(1000, grant(1000, 200, 0))]);
    // the record lists the beneficiaries the other way round
    contract.pending_transfers.push((accounts(3), vec![(1000, 200)]));
    contract.pending_transfers.push((accounts(2), vec![(1000, 100)]));
    let mut operator = get_context(accounts(0));
    operator.paused = true;

    contract
        .on_authorize_complete(
            &operator,
            vec![key(accounts(2), 1000), key(accounts(3), 1000)],
            vec![TransferResult::Failed, TransferResult::Successful],
        )
        .unwrap();

    assert_eq!(grant_at(&contract, &accounts(2), 1000), grant(1000, 0, 100));
    assert_eq!(grant_at(&contract, &accounts(3), 1000), grant(1000, 200, 0));
}

#[test]
fn on_authorize_complete_skips_what_it_cannot_undo() {
    let mut contract = init_contract_with_spare(0);
    insert_account(&mut contract, accounts(2), vec![(1000, grant(1000, 100, 0))]);
    contract.pending_transfers.push((accounts(2), vec![(1000, 101), (2000, 5)]));
    let mut operator = get_context(accounts(0));
    operator.paused = true;

    contract
        .on_authorize_complete(
            &operator,
            vec![
                // more in flight than counts as claimed
                key(accounts(2), 1000),
                // no such grant
                key(accounts(2), 2000),
                // nothing in flight
                key(accounts(2), 3000),
                // no such beneficiary
                key(accounts(4), 1000),
            ],
            vec![
                TransferResult::Failed,
                TransferResult::Failed,
                TransferResult::Failed,
                TransferResult::Failed,
            ],
        )
        .unwrap();

    assert_eq!(grant_at(&contract, &accounts(2), 1000), grant(1000, 100, 0));
    assert!(contract.pending_transfers.is_empty());
}

#[test]
fn on_authorize_complete_undoes_a_transfer_once() {
    let mut contract = init_contract_with_spare(0);
    insert_account(&mut contract, accounts(2), vec![(1000, grant(1000, 500, 0))]);
    contract.pending_transfers.push((accounts(2), vec![(1000, 200)]));
    let mut operator = get_context(accounts(0));
    operator.paused = true;

    contract
        .on_authorize_complete(
            &operator,
            vec![key(accounts(2), 1000), key(accounts(2), 1000)],
            vec![TransferResult::Failed, TransferResult::Failed],
        )
        .unwrap();

    assert_eq!(grant_at(&contract, &accounts(2), 1000), grant(1000, 300, 200));
}

#[test]
fn a_batch_that_fails_altogether_leaves_the_ledger_as_before() {
    let mut contract = init_contract_with_spare(77);
    insert_account(
        &mut contract,
        accounts(2),
        vec![(1000, grant(10_000, 1000, 4000)), (2000, grant(500, 0, 0)), (3000, grant(9, 0, 9))],
    );
    insert_account(&mut contract, accounts(3), vec![(1000, grant(3000, 3000, 0))]);
    insert_account(&mut contract, accounts(4), vec![(1500, grant(3000, 0, 1))]);
    let before = contract.clone();
    let mut operator = get_context(accounts(0));

    let authorization = contract
        .authorize(&operator, vec![accounts(4), accounts(2), accounts(5), accounts(3), accounts(2)], None)
        .unwrap();
    assert_eq!(authorization.transfer_keys.len(), 3);
    assert_ne!(contract, before);

    operator.paused = true;
    let results = vec![TransferResult::Failed; 3];
    contract.on_authorize_complete(&operator, authorization.transfer_keys, results).unwrap();

    assert_eq!(contract, before);
}

#[test]
fn a_partial_batch_that_fails_restores_what_was_claimed() {
    let mut contract = init_contract_with_spare(0);
    insert_account(&mut contract, accounts(2), vec![(1000, grant(10_000, 1000, 4000))]);
    let mut operator = get_context(accounts(0));

    let authorization = contract.authorize(&operator, vec![accounts(2)], Some(2500)).unwrap();
    operator.paused = true;
    contract
        .on_authorize_complete(&operator, authorization.transfer_keys, vec![TransferResult::Failed])
        .unwrap();

    // what was sent is on order again; the rest of the order is gone
    assert_eq!(grant_at(&contract, &accounts(2), 1000), grant(10_000, 1000, 1000));
}

// --- terminate

#[test]
fn terminate_requires_executor_role() {
    let mut contract = init_contract_with_spare(0);
    insert_account(&mut contract, accounts(2), vec![(1000, grant(10_000, 0, 0))]);
    let before = contract.clone();
    let mut stranger = get_context(accounts(2));
    stranger.now = 2500;

    let result = contract.terminate(&stranger, accounts(2), 2500);

    assert_eq!(result, Err(LedgerError::Unauthorized(Role::Executor)));
    assert_eq!(contract, before);
}

#[test]
fn terminate_is_refused_while_paused() {
    let mut contract = init_contract_with_spare(0);
    insert_account(&mut contract, accounts(2), vec![(1000, grant(10_000, 0, 0))]);
    let before = contract.clone();
    let mut operator = get_context(accounts(0));
    operator.now = 2500;
    operator.paused = true;

    assert_eq!(contract.terminate(&operator, accounts(2), 2500), Err(LedgerError::Paused));
    assert_eq!(contract, before);
}

#[test]
fn terminate_returns_the_unvested_rest_to_the_spare_pool() {
    let mut contract = init_contract_with_spare(10);
    insert_account(
        &mut contract,
        accounts(2),
        vec![(1000, grant(10_000, 1000, 2000)), (1500, grant(8000, 0, 500))],
    );
    let mut operator = get_context(accounts(0));
    operator.now = 3000;

    contract.terminate(&operator, accounts(2), 2800).unwrap();

    // at 3000: 5000 of the first grant have vested, 2000 of the second
    assert_eq!(
        grant_at(&contract, &accounts(2), 1000),
        Grant { total_amount: 5000, claimed_amount: 1000, order_amount: 0, terminated_at: Some(2800) }
    );
    assert_eq!(
        grant_at(&contract, &accounts(2), 1500),
        Grant { total_amount: 2000, claimed_amount: 0, order_amount: 0, terminated_at: Some(2800) }
    );
    assert_eq!(contract.spare_balance, 10 + 5000 + 6000);
}

#[test]
fn terminate_twice_changes_nothing_more() {
    let mut contract = init_contract_with_spare(0);
    insert_account(&mut contract, accounts(2), vec![(1000, grant(10_000, 0, 0))]);
    let mut operator = get_context(accounts(0));
    operator.now = 2500;
    contract.terminate(&operator, accounts(2), 2500).unwrap();
    let once = contract.clone();

    operator.now = 3500;
    contract.terminate(&operator, accounts(2), 3500).unwrap();

    assert_eq!(contract, once);
}

#[test]
fn terminate_after_the_vesting_has_ended_changes_no_grant() {
    let mut contract = init_contract_with_spare(0);
    insert_account(&mut contract, accounts(2), vec![(1000, grant(10_000, 0, 0))]);
    let before = contract.clone();
    let mut operator = get_context(accounts(0));
    operator.now = 2500;

    contract.terminate(&operator, accounts(2), 4001).unwrap();

    assert_eq!(contract, before);
}

#[test]
fn terminate_keeps_an_order_in_flight_within_what_has_vested() {
    let mut contract = init_contract_with_spare(0);
    insert_account(
        &mut contract,
        accounts(2),
        vec![(1000, grant(10_000, 1000, 4000)), (1001, grant(10_000, 1000, 400))],
    );
    contract.pending_transfers.push((accounts(2), vec![(1000, 1000), (1001, 1000)]));
    let mut operator = get_context(accounts(0));
    operator.now = 2500;

    contract.terminate(&operator, accounts(2), 2500).unwrap();

    // 2500 have vested of the first grant, 1500 beyond what was claimed
    assert_eq!(grant_at(&contract, &accounts(2), 1000).order_amount, 1500);
    assert_eq!(grant_at(&contract, &accounts(2), 1000).total_amount, 2500);
    // 2495 have vested of the second
    assert_eq!(grant_at(&contract, &accounts(2), 1001).order_amount, 400);
    assert_eq!(grant_at(&contract, &accounts(2), 1001).total_amount, 2495);
}

#[test]
fn grant_terminate_is_undefined_below_one_token_a_second() {
    let config = Config { cliff_duration: 1000, vesting_duration: 2000 };
    let slow = grant(1999, 10, 0);
    assert!(!slow.is_terminable(1000, &config, 1500, 1500));
    // nothing to decide where what has vested covers what was claimed
    assert!(slow.is_terminable(1000, &config, 4000, 1500));
    // nor where the termination comes after the vesting has ended
    assert!(slow.is_terminable(1000, &config, 1500, 4001));

    let still = Config { cliff_duration: 1000, vesting_duration: 0 };
    assert!(!grant(1999, 10, 0).is_terminable(1000, &still, 1500, 1500));

    let mut contract = init_contract_with_spare(0);
    insert_account(&mut contract, accounts(2), vec![(1000, slow)]);
    assert!(!contract.is_terminable(&accounts(2), 1500, 1500));
    assert!(contract.is_terminable(&accounts(3), 1500, 1500));
}

#[test]
fn grant_terminate_gives_back_the_unvested_rest() {
    let config = Config { cliff_duration: 1000, vesting_duration: 2000 };
    let mut grant = grant(10_000, 1000, 3000);

    let recovered = grant.terminate(1000, &config, 2500, 2400);

    assert_eq!(recovered, 7500);
    assert_eq!(
        grant,
        Grant { total_amount: 2500, claimed_amount: 1000, order_amount: 1500, terminated_at: Some(2400) }
    );
    assert_eq!(grant.terminate(1000, &config, 2600, 2600), 0);
    assert_eq!(grant.get_vested_amount(1000, &config, 2200), 1250);
    assert_eq!(grant.performance(2000), 1);
}

// --- queries

#[test]
fn get_account_derives_what_has_vested() {
    let mut contract = init_contract_with_spare(0);
    insert_account(
        &mut contract,
        accounts(2),
        vec![(1000, grant(10_000, 1000, 500)), (1200, grant(400, 300, 0))],
    );

    let account = contract.get_account(&accounts(2), 2500).unwrap();

    assert_eq!(account.account_id, accounts(2));
    assert_eq!(
        account.grants,
        vec![
            GrantView {
                issued_at: 1000,
                cliff_end_at: 2000,
                vesting_end_at: 4000,
                total_amount: 10_000,
                claimed_amount: 1000,
                order_amount: 500,
                vested_amount: 2500,
                not_vested_amount: 7500,
                claimable_amount: 1500,
                terminated_at: None,
            },
            GrantView {
                issued_at: 1200,
                cliff_end_at: 2200,
                vesting_end_at: 4200,
                total_amount: 400,
                claimed_amount: 300,
                order_amount: 0,
                vested_amount: 60,
                not_vested_amount: 340,
                claimable_amount: 0,
                terminated_at: None,
            },
        ]
    );
}

#[test]
fn get_orders_lists_accounts_and_grants_in_their_order() {
    let mut contract = init_contract_with_spare(0);
    insert_account(
        &mut contract,
        accounts(3),
        vec![(2000, grant(100, 0, 7)), (1000, grant(100, 0, 0)), (1500, grant(100, 0, 9))],
    );
    insert_account(&mut contract, accounts(2), vec![(1000, grant(100, 0, 1))]);

    assert_eq!(
        contract.get_orders(),
        vec![(accounts(3), 2000, 7), (accounts(3), 1500, 9), (accounts(2), 1000, 1)]
    );
}

#[test]
fn get_config_returns_the_durations() {
    let contract = Contract::new(accounts(0), 31_556_952, 86_400);
    assert_eq!(
        contract.get_config(),
        Config { cliff_duration: ONE_YEAR_IN_SECONDS, vesting_duration: ONE_DAY_IN_SECONDS }
    );
    assert_eq!(contract.get_config().cliff_end(1000), 31_557_952);
    assert_eq!(contract.get_config().vesting_end(1000), 31_644_352);
    assert_eq!(contract.token_id, accounts(0));
    assert_eq!(contract.get_spare_balance(), 0);
    assert!(contract.accounts.is_empty());
    assert!(contract.get_pending_transfers().is_empty());
}

#[test]
fn snapshot_is_a_copy() {
    let mut contract = init_contract_with_spare(5);
    insert_account(&mut contract, accounts(2), vec![(1000, grant(100, 0, 7))]);
    contract.pending_transfers.push((accounts(2), vec![(1000, 3)]));

    assert_eq!(contract.snapshot(), contract);
}

// --- transfers received

#[test]
fn top_up_adds_to_the_spare_pool() {
    let mut contract = init_contract_with_spare(5);
    let context = get_context(accounts(4));

    assert_eq!(contract.ft_on_transfer(&context, 1000, FtMessage::TopUp), Ok(0));
    assert_eq!(contract.spare_balance, 1005);

    contract.on_top_up(7);
    assert_eq!(contract.spare_balance, 1012);
}

#[test]
fn issue_on_receipt_needs_the_sum_of_the_grants() {
    let mut contract = init_contract_with_spare(10_000);
    let before = contract.clone();
    let context = get_context(accounts(0));

    let short = FtMessage::Issue(IssueData {
        issue_date: 1000,
        grants: vec![(accounts(2), 3000), (accounts(3), 2000)],
    });
    assert_eq!(contract.ft_on_transfer(&context, 4999, short), Err(LedgerError::AmountMismatch));
    assert_eq!(contract, before);

    let exact = FtMessage::Issue(IssueData {
        issue_date: 1000,
        grants: vec![(accounts(2), 3000), (accounts(3), 2000)],
    });
    assert_eq!(contract.ft_on_transfer(&context, 5000, exact), Ok(0));
    assert_eq!(contract.spare_balance, 5000);
    assert_eq!(grant_at(&contract, &accounts(2), 1000), grant(3000, 0, 0));
    assert_eq!(grant_at(&contract, &accounts(3), 1000), grant(2000, 0, 0));

    let stranger = get_context(accounts(4));
    let refused = IssueData { issue_date: 2000, grants: vec![(accounts(2), 1)] };
    assert_eq!(
        contract.on_issue(&stranger, 1, refused),
        Err(LedgerError::Unauthorized(Role::Issuer))
    );
}

#[test]
fn issue_is_refused_while_paused() {
    let mut contract = init_contract_with_spare(10_000);
    let before = contract.clone();
    let mut context = get_context(accounts(0));
    context.paused = true;

    assert_eq!(contract.issue(&context, 1000, vec![(accounts(2), 1)]), Err(LedgerError::Paused));
    assert_eq!(
        contract.issue_internal(&context, 1000, vec![(accounts(2), 1)]),
        Err(LedgerError::Paused)
    );
    assert_eq!(contract, before);
}

#[test]
fn issue_of_a_beneficiary_named_twice_is_refused() {
    let mut contract = init_contract_with_spare(10_000);
    let before = contract.clone();
    let context = get_context(accounts(0));

    let result =
        contract.issue(&context, 1000, vec![(accounts(2), 1), (accounts(3), 2), (accounts(2), 3)]);

    assert_eq!(result, Err(LedgerError::DuplicateGrant));
    assert_eq!(contract, before);
}

#[test]
fn issue_of_more_than_128_bits_hold_is_refused() {
    let mut contract = init_contract_with_spare(u128::MAX);
    let context = get_context(accounts(0));

    let result = contract.issue(&context, 1000, vec![(accounts(2), u128::MAX), (accounts(3), 1)]);

    assert_eq!(result, Err(LedgerError::InsufficientSpareBalance));
    assert_eq!(contract.spare_balance, u128::MAX);
}

#[test]
fn migrate_takes_grants_over_with_what_was_claimed() {
    let mut contract = init_contract_with_spare(10);
    let context = get_context(accounts(4));
    let grants = vec![(accounts(2), 1000, 5000, 1200), (accounts(2), 2000, 300, 300)];

    assert_eq!(contract.ft_on_transfer(&context, 3800, FtMessage::Migrate(grants)), Ok(0));

    assert_eq!(grant_at(&contract, &accounts(2), 1000), grant(5000, 1200, 0));
    assert_eq!(grant_at(&contract, &accounts(2), 2000), grant(300, 300, 0));
    assert_eq!(contract.spare_balance, 10);
}

#[test]
fn migrate_is_refused_as_a_whole() {
    let mut contract = init_contract_with_spare(10);
    contract.create_grant_internal(&accounts(3), 1000, 50, None).unwrap();
    let before = contract.clone();

    let mismatch = vec![(accounts(2), 1000, 5000, 1200)];
    assert_eq!(contract.on_migrate(3801, mismatch), Err(LedgerError::AmountMismatch));
    assert_eq!(contract, before);

    let duplicate = vec![(accounts(2), 1000, 5000, 1200), (accounts(3), 1000, 7, 0)];
    assert_eq!(contract.on_migrate(3807, duplicate), Err(LedgerError::DuplicateGrant));
    assert_eq!(contract, before);
}

// --- the surroundings

#[test]
fn now_is_the_block_time_in_seconds() {
    assert_eq!(now(0), Some(0));
    assert_eq!(now(1_704_067_200_999), Some(1_704_067_200));
    assert_eq!(now(4_294_967_295_999), Some(u32::MAX));
    assert_eq!(now(4_294_967_296_000), None);
}

#[test]
fn gas_is_checked_against_what_is_left() {
    assert_eq!(gas_left(300, 100), 200);
    assert_eq!(assert_gas(200, 200), Ok(()));
    assert_eq!(assert_gas(199, 200), Err(LedgerError::NotEnoughGas));
}

#[test]
fn whole_tokens_in_token_units() {
    assert_eq!(5u128.to_otto(), 5_000_000_000_000_000_000);
    assert_eq!(u64::MAX.to_otto(), 18_446_744_073_709_551_615_000_000_000_000_000_000);
    assert_eq!(0u64.to_otto(), 0);
}

#[test]
fn context_knows_the_roles_of_the_caller() {
    let operator = get_context(accounts(0));
    assert!(operator.has_role(Role::Executor));
    assert!(operator.has_role(Role::Issuer));
    assert!(!operator.has_role(Role::Predecessor));
    assert!(!get_context(accounts(2)).has_role(Role::Executor));
}

// --- what holds of every run, on one run

#[test]
fn the_spare_pool_changes_by_what_is_bought_recovered_and_issued() {
    let mut contract = init_contract_with_spare(100_000);
    let mut operator = get_context(accounts(0));
    operator.now = 1000;
    let holdings = |contract: &Contract| -> u128 {
        let owed: u128 = contract
            .accounts
            .iter()
            .flat_map(|(_, account)| account.grants.iter())
            .map(|(_, grant)| grant.total_amount - grant.claimed_amount)
            .sum();
        let in_flight: u128 = contract
            .pending_transfers
            .iter()
            .flat_map(|(_, transfers)| transfers.iter())
            .map(|(_, amount)| *amount)
            .sum();
        contract.spare_balance + owed + in_flight
    };

    contract.issue(&operator, 1000, vec![(accounts(2), 30_000), (accounts(3), 20_000)]).unwrap();
    assert_eq!(contract.spare_balance, 50_000);
    assert_eq!(holdings(&contract), 100_000);

    let mut claimer = get_context(accounts(2));
    claimer.now = 3000;
    contract.claim(&claimer).unwrap();
    assert_eq!(contract.spare_balance, 50_000);
    assert_eq!(holdings(&contract), 100_000);

    operator.now = 3000;
    contract.buy(&operator, vec![accounts(2), accounts(3)], 4000).unwrap();
    // 40 percent of the 15000 on order
    assert_eq!(contract.spare_balance, 56_000);
    assert_eq!(holdings(&contract), 100_000);

    contract.terminate(&operator, accounts(3), 3000).unwrap();
    // half of the 20000 had not vested
    assert_eq!(contract.spare_balance, 66_000);
    assert_eq!(holdings(&contract), 100_000);

    contract.claim(&claimer).unwrap();
    let authorization = contract.authorize(&operator, vec![accounts(2)], None).unwrap();
    assert_eq!(authorization.transfers, vec![(accounts(2), 9000)]);
    assert_eq!(contract.spare_balance, 66_000);
    assert_eq!(holdings(&contract), 100_000);

    operator.paused = true;
    contract
        .on_authorize_complete(
            &operator,
            authorization.transfer_keys,
            vec![TransferResult::Successful],
        )
        .unwrap();
    assert_eq!(contract.spare_balance, 66_000);
    assert_eq!(holdings(&contract), 91_000);

    for (_, account) in contract.accounts.iter() {
        for (_, grant) in account.grants.iter() {
            assert!(grant.claimed_amount + grant.order_amount <= grant.total_amount);
        }
    }
}

#[test]
fn a_grant_in_flight_is_left_alone_by_claim_and_buy() {
    let mut contract = init_contract_with_spare(0);
    insert_account(
        &mut contract,
        accounts(2),
        vec![(1000, grant(10_000, 100, 200)), (1001, grant(10_000, 100, 200))],
    );
    contract.pending_transfers.push((accounts(2), vec![(1000, 100)]));
    let mut claimer = get_context(accounts(2));
    claimer.now = 5000;
    let mut operator = get_context(accounts(0));
    operator.now = 5000;

    contract.claim(&claimer).unwrap();
    assert_eq!(grant_at(&contract, &accounts(2), 1000), grant(10_000, 100, 200));
    assert_eq!(grant_at(&contract, &accounts(2), 1001), grant(10_000, 100, 9900));

    contract.buy(&operator, vec![accounts(2)], 10_000).unwrap();
    assert_eq!(grant_at(&contract, &accounts(2), 1000), grant(10_000, 100, 200));
    assert_eq!(grant_at(&contract, &accounts(2), 1001), grant(10_000, 10_000, 0));

    contract.buy(&operator, vec![accounts(2)], 0).unwrap();
    assert_eq!(grant_at(&contract, &accounts(2), 1000), grant(10_000, 100, 200));
}

// --- what a well-formed ledger is

#[test]
fn a_ledger_is_well_formed_within_its_bounds() {
    let mut contract = init_contract_with_spare(10);
    assert!(contract.is_well_formed());
    insert_account(
        &mut contract,
        accounts(2),
        vec![(1000, grant(100, 40, 60)), (2000, grant(50, 0, 0))],
    );
    contract.pending_transfers.push((accounts(2), vec![(1000, 5), (1000, 6)]));
    assert!(contract.is_well_formed());
    assert_eq!(contract.outstanding(), Some(110));
    assert_eq!(contract.in_flight(), Some(11));
    assert_eq!(contract.holdings(), Some(131));
    assert!(contract.has_room_for(u128::MAX - 131));
    assert!(!contract.has_room_for(u128::MAX - 130));
}

#[test]
fn a_ledger_is_not_well_formed_beyond_its_bounds() {
    let base = {
        let mut contract = init_contract_with_spare(10);
        insert_account(&mut contract, accounts(2), vec![(1000, grant(100, 40, 60))]);
        contract
    };

    let mut twice = base.clone();
    insert_account(&mut twice, accounts(2), vec![]);
    assert!(!twice.is_well_formed());

    let mut same_second = base.clone();
    same_second.accounts[0].1.grants.push((1000, grant(1, 0, 0)));
    assert!(!same_second.is_well_formed());

    let mut overdrawn = base.clone();
    overdrawn.accounts[0].1.grants[0].1.order_amount = 61;
    assert!(!overdrawn.is_well_formed());

    let mut overclaimed = base.clone();
    overclaimed.accounts[0].1.grants[0].1 = grant(100, 101, 0);
    assert!(!overclaimed.is_well_formed());
    assert_eq!(overclaimed.outstanding(), Some(0));

    let mut late = base.clone();
    late.accounts[0].1.grants.push((u32::MAX - 2999, grant(1, 0, 0)));
    assert!(!late.is_well_formed());
    late.accounts[0].1.grants[1].0 = u32::MAX - 3000;
    assert!(late.is_well_formed());

    let mut recorded_twice = base.clone();
    recorded_twice.pending_transfers.push((accounts(3), vec![]));
    recorded_twice.pending_transfers.push((accounts(3), vec![(1, 1)]));
    assert!(!recorded_twice.is_well_formed());

    let mut too_much = base.clone();
    too_much.spare_balance = u128::MAX - 59;
    assert!(!too_much.is_well_formed());
    assert_eq!(too_much.holdings(), None);
    too_much.spare_balance = u128::MAX - 60;
    assert!(too_much.is_well_formed());
    assert_eq!(too_much.holdings(), Some(u128::MAX));

    let mut too_much_in_flight = base.clone();
    too_much_in_flight.pending_transfers.push((accounts(2), vec![(1, u128::MAX), (2, 1)]));
    assert_eq!(too_much_in_flight.in_flight(), None);
    assert!(!too_much_in_flight.is_well_formed());
}

#[test]
fn a_grant_is_covered_where_its_vesting_ends_in_time() {
    let config = Config { cliff_duration: 1000, vesting_duration: 2000 };
    assert!(config.is_covered(0));
    assert!(config.is_covered(u32::MAX - 3000));
    assert!(!config.is_covered(u32::MAX - 2999));
    assert!(!config.is_covered(u32::MAX));
    assert!(grant(10, 4, 6).is_well_formed());
    assert!(!grant(10, 4, 7).is_well_formed());
    assert!(!grant(10, 11, 0).is_well_formed());
}

#[test]
fn grants_to_take_over_must_be_well_formed() {
    let contract = init_contract_with_spare(0);
    assert!(contract.can_take_over(&vec![]));
    assert!(contract.can_take_over(&vec![(accounts(2), 1000, 50, 50), (accounts(2), 1000, 1, 0)]));
    assert!(!contract.can_take_over(&vec![(accounts(2), 1000, 50, 51)]));
    assert!(!contract.can_take_over(&vec![(accounts(2), u32::MAX, 50, 0)]));
}
