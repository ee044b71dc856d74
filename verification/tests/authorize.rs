use ltip_ledger::context::Context;
use ltip_ledger::grant::{GrantApi, TransferKey};
use ltip_ledger::init::InitApi;
use ltip_ledger::reconcile::TransferResult;
use ltip_ledger::{Account, Contract, Grant, Role};

const CLIFF_DURATION: u32 = 1000;
const FULL_UNLOCK_DURATION: u32 = 2000;

fn accounts(index: usize) -> String {
    ["alice", "bob", "charlie", "danny", "eugene", "fargo"][index].to_string()
}

fn get_context(predecessor: String) -> Context {
    let privileged = predecessor == accounts(0) || predecessor == accounts(1);
    Context {
        predecessor,
        roles: if privileged { vec![Role::Executor, Role::Issuer] } else { vec![] },
        paused: false,
        now: 0,
        gas_left: 300_000_000_000_000,
    }
}

fn init_contract_with_spare(spare_balance: u128) -> Contract {
    let mut contract = Contract::new(accounts(0), CLIFF_DURATION, FULL_UNLOCK_DURATION);
    contract.spare_balance = spare_balance;
    contract
}

fn grant(total_amount: u128, claimed_amount: u128, order_amount: u128) -> Grant {
    Grant { total_amount, claimed_amount, order_amount, terminated_at: None }
}

fn insert_account(contract: &mut Contract, account_id: String, grants: Vec<(u32, Grant)>) {
    contract.accounts.push((account_id, Account { grants }));
}

fn account_of<'a>(contract: &'a Contract, account_id: &String) -> Option<&'a Account> {
    contract.accounts.iter().find(|(id, _)| id == account_id).map(|(_, account)| account)
}

fn grant_at(contract: &Contract, account_id: &String, issue_at: u32) -> Grant {
    let account = account_of(contract, account_id).unwrap();
    account.grants.iter().find(|(at, _)| *at == issue_at).map(|(_, grant)| *grant).unwrap()
}

fn grant_mut<'a>(contract: &'a mut Contract, account_id: &String, issue_at: u32) -> &'a mut Grant {
    let account =
        contract.accounts.iter_mut().find(|(id, _)| id == account_id).map(|(_, a)| a).unwrap();
    account.grants.iter_mut().find(|(at, _)| *at == issue_at).map(|(_, grant)| grant).unwrap()
}

fn pending_of<'a>(
    pending: &'a Vec<(String, Vec<(u32, u128)>)>,
    account_id: &String,
) -> Option<&'a Vec<(u32, u128)>> {
    pending.iter().find(|(id, _)| id == account_id).map(|(_, transfers)| transfers)
}

#[test]
fn test_authorize_function() {
    let executor = accounts(0);
    let beneficiary = accounts(1);
    let mut context = get_context(executor);
    context.now = 1000;
    let mut contract = init_contract_with_spare(1000000);
    insert_account(&mut contract, beneficiary.clone(), vec![(1000, grant(10000, 1000, 5000))]);

    contract.authorize(&context, vec![beneficiary.clone()], Some(5000)).unwrap();

    let grant = grant_at(&contract, &beneficiary, 1000);
    assert_eq!(grant.claimed_amount, 3500);
    assert_eq!(grant.order_amount, 0);
    assert_eq!(contract.spare_balance, 1000000);
}

#[test]
fn test_authorize_function_default_percentage() {
    let executor = accounts(0);
    let beneficiary = accounts(1);
    let mut context = get_context(executor);
    context.now = 1000;
    let mut contract = init_contract_with_spare(1000000);
    insert_account(&mut contract, beneficiary.clone(), vec![(1000, grant(10000, 0, 8000))]);

    contract.authorize(&context, vec![beneficiary.clone()], None).unwrap();

    let grant = grant_at(&contract, &beneficiary, 1000);
    assert_eq!(grant.claimed_amount, 8000);
    assert_eq!(grant.order_amount, 0);
    assert_eq!(contract.spare_balance, 1000000);
}

#[test]
fn test_authorize_function_multiple_accounts() {
    let executor = accounts(0);
    let account_one = accounts(1);
    let account_two = accounts(2);
    let mut context = get_context(executor);
    context.now = 1000;
    let mut contract = init_contract_with_spare(1000000);
    insert_account(&mut contract, account_one.clone(), vec![(1000, grant(10000, 0, 6000))]);
    insert_account(&mut contract, account_two.clone(), vec![(1000, grant(20000, 2000, 4000))]);

    contract
        .authorize(&context, vec![account_one.clone(), account_two.clone()], Some(2500))
        .unwrap();

    let grant1 = grant_at(&contract, &account_one, 1000);
    assert_eq!(grant1.claimed_amount, 1500);
    assert_eq!(grant1.order_amount, 0);
    let grant2 = grant_at(&contract, &account_two, 1000);
    assert_eq!(grant2.claimed_amount, 3000);
    assert_eq!(grant2.order_amount, 0);
    assert_eq!(contract.spare_balance, 1000000);
}

#[test]
fn test_authorize_function_no_grants() {
    let executor = accounts(0);
    let mut context = get_context(executor);
    context.now = 1000;
    let mut contract = init_contract_with_spare(1000000);

    contract.authorize(&context, vec![accounts(1)], Some(5000)).unwrap();

    assert_eq!(contract.spare_balance, 1000000);
}

#[test]
fn test_authorize_function_zero_order_amount() {
    let executor = accounts(0);
    let beneficiary = accounts(1);
    let mut context = get_context(executor);
    context.now = 1000;
    let mut contract = init_contract_with_spare(1000000);
    insert_account(&mut contract, beneficiary.clone(), vec![(1000, grant(10000, 1000, 0))]);

    contract.authorize(&context, vec![beneficiary.clone()], Some(5000)).unwrap();

    let grant = grant_at(&contract, &beneficiary, 1000);
    assert_eq!(grant.claimed_amount, 1000);
    assert_eq!(grant.order_amount, 0);
    assert_eq!(contract.spare_balance, 1000000);
}

#[test]
fn test_complete_workflow_claim_buy_authorize() {
    let executor = accounts(0);
    let beneficiary = accounts(1);
    let mut contract = init_contract_with_spare(1000000);
    contract.create_grant_internal(&beneficiary, 1000, 10000, None).unwrap();

    let mut claimer = get_context(beneficiary.clone());
    claimer.now = 4000;
    let mut operator = get_context(executor);
    operator.now = 4000;

    contract.claim(&claimer).unwrap();
    assert_eq!(grant_at(&contract, &beneficiary, 1000).order_amount, 10000);

    contract.buy(&operator, vec![beneficiary.clone()], 2000).unwrap();
    let grant = grant_at(&contract, &beneficiary, 1000);
    assert_eq!(grant.claimed_amount, 2000);
    assert_eq!(grant.order_amount, 0);
    assert_eq!(contract.spare_balance, 1002000);

    contract.claim(&claimer).unwrap();
    assert_eq!(grant_at(&contract, &beneficiary, 1000).order_amount, 8000);

    contract.authorize(&operator, vec![beneficiary.clone()], Some(5000)).unwrap();
    let grant = grant_at(&contract, &beneficiary, 1000);
    assert_eq!(grant.claimed_amount, 6000);
    assert_eq!(grant.order_amount, 0);
    assert_eq!(contract.spare_balance, 1002000);

    contract.clear_pending_transfers();

    contract.claim(&claimer).unwrap();
    assert_eq!(grant_at(&contract, &beneficiary, 1000).order_amount, 4000);

    contract.authorize(&operator, vec![beneficiary.clone()], Some(10000)).unwrap();
    let grant = grant_at(&contract, &beneficiary, 1000);
    assert_eq!(grant.claimed_amount, 10000);
    assert_eq!(grant.order_amount, 0);
    assert_eq!(contract.spare_balance, 1002000);
}

#[test]
fn test_authorize_callback_function() {
    let mut context = get_context(accounts(0));
    context.now = 1000;
    context.paused = true;
    let mut contract = init_contract_with_spare(1000000);

    contract.on_authorize_complete(&context, vec![], vec![]).unwrap();

    assert_eq!(contract.spare_balance, 1000000);
}

#[test]
fn test_authorize_callback_with_failed_transfers() {
    let mut context = get_context(accounts(0));
    context.now = 1000;
    context.paused = true;
    let mut contract = init_contract_with_spare(1000000);
    insert_account(&mut contract, accounts(1), vec![(1000, grant(10000, 5000, 0))]);
    contract.pending_transfers.push((accounts(1), vec![(1000, 2000)]));

    contract
        .on_authorize_complete(
            &context,
            vec![TransferKey { account_id: accounts(1), issue_at: 1000 }],
            vec![TransferResult::Failed],
        )
        .unwrap();

    let grant = grant_at(&contract, &accounts(1), 1000);
    assert_eq!(grant.claimed_amount, 3000);
    assert_eq!(grant.order_amount, 2000);
    assert_eq!(contract.pending_transfers.len(), 0);
}

#[test]
fn test_decline_function() {
    let mut contract = init_contract_with_spare(0);
    contract.create_grant_internal(&accounts(1), 1000, 10000, None).unwrap();
    contract.create_grant_internal(&accounts(1), 2000, 5000, None).unwrap();
    contract.create_grant_internal(&accounts(2), 1000, 3000, None).unwrap();
    grant_mut(&mut contract, &accounts(1), 1000).order_amount = 2000;
    grant_mut(&mut contract, &accounts(1), 2000).order_amount = 1500;
    grant_mut(&mut contract, &accounts(2), 1000).order_amount = 1000;

    contract.decline_orders(&vec![accounts(1)]);

    assert_eq!(grant_at(&contract, &accounts(1), 1000).order_amount, 0);
    assert_eq!(grant_at(&contract, &accounts(1), 2000).order_amount, 0);
    assert_eq!(grant_at(&contract, &accounts(2), 1000).order_amount, 1000);
}

#[test]
fn test_decline_multiple_accounts() {
    let mut contract = init_contract_with_spare(0);
    contract.create_grant_internal(&accounts(1), 1000, 10000, None).unwrap();
    contract.create_grant_internal(&accounts(2), 1000, 5000, None).unwrap();
    contract.create_grant_internal(&accounts(3), 1000, 3000, None).unwrap();
    grant_mut(&mut contract, &accounts(1), 1000).order_amount = 2000;
    grant_mut(&mut contract, &accounts(2), 1000).order_amount = 1500;
    grant_mut(&mut contract, &accounts(3), 1000).order_amount = 1000;

    contract.decline_orders(&vec![accounts(1), accounts(2)]);

    assert_eq!(grant_at(&contract, &accounts(1), 1000).order_amount, 0);
    assert_eq!(grant_at(&contract, &accounts(2), 1000).order_amount, 0);
    assert_eq!(grant_at(&contract, &accounts(3), 1000).order_amount, 1000);
}

#[test]
fn test_authorize_with_zero_percentage() {
    let executor = accounts(0);
    let beneficiary = accounts(1);
    let mut context = get_context(executor);
    context.now = 1000;
    let mut contract = init_contract_with_spare(1000);
    contract.create_grant_internal(&beneficiary, 1000, 10000, None).unwrap();
    grant_mut(&mut contract, &beneficiary, 1000).order_amount = 5000;

    let authorization = contract.authorize(&context, vec![beneficiary.clone()], Some(0)).unwrap();

    let grant = grant_at(&contract, &beneficiary, 1000);
    assert_eq!(grant.order_amount, 0);
    assert_eq!(grant.claimed_amount, 0);
    assert_eq!(contract.spare_balance, 1000);
    assert_eq!(contract.pending_transfers.len(), 0);
    assert!(!authorization.pause);
    assert!(authorization.transfers.is_empty());
    assert!(authorization.transfer_keys.is_empty());
}

#[test]
fn test_decline_respects_pending_transfers() {
    let mut contract = init_contract_with_spare(0);
    contract.create_grant_internal(&accounts(1), 1000, 10000, None).unwrap();
    contract.create_grant_internal(&accounts(1), 2000, 5000, None).unwrap();
    grant_mut(&mut contract, &accounts(1), 1000).order_amount = 2000;
    grant_mut(&mut contract, &accounts(1), 2000).order_amount = 1500;
    contract.pending_transfers.push((accounts(1), vec![(1000, 1000)]));

    contract.decline_orders(&vec![accounts(1)]);

    assert_eq!(grant_at(&contract, &accounts(1), 1000).order_amount, 2000);
    assert_eq!(grant_at(&contract, &accounts(1), 2000).order_amount, 0);
}

#[test]
fn test_pending_transfers_prevent_claim_buy_authorize() {
    let mut context = get_context(accounts(1));
    context.now = 4000;
    let mut contract = init_contract_with_spare(0);
    insert_account(&mut contract, accounts(1), vec![(1000, grant(10000, 0, 5000))]);
    contract.pending_transfers.push((accounts(1), vec![(1000, 2000)]));

    contract.claim(&context).unwrap();
    assert_eq!(grant_at(&contract, &accounts(1), 1000).order_amount, 5000);

    contract.buy(&context, vec![accounts(1)], 5000).unwrap();
    assert_eq!(grant_at(&contract, &accounts(1), 1000).order_amount, 5000);
    assert_eq!(contract.spare_balance, 0);

    // an authorization starts the record of what is in flight anew
    contract.authorize(&context, vec![accounts(1)], Some(5000)).unwrap();
    let grant = grant_at(&contract, &accounts(1), 1000);
    assert_eq!(grant.order_amount, 0);
    assert_eq!(grant.claimed_amount, 2500);

    contract.clear_pending_transfers();

    contract.claim(&context).unwrap();
    assert_eq!(grant_at(&contract, &accounts(1), 1000).order_amount, 7500);
}

#[test]
fn test_authorize_pending_transfers_hashmap_structure() {
    let mut context = get_context(accounts(0));
    context.now = 1000;
    let mut contract = init_contract_with_spare(1000000);
    insert_account(
        &mut contract,
        accounts(1),
        vec![(1000, grant(10000, 0, 5000)), (2000, grant(20000, 0, 3000))],
    );
    insert_account(&mut contract, accounts(2), vec![(1500, grant(15000, 0, 4000))]);

    contract.authorize(&context, vec![accounts(1), accounts(2)], Some(5000)).unwrap();

    assert_eq!(contract.pending_transfers.len(), 2);
    let account1_transfers = pending_of(&contract.pending_transfers, &accounts(1)).unwrap();
    assert_eq!(account1_transfers.len(), 2);
    assert!(account1_transfers.contains(&(1000, 2500)));
    assert!(account1_transfers.contains(&(2000, 1500)));
    let account2_transfers = pending_of(&contract.pending_transfers, &accounts(2)).unwrap();
    assert_eq!(account2_transfers.len(), 1);
    assert!(account2_transfers.contains(&(1500, 2000)));

    let grant1_1000 = grant_at(&contract, &accounts(1), 1000);
    let grant1_2000 = grant_at(&contract, &accounts(1), 2000);
    assert_eq!(grant1_1000.claimed_amount, 2500);
    assert_eq!(grant1_1000.order_amount, 0);
    assert_eq!(grant1_2000.claimed_amount, 1500);
    assert_eq!(grant1_2000.order_amount, 0);
    let grant2_1500 = grant_at(&contract, &accounts(2), 1500);
    assert_eq!(grant2_1500.claimed_amount, 2000);
    assert_eq!(grant2_1500.order_amount, 0);
}
