use payments::ledger::State;
use payments::processor::{apply_events, handle_transaction, AmountOverflow, InputRow, TransactionKind};
use payments::render::output_rows;

fn deposit(client: u16, tx: u32, amount: i128) -> InputRow {
    InputRow { kind: TransactionKind::Deposit, client_id: client, txn_id: tx, amount }
}

fn withdrawal(client: u16, tx: u32, amount: i128) -> InputRow {
    InputRow { kind: TransactionKind::Withdrawal, client_id: client, txn_id: tx, amount }
}

fn dispute(client: u16, tx: u32) -> InputRow {
    InputRow { kind: TransactionKind::Dispute, client_id: client, txn_id: tx, amount: 0 }
}

fn resolve(client: u16, tx: u32) -> InputRow {
    InputRow { kind: TransactionKind::Resolve, client_id: client, txn_id: tx, amount: 0 }
}

fn chargeback(client: u16, tx: u32) -> InputRow {
    InputRow { kind: TransactionKind::Chargeback, client_id: client, txn_id: tx, amount: 0 }
}

fn apply_all(state: &mut State, rows: Vec<InputRow>) {
    apply_events(state, &rows).expect("no overflow in this stream");
}

#[test]
fn deposit_then_withdrawal() {
    let mut state = State::new();
    apply_all(&mut state, vec![deposit(1, 1, 50_000), withdrawal(1, 2, 20_000)]);
    let rows = output_rows(&state);
    assert_eq!(rows.len(), 1);
    assert_eq!(rows[0].client, 1);
    assert_eq!(rows[0].available, 30_000);
    assert_eq!(rows[0].held, 0);
    assert_eq!(rows[0].total, 30_000);
    assert!(!rows[0].locked);
}

#[test]
fn conservation_over_credits_and_debits() {
    let mut state = State::new();
    apply_all(
        &mut state,
        vec![
            deposit(1, 1, 10_000),
            deposit(1, 2, 25_000),
            withdrawal(1, 3, 5_000),
            withdrawal(1, 4, 1_000_000),
            deposit(1, 5, 7),
        ],
    );
    let rows = output_rows(&state);
    // the oversized withdrawal is rejected; total = 1.0 + 2.5 - 0.5 + 0.0007
    assert_eq!(rows[0].available + rows[0].held, 10_000 + 25_000 - 5_000 + 7);
}

#[test]
fn insufficient_debit_is_rejected() {
    let mut state = State::new();
    apply_all(&mut state, vec![deposit(1, 1, 50_000), withdrawal(1, 2, 50_001)]);
    let rows = output_rows(&state);
    assert_eq!(rows[0].available, 50_000);
    assert_eq!(rows[0].held, 0);
    assert!(!rows[0].locked);
}

#[test]
fn negative_deposit_is_applied() {
    let mut state = State::new();
    apply_all(&mut state, vec![deposit(1, 1, -30_000)]);
    let rows = output_rows(&state);
    assert_eq!(rows[0].available, -30_000);
}

#[test]
fn dispute_moves_funds_to_held() {
    let mut state = State::new();
    apply_all(&mut state, vec![deposit(1, 1, 50_000), dispute(1, 1)]);
    let rows = output_rows(&state);
    assert_eq!(rows[0].available, 0);
    assert_eq!(rows[0].held, 50_000);
    assert_eq!(rows[0].total, 50_000);
    assert!(!rows[0].locked);
}

#[test]
fn dispute_then_resolve_is_net_no_op() {
    let mut state = State::new();
    apply_all(
        &mut state,
        vec![deposit(1, 1, 50_000), withdrawal(1, 2, 10_000), dispute(1, 1), resolve(1, 1)],
    );
    let rows = output_rows(&state);
    assert_eq!(rows[0].available, 40_000);
    assert_eq!(rows[0].held, 0);
    assert!(!rows[0].locked);
    // the record can be disputed again after a resolve
    apply_all(&mut state, vec![dispute(1, 1)]);
    let rows = output_rows(&state);
    assert_eq!(rows[0].held, 50_000);
}

#[test]
fn dispute_then_chargeback_locks_the_account() {
    let mut state = State::new();
    apply_all(
        &mut state,
        vec![deposit(1, 1, 50_000), deposit(1, 2, 20_000), dispute(1, 1), chargeback(1, 1)],
    );
    let rows = output_rows(&state);
    assert_eq!(rows[0].available, 20_000);
    assert_eq!(rows[0].held, 0);
    assert_eq!(rows[0].total, 20_000);
    assert!(rows[0].locked);
}

#[test]
fn locked_account_ignores_every_event() {
    let mut state = State::new();
    apply_all(
        &mut state,
        vec![deposit(1, 1, 50_000), deposit(1, 2, 20_000), dispute(1, 1), chargeback(1, 1)],
    );
    // every further event kind is a silent no-op for this account
    apply_all(
        &mut state,
        vec![
            deposit(1, 3, 70_000),
            withdrawal(1, 4, 10_000),
            dispute(1, 2),
            resolve(1, 1),
            chargeback(1, 1),
        ],
    );
    let rows = output_rows(&state);
    assert_eq!(rows[0].available, 20_000);
    assert_eq!(rows[0].held, 0);
    assert!(rows[0].locked);
}

#[test]
fn dispute_of_unknown_transaction_is_no_op() {
    let mut state = State::new();
    apply_all(&mut state, vec![deposit(1, 1, 50_000), dispute(1, 99)]);
    let rows = output_rows(&state);
    assert_eq!(rows[0].available, 50_000);
    assert_eq!(rows[0].held, 0);
}

#[test]
fn second_dispute_of_same_record_is_no_op() {
    let mut state = State::new();
    apply_all(&mut state, vec![deposit(1, 1, 50_000), dispute(1, 1), dispute(1, 1)]);
    let rows = output_rows(&state);
    assert_eq!(rows[0].available, 0);
    assert_eq!(rows[0].held, 50_000);
}

#[test]
fn resolve_without_dispute_is_no_op() {
    let mut state = State::new();
    apply_all(&mut state, vec![deposit(1, 1, 50_000), resolve(1, 1), chargeback(1, 1)]);
    let rows = output_rows(&state);
    assert_eq!(rows[0].available, 50_000);
    assert_eq!(rows[0].held, 0);
    assert!(!rows[0].locked);
}

#[test]
fn duplicate_deposit_id_keeps_first_recorded_amount() {
    let mut state = State::new();
    // the second deposit still credits, but the record keeps the first amount
    apply_all(&mut state, vec![deposit(1, 1, 50_000), deposit(1, 1, 70_000), dispute(1, 1)]);
    let rows = output_rows(&state);
    assert_eq!(rows[0].available, 70_000);
    assert_eq!(rows[0].held, 50_000);
}

#[test]
fn withdrawal_creates_no_disputable_record() {
    let mut state = State::new();
    apply_all(&mut state, vec![deposit(1, 1, 50_000), withdrawal(1, 2, 10_000), dispute(1, 2)]);
    let rows = output_rows(&state);
    assert_eq!(rows[0].available, 40_000);
    assert_eq!(rows[0].held, 0);
}

#[test]
fn dispute_family_trusts_the_transaction_id_alone() {
    // the stated account of a dispute is not checked against the record's
    // owner: the disputing account's own balances move
    let mut state = State::new();
    apply_all(&mut state, vec![deposit(1, 1, 50_000), dispute(2, 1)]);
    let rows = output_rows(&state);
    assert_eq!(rows.len(), 2);
    assert_eq!(rows[0].client, 1);
    assert_eq!(rows[0].available, 50_000);
    assert_eq!(rows[0].held, 0);
    assert_eq!(rows[1].client, 2);
    assert_eq!(rows[1].available, -50_000);
    assert_eq!(rows[1].held, 50_000);
    assert_eq!(rows[1].total, 0);
}

#[test]
fn any_event_creates_the_account_it_names() {
    let mut state = State::new();
    apply_all(&mut state, vec![dispute(5, 99)]);
    let rows = output_rows(&state);
    assert_eq!(rows.len(), 1);
    assert_eq!(rows[0].client, 5);
    assert_eq!(rows[0].available, 0);
    assert_eq!(rows[0].held, 0);
    assert!(!rows[0].locked);
}

#[test]
fn output_rows_are_sorted_by_account() {
    let mut state = State::new();
    apply_all(&mut state, vec![deposit(3, 1, 10_000), deposit(1, 2, 20_000), deposit(2, 3, 30_000)]);
    let rows = output_rows(&state);
    assert_eq!(rows.len(), 3);
    assert_eq!(rows[0].client, 1);
    assert_eq!(rows[1].client, 2);
    assert_eq!(rows[2].client, 3);
}

#[test]
fn overflowing_deposit_reports_an_error() {
    let mut state = State::new();
    handle_transaction(&mut state, deposit(1, 1, i128::MAX)).unwrap();
    let r = handle_transaction(&mut state, deposit(1, 2, 1));
    assert_eq!(r, Err(AmountOverflow));
    // the failed event still resolved the account but changed no balance
    let rows = output_rows(&state);
    assert_eq!(rows[0].available, i128::MAX);
}

#[test]
fn disputed_flow_scenario() {
    // deposit 5.0 to 1, deposit 3.0 to 2, dispute 1's credit, try to
    // withdraw 2.0 from 1 during the dispute, then resolve
    let mut state = State::new();
    apply_all(
        &mut state,
        vec![
            deposit(1, 1, 50_000),
            deposit(2, 2, 30_000),
            dispute(1, 1),
            withdrawal(1, 3, 20_000),
            resolve(1, 1),
        ],
    );
    let rows = output_rows(&state);
    assert_eq!(rows.len(), 2);
    assert_eq!(rows[0].client, 1);
    assert_eq!(rows[0].available, 50_000);
    assert_eq!(rows[0].held, 0);
    assert_eq!(rows[0].total, 50_000);
    assert!(!rows[0].locked);
    assert_eq!(rows[1].client, 2);
    assert_eq!(rows[1].available, 30_000);
    assert_eq!(rows[1].held, 0);
    assert_eq!(rows[1].total, 30_000);
    assert!(!rows[1].locked);
}

#[test]
fn chargeback_scenario() {
    // deposit 10.0, dispute it, charge it back, then try another deposit
    let mut state = State::new();
    apply_all(
        &mut state,
        vec![deposit(1, 1, 100_000), dispute(1, 1), chargeback(1, 1), deposit(1, 2, 500_000)],
    );
    let rows = output_rows(&state);
    assert_eq!(rows.len(), 1);
    assert_eq!(rows[0].client, 1);
    assert_eq!(rows[0].available, 0);
    assert_eq!(rows[0].held, 0);
    assert_eq!(rows[0].total, 0);
    assert!(rows[0].locked);
}
