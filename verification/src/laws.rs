//! Laws of the transition table, proved over its mathematical model.

use vstd::prelude::*;
use crate::ledger::{ClientId, StateView};
use crate::processor::{acct, run, spec_handle, with_account, InputRow};

verus! {

/// An account's true balance: available plus held.
pub open spec fn total(s: StateView, id: ClientId) -> int {
    acct(s, id).available + acct(s, id).held
}

/// The sum of the credits in `events` that account `id` actually applied:
/// deposits addressed to it while it was not locked.
pub open spec fn applied_credits(s: StateView, events: Seq<InputRow>, id: ClientId) -> int
    decreases events.len(),
{
    if events.len() == 0 {
        0
    } else {
        let e = events.last();
        let sp = run(s, events.drop_last());
        applied_credits(s, events.drop_last(), id) + if e.client_id == id && e.kind
            is Deposit && !acct(sp, id).locked {
            e.amount as int
        } else {
            0
        }
    }
}

/// The sum of the debits in `events` that account `id` actually applied:
/// withdrawals addressed to it while it was not locked and covered by the
/// available balance.
pub open spec fn applied_debits(s: StateView, events: Seq<InputRow>, id: ClientId) -> int
    decreases events.len(),
{
    if events.len() == 0 {
        0
    } else {
        let e = events.last();
        let sp = run(s, events.drop_last());
        applied_debits(s, events.drop_last(), id) + if e.client_id == id && e.kind
            is Withdrawal && !acct(sp, id).locked && acct(sp, id).available - (e.amount as int)
            >= 0 {
            e.amount as int
        } else {
            0
        }
    }
}

/// One event only ever changes the balances of the account it names.
pub proof fn lemma_other_accounts_untouched(s: StateView, e: InputRow, id: ClientId)
    requires
        e.client_id != id,
    ensures
        acct(spec_handle(s, e), id) == acct(s, id),
{
}

/// Under a stream of credits and debits alone, every account's true balance
/// moves by exactly the applied credits minus the applied debits, and its
/// held funds never move.
pub proof fn lemma_balance_conservation(s: StateView, events: Seq<InputRow>, id: ClientId)
    requires
        forall|k: int|
            0 <= k < events.len() ==> (#[trigger] events[k].kind) is Deposit || events[k].kind
                is Withdrawal,
    ensures
        total(run(s, events), id) == total(s, id) + applied_credits(s, events, id)
            - applied_debits(s, events, id),
        acct(run(s, events), id).held == acct(s, id).held,
    decreases events.len(),
{
    if events.len() > 0 {
        let prefix = events.drop_last();
        let e = events.last();
        let sp = run(s, prefix);
        lemma_balance_conservation(s, prefix, id);
        if e.client_id == id {
            assert(acct(with_account(sp, id), id) == acct(sp, id));
        } else {
            lemma_other_accounts_untouched(sp, e, id);
        }
    }
}

/// A debit that would drive the available balance negative is rejected:
/// every account keeps its balances and every record is untouched.
pub proof fn lemma_debit_insufficient(s: StateView, e: InputRow)
    requires
        e.kind is Withdrawal,
        acct(s, e.client_id).available - (e.amount as int) < 0,
    ensures
        forall|id: ClientId| acct(spec_handle(s, e), id) == acct(s, id),
        spec_handle(s, e).transactions == s.transactions,
{
    assert forall|id: ClientId| acct(spec_handle(s, e), id) == acct(s, id) by {
        if id == e.client_id {
            assert(acct(with_account(s, id), id) == acct(s, id));
        } else {
            lemma_other_accounts_untouched(s, e, id);
        }
    }
}

/// A dispute followed by its resolve is a net no-op: every account's
/// balances and every record, the disputed flag included, end as they began.
/// (The two events may still create the account they name, with zero
/// balances; no balance changes.)
pub proof fn lemma_dispute_resolve_round_trip(s: StateView, e1: InputRow, e2: InputRow)
    requires
        e1.kind is Dispute,
        e2.kind is Resolve,
        e2.client_id == e1.client_id,
        e2.txn_id == e1.txn_id,
        s.transactions.contains_key(e1.txn_id) ==> !s.transactions[e1.txn_id].disputed,
    ensures
        forall|id: ClientId| acct(spec_handle(spec_handle(s, e1), e2), id) == acct(s, id),
        spec_handle(spec_handle(s, e1), e2).transactions == s.transactions,
{
    let s1 = spec_handle(s, e1);
    let s2 = spec_handle(s1, e2);
    let cid = e1.client_id;
    assert forall|id: ClientId| acct(s2, id) == acct(s, id) by {
        if id != cid {
            lemma_other_accounts_untouched(s, e1, id);
            lemma_other_accounts_untouched(s1, e2, id);
        } else {
            assert(acct(with_account(s, id), id) == acct(s, id));
            assert(acct(with_account(s1, id), id) == acct(s1, id));
        }
    }
    assert(s2.transactions =~= s.transactions);
}

/// A dispute followed by its chargeback: held funds return to their
/// pre-dispute level, the available balance is down by the disputed amount,
/// and the account is locked.
pub proof fn lemma_dispute_chargeback(s: StateView, e1: InputRow, e2: InputRow)
    requires
        e1.kind is Dispute,
        e2.kind is Chargeback,
        e2.client_id == e1.client_id,
        e2.txn_id == e1.txn_id,
        s.transactions.contains_key(e1.txn_id),
        !s.transactions[e1.txn_id].disputed,
        !acct(s, e1.client_id).locked,
    ensures
        acct(spec_handle(spec_handle(s, e1), e2), e1.client_id).held == acct(
            s,
            e1.client_id,
        ).held,
        acct(spec_handle(spec_handle(s, e1), e2), e1.client_id).available == acct(
            s,
            e1.client_id,
        ).available - s.transactions[e1.txn_id].amount,
        acct(spec_handle(spec_handle(s, e1), e2), e1.client_id).locked,
{
}

/// Once an account is locked, no later event changes its balances or its
/// locked state.
pub proof fn lemma_locked_is_frozen_step(s: StateView, e: InputRow, id: ClientId)
    requires
        acct(s, id).locked,
    ensures
        acct(spec_handle(s, e), id) == acct(s, id),
{
    if e.client_id == id {
        assert(acct(with_account(s, id), id) == acct(s, id));
    } else {
        lemma_other_accounts_untouched(s, e, id);
    }
}

/// Once an account is locked, no stream of further events changes its
/// balances or its locked state.
pub proof fn lemma_locked_is_frozen(s: StateView, events: Seq<InputRow>, id: ClientId)
    requires
        acct(s, id).locked,
    ensures
        acct(run(s, events), id) == acct(s, id),
    decreases events.len(),
{
    if events.len() > 0 {
        lemma_locked_is_frozen(s, events.drop_last(), id);
        lemma_locked_is_frozen_step(run(s, events.drop_last()), events.last(), id);
    }
}

/// Disputing an identifier with no credit record, or one already under
/// dispute, changes no balance and no record.
pub proof fn lemma_dispute_no_op(s: StateView, e: InputRow)
    requires
        e.kind is Dispute,
        !s.transactions.contains_key(e.txn_id) || s.transactions[e.txn_id].disputed,
    ensures
        forall|id: ClientId| acct(spec_handle(s, e), id) == acct(s, id),
        spec_handle(s, e).transactions == s.transactions,
{
    assert forall|id: ClientId| acct(spec_handle(s, e), id) == acct(s, id) by {
        if id == e.client_id {
            assert(acct(with_account(s, id), id) == acct(s, id));
        } else {
            lemma_other_accounts_untouched(s, e, id);
        }
    }
}

} // verus!
