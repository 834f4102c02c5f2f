//! The transaction processor: one event at a time drives the five-kind
//! state machine over the ledger store.

use vstd::prelude::*;
use crate::ledger::{
    Amount, Client, ClientId, ClientView, State, StateView, Transaction, TransactionId,
    TransactionView, client_ok,
};

verus! {

/// The five event kinds of the input stream.
#[derive(Clone, Copy, PartialEq, Eq, Structural, Debug)]
pub enum TransactionKind {
    Deposit,
    Withdrawal,
    Dispute,
    Resolve,
    Chargeback,
}

/// One input event: kind, account, transaction identifier, and the amount
/// (meaningful for deposits and withdrawals only).
#[derive(Clone, Copy, PartialEq, Eq, Structural, Debug)]
pub struct InputRow {
    pub kind: TransactionKind,
    pub client_id: ClientId,
    pub txn_id: TransactionId,
    pub amount: Amount,
}

/// A fresh account: zero balances, unlocked.
pub open spec fn zero_client() -> ClientView {
    ClientView { available: 0, held: 0, locked: false }
}

/// The balance state of account `id`, a fresh account if none exists yet.
pub open spec fn acct(s: StateView, id: ClientId) -> ClientView {
    if s.clients.contains_key(id) {
        s.clients[id]
    } else {
        zero_client()
    }
}

/// The store after account `id` has been resolved (created if new).
pub open spec fn with_account(s: StateView, id: ClientId) -> StateView {
    StateView { clients: s.clients.insert(id, acct(s, id)), transactions: s.transactions }
}

/// The full transition table: what one event does to the store, over
/// unbounded integers. Every rejection is a silent no-op, but the event's
/// account is created in every case.
pub open spec fn spec_handle(s: StateView, e: InputRow) -> StateView {
    let s1 = with_account(s, e.client_id);
    let c = acct(s, e.client_id);
    match e.kind {
        TransactionKind::Deposit => {
            if c.locked {
                s1
            } else {
                StateView {
                    clients: s1.clients.insert(
                        e.client_id,
                        ClientView { available: c.available + e.amount as int, ..c },
                    ),
                    transactions: if s.transactions.contains_key(e.txn_id) {
                        s.transactions
                    } else {
                        s.transactions.insert(
                            e.txn_id,
                            TransactionView { amount: e.amount as int, disputed: false },
                        )
                    },
                }
            }
        },
        TransactionKind::Withdrawal => {
            if c.locked || c.available - (e.amount as int) < 0 {
                s1
            } else {
                StateView {
                    clients: s1.clients.insert(
                        e.client_id,
                        ClientView { available: c.available - e.amount as int, ..c },
                    ),
                    ..s1
                }
            }
        },
        TransactionKind::Dispute => {
            if !s.transactions.contains_key(e.txn_id) {
                s1
            } else {
                let t = s.transactions[e.txn_id];
                if c.locked || t.disputed {
                    s1
                } else {
                    StateView {
                        clients: s1.clients.insert(
                            e.client_id,
                            ClientView {
                                available: c.available - t.amount,
                                held: c.held + t.amount,
                                ..c
                            },
                        ),
                        transactions: s.transactions.insert(
                            e.txn_id,
                            TransactionView { disputed: true, ..t },
                        ),
                    }
                }
            }
        },
        TransactionKind::Resolve => {
            if !s.transactions.contains_key(e.txn_id) {
                s1
            } else {
                let t = s.transactions[e.txn_id];
                if c.locked || !t.disputed {
                    s1
                } else {
                    StateView {
                        clients: s1.clients.insert(
                            e.client_id,
                            ClientView {
                                available: c.available + t.amount,
                                held: c.held - t.amount,
                                ..c
                            },
                        ),
                        transactions: s.transactions.insert(
                            e.txn_id,
                            TransactionView { disputed: false, ..t },
                        ),
                    }
                }
            }
        },
        TransactionKind::Chargeback => {
            if !s.transactions.contains_key(e.txn_id) {
                s1
            } else {
                let t = s.transactions[e.txn_id];
                if c.locked || !t.disputed {
                    s1
                } else {
                    StateView {
                        clients: s1.clients.insert(
                            e.client_id,
                            ClientView { held: c.held - t.amount, locked: true, ..c },
                        ),
                        ..s1
                    }
                }
            }
        },
    }
}

/// The event's mathematical effect stays within the fixed-point range.
pub open spec fn event_fits(s: StateView, e: InputRow) -> bool {
    client_ok(acct(spec_handle(s, e), e.client_id))
}

/// The store after a whole stream of events, applied in order.
pub open spec fn run(s: StateView, events: Seq<InputRow>) -> StateView
    decreases events.len(),
{
    if events.len() == 0 {
        s
    } else {
        spec_handle(run(s, events.drop_last()), events.last())
    }
}

/// Every event of the stream stays representable at its turn.
pub open spec fn events_fit(s: StateView, events: Seq<InputRow>) -> bool
    decreases events.len(),
{
    if events.len() == 0 {
        true
    } else {
        events_fit(s, events.drop_last()) && event_fits(
            run(s, events.drop_last()),
            events.last(),
        )
    }
}

/// A fitting stream fits at each of its steps.
pub proof fn lemma_events_fit_at(s: StateView, events: Seq<InputRow>, i: int)
    requires
        events_fit(s, events),
        0 <= i < events.len(),
    ensures
        events_fit(s, events.take(i)),
        event_fits(run(s, events.take(i)), events[i]),
    decreases events.len(),
{
    if i == events.len() - 1 {
        assert(events.take(i) =~= events.drop_last());
    } else {
        assert(events.drop_last().take(i) =~= events.take(i));
        lemma_events_fit_at(s, events.drop_last(), i);
    }
}

/// An applied event would take a balance or a total outside the
/// representable fixed-point range; the stream must abort.
#[derive(Clone, Copy, PartialEq, Eq, Structural, Debug)]
pub struct AmountOverflow;

/// Apply one event to the store.
///
/// When the event's effect is representable the store steps exactly as the
/// transition table says; otherwise the event's account is still resolved,
/// nothing else changes, and the overflow is reported.
pub fn handle_transaction(state: &mut State, input: InputRow) -> (r: Result<(), AmountOverflow>)
    requires
        old(state).wf(),
    ensures
        final(state).wf(),
        event_fits(old(state)@, input) ==> r is Ok && final(state)@ == spec_handle(
            old(state)@,
            input,
        ),
        !event_fits(old(state)@, input) ==> r is Err && final(state)@ == with_account(
            old(state)@,
            input.client_id,
        ),
{
    let ghost s0 = state@;
    let i = state.get_or_create_account(input.client_id);
    let c = state.clients[i].1;
    proof {
        assert(client_ok(state.clients@[i as int].1@));
        assert(c@ == acct(s0, input.client_id));
        assert(client_ok(c@));
    }
    match input.kind {
        TransactionKind::Deposit => {
            if c.locked {
                Ok(())
            } else {
                let na = match c.available.checked_add(input.amount) {
                    Some(v) => v,
                    None => {
                        return Err(AmountOverflow);
                    },
                };
                if na.checked_add(c.held).is_none() {
                    return Err(AmountOverflow);
                }
                state.set_client(i, Client { available: na, held: c.held, locked: c.locked });
                state.insert_transaction_if_absent(input.txn_id, input.amount);
                Ok(())
            }
        },
        TransactionKind::Withdrawal => {
            if c.locked || c.available < input.amount {
                Ok(())
            } else {
                let na = match c.available.checked_sub(input.amount) {
                    Some(v) => v,
                    None => {
                        return Err(AmountOverflow);
                    },
                };
                if na.checked_add(c.held).is_none() {
                    return Err(AmountOverflow);
                }
                state.set_client(i, Client { available: na, held: c.held, locked: c.locked });
                Ok(())
            }
        },
        TransactionKind::Dispute => {
            match state.get_transaction(input.txn_id) {
                None => Ok(()),
                Some(j) => {
                    let t = state.transactions[j].1;
                    proof {
                        assert(t@ == s0.transactions[input.txn_id]);
                    }
                    if c.locked || t.disputed {
                        Ok(())
                    } else {
                        let na = match c.available.checked_sub(t.amount) {
                            Some(v) => v,
                            None => {
                                return Err(AmountOverflow);
                            },
                        };
                        let nh = match c.held.checked_add(t.amount) {
                            Some(v) => v,
                            None => {
                                return Err(AmountOverflow);
                            },
                        };
                        state.set_client(
                            i,
                            Client { available: na, held: nh, locked: c.locked },
                        );
                        state.set_transaction(j, Transaction { amount: t.amount, disputed: true });
                        Ok(())
                    }
                },
            }
        },
        TransactionKind::Resolve => {
            match state.get_transaction(input.txn_id) {
                None => Ok(()),
                Some(j) => {
                    let t = state.transactions[j].1;
                    proof {
                        assert(t@ == s0.transactions[input.txn_id]);
                    }
                    if c.locked || !t.disputed {
                        Ok(())
                    } else {
                        let na = match c.available.checked_add(t.amount) {
                            Some(v) => v,
                            None => {
                                return Err(AmountOverflow);
                            },
                        };
                        let nh = match c.held.checked_sub(t.amount) {
                            Some(v) => v,
                            None => {
                                return Err(AmountOverflow);
                            },
                        };
                        state.set_client(
                            i,
                            Client { available: na, held: nh, locked: c.locked },
                        );
                        state.set_transaction(j, Transaction { amount: t.amount, disputed: false });
                        Ok(())
                    }
                },
            }
        },
        TransactionKind::Chargeback => {
            match state.get_transaction(input.txn_id) {
                None => Ok(()),
                Some(j) => {
                    let t = state.transactions[j].1;
                    proof {
                        assert(t@ == s0.transactions[input.txn_id]);
                    }
                    if c.locked || !t.disputed {
                        Ok(())
                    } else {
                        let nh = match c.held.checked_sub(t.amount) {
                            Some(v) => v,
                            None => {
                                return Err(AmountOverflow);
                            },
                        };
                        if c.available.checked_add(nh).is_none() {
                            return Err(AmountOverflow);
                        }
                        state.set_client(
                            i,
                            Client { available: c.available, held: nh, locked: true },
                        );
                        Ok(())
                    }
                },
            }
        },
    }
}

/// Apply a whole stream of events, in order.
///
/// Succeeds exactly when every event's effect is representable at its
/// turn; the store then holds the stream's final state. On the first
/// unrepresentable event the run stops there and reports the overflow.
#[verifier::loop_isolation(false)]
pub fn apply_events(state: &mut State, events: &Vec<InputRow>) -> (r: Result<(), AmountOverflow>)
    requires
        old(state).wf(),
    ensures
        final(state).wf(),
        r is Ok <==> events_fit(old(state)@, events@),
        r is Ok ==> final(state)@ == run(old(state)@, events@),
        r is Err ==> exists|i: int|
            {
                &&& 0 <= i < events@.len()
                &&& events_fit(old(state)@, #[trigger] events@.take(i))
                &&& !event_fits(run(old(state)@, events@.take(i)), events@[i])
                &&& final(state)@ == with_account(
                    run(old(state)@, events@.take(i)),
                    events@[i].client_id,
                )
            },
{
    let mut i: usize = 0;
    while i < events.len()
        invariant
            state.wf(),
            i <= events@.len(),
            events_fit(old(state)@, events@.take(i as int)),
            state@ == run(old(state)@, events@.take(i as int)),
        decreases events@.len() - i,
    {
        let e = events[i];
        let step = handle_transaction(state, e);
        proof {
            assert(events@.take(i + 1).drop_last() =~= events@.take(i as int));
            assert(events@.take(i + 1).last() == events@[i as int]);
        }
        match step {
            Ok(()) => {
            },
            Err(o) => {
                proof {
                    if events_fit(old(state)@, events@) {
                        lemma_events_fit_at(old(state)@, events@, i as int);
                    }
                }
                return Err(o);
            },
        }
        i = i + 1;
    }
    proof {
        assert(events@.take(i as int) =~= events@);
    }
    Ok(())
}

} // verus!
