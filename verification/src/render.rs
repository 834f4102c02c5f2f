//! Rendering of final account summaries: output rows in ascending account
//! order, and the canonical text of a fixed-point amount.

use vstd::prelude::*;
use crate::ledger::{Amount, ClientId, State, client_ok};

verus! {

/// Decimal digits of a number, most significant first.
pub open spec fn dec_digits(n: nat) -> Seq<u8>
    decreases n,
{
    if n < 10 {
        seq![(48 + n) as u8]
    } else {
        dec_digits(n / 10).push((48 + n % 10) as u8)
    }
}

/// Exactly four fraction digits, leading zeros kept.
pub open spec fn dec_digits4(n: nat) -> Seq<u8> {
    seq![
        (48 + n / 1000) as u8,
        (48 + (n / 100) % 10) as u8,
        (48 + (n / 10) % 10) as u8,
        (48 + n % 10) as u8,
    ]
}

/// Canonical text of an amount: optional minus sign, integer digits, a
/// point, then exactly four fraction digits.
pub open spec fn amount_text(units: int) -> Seq<u8> {
    let m = if units < 0 {
        -units
    } else {
        units
    };
    let sign: Seq<u8> = if units < 0 {
        seq![45u8]
    } else {
        Seq::empty()
    };
    sign + dec_digits((m / 10000) as nat) + seq![46u8] + dec_digits4((m % 10000) as nat)
}

fn push_digits(out: &mut Vec<u8>, n: u128)
    ensures
        final(out)@ == old(out)@ + dec_digits(n as nat),
    decreases n,
{
    if n >= 10 {
        push_digits(out, n / 10);
    }
    out.push(48 + (n % 10) as u8);
    proof {
        assert(out@ =~= old(out)@ + dec_digits(n as nat));
    }
}

/// The text of an amount, in units of one ten-thousandth.
pub fn render_amount(units: Amount) -> (r: Vec<u8>)
    ensures
        r@ == amount_text(units as int),
{
    let mut out: Vec<u8> = Vec::new();
    let m: u128 = if units < 0 {
        (-(units + 1)) as u128 + 1
    } else {
        units as u128
    };
    proof {
        assert(m as int == if units < 0 {
            -(units as int)
        } else {
            units as int
        });
    }
    if units < 0 {
        out.push(45);
    }
    push_digits(&mut out, m / 10000);
    out.push(46);
    let fr: u128 = m % 10000;
    out.push(48 + (fr / 1000) as u8);
    out.push(48 + ((fr / 100) % 10) as u8);
    out.push(48 + ((fr / 10) % 10) as u8);
    out.push(48 + (fr % 10) as u8);
    proof {
        assert(out@ =~= amount_text(units as int));
    }
    out
}

/// One row of the final summary: the account, its balances, the total
/// computed as available plus held, and the locked flag.
#[derive(Clone, Copy, Debug)]
pub struct OutputRow {
    pub client: ClientId,
    pub available: Amount,
    pub held: Amount,
    pub total: Amount,
    pub locked: bool,
}

/// The final summaries, one row per account that appeared in the input,
/// in ascending order of account identifier.
pub fn output_rows(state: &State) -> (r: Vec<OutputRow>)
    requires
        state.wf(),
    ensures
        r@.len() == state.clients@.len(),
        forall|i: int|
            0 <= i < r@.len() ==> {
                &&& (#[trigger] r@[i]).client == state.clients@[i].0
                &&& r@[i].available == state.clients@[i].1.available
                &&& r@[i].held == state.clients@[i].1.held
                &&& r@[i].total as int == state.clients@[i].1.available
                    + state.clients@[i].1.held
                &&& r@[i].locked == state.clients@[i].1.locked
            },
        forall|i: int, j: int| 0 <= i < j < r@.len() ==> r@[i].client < r@[j].client,
{
    let mut r: Vec<OutputRow> = Vec::new();
    let mut i: usize = 0;
    while i < state.clients.len()
        invariant
            state.wf(),
            i <= state.clients@.len(),
            r@.len() == i,
            forall|k: int|
                0 <= k < i ==> {
                    &&& (#[trigger] r@[k]).client == state.clients@[k].0
                    &&& r@[k].available == state.clients@[k].1.available
                    &&& r@[k].held == state.clients@[k].1.held
                    &&& r@[k].total as int == state.clients@[k].1.available
                        + state.clients@[k].1.held
                    &&& r@[k].locked == state.clients@[k].1.locked
                },
        decreases state.clients@.len() - i,
    {
        let entry = state.clients[i];
        let c = entry.1;
        proof {
            assert(client_ok(state.clients@[i as int].1@));
        }
        let total = c.available + c.held;
        r.push(
            OutputRow {
                client: entry.0,
                available: c.available,
                held: c.held,
                total,
                locked: c.locked,
            },
        );
        i = i + 1;
    }
    r
}

} // verus!
