//! Parsing of input fields: kind tags, unsigned identifiers, and decimal
//! amounts read into fixed-point units, with the tolerant amount policy.

use vstd::prelude::*;
use crate::ledger::Amount;
use crate::processor::{InputRow, TransactionKind};

verus! {

pub open spec fn is_digit(b: u8) -> bool {
    48 <= b <= 57
}

pub open spec fn digit_val(b: u8) -> int {
    b - 48
}

pub open spec fn all_digits(s: Seq<u8>) -> bool {
    forall|i: int| 0 <= i < s.len() ==> is_digit(#[trigger] s[i])
}

/// The number a digit run denotes, most significant digit first.
pub open spec fn uint_val(s: Seq<u8>) -> int
    decreases s.len(),
{
    if s.len() == 0 {
        0
    } else {
        uint_val(s.drop_last()) * 10 + digit_val(s.last())
    }
}

pub proof fn lemma_uint_val_nonneg(s: Seq<u8>)
    requires
        all_digits(s),
    ensures
        uint_val(s) >= 0,
    decreases s.len(),
{
    if s.len() > 0 {
        lemma_uint_val_nonneg(s.drop_last());
    }
}

/// A digit run is worth at least any of its prefixes.
pub proof fn lemma_uint_val_prefix_le(s: Seq<u8>, k: int)
    requires
        all_digits(s),
        0 <= k <= s.len(),
    ensures
        uint_val(s.take(k)) <= uint_val(s),
    decreases s.len(),
{
    if k == s.len() {
        assert(s.take(k) =~= s);
    } else {
        let p = s.drop_last();
        assert(s.take(k) =~= p.take(k));
        lemma_uint_val_prefix_le(p, k);
        lemma_uint_val_nonneg(p);
    }
}

/// An identifier field: an optional leading plus sign, then digits.
pub open spec fn is_uint_str(s: Seq<u8>) -> bool {
    if s.len() > 0 && s[0] == 43 {
        s.len() > 1 && all_digits(s.skip(1))
    } else {
        s.len() > 0 && all_digits(s)
    }
}

pub open spec fn uint_str_val(s: Seq<u8>) -> int {
    if s.len() > 0 && s[0] == 43 {
        uint_val(s.skip(1))
    } else {
        uint_val(s)
    }
}

/// Value of a validated digit run, `None` when it exceeds `max`.
fn digits_val(s: &[u8], max: u128) -> (r: Option<u128>)
    ensures
        match r {
            Some(v) => {
                &&& s@.len() >= 1
                &&& all_digits(s@)
                &&& v as int == uint_val(s@)
                &&& v <= max
            },
            None => !(s@.len() >= 1 && all_digits(s@)) || uint_val(s@) > max,
        },
{
    if s.len() == 0 {
        return None;
    }
    let mut acc: u128 = 0;
    let mut i: usize = 0;
    while i < s.len()
        invariant
            i <= s@.len(),
            all_digits(s@.take(i as int)),
            acc as int == uint_val(s@.take(i as int)),
            acc <= max,
        decreases s@.len() - i,
    {
        let b = s[i];
        if b < 48 || b > 57 {
            return None;
        }
        let step = match acc.checked_mul(10) {
            Some(m) => m.checked_add((b - 48) as u128),
            None => None,
        };
        proof {
            assert(s@.take(i + 1) =~= s@.take(i as int).push(b));
            assert(s@.take(i + 1).drop_last() =~= s@.take(i as int));
        }
        let acc2 = match step {
            Some(v) => v,
            None => {
                proof {
                    if all_digits(s@) {
                        lemma_uint_val_prefix_le(s@, i + 1);
                    }
                }
                return None;
            },
        };
        if acc2 > max {
            proof {
                if all_digits(s@) {
                    lemma_uint_val_prefix_le(s@, i + 1);
                }
            }
            return None;
        }
        acc = acc2;
        i = i + 1;
    }
    proof {
        assert(s@.take(i as int) =~= s@);
    }
    Some(acc)
}

/// Parse a 16-bit account identifier field.
pub fn parse_u16(s: &[u8]) -> (r: Option<u16>)
    ensures
        match r {
            Some(v) => is_uint_str(s@) && v as int == uint_str_val(s@),
            None => !is_uint_str(s@) || uint_str_val(s@) > u16::MAX,
        },
{
    let body: &[u8] = if s.len() > 0 && s[0] == 43 {
        let t = &s[1..s.len()];
        proof {
            assert(t@ =~= s@.skip(1));
        }
        t
    } else {
        s
    };
    match digits_val(body, 0xFFFF) {
        Some(v) => Some(v as u16),
        None => None,
    }
}

/// Parse a 32-bit transaction identifier field.
pub fn parse_u32(s: &[u8]) -> (r: Option<u32>)
    ensures
        match r {
            Some(v) => is_uint_str(s@) && v as int == uint_str_val(s@),
            None => !is_uint_str(s@) || uint_str_val(s@) > u32::MAX,
        },
{
    let body: &[u8] = if s.len() > 0 && s[0] == 43 {
        let t = &s[1..s.len()];
        proof {
            assert(t@ =~= s@.skip(1));
        }
        t
    } else {
        s
    };
    match digits_val(body, 0xFFFF_FFFF) {
        Some(v) => Some(v as u32),
        None => None,
    }
}

/// Index of the first decimal point, or the length when there is none.
pub open spec fn first_dot(s: Seq<u8>) -> int
    decreases s.len(),
{
    if s.len() == 0 {
        0
    } else if s[0] == 46 {
        0
    } else {
        1 + first_dot(s.skip(1))
    }
}

pub proof fn lemma_first_dot(s: Seq<u8>)
    ensures
        0 <= first_dot(s) <= s.len(),
        first_dot(s) < s.len() ==> s[first_dot(s)] == 46,
        forall|j: int| 0 <= j < first_dot(s) ==> s[j] != 46,
    decreases s.len(),
{
    if s.len() > 0 && s[0] != 46 {
        lemma_first_dot(s.skip(1));
        assert forall|j: int| 0 <= j < first_dot(s) implies s[j] != 46 by {
            if j > 0 {
                assert(s.skip(1)[j - 1] != 46);
            }
        }
    }
}

/// First four fraction digits, short fractions padded with zeros.
pub open spec fn pad4(f: Seq<u8>) -> Seq<u8> {
    if f.len() >= 4 {
        f.take(4)
    } else {
        f + Seq::new((4 - f.len()) as nat, |i: int| 48)
    }
}

/// The whole-units-times-ten-thousand value of an unsigned decimal string.
pub open spec fn unsigned_units(s: Seq<u8>) -> int {
    if first_dot(s) == s.len() {
        uint_val(s) * 10000
    } else {
        uint_val(s.take(first_dot(s))) * 10000 + uint_val(pad4(s.skip(first_dot(s) + 1)))
    }
}

/// An unsigned decimal string: digits, then optionally a point and more
/// digits; fraction digits past the fourth must be zero, since finer
/// amounts are not representable.
pub open spec fn is_unsigned_amount(s: Seq<u8>) -> bool {
    let d = first_dot(s);
    &&& d >= 1
    &&& all_digits(s.take(d))
    &&& (d < s.len() ==> {
        let f = s.skip(d + 1);
        &&& f.len() >= 1
        &&& all_digits(f)
        &&& forall|j: int| 4 <= j < f.len() ==> f[j] == 48
    })
}

/// An amount field: an optional sign, then an unsigned decimal string.
pub open spec fn is_amount_str(s: Seq<u8>) -> bool {
    if s.len() > 0 && (s[0] == 43 || s[0] == 45) {
        is_unsigned_amount(s.skip(1))
    } else {
        is_unsigned_amount(s)
    }
}

/// The signed fixed-point value an amount field denotes.
pub open spec fn amount_units(s: Seq<u8>) -> int {
    if s.len() > 0 && s[0] == 45 {
        -unsigned_units(s.skip(1))
    } else if s.len() > 0 && s[0] == 43 {
        unsigned_units(s.skip(1))
    } else {
        unsigned_units(s)
    }
}

/// Padding a digit run with zeros keeps it a digit run.
pub proof fn lemma_pad4_digits(f: Seq<u8>)
    requires
        all_digits(f),
    ensures
        all_digits(pad4(f)),
        uint_val(pad4(f)) >= 0,
{
    assert forall|i: int| 0 <= i < pad4(f).len() implies is_digit(#[trigger] pad4(f)[i]) by {
        if f.len() >= 4 {
            assert(pad4(f)[i] == f[i]);
        } else if i < f.len() {
            assert(pad4(f)[i] == f[i]);
        } else {
            assert(pad4(f)[i] == 48);
        }
    }
    lemma_uint_val_nonneg(pad4(f));
}

pub proof fn lemma_uint_val_push(s: Seq<u8>, d: u8)
    ensures
        uint_val(s.push(d)) == uint_val(s) * 10 + digit_val(d),
{
    assert(s.push(d).drop_last() =~= s);
}

/// Parse an amount field exactly: `None` when the grammar does not match
/// or the magnitude is above the representable maximum.
#[verifier::loop_isolation(false)]
pub fn parse_amount(s: &[u8]) -> (r: Option<Amount>)
    ensures
        match r {
            Some(v) => {
                &&& is_amount_str(s@)
                &&& v as int == amount_units(s@)
                &&& -i128::MAX <= amount_units(s@) <= i128::MAX
            },
            None => !is_amount_str(s@) || amount_units(s@) > i128::MAX || amount_units(s@)
                < -i128::MAX,
        },
{
    let (neg, body): (bool, &[u8]) = if s.len() > 0 && (s[0] == 43 || s[0] == 45) {
        let t = &s[1..s.len()];
        proof {
            assert(t@ =~= s@.skip(1));
        }
        (s[0] == 45, t)
    } else {
        (false, s)
    };
    let mut i: usize = 0;
    while i < body.len() && body[i] != 46
        invariant
            i <= body@.len(),
            forall|j: int| 0 <= j < i ==> is_digit(#[trigger] body@[j]) && body@[j] != 46,
        decreases body@.len() - i,
    {
        let b = body[i];
        if b < 48 || b > 57 {
            proof {
                lemma_first_dot(body@);
                let d = first_dot(body@);
                if d <= i {
                    if d < i {
                        assert(body@[d] != 46);
                    }
                    assert(false);
                }
                assert(body@.take(d)[i as int] == body@[i as int]);
                assert(!all_digits(body@.take(d)));
            }
            return None;
        }
        i = i + 1;
    }
    let dot: usize = i;
    proof {
        lemma_first_dot(body@);
        let d = first_dot(body@);
        if (dot as int) < body@.len() {
            if d < dot as int {
                assert(body@[d] != 46);
            }
            if d > dot as int {
                assert(body@[dot as int] != 46);
            }
        } else {
            if d < dot as int {
                assert(body@[d] != 46);
            }
        }
        assert(d == dot as int);
    }
    if dot == 0 {
        return None;
    }
    let ip: &[u8] = &body[0..dot];
    proof {
        assert(ip@ =~= body@.take(dot as int));
        assert forall|j: int| 0 <= j < ip@.len() implies is_digit(#[trigger] ip@[j]) by {
            assert(ip@[j] == body@[j]);
        }
    }
    let iv = match digits_val(ip, 0xFFFF_FFFF_FFFF_FFFF_FFFF_FFFF_FFFF_FFFF) {
        Some(v) => v,
        None => {
            proof {
                lemma_uint_val_nonneg(ip@);
                if is_amount_str(s@) {
                    if (dot as int) < body@.len() {
                        lemma_pad4_digits(body@.skip(dot + 1));
                    } else {
                        assert(ip@ =~= body@);
                    }
                }
            }
            return None;
        },
    };
    let mut f: u128 = 0;
    if dot < body.len() {
        let frac: &[u8] = &body[dot + 1..body.len()];
        proof {
            assert(frac@ =~= body@.skip(dot + 1));
        }
        if frac.len() == 0 {
            return None;
        }
        let mut j: usize = 0;
        while j < frac.len()
            invariant
                j <= frac@.len(),
                frac@ =~= body@.skip(dot + 1),
                (dot as int) < body@.len(),
                first_dot(body@) == dot as int,
                forall|k: int| 0 <= k < j ==> is_digit(#[trigger] frac@[k]),
                forall|k: int| 4 <= k < j ==> frac@[k] == 48,
            decreases frac@.len() - j,
        {
            let b = frac[j];
            if b < 48 || b > 57 {
                return None;
            }
            if j >= 4 && b != 48 {
                return None;
            }
            j = j + 1;
        }
        let d0: u8 = frac[0];
        let d1: u8 = if frac.len() > 1 {
            frac[1]
        } else {
            48
        };
        let d2: u8 = if frac.len() > 2 {
            frac[2]
        } else {
            48
        };
        let d3: u8 = if frac.len() > 3 {
            frac[3]
        } else {
            48
        };
        f = (d0 - 48) as u128 * 1000 + (d1 - 48) as u128 * 100 + (d2 - 48) as u128 * 10 + (d3
            - 48) as u128;
        proof {
            let p = pad4(frac@);
            let e0 = Seq::<u8>::empty();
            assert(p.len() == 4);
            assert(p[0] == d0 && p[1] == d1 && p[2] == d2 && p[3] == d3);
            assert(p =~= e0.push(d0).push(d1).push(d2).push(d3));
            assert(uint_val(e0) == 0);
            lemma_uint_val_push(e0, d0);
            lemma_uint_val_push(e0.push(d0), d1);
            lemma_uint_val_push(e0.push(d0).push(d1), d2);
            lemma_uint_val_push(e0.push(d0).push(d1).push(d2), d3);
            assert(f as int == uint_val(p));
        }
    } else {
        proof {
            assert(ip@ =~= body@);
        }
    }
    proof {
        assert(unsigned_units(body@) == uint_val(ip@) * 10000 + f as int);
        assert(is_unsigned_amount(body@));
    }
    let scaled = match iv.checked_mul(10000) {
        Some(v) => v.checked_add(f),
        None => None,
    };
    let units: u128 = match scaled {
        Some(v) => v,
        None => {
            proof {
                lemma_uint_val_nonneg(ip@);
            }
            return None;
        },
    };
    if units > i128::MAX as u128 {
        return None;
    }
    let v = units as i128;
    if neg {
        Some(-v)
    } else {
        Some(v)
    }
}

/// The tolerant amount policy: a field that does not parse as a
/// representable amount counts as zero rather than rejecting the event.
pub open spec fn spec_amount_or_zero(s: Seq<u8>) -> int {
    if is_amount_str(s) && -i128::MAX <= amount_units(s) <= i128::MAX {
        amount_units(s)
    } else {
        0
    }
}

pub fn amount_or_zero(s: &[u8]) -> (r: Amount)
    ensures
        r as int == spec_amount_or_zero(s@),
{
    match parse_amount(s) {
        Some(v) => v,
        None => 0,
    }
}

pub open spec fn deposit_tag() -> Seq<u8> {
    seq![100, 101, 112, 111, 115, 105, 116]
}

pub open spec fn withdrawal_tag() -> Seq<u8> {
    seq![119, 105, 116, 104, 100, 114, 97, 119, 97, 108]
}

pub open spec fn dispute_tag() -> Seq<u8> {
    seq![100, 105, 115, 112, 117, 116, 101]
}

pub open spec fn resolve_tag() -> Seq<u8> {
    seq![114, 101, 115, 111, 108, 118, 101]
}

pub open spec fn chargeback_tag() -> Seq<u8> {
    seq![99, 104, 97, 114, 103, 101, 98, 97, 99, 107]
}

/// Which kind a type field names, by exact lowercase match.
pub open spec fn spec_kind_of(s: Seq<u8>) -> Option<TransactionKind> {
    if s == deposit_tag() {
        Some(TransactionKind::Deposit)
    } else if s == withdrawal_tag() {
        Some(TransactionKind::Withdrawal)
    } else if s == dispute_tag() {
        Some(TransactionKind::Dispute)
    } else if s == resolve_tag() {
        Some(TransactionKind::Resolve)
    } else if s == chargeback_tag() {
        Some(TransactionKind::Chargeback)
    } else {
        None
    }
}

fn tag_matches(s: &[u8], w: &[u8]) -> (r: bool)
    ensures
        r == (s@ == w@),
{
    if s.len() != w.len() {
        proof {
            assert(s@.len() != w@.len());
        }
        return false;
    }
    let mut i: usize = 0;
    while i < s.len()
        invariant
            i <= s@.len(),
            s@.len() == w@.len(),
            forall|j: int| 0 <= j < i ==> s@[j] == w@[j],
        decreases s@.len() - i,
    {
        if s[i] != w[i] {
            return false;
        }
        i = i + 1;
    }
    proof {
        assert(s@ =~= w@);
    }
    true
}

/// Parse a type field.
pub fn parse_kind(s: &[u8]) -> (r: Option<TransactionKind>)
    ensures
        r == spec_kind_of(s@),
{
    let mut w: Vec<u8> = Vec::new();
    w.push(100);
    w.push(101);
    w.push(112);
    w.push(111);
    w.push(115);
    w.push(105);
    w.push(116);
    proof {
        assert(w@ =~= deposit_tag());
    }
    if tag_matches(s, w.as_slice()) {
        return Some(TransactionKind::Deposit);
    }
    let mut w: Vec<u8> = Vec::new();
    w.push(119);
    w.push(105);
    w.push(116);
    w.push(104);
    w.push(100);
    w.push(114);
    w.push(97);
    w.push(119);
    w.push(97);
    w.push(108);
    proof {
        assert(w@ =~= withdrawal_tag());
    }
    if tag_matches(s, w.as_slice()) {
        return Some(TransactionKind::Withdrawal);
    }
    let mut w: Vec<u8> = Vec::new();
    w.push(100);
    w.push(105);
    w.push(115);
    w.push(112);
    w.push(117);
    w.push(116);
    w.push(101);
    proof {
        assert(w@ =~= dispute_tag());
    }
    if tag_matches(s, w.as_slice()) {
        return Some(TransactionKind::Dispute);
    }
    let mut w: Vec<u8> = Vec::new();
    w.push(114);
    w.push(101);
    w.push(115);
    w.push(111);
    w.push(108);
    w.push(118);
    w.push(101);
    proof {
        assert(w@ =~= resolve_tag());
    }
    if tag_matches(s, w.as_slice()) {
        return Some(TransactionKind::Resolve);
    }
    let mut w: Vec<u8> = Vec::new();
    w.push(99);
    w.push(104);
    w.push(97);
    w.push(114);
    w.push(103);
    w.push(101);
    w.push(98);
    w.push(97);
    w.push(99);
    w.push(107);
    proof {
        assert(w@ =~= chargeback_tag());
    }
    if tag_matches(s, w.as_slice()) {
        return Some(TransactionKind::Chargeback);
    }
    None
}

/// Why a row was rejected as structurally bad; such a row aborts the run.
#[derive(Clone, Copy, PartialEq, Eq, Structural, Debug)]
pub enum ParseError {
    BadKind,
    BadClient,
    BadTransaction,
}

/// Parse one trimmed row into an event. The type, client and transaction
/// fields must parse; a bad or missing amount field counts as zero.
pub fn parse_row(kind: &[u8], client: &[u8], tx: &[u8], amount: &[u8]) -> (r: Result<
    InputRow,
    ParseError,
>)
    ensures
        match r {
            Ok(row) => {
                &&& spec_kind_of(kind@) == Some(row.kind)
                &&& is_uint_str(client@) && row.client_id as int == uint_str_val(client@)
                &&& is_uint_str(tx@) && row.txn_id as int == uint_str_val(tx@)
                &&& row.amount as int == spec_amount_or_zero(amount@)
            },
            Err(ParseError::BadKind) => spec_kind_of(kind@) is None,
            Err(ParseError::BadClient) => {
                &&& spec_kind_of(kind@) is Some
                &&& (!is_uint_str(client@) || uint_str_val(client@) > u16::MAX)
            },
            Err(ParseError::BadTransaction) => {
                &&& spec_kind_of(kind@) is Some
                &&& is_uint_str(client@) && uint_str_val(client@) <= u16::MAX
                &&& (!is_uint_str(tx@) || uint_str_val(tx@) > u32::MAX)
            },
        },
{
    let k = match parse_kind(kind) {
        Some(k) => k,
        None => {
            return Err(ParseError::BadKind);
        },
    };
    let c = match parse_u16(client) {
        Some(c) => c,
        None => {
            return Err(ParseError::BadClient);
        },
    };
    let t = match parse_u32(tx) {
        Some(t) => t,
        None => {
            return Err(ParseError::BadTransaction);
        },
    };
    let a = amount_or_zero(amount);
    Ok(InputRow { kind: k, client_id: c, txn_id: t, amount: a })
}

} // verus!
