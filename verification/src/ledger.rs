//! The ledger store: per-account balances and per-transaction dispute records,
//! held in key-sorted vectors and viewed as finite maps.

use vstd::prelude::*;

verus! {

/// Exact money amount in fixed-point units of one ten-thousandth.
pub type Amount = i128;

pub type ClientId = u16;

pub type TransactionId = u32;

/// One account's balance state.
#[derive(Clone, Copy)]
pub struct Client {
    pub available: Amount,
    pub held: Amount,
    pub locked: bool,
}

/// Mathematical model of one account.
pub ghost struct ClientView {
    pub available: int,
    pub held: int,
    pub locked: bool,
}

impl View for Client {
    type V = ClientView;

    open spec fn view(&self) -> ClientView {
        ClientView {
            available: self.available as int,
            held: self.held as int,
            locked: self.locked,
        }
    }
}

/// The record of an applied credit, the only kind that can be disputed.
#[derive(Clone, Copy)]
pub struct Transaction {
    pub amount: Amount,
    pub disputed: bool,
}

/// Mathematical model of one transaction record.
pub ghost struct TransactionView {
    pub amount: int,
    pub disputed: bool,
}

impl View for Transaction {
    type V = TransactionView;

    open spec fn view(&self) -> TransactionView {
        TransactionView { amount: self.amount as int, disputed: self.disputed }
    }
}

/// Both balances and their sum stay representable.
pub open spec fn client_ok(c: ClientView) -> bool {
    &&& i128::MIN <= c.available <= i128::MAX
    &&& i128::MIN <= c.held <= i128::MAX
    &&& i128::MIN <= c.available + c.held <= i128::MAX
}

/// Mathematical model of the whole store.
pub ghost struct StateView {
    pub clients: Map<ClientId, ClientView>,
    pub transactions: Map<TransactionId, TransactionView>,
}

/// The ledger store: accounts and credit records, each vector sorted by key.
pub struct State {
    pub clients: Vec<(ClientId, Client)>,
    pub transactions: Vec<(TransactionId, Transaction)>,
}

pub open spec fn clients_sorted(s: Seq<(ClientId, Client)>) -> bool {
    forall|i: int, j: int|
        #![trigger s[i].0, s[j].0]
        0 <= i < j < s.len() ==> s[i].0 < s[j].0
}

pub open spec fn txns_sorted(s: Seq<(TransactionId, Transaction)>) -> bool {
    forall|i: int, j: int|
        #![trigger s[i].0, s[j].0]
        0 <= i < j < s.len() ==> s[i].0 < s[j].0
}

pub open spec fn clients_map(s: Seq<(ClientId, Client)>) -> Map<ClientId, ClientView> {
    Map::new(
        |id: ClientId| exists|i: int| 0 <= i < s.len() && s[i].0 == id,
        |id: ClientId| s[choose|i: int| 0 <= i < s.len() && s[i].0 == id].1@,
    )
}

pub open spec fn txns_map(s: Seq<(TransactionId, Transaction)>) -> Map<
    TransactionId,
    TransactionView,
> {
    Map::new(
        |id: TransactionId| exists|i: int| 0 <= i < s.len() && s[i].0 == id,
        |id: TransactionId| s[choose|i: int| 0 <= i < s.len() && s[i].0 == id].1@,
    )
}

impl View for State {
    type V = StateView;

    open spec fn view(&self) -> StateView {
        StateView {
            clients: clients_map(self.clients@),
            transactions: txns_map(self.transactions@),
        }
    }
}

pub proof fn lemma_clients_key_unique(s: Seq<(ClientId, Client)>, i: int, j: int)
    requires
        clients_sorted(s),
        0 <= i < s.len(),
        0 <= j < s.len(),
        s[i].0 == s[j].0,
    ensures
        i == j,
{
    if i < j {
        assert(s[i].0 < s[j].0);
    } else if j < i {
        assert(s[j].0 < s[i].0);
    }
}

pub proof fn lemma_txns_key_unique(s: Seq<(TransactionId, Transaction)>, i: int, j: int)
    requires
        txns_sorted(s),
        0 <= i < s.len(),
        0 <= j < s.len(),
        s[i].0 == s[j].0,
    ensures
        i == j,
{
    if i < j {
        assert(s[i].0 < s[j].0);
    } else if j < i {
        assert(s[j].0 < s[i].0);
    }
}

/// The map view agrees with the vector at each position.
pub proof fn lemma_clients_map_at(s: Seq<(ClientId, Client)>, i: int)
    requires
        clients_sorted(s),
        0 <= i < s.len(),
    ensures
        clients_map(s).contains_key(s[i].0),
        clients_map(s)[s[i].0] == s[i].1@,
{
    let id = s[i].0;
    assert(0 <= i < s.len() && s[i].0 == id);
    let j = choose|k: int| 0 <= k < s.len() && s[k].0 == id;
    lemma_clients_key_unique(s, i, j);
}

pub proof fn lemma_txns_map_at(s: Seq<(TransactionId, Transaction)>, i: int)
    requires
        txns_sorted(s),
        0 <= i < s.len(),
    ensures
        txns_map(s).contains_key(s[i].0),
        txns_map(s)[s[i].0] == s[i].1@,
{
    let id = s[i].0;
    assert(0 <= i < s.len() && s[i].0 == id);
    let j = choose|k: int| 0 <= k < s.len() && s[k].0 == id;
    lemma_txns_key_unique(s, i, j);
}

/// Inserting a fresh key at its sorted position inserts it into the map view.
pub proof fn lemma_clients_map_insert(pre: Seq<(ClientId, Client)>, pos: int, id: ClientId, c: Client)
    requires
        clients_sorted(pre),
        0 <= pos <= pre.len(),
        forall|j: int| 0 <= j < pos ==> (#[trigger] pre[j].0) < id,
        forall|j: int| pos <= j < pre.len() ==> id < (#[trigger] pre[j].0),
    ensures
        clients_sorted(pre.insert(pos, (id, c))),
        clients_map(pre.insert(pos, (id, c))) == clients_map(pre).insert(id, c@),
{
    let post = pre.insert(pos, (id, c));
    pre.insert_ensures(pos, (id, c));
    assert forall|i: int, j: int|
        #![trigger post[i].0, post[j].0]
        0 <= i < j < post.len() implies post[i].0 < post[j].0 by {
        if i < pos {
            assert(post[i] == pre[i]);
        } else if i > pos {
            assert(post[i] == pre[i - 1]);
        }
        if j < pos {
            assert(post[j] == pre[j]);
        } else if j > pos {
            assert(post[j] == pre[j - 1]);
        }
    }
    let m1 = clients_map(post);
    let m2 = clients_map(pre).insert(id, c@);
    assert forall|k: ClientId| m1.contains_key(k) implies m2.contains_key(k) && m1[k] == m2[k] by {
        let i = choose|i: int| 0 <= i < post.len() && post[i].0 == k;
        if k == id {
            assert(post[pos] == (id, c));
            lemma_clients_key_unique(post, i, pos);
            assert(m1[k] == c@);
        } else {
            let ip: int = if i < pos { i } else { i - 1 };
            assert(post[i] == pre[ip]);
            lemma_clients_map_at(pre, ip);
            let j = choose|j: int| 0 <= j < post.len() && post[j].0 == k;
            lemma_clients_key_unique(post, i, j);
        }
    }
    assert forall|k: ClientId| m2.contains_key(k) implies m1.contains_key(k) by {
        if k == id {
            assert(post[pos] == (id, c));
            assert(0 <= pos < post.len() && post[pos].0 == k);
        } else {
            let i = choose|i: int| 0 <= i < pre.len() && pre[i].0 == k;
            let ip: int = if i < pos { i } else { i + 1 };
            assert(post[ip] == pre[i]);
            assert(0 <= ip < post.len() && post[ip].0 == k);
        }
    }
    assert(m1 =~= m2);
}

pub proof fn lemma_txns_map_insert(
    pre: Seq<(TransactionId, Transaction)>,
    pos: int,
    id: TransactionId,
    t: Transaction,
)
    requires
        txns_sorted(pre),
        0 <= pos <= pre.len(),
        forall|j: int| 0 <= j < pos ==> (#[trigger] pre[j].0) < id,
        forall|j: int| pos <= j < pre.len() ==> id < (#[trigger] pre[j].0),
    ensures
        txns_sorted(pre.insert(pos, (id, t))),
        txns_map(pre.insert(pos, (id, t))) == txns_map(pre).insert(id, t@),
{
    let post = pre.insert(pos, (id, t));
    pre.insert_ensures(pos, (id, t));
    assert forall|i: int, j: int|
        #![trigger post[i].0, post[j].0]
        0 <= i < j < post.len() implies post[i].0 < post[j].0 by {
        if i < pos {
            assert(post[i] == pre[i]);
        } else if i > pos {
            assert(post[i] == pre[i - 1]);
        }
        if j < pos {
            assert(post[j] == pre[j]);
        } else if j > pos {
            assert(post[j] == pre[j - 1]);
        }
    }
    let m1 = txns_map(post);
    let m2 = txns_map(pre).insert(id, t@);
    assert forall|k: TransactionId| m1.contains_key(k) implies m2.contains_key(k) && m1[k] == m2[k] by {
        let i = choose|i: int| 0 <= i < post.len() && post[i].0 == k;
        if k == id {
            assert(post[pos] == (id, t));
            lemma_txns_key_unique(post, i, pos);
            assert(m1[k] == t@);
        } else {
            let ip: int = if i < pos { i } else { i - 1 };
            assert(post[i] == pre[ip]);
            lemma_txns_map_at(pre, ip);
            let j = choose|j: int| 0 <= j < post.len() && post[j].0 == k;
            lemma_txns_key_unique(post, i, j);
        }
    }
    assert forall|k: TransactionId| m2.contains_key(k) implies m1.contains_key(k) by {
        if k == id {
            assert(post[pos] == (id, t));
            assert(0 <= pos < post.len() && post[pos].0 == k);
        } else {
            let i = choose|i: int| 0 <= i < pre.len() && pre[i].0 == k;
            let ip: int = if i < pos { i } else { i + 1 };
            assert(post[ip] == pre[i]);
            assert(0 <= ip < post.len() && post[ip].0 == k);
        }
    }
    assert(m1 =~= m2);
}

/// Overwriting the value at a position updates the map view at that key.
pub proof fn lemma_clients_map_update(pre: Seq<(ClientId, Client)>, i: int, c: Client)
    requires
        clients_sorted(pre),
        0 <= i < pre.len(),
    ensures
        clients_sorted(pre.update(i, (pre[i].0, c))),
        clients_map(pre.update(i, (pre[i].0, c))) == clients_map(pre).insert(pre[i].0, c@),
{
    let id = pre[i].0;
    let post = pre.update(i, (id, c));
    assert(forall|k: int| 0 <= k < post.len() ==> (#[trigger] post[k].0) == pre[k].0);
    let m1 = clients_map(post);
    let m2 = clients_map(pre).insert(id, c@);
    assert forall|k: ClientId| m1.contains_key(k) implies m2.contains_key(k) && m1[k] == m2[k] by {
        let a = choose|a: int| 0 <= a < post.len() && post[a].0 == k;
        assert(pre[a].0 == k);
        if k == id {
            lemma_clients_key_unique(post, a, i);
            assert(m1[k] == c@);
        } else {
            lemma_clients_map_at(pre, a);
            let b = choose|b: int| 0 <= b < post.len() && post[b].0 == k;
            lemma_clients_key_unique(post, a, b);
            assert(a != i);
            assert(post[a] == pre[a]);
        }
    }
    assert forall|k: ClientId| m2.contains_key(k) implies m1.contains_key(k) by {
        if k == id {
            assert(0 <= i < post.len() && post[i].0 == k);
        } else {
            let a = choose|a: int| 0 <= a < pre.len() && pre[a].0 == k;
            assert(0 <= a < post.len() && post[a].0 == k);
        }
    }
    assert(m1 =~= m2);
}

pub proof fn lemma_txns_map_update(pre: Seq<(TransactionId, Transaction)>, i: int, t: Transaction)
    requires
        txns_sorted(pre),
        0 <= i < pre.len(),
    ensures
        txns_sorted(pre.update(i, (pre[i].0, t))),
        txns_map(pre.update(i, (pre[i].0, t))) == txns_map(pre).insert(pre[i].0, t@),
{
    let id = pre[i].0;
    let post = pre.update(i, (id, t));
    assert(forall|k: int| 0 <= k < post.len() ==> (#[trigger] post[k].0) == pre[k].0);
    let m1 = txns_map(post);
    let m2 = txns_map(pre).insert(id, t@);
    assert forall|k: TransactionId| m1.contains_key(k) implies m2.contains_key(k) && m1[k] == m2[k] by {
        let a = choose|a: int| 0 <= a < post.len() && post[a].0 == k;
        assert(pre[a].0 == k);
        if k == id {
            lemma_txns_key_unique(post, a, i);
            assert(m1[k] == t@);
        } else {
            lemma_txns_map_at(pre, a);
            let b = choose|b: int| 0 <= b < post.len() && post[b].0 == k;
            lemma_txns_key_unique(post, a, b);
            assert(a != i);
            assert(post[a] == pre[a]);
        }
    }
    assert forall|k: TransactionId| m2.contains_key(k) implies m1.contains_key(k) by {
        if k == id {
            assert(0 <= i < post.len() && post[i].0 == k);
        } else {
            let a = choose|a: int| 0 <= a < pre.len() && pre[a].0 == k;
            assert(0 <= a < post.len() && post[a].0 == k);
        }
    }
    assert(m1 =~= m2);
}

impl State {
    pub open spec fn wf(&self) -> bool {
        &&& clients_sorted(self.clients@)
        &&& txns_sorted(self.transactions@)
        &&& forall|i: int|
            0 <= i < self.clients@.len() ==> client_ok(#[trigger] self.clients@[i].1@)
    }

    /// An empty store: no accounts, no records.
    pub fn new() -> (s: State)
        ensures
            s.wf(),
            s@.clients == Map::<ClientId, ClientView>::empty(),
            s@.transactions == Map::<TransactionId, TransactionView>::empty(),
            s.clients@.len() == 0,
    {
        let s = State { clients: Vec::new(), transactions: Vec::new() };
        proof {
            assert(s@.clients =~= Map::<ClientId, ClientView>::empty());
            assert(s@.transactions =~= Map::<TransactionId, TransactionView>::empty());
        }
        s
    }

    /// Position of an account in the vector, if it is present.
    pub fn find_client(&self, id: ClientId) -> (r: Option<usize>)
        ensures
            match r {
                Some(i) => i < self.clients@.len() && self.clients@[i as int].0 == id,
                None => forall|j: int|
                    0 <= j < self.clients@.len() ==> (#[trigger] self.clients@[j].0) != id,
            },
    {
        let mut i: usize = 0;
        while i < self.clients.len()
            invariant
                i <= self.clients@.len(),
                forall|j: int| 0 <= j < i ==> (#[trigger] self.clients@[j].0) != id,
            decreases self.clients@.len() - i,
        {
            if self.clients[i].0 == id {
                return Some(i);
            }
            i = i + 1;
        }
        None
    }

    /// Position of a transaction record, if a prior credit created one.
    pub fn get_transaction(&self, id: TransactionId) -> (r: Option<usize>)
        ensures
            match r {
                Some(i) => {
                    &&& i < self.transactions@.len()
                    &&& self.transactions@[i as int].0 == id
                    &&& self.wf() ==> self@.transactions.contains_key(id)
                        && self@.transactions[id] == self.transactions@[i as int].1@
                },
                None => {
                    &&& forall|j: int|
                        0 <= j < self.transactions@.len() ==> (#[trigger] self.transactions@[j].0)
                            != id
                    &&& !self@.transactions.contains_key(id)
                },
            },
    {
        let mut i: usize = 0;
        while i < self.transactions.len()
            invariant
                i <= self.transactions@.len(),
                forall|j: int| 0 <= j < i ==> (#[trigger] self.transactions@[j].0) != id,
            decreases self.transactions@.len() - i,
        {
            if self.transactions[i].0 == id {
                proof {
                    if self.wf() {
                        lemma_txns_map_at(self.transactions@, i as int);
                    }
                }
                return Some(i);
            }
            i = i + 1;
        }
        None
    }

    /// The account for `id`, created with zero balances and unlocked if absent.
    /// Returns its position in the vector.
    pub fn get_or_create_account(&mut self, id: ClientId) -> (i: usize)
        requires
            old(self).wf(),
        ensures
            final(self).wf(),
            i < final(self).clients@.len(),
            final(self).clients@[i as int].0 == id,
            final(self).clients@[i as int].1@ == crate::processor::acct(old(self)@, id),
            final(self)@.clients == old(self)@.clients.insert(
                id,
                crate::processor::acct(old(self)@, id),
            ),
            final(self)@.transactions == old(self)@.transactions,
            final(self).transactions@ == old(self).transactions@,
    {
        match self.find_client(id) {
            Some(i) => {
                proof {
                    lemma_clients_map_at(self.clients@, i as int);
                    assert(self@.clients.insert(id, self@.clients[id]) =~= self@.clients);
                }
                i
            },
            None => {
                let mut pos: usize = 0;
                while pos < self.clients.len() && self.clients[pos].0 < id
                    invariant
                        pos <= self.clients@.len(),
                        forall|j: int| 0 <= j < pos ==> (#[trigger] self.clients@[j].0) < id,
                    decreases self.clients@.len() - pos,
                {
                    pos = pos + 1;
                }
                let c = Client { available: 0, held: 0, locked: false };
                proof {
                    assert forall|j: int| pos <= j < self.clients@.len() implies id < (
                    #[trigger] self.clients@[j].0) by {
                        if j > pos {
                            assert(self.clients@[pos as int].0 < self.clients@[j].0);
                        }
                    }
                    lemma_clients_map_insert(self.clients@, pos as int, id, c);
                }
                self.clients.insert(pos, (id, c));
                pos
            },
        }
    }

    /// Overwrite the account at position `i`, keeping its identifier.
    pub fn set_client(&mut self, i: usize, c: Client)
        requires
            old(self).wf(),
            i < old(self).clients@.len(),
            client_ok(c@),
        ensures
            final(self).wf(),
            final(self).clients@ == old(self).clients@.update(
                i as int,
                (old(self).clients@[i as int].0, c),
            ),
            final(self)@.clients == old(self)@.clients.insert(old(self).clients@[i as int].0, c@),
            final(self)@.transactions == old(self)@.transactions,
            final(self).transactions@ == old(self).transactions@,
    {
        proof {
            lemma_clients_map_update(self.clients@, i as int, c);
        }
        let id = self.clients[i].0;
        self.clients[i] = (id, c);
    }

    /// Overwrite the transaction record at position `i`, keeping its identifier.
    pub fn set_transaction(&mut self, i: usize, t: Transaction)
        requires
            old(self).wf(),
            i < old(self).transactions@.len(),
        ensures
            final(self).wf(),
            final(self)@.transactions == old(self)@.transactions.insert(
                old(self).transactions@[i as int].0,
                t@,
            ),
            final(self)@.clients == old(self)@.clients,
            final(self).clients@ == old(self).clients@,
    {
        proof {
            lemma_txns_map_update(self.transactions@, i as int, t);
        }
        let id = self.transactions[i].0;
        self.transactions[i] = (id, t);
    }

    /// Record a new credit under `id` unless a record already exists;
    /// a duplicate identifier is ignored, first writer wins.
    pub fn insert_transaction_if_absent(&mut self, id: TransactionId, amount: Amount)
        requires
            old(self).wf(),
        ensures
            final(self).wf(),
            final(self)@.transactions == if old(self)@.transactions.contains_key(id) {
                old(self)@.transactions
            } else {
                old(self)@.transactions.insert(
                    id,
                    TransactionView { amount: amount as int, disputed: false },
                )
            },
            final(self)@.clients == old(self)@.clients,
            final(self).clients@ == old(self).clients@,
    {
        match self.get_transaction(id) {
            Some(_) => {
            },
            None => {
                let mut pos: usize = 0;
                while pos < self.transactions.len() && self.transactions[pos].0 < id
                    invariant
                        pos <= self.transactions@.len(),
                        forall|j: int| 0 <= j < pos ==> (#[trigger] self.transactions@[j].0) < id,
                    decreases self.transactions@.len() - pos,
                {
                    pos = pos + 1;
                }
                let t = Transaction { amount, disputed: false };
                proof {
                    assert forall|j: int| pos <= j < self.transactions@.len() implies id < (
                    #[trigger] self.transactions@[j].0) by {
                        if j > pos {
                            assert(self.transactions@[pos as int].0 < self.transactions@[j].0);
                        }
                    }
                    lemma_txns_map_insert(self.transactions@, pos as int, id, t);
                }
                self.transactions.insert(pos, (id, t));
            },
        }
    }
}

} // verus!
