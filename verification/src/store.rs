//! The durable store's pure core: the authoritative in-memory collection
//! and the validated operations over it. Access arbitration (a
//! reader/writer lock) and the disk writes themselves live outside this
//! library; every operation here is a function of the store's state and its
//! arguments alone, which is what makes a quiescent collection give every
//! concurrent reader the same snapshot.

use crate::codec::{col_at, decode, enc_col, encode};
use crate::records::{
    bytes_eq, col_view, is_space, is_space_byte, lemma_col_view_push, lemma_trim_idempotent,
    lemma_trim_no_edge_space, lemma_trim_of_clean, trim, trim_spec, valid_record, AmountInput,
    CreateTransaction, Transaction, TransactionV, UpdateTransaction,
};
use vstd::prelude::*;
use vstd::seq_lib::*;
use vstd::set_lib::*;

verus! {

/// The outcomes of an operation that does not succeed.
#[derive(Debug, Clone, Copy, PartialEq, Eq, Structural)]
pub enum ServiceError {
    /// The caller's input was rejected: an empty name or a non-finite amount.
    Validation,
    /// No entry carries the given identifier.
    NotFound,
    /// The disk mirror could not be rewritten; the in-memory state is
    /// already committed and stays authoritative.
    Persistence,
}

/// The amount a caller handed in, if it was finite.
pub open spec fn finite_value(a: AmountInput) -> Option<i64> {
    match a {
        AmountInput::Finite(x) => Some(x),
        AmountInput::NonFinite => None,
    }
}

/// Some entry in `m` carries the identifier `id`.
pub open spec fn contains_id_spec(m: Seq<TransactionV>, id: u128) -> bool {
    exists|p: int| 0 <= p < m.len() && m[p].id == id
}

/// All identifiers in `m` are pairwise distinct.
pub open spec fn ids_unique(m: Seq<TransactionV>) -> bool {
    forall|p: int, q: int| 0 <= p < q < m.len() ==> m[p].id != m[q].id
}

/// The store's invariant: distinct identifiers, and every entry valid.
pub open spec fn store_wf(m: Seq<TransactionV>) -> bool {
    &&& ids_unique(m)
    &&& forall|p: int| 0 <= p < m.len() ==> valid_record(#[trigger] m[p])
}

/// Relies on uuid's `Uuid::new_v4` and `Uuid::as_u128`: a randomly drawn
/// 128-bit identifier. Nothing is promised of the value; the store checks
/// freshness itself.
#[verifier::external_body]
fn random_id() -> u128 {
    uuid::Uuid::new_v4().as_u128()
}

/// The entries of `m` whose user equals `u` exactly, in order.
pub open spec fn filter_user(m: Seq<TransactionV>, u: Seq<u8>) -> Seq<TransactionV>
    decreases m.len(),
{
    if m.len() == 0 {
        Seq::empty()
    } else {
        let rest = filter_user(m.drop_last(), u);
        if m.last().user == u {
            rest.push(m.last())
        } else {
            rest
        }
    }
}

/// The arithmetic sum of the amounts of the entries of `m`.
pub open spec fn sum_amounts(m: Seq<TransactionV>) -> int
    decreases m.len(),
{
    if m.len() == 0 {
        0
    } else {
        sum_amounts(m.drop_last()) + m.last().amount
    }
}

/// When no entry matches the user, the summary covers no entries and its
/// total is zero.
pub proof fn lemma_summary_of_absent_user(m: Seq<TransactionV>, u: Seq<u8>)
    requires
        forall|p: int| 0 <= p < m.len() ==> (#[trigger] m[p]).user != u,
    ensures
        filter_user(m, u) == Seq::<TransactionV>::empty(),
        sum_amounts(filter_user(m, u)) == 0,
    decreases m.len(),
{
    if m.len() == 0 {
        assert(filter_user(m, u) =~= Seq::<TransactionV>::empty());
    } else {
        lemma_summary_of_absent_user(m.drop_last(), u);
        assert(m.last() == m[m.len() - 1]);
    }
}

/// The durable store's in-memory state: the authoritative ordered
/// collection of entries.
pub struct Store {
    pub transactions: Vec<Transaction>,
}

impl View for Store {
    type V = Seq<TransactionV>;

    open spec fn view(&self) -> Seq<TransactionV> {
        col_view(self.transactions@)
    }
}

/// A record is valid exactly when its names are nonempty and carry no
/// whitespace at either end.
proof fn lemma_valid_iff(rv: TransactionV)
    ensures
        valid_record(rv) <==> (rv.user.len() > 0 && !is_space(rv.user[0]) && !is_space(
            rv.user.last(),
        ) && rv.item.len() > 0 && !is_space(rv.item[0]) && !is_space(rv.item.last())),
{
    lemma_trim_no_edge_space(rv.user);
    lemma_trim_no_edge_space(rv.item);
    if rv.user.len() > 0 && !is_space(rv.user[0]) && !is_space(rv.user.last()) {
        lemma_trim_of_clean(rv.user);
    }
    if rv.item.len() > 0 && !is_space(rv.item[0]) && !is_space(rv.item.last()) {
        lemma_trim_of_clean(rv.item);
    }
}

/// If every identifier below `c` occurs in `m`, then `m` holds at least `c`
/// entries: a collection can never use up every identifier.
proof fn lemma_id_pigeonhole(m: Seq<TransactionV>, c: u128)
    requires
        forall|x: u128| x < c ==> contains_id_spec(m, x),
    ensures
        c <= m.len(),
{
    let ids = m.map_values(|rv: TransactionV| rv.id as int);
    let idset = ids.to_set();
    let range = set_int_range(0, c as int);
    assert forall|x: int| range.contains(x) implies idset.contains(x) by {
        assert(contains_id_spec(m, x as u128));
        let p = choose|p: int| 0 <= p < m.len() && m[p].id == x as u128;
        assert(ids[p] == x);
        assert(idset.contains(ids[p]));
    }
    lemma_int_range(0, c as int);
    ids.lemma_cardinality_of_set();
    lemma_len_subset(range, idset);
}

impl Store {
    /// An empty store.
    pub fn new() -> (s: Store)
        ensures
            s@ =~= Seq::<TransactionV>::empty(),
            store_wf(s@),
    {
        Store { transactions: Vec::new() }
    }

    /// Whether some entry carries `id`.
    pub fn contains_id(&self, id: u128) -> (r: bool)
        ensures
            r == contains_id_spec(self@, id),
    {
        let n: usize = self.transactions.len();
        let mut i: usize = 0;
        while i < n
            invariant
                0 <= i <= n,
                n == self.transactions@.len(),
                forall|k: int| 0 <= k < i ==> self@[k].id != id,
            decreases n - i,
        {
            if self.transactions[i].id == id {
                assert(self@[i as int].id == id);
                return true;
            }
            i = i + 1;
        }
        false
    }

    /// The position of the entry carrying `id`, if any.
    fn find_index(&self, id: u128) -> (r: Option<usize>)
        ensures
            match r {
                Some(p) => p < self@.len() && self@[p as int].id == id,
                None => !contains_id_spec(self@, id),
            },
    {
        let n: usize = self.transactions.len();
        let mut i: usize = 0;
        while i < n
            invariant
                0 <= i <= n,
                n == self.transactions@.len(),
                forall|k: int| 0 <= k < i ==> self@[k].id != id,
            decreases n - i,
        {
            if self.transactions[i].id == id {
                assert(self@[i as int].id == id);
                return Some(i);
            }
            i = i + 1;
        }
        None
    }

    /// An identifier that no current entry carries: a randomly drawn one
    /// when it is free, else the least free one, which always exists.
    fn fresh_id(&self) -> (id: u128)
        ensures
            !contains_id_spec(self@, id),
    {
        let drawn = random_id();
        if !self.contains_id(drawn) {
            return drawn;
        }
        let n: usize = self.transactions.len();
        let mut c: u128 = 0;
        loop
            invariant
                n == self.transactions@.len(),
                c <= n,
                forall|x: u128| x < c ==> contains_id_spec(self@, x),
            decreases n - c,
        {
            if !self.contains_id(c) {
                return c;
            }
            proof {
                assert forall|x: u128| x < c + 1 implies contains_id_spec(self@, x) by {
                    if x == c {
                        assert(contains_id_spec(self@, c));
                    }
                }
                lemma_id_pigeonhole(self@, (c + 1) as u128);
            }
            c = c + 1;
        }
    }

    /// Validates and appends one new entry: names are trimmed and must be
    /// nonempty, the amount must be finite, the timestamp defaults to the
    /// caller's clock reading, and the assigned identifier is fresh, which
    /// keeps all identifiers pairwise distinct.
    pub fn create_transaction(&mut self, req: CreateTransaction, now: u64) -> (r: Result<
        Transaction,
        ServiceError,
    >)
        requires
            store_wf(old(self)@),
        ensures
            store_wf(final(self)@),
            match r {
                Ok(t) => {
                    &&& trim_spec(req.user@).len() > 0
                    &&& trim_spec(req.item@).len() > 0
                    &&& finite_value(req.amount) is Some
                    &&& final(self)@ == old(self)@.push(t@)
                    &&& t@.user == trim_spec(req.user@)
                    &&& t@.item == trim_spec(req.item@)
                    &&& Some(t@.amount) == finite_value(req.amount)
                    &&& t@.timestamp == (match req.timestamp {
                        Some(ts) => ts,
                        None => now,
                    })
                    &&& !contains_id_spec(old(self)@, t@.id)
                },
                Err(e) => {
                    &&& e == ServiceError::Validation
                    &&& final(self)@ == old(self)@
                    &&& (trim_spec(req.user@).len() == 0 || trim_spec(req.item@).len() == 0
                        || finite_value(req.amount) is None)
                },
            },
    {
        let user = trim(&req.user);
        let item = trim(&req.item);
        if user.len() == 0 || item.len() == 0 {
            return Err(ServiceError::Validation);
        }
        let amount: i64;
        match req.amount {
            AmountInput::Finite(a) => {
                amount = a;
            },
            AmountInput::NonFinite => {
                return Err(ServiceError::Validation);
            },
        }
        let timestamp: u64 = match req.timestamp {
            Some(ts) => ts,
            None => now,
        };
        let id = self.fresh_id();
        let t = Transaction { id, user, item, amount, timestamp };
        let ghost prev = self@;
        self.transactions.push(t.clone());
        proof {
            assert(self@ =~= prev.push(t@));
            lemma_trim_idempotent(req.user@);
            lemma_trim_idempotent(req.item@);
            assert(valid_record(t@));
            assert forall|p: int, q: int| 0 <= p < q < self@.len() implies self@[p].id
                != self@[q].id by {
                if q == prev.len() {
                    assert(!contains_id_spec(prev, t@.id));
                    assert(prev[p].id != t@.id);
                }
            }
        }
        Ok(t)
    }

    /// A snapshot copy of the whole collection, in insertion order. The
    /// result depends on the store's state alone, so every reader of a
    /// quiescent store receives the same snapshot.
    pub fn list_transactions(&self) -> (r: Vec<Transaction>)
        ensures
            col_view(r@) == self@,
    {
        let n: usize = self.transactions.len();
        let mut out: Vec<Transaction> = Vec::new();
        let mut i: usize = 0;
        while i < n
            invariant
                0 <= i <= n,
                n == self.transactions@.len(),
                col_view(out@) =~= self@.subrange(0, i as int),
            decreases n - i,
        {
            let ghost oldout = out@;
            out.push(self.transactions[i].clone());
            proof {
                assert(col_view(oldout).len() == oldout.len());
                assert(oldout.len() == i);
                assert(out@.len() == i + 1);
                assert(col_view(out@).len() == i + 1);
                assert(self@.len() == n);
                assert forall|k: int| 0 <= k < i + 1 implies #[trigger] col_view(out@)[k]
                    == self@.subrange(0, i + 1)[k] by {
                    if k < i {
                        assert(out@[k] == oldout[k]);
                        assert(col_view(oldout)[k] == oldout[k]@);
                    } else {
                        assert(out@[k]@ == self@[k]);
                    }
                }
                assert(col_view(out@) =~= self@.subrange(0, i + 1));
            }
            i = i + 1;
        }
        proof {
            assert(self@.subrange(0, n as int) =~= self@);
        }
        out
    }

    /// The entry carrying `id`, if any, by linear scan.
    pub fn get_transaction(&self, id: u128) -> (r: Option<Transaction>)
        ensures
            match r {
                Some(t) => t@.id == id && exists|p: int|
                    0 <= p < self@.len() && #[trigger] self@[p] == t@,
                None => !contains_id_spec(self@, id),
            },
    {
        match self.find_index(id) {
            Some(p) => {
                let t = self.transactions[p].clone();
                assert(self@[p as int] == t@);
                Some(t)
            },
            None => None,
        }
    }

    /// Applies the supplied fields to the entry carrying `id`, re-validating
    /// each with the same rules as creation; absent fields, and the
    /// identifier, stay as they were. Nothing changes unless every supplied
    /// field is valid.
    pub fn update_transaction(&mut self, id: u128, req: UpdateTransaction) -> (r: Result<
        Transaction,
        ServiceError,
    >)
        requires
            store_wf(old(self)@),
        ensures
            store_wf(final(self)@),
            match r {
                Ok(t) => {
                    &&& contains_id_spec(old(self)@, id)
                    &&& t@.id == id
                    &&& (match req.user {
                        Some(u) => trim_spec(u@).len() > 0 && t@.user == trim_spec(u@),
                        None => true,
                    })
                    &&& (match req.item {
                        Some(v) => trim_spec(v@).len() > 0 && t@.item == trim_spec(v@),
                        None => true,
                    })
                    &&& (match req.amount {
                        Some(a) => Some(t@.amount) == finite_value(a),
                        None => true,
                    })
                    &&& (match req.timestamp {
                        Some(ts) => t@.timestamp == ts,
                        None => true,
                    })
                    &&& exists|p: int|
                        {
                            &&& 0 <= p < old(self)@.len()
                            &&& (#[trigger] old(self)@[p]).id == id
                            &&& final(self)@ == old(self)@.update(p, t@)
                            &&& (req.user is None ==> t@.user == old(self)@[p].user)
                            &&& (req.item is None ==> t@.item == old(self)@[p].item)
                            &&& (req.amount is None ==> t@.amount == old(self)@[p].amount)
                            &&& (req.timestamp is None ==> t@.timestamp == old(self)@[p].timestamp)
                        }
                },
                Err(e) => {
                    &&& final(self)@ == old(self)@
                    &&& (e == ServiceError::NotFound <==> !contains_id_spec(old(self)@, id))
                    &&& (e == ServiceError::NotFound || e == ServiceError::Validation)
                    &&& (e == ServiceError::Validation ==> ((match req.user {
                        Some(u) => trim_spec(u@).len() == 0,
                        None => false,
                    }) || (match req.item {
                        Some(v) => trim_spec(v@).len() == 0,
                        None => false,
                    }) || (match req.amount {
                        Some(a) => finite_value(a) is None,
                        None => false,
                    })))
                },
            },
    {
        let p: usize;
        match self.find_index(id) {
            Some(q) => {
                p = q;
            },
            None => {
                return Err(ServiceError::NotFound);
            },
        }
        let old_t = &self.transactions[p];
        let mut user = old_t.user.clone();
        let mut item = old_t.item.clone();
        let mut amount = old_t.amount;
        let mut timestamp = old_t.timestamp;
        match &req.user {
            Some(u) => {
                let tu = trim(u);
                if tu.len() == 0 {
                    return Err(ServiceError::Validation);
                }
                user = tu;
            },
            None => {},
        }
        match &req.item {
            Some(v) => {
                let tv = trim(v);
                if tv.len() == 0 {
                    return Err(ServiceError::Validation);
                }
                item = tv;
            },
            None => {},
        }
        match req.amount {
            Some(a) => {
                match a {
                    AmountInput::Finite(x) => {
                        amount = x;
                    },
                    AmountInput::NonFinite => {
                        return Err(ServiceError::Validation);
                    },
                }
            },
            None => {},
        }
        match req.timestamp {
            Some(ts) => {
                timestamp = ts;
            },
            None => {},
        }
        let t = Transaction { id, user, item, amount, timestamp };
        let ghost prev = self@;
        self.transactions.set(p, t.clone());
        proof {
            assert(self@ =~= prev.update(p as int, t@));
            assert(valid_record(prev[p as int]));
            if req.user is Some {
                lemma_trim_idempotent(req.user->0@);
            }
            if req.item is Some {
                lemma_trim_idempotent(req.item->0@);
            }
            assert(valid_record(t@));
            assert forall|a: int, b: int| 0 <= a < b < self@.len() implies self@[a].id
                != self@[b].id by {
                assert(prev[a].id != prev[b].id);
            }
            assert(0 <= p < prev.len() && prev[p as int].id == id && self@ == prev.update(
                p as int,
                t@,
            ));
        }
        Ok(t)
    }

    /// Removes the entry carrying `id`; reports `NotFound`, with the
    /// collection unchanged, exactly when no entry carried it. One call
    /// after a successful one for the same identifier therefore reports
    /// `NotFound`, and the collection is shorter by exactly one entry.
    pub fn delete_transaction(&mut self, id: u128) -> (r: Result<(), ServiceError>)
        requires
            store_wf(old(self)@),
        ensures
            store_wf(final(self)@),
            match r {
                Ok(()) => {
                    &&& contains_id_spec(old(self)@, id)
                    &&& !contains_id_spec(final(self)@, id)
                    &&& final(self)@.len() == old(self)@.len() - 1
                    &&& exists|p: int|
                        {
                            &&& 0 <= p < old(self)@.len()
                            &&& (#[trigger] old(self)@[p]).id == id
                            &&& final(self)@ == old(self)@.subrange(0, p) + old(self)@.subrange(
                                p + 1,
                                old(self)@.len() as int,
                            )
                        }
                },
                Err(e) => {
                    &&& e == ServiceError::NotFound
                    &&& !contains_id_spec(old(self)@, id)
                    &&& final(self)@ == old(self)@
                },
            },
    {
        let p: usize;
        match self.find_index(id) {
            Some(q) => {
                p = q;
            },
            None => {
                return Err(ServiceError::NotFound);
            },
        }
        let ghost prev = self@;
        self.transactions.remove(p);
        proof {
            assert(self@ =~= prev.subrange(0, p as int) + prev.subrange(
                p + 1,
                prev.len() as int,
            ));
            assert forall|a: int, b: int| 0 <= a < b < self@.len() implies self@[a].id
                != self@[b].id by {
                let a0 = if a < p { a } else { a + 1 };
                let b0 = if b < p { b } else { b + 1 };
                assert(self@[a] == prev[a0] && self@[b] == prev[b0]);
                assert(prev[a0].id != prev[b0].id);
            }
            assert forall|q: int| 0 <= q < self@.len() implies valid_record(
                #[trigger] self@[q],
            ) by {
                let q0 = if q < p { q } else { q + 1 };
                assert(self@[q] == prev[q0]);
            }
            assert(0 <= p < prev.len() && prev[p as int].id == id);
            if contains_id_spec(self@, id) {
                let w = choose|w: int| 0 <= w < self@.len() && self@[w].id == id;
                let w0 = if w < p { w } else { w + 1 };
                assert(prev[w0].id == id && w0 != p);
            }
        }
        Ok(())
    }
}


/// The derived per-user view: the matching entries, how many there are,
/// and the exact arithmetic sum of their amounts.
pub struct UserSummary {
    pub user: Vec<u8>,
    pub count: usize,
    pub total_amount: i128,
    pub transactions: Vec<Transaction>,
}

impl Store {
    /// Filters the collection by exact user equality, with no trimming or
    /// folding, and sums the matching amounts; the sum is zero, over no
    /// entries, when nothing matches.
    pub fn user_summary(&self, user: &Vec<u8>) -> (r: UserSummary)
        ensures
            r.user@ == user@,
            col_view(r.transactions@) == filter_user(self@, user@),
            r.count == filter_user(self@, user@).len(),
            r.total_amount as int == sum_amounts(filter_user(self@, user@)),
    {
        let n: usize = self.transactions.len();
        let mut out: Vec<Transaction> = Vec::new();
        let mut total: i128 = 0;
        let mut i: usize = 0;
        proof {
            assert(self@.subrange(0, 0) =~= Seq::<TransactionV>::empty());
            assert(col_view(out@) =~= filter_user(self@.subrange(0, 0), user@));
        }
        while i < n
            invariant
                0 <= i <= n,
                n == self.transactions@.len(),
                n == self@.len(),
                out@.len() <= i,
                col_view(out@) == filter_user(self@.subrange(0, i as int), user@),
                total == sum_amounts(filter_user(self@.subrange(0, i as int), user@)),
                -(i as int) * 0x8000_0000_0000_0000 <= total <= (i as int)
                    * 0x7fff_ffff_ffff_ffff,
            decreases n - i,
        {
            let ghost pre = self@.subrange(0, i as int);
            let ghost cur = self@.subrange(0, i + 1);
            proof {
                assert(cur.drop_last() =~= pre);
                assert(cur.last() == self@[i as int]);
                assert(out@.len() == col_view(out@).len());
                let im = i as int;
                assert(im + 1 <= 0x1_0000_0000_0000_0000) by {
                    assert(i < n <= usize::MAX);
                }
                assert((im + 1) * 0x7fff_ffff_ffff_ffff <= 0x1_0000_0000_0000_0000
                    * 0x7fff_ffff_ffff_ffff) by (nonlinear_arith)
                    requires
                        0 <= im + 1 <= 0x1_0000_0000_0000_0000,
                ;
                assert((im + 1) * 0x8000_0000_0000_0000 <= 0x1_0000_0000_0000_0000
                    * 0x8000_0000_0000_0000) by (nonlinear_arith)
                    requires
                        0 <= im + 1 <= 0x1_0000_0000_0000_0000,
                ;
                assert(im * 0x7fff_ffff_ffff_ffff <= (im + 1) * 0x7fff_ffff_ffff_ffff)
                    by (nonlinear_arith)
                    requires
                        im >= 0,
                ;
                assert((im + 1) * 0x8000_0000_0000_0000 >= im * 0x8000_0000_0000_0000)
                    by (nonlinear_arith)
                    requires
                        im >= 0,
                ;
            }
            let t = &self.transactions[i];
            if bytes_eq(&t.user, user) {
                let ghost oldout = out@;
                out.push(t.clone());
                total = total + (t.amount as i128);
                proof {
                    lemma_col_view_push(oldout, self.transactions@[i as int]);
                    assert(filter_user(cur, user@) =~= filter_user(pre, user@).push(
                        self@[i as int],
                    ));
                    assert(filter_user(cur, user@).drop_last() =~= filter_user(pre, user@));
                    assert(col_view(out@) =~= filter_user(cur, user@));
                }
            } else {
                proof {
                    assert(cur.last().user != user@);
                    assert(filter_user(cur, user@) =~= filter_user(pre, user@));
                }
            }
            i = i + 1;
        }
        proof {
            assert(self@.subrange(0, n as int) =~= self@);
        }
        UserSummary { user: clone_bytes(user), count: out.len(), total_amount: total, transactions: out }
    }

    /// The bytes that each persist writes: always the entire collection's
    /// encoding, never a delta.
    pub fn snapshot_bytes(&self) -> (out: Vec<u8>)
        ensures
            out@ == enc_col(self@),
    {
        encode(&self.transactions)
    }

    /// Startup load from the mirror's bytes. The encoding of any
    /// well-formed collection loads back to exactly that collection (the
    /// round trip); any other bytes degrade to the empty store rather than
    /// failing startup.
    pub fn from_bytes(bytes: &Vec<u8>) -> (s: Store)
        ensures
            store_wf(s@),
            forall|m: Seq<TransactionV>|
                #[trigger] col_at(bytes@, m) && store_wf(m) ==> s@ == m,
            s@ == Seq::<TransactionV>::empty() || col_at(bytes@, s@),
    {
        match decode(bytes) {
            Some(v) => {
                if check_wf(&v) {
                    Store { transactions: v }
                } else {
                    Store::new()
                }
            },
            None => {
                let s = Store::new();
                proof {
                    assert(s@ =~= Seq::<TransactionV>::empty());
                }
                s
            },
        }
    }
}

/// A copy of a byte string.
fn clone_bytes(v: &Vec<u8>) -> (r: Vec<u8>)
    ensures
        r@ == v@,
{
    let mut r: Vec<u8> = Vec::new();
    let n: usize = v.len();
    let mut i: usize = 0;
    while i < n
        invariant
            0 <= i <= n,
            n == v@.len(),
            r@ == v@.subrange(0, i as int),
        decreases n - i,
    {
        r.push(v[i]);
        assert(r@ =~= v@.subrange(0, i + 1));
        i = i + 1;
    }
    assert(v@.subrange(0, n as int) =~= v@);
    r
}

/// Whether a decoded collection satisfies the store's invariant.
fn check_wf(v: &Vec<Transaction>) -> (r: bool)
    ensures
        r == store_wf(col_view(v@)),
{
    let ghost m = col_view(v@);
    let n: usize = v.len();
    let mut p: usize = 0;
    while p < n
        invariant
            0 <= p <= n,
            n == v@.len(),
            m == col_view(v@),
            forall|a: int, b: int| 0 <= a < b < n && a < p ==> m[a].id != m[b].id,
            forall|a: int| 0 <= a < p ==> valid_record(#[trigger] m[a]),
        decreases n - p,
    {
        let t = &v[p];
        if t.user.len() == 0 || t.item.len() == 0 {
            proof {
                lemma_valid_iff(m[p as int]);
            }
            return false;
        }
        if is_space_byte(t.user[0]) || is_space_byte(t.user[t.user.len() - 1]) || is_space_byte(
            t.item[0],
        ) || is_space_byte(t.item[t.item.len() - 1]) {
            proof {
                lemma_valid_iff(m[p as int]);
            }
            return false;
        }
        proof {
            lemma_valid_iff(m[p as int]);
            assert(m[p as int].user.last() == t.user@[t.user@.len() - 1]);
        }
        let mut q: usize = p + 1;
        while q < n
            invariant
                0 <= p < q <= n,
                n == v@.len(),
                m == col_view(v@),
                forall|b: int| p < b < q ==> m[p as int].id != m[b].id,
            decreases n - q,
        {
            if v[p].id == v[q].id {
                assert(m[p as int].id == m[q as int].id);
                return false;
            }
            q = q + 1;
        }
        p = p + 1;
    }
    true
}

} // verus!
