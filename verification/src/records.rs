//! The unit of storage: a financial entry with a unique identifier, and the
//! validation rules that every stored entry obeys.
//!
//! Names (`user`, `item`) are byte strings; amounts are integer counts of
//! minor currency units, so that summary arithmetic is exact; timestamps are
//! integer seconds since the epoch.

use vstd::prelude::*;

verus! {

/// Whitespace bytes stripped from the ends of user and item names.
pub open spec fn is_space(b: u8) -> bool {
    b == 0x20 || b == 0x09 || b == 0x0a || b == 0x0b || b == 0x0c || b == 0x0d
}

pub fn is_space_byte(b: u8) -> (r: bool)
    ensures
        r == is_space(b),
{
    b == 0x20 || b == 0x09 || b == 0x0a || b == 0x0b || b == 0x0c || b == 0x0d
}

/// The name with leading whitespace removed.
pub open spec fn trim_start_spec(s: Seq<u8>) -> Seq<u8>
    decreases s.len(),
{
    if s.len() > 0 && is_space(s[0]) {
        trim_start_spec(s.drop_first())
    } else {
        s
    }
}

/// The name with trailing whitespace removed.
pub open spec fn trim_end_spec(s: Seq<u8>) -> Seq<u8>
    decreases s.len(),
{
    if s.len() > 0 && is_space(s.last()) {
        trim_end_spec(s.drop_last())
    } else {
        s
    }
}

/// The name with whitespace removed from both ends.
pub open spec fn trim_spec(s: Seq<u8>) -> Seq<u8> {
    trim_end_spec(trim_start_spec(s))
}

proof fn lemma_trim_start_char(s: Seq<u8>, i: int)
    requires
        0 <= i <= s.len(),
        forall|k: int| 0 <= k < i ==> is_space(s[k]),
        i < s.len() ==> !is_space(s[i]),
    ensures
        trim_start_spec(s) == s.subrange(i, s.len() as int),
    decreases i,
{
    if i == 0 {
        assert(trim_start_spec(s) =~= s.subrange(0, s.len() as int));
    } else {
        let t = s.drop_first();
        assert(is_space(s[0]));
        lemma_trim_start_char(t, i - 1);
        assert(t.subrange(i - 1, t.len() as int) =~= s.subrange(i, s.len() as int));
    }
}

proof fn lemma_trim_end_char(s: Seq<u8>, j: int)
    requires
        0 <= j <= s.len(),
        forall|k: int| j <= k < s.len() ==> is_space(s[k]),
        j > 0 ==> !is_space(s[j - 1]),
    ensures
        trim_end_spec(s) == s.subrange(0, j),
    decreases s.len() - j,
{
    if j == s.len() {
        assert(trim_end_spec(s) =~= s.subrange(0, j));
    } else {
        let t = s.drop_last();
        assert(is_space(s.last()));
        lemma_trim_end_char(t, j);
        assert(t.subrange(0, j) =~= s.subrange(0, j));
    }
}

/// A name already free of edge whitespace trims to itself.
pub proof fn lemma_trim_of_clean(s: Seq<u8>)
    requires
        s.len() == 0 || (!is_space(s[0]) && !is_space(s.last())),
    ensures
        trim_spec(s) == s,
{
    if s.len() == 0 {
        lemma_trim_start_char(s, 0);
        lemma_trim_end_char(s, 0);
        assert(s.subrange(0, 0) =~= s);
    } else {
        lemma_trim_start_char(s, 0);
        assert(s.subrange(0, s.len() as int) =~= s);
        lemma_trim_end_char(s, s.len() as int);
    }
}

/// Trimming leaves no whitespace at either end of a nonempty result.
pub proof fn lemma_trim_no_edge_space(s: Seq<u8>)
    ensures
        trim_spec(s).len() > 0 ==> !is_space(trim_spec(s)[0]),
        trim_spec(s).len() > 0 ==> !is_space(trim_spec(s).last()),
        trim_spec(s).len() <= s.len(),
    decreases s.len(),
{
    let t = trim_start_spec(s);
    lemma_trim_start_no_lead(s);
    lemma_trim_end_keeps_first(t);
}

proof fn lemma_trim_start_no_lead(s: Seq<u8>)
    ensures
        trim_start_spec(s).len() > 0 ==> !is_space(trim_start_spec(s)[0]),
        trim_start_spec(s).len() <= s.len(),
    decreases s.len(),
{
    if s.len() > 0 && is_space(s[0]) {
        lemma_trim_start_no_lead(s.drop_first());
    }
}

proof fn lemma_trim_end_keeps_first(s: Seq<u8>)
    ensures
        trim_end_spec(s).len() > 0 ==> !is_space(trim_end_spec(s).last()),
        trim_end_spec(s).len() <= s.len(),
        trim_end_spec(s).len() > 0 ==> s.len() > 0 && trim_end_spec(s)[0] == s[0],
    decreases s.len(),
{
    if s.len() > 0 && is_space(s.last()) {
        lemma_trim_end_keeps_first(s.drop_last());
    }
}

/// Trimming is idempotent.
pub proof fn lemma_trim_idempotent(s: Seq<u8>)
    ensures
        trim_spec(trim_spec(s)) == trim_spec(s),
{
    lemma_trim_no_edge_space(s);
    lemma_trim_of_clean(trim_spec(s));
}

/// Strips whitespace from both ends of a byte-string name.
pub fn trim(s: &Vec<u8>) -> (out: Vec<u8>)
    ensures
        out@ == trim_spec(s@),
{
    let n: usize = s.len();
    let mut i: usize = 0;
    while i < n && is_space_byte(s[i])
        invariant
            0 <= i <= n,
            n == s.len(),
            forall|k: int| 0 <= k < i ==> is_space(s@[k]),
        decreases n - i,
    {
        i = i + 1;
    }
    let mut j: usize = n;
    while j > i && is_space_byte(s[j - 1])
        invariant
            i <= j <= n,
            n == s.len(),
            forall|k: int| j <= k < n ==> is_space(s@[k]),
        decreases j,
    {
        j = j - 1;
    }
    let mut out: Vec<u8> = Vec::new();
    let mut k: usize = i;
    while k < j
        invariant
            i <= k <= j <= n,
            n == s.len(),
            out@ == s@.subrange(i as int, k as int),
        decreases j - k,
    {
        out.push(s[k]);
        assert(out@ =~= s@.subrange(i as int, k + 1 as int));
        k = k + 1;
    }
    proof {
        if i == n {
            lemma_trim_start_char(s@, i as int);
            lemma_trim_end_char(trim_start_spec(s@), 0);
            assert(out@ =~= trim_spec(s@));
        } else {
            lemma_trim_start_char(s@, i as int);
            let t = s@.subrange(i as int, n as int);
            lemma_trim_end_char(t, j - i as int);
            assert(t.subrange(0, j - i as int) =~= s@.subrange(i as int, j as int));
            assert(out@ =~= trim_spec(s@));
        }
    }
    out
}

/// Two byte strings hold the same bytes.
pub fn bytes_eq(a: &Vec<u8>, b: &Vec<u8>) -> (r: bool)
    ensures
        r == (a@ == b@),
{
    if a.len() != b.len() {
        return false;
    }
    let n: usize = a.len();
    let mut i: usize = 0;
    while i < n
        invariant
            0 <= i <= n,
            n == a@.len() == b@.len(),
            forall|k: int| 0 <= k < i ==> a@[k] == b@[k],
        decreases n - i,
    {
        if a[i] != b[i] {
            return false;
        }
        i = i + 1;
    }
    proof {
        assert(a@ =~= b@);
    }
    true
}

/// One stored financial entry.
pub struct Transaction {
    /// Unique 128-bit identifier, assigned once at creation.
    pub id: u128,
    /// Nonempty, trimmed name of the user the entry belongs to.
    pub user: Vec<u8>,
    /// Nonempty, trimmed name of the item the entry records.
    pub item: Vec<u8>,
    /// Signed amount in minor currency units.
    pub amount: i64,
    /// Seconds since the epoch.
    pub timestamp: u64,
}

/// The mathematical value of one entry.
#[verifier::ext_equal]
pub struct TransactionV {
    pub id: u128,
    pub user: Seq<u8>,
    pub item: Seq<u8>,
    pub amount: i64,
    pub timestamp: u64,
}

impl View for Transaction {
    type V = TransactionV;

    open spec fn view(&self) -> TransactionV {
        TransactionV {
            id: self.id,
            user: self.user@,
            item: self.item@,
            amount: self.amount,
            timestamp: self.timestamp,
        }
    }
}

impl Clone for Transaction {
    fn clone(&self) -> (r: Self)
        ensures
            r@ == self@,
    {
        Transaction {
            id: self.id,
            user: self.user.clone(),
            item: self.item.clone(),
            amount: self.amount,
            timestamp: self.timestamp,
        }
    }
}

/// A stored entry is valid when its names are nonempty and already trimmed.
pub open spec fn valid_record(r: TransactionV) -> bool {
    &&& r.user.len() > 0
    &&& r.user == trim_spec(r.user)
    &&& r.item.len() > 0
    &&& r.item == trim_spec(r.item)
}

/// The sequence of entry values held by a sequence of entries.
pub open spec fn col_view(s: Seq<Transaction>) -> Seq<TransactionV> {
    s.map_values(|t: Transaction| t@)
}

pub proof fn lemma_col_view_push(v: Seq<Transaction>, t: Transaction)
    ensures
        col_view(v.push(t)) == col_view(v).push(t@),
{
    assert(col_view(v.push(t)) =~= col_view(v).push(t@));
}

/// A numeric amount as received from a caller: either representable in minor
/// units, or a non-finite quantity that validation must reject.
pub enum AmountInput {
    Finite(i64),
    NonFinite,
}

/// A request to add one entry.
pub struct CreateTransaction {
    pub user: Vec<u8>,
    pub item: Vec<u8>,
    pub amount: AmountInput,
    /// Seconds since the epoch; absent means "use the current time".
    pub timestamp: Option<u64>,
}

/// A request to change some fields of one entry; absent fields are kept.
pub struct UpdateTransaction {
    pub user: Option<Vec<u8>>,
    pub item: Option<Vec<u8>>,
    pub amount: Option<AmountInput>,
    pub timestamp: Option<u64>,
}

} // verus!
