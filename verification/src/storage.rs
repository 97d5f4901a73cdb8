//! The ledger and its day-index maintainer.

use vstd::prelude::*;
use crate::date::is_valid_date;

verus! {

/// A stored transaction. The amount is carried as its decimal text; the
/// maintainer never interprets it.
#[derive(Debug, Clone)]
pub struct Transaction {
    pub id: i32,
    pub description: String,
    pub amount: String,
    pub transaction_type: String,
    pub date: String,
}

/// The fields of a transaction before an id is assigned.
#[derive(Debug, Clone)]
pub struct TransactionInput {
    pub description: String,
    pub amount: String,
    pub transaction_type: String,
    pub date: String,
}

/// A free-text note.
#[derive(Debug, Clone)]
pub struct Note {
    pub id: i32,
    pub content: String,
}

/// The content of a note before an id is assigned.
#[derive(Debug, Clone)]
pub struct NoteInput {
    pub content: String,
}

/// A day marker: a date that has at least one transaction.
#[derive(Debug, Clone)]
pub struct Day {
    pub date: String,
}

/// Why a ledger operation failed.
#[derive(Debug, Clone, Copy, PartialEq, Eq, Structural)]
pub enum StorageError {
    /// The date string does not match `DD.MM.YYYY`.
    InvalidDateFormat,
    /// No transaction has the given id.
    NotFound,
    /// The backing store handed over data the ledger cannot accept.
    StoreFailure,
}

/// The mathematical value of a transaction.
pub ghost struct TransactionView {
    pub id: int,
    pub description: Seq<char>,
    pub amount: Seq<char>,
    pub transaction_type: Seq<char>,
    pub date: Seq<char>,
}

impl View for Transaction {
    type V = TransactionView;

    open spec fn view(&self) -> TransactionView {
        TransactionView {
            id: self.id as int,
            description: self.description@,
            amount: self.amount@,
            transaction_type: self.transaction_type@,
            date: self.date@,
        }
    }
}

impl View for Day {
    type V = Seq<char>;

    open spec fn view(&self) -> Seq<char> {
        self.date@
    }
}

/// The mathematical value of a ledger: the transactions, the day markers in
/// storage order, and the next id to hand out.
pub ghost struct LedgerView {
    pub transactions: Seq<TransactionView>,
    pub days: Seq<Seq<char>>,
    pub next_id: int,
}

/// Whether some transaction in `txs` has date `d`.
pub open spec fn has_tx_on(txs: Seq<TransactionView>, d: Seq<char>) -> bool {
    exists|i: int| 0 <= i < txs.len() && txs[i].date == d
}

impl LedgerView {
    /// Day-index coherence: a day marker exists exactly when some
    /// transaction has that date.
    pub open spec fn coherent(self) -> bool {
        forall|d: Seq<char>| #[trigger] self.days.contains(d) == has_tx_on(self.transactions, d)
    }

    /// No date has two markers.
    pub open spec fn days_distinct(self) -> bool {
        forall|i: int, j: int|
            0 <= i < j < self.days.len() ==> self.days[i] != self.days[j]
    }

    /// Ids are positive, below the next id to assign, and pairwise distinct.
    pub open spec fn ids_ok(self) -> bool {
        &&& forall|i: int|
            0 <= i < self.transactions.len() ==> 1 <= #[trigger] self.transactions[i].id
                < self.next_id
        &&& forall|i: int, j: int|
            0 <= i < j < self.transactions.len() ==> self.transactions[i].id
                != self.transactions[j].id
    }

    /// Every stored date is a valid `DD.MM.YYYY` string.
    pub open spec fn dates_valid(self) -> bool {
        forall|i: int|
            0 <= i < self.transactions.len() ==> is_valid_date(
                #[trigger] self.transactions[i].date,
            )
    }

    /// The ledger invariant, established by the constructors and preserved
    /// by every operation.
    pub open spec fn inv(self) -> bool {
        &&& self.coherent()
        &&& self.days_distinct()
        &&& self.ids_ok()
        &&& self.dates_valid()
        &&& 1 <= self.next_id <= i32::MAX
    }
}

/// The ledger: primary transaction records and the derived day markers.
pub struct Ledger {
    transactions: Vec<Transaction>,
    days: Vec<String>,
    next_id: i32,
}

impl View for Ledger {
    type V = LedgerView;

    closed spec fn view(&self) -> LedgerView {
        LedgerView {
            transactions: self.transactions@.map_values(|t: Transaction| t@),
            days: self.days@.map_values(|d: String| d@),
            next_id: self.next_id as int,
        }
    }
}

/// Pushing an element extends the members of a sequence by exactly that
/// element.
proof fn lemma_push_contains<A>(s: Seq<A>, x: A, y: A)
    ensures
        s.push(x).contains(y) <==> (s.contains(y) || y == x),
{
    if s.contains(y) {
        let i = choose|i: int| 0 <= i < s.len() && s[i] == y;
        assert(s.push(x)[i] == y);
    }
    assert(s.push(x)[s.len() as int] == x);
    if s.push(x).contains(y) {
        let i = choose|i: int| 0 <= i < s.push(x).len() && s.push(x)[i] == y;
        if i < s.len() {
            assert(s[i] == y);
        }
    }
}

/// Removing position `p` from a duplicate-free sequence removes exactly the
/// element standing there.
proof fn lemma_remove_contains_distinct<A>(s: Seq<A>, p: int, y: A)
    requires
        0 <= p < s.len(),
        forall|i: int, j: int| 0 <= i < j < s.len() ==> s[i] != s[j],
    ensures
        s.remove(p).contains(y) <==> (s.contains(y) && y != s[p]),
{
    let r = s.remove(p);
    s.remove_ensures(p);
    if r.contains(y) {
        let i = choose|i: int| 0 <= i < r.len() && r[i] == y;
        if i < p {
            assert(s[i] == y);
            assert(s[i] != s[p]);
        } else {
            assert(s[i + 1] == y);
            assert(s[i + 1] != s[p]);
        }
    }
    if s.contains(y) && y != s[p] {
        let i = choose|i: int| 0 <= i < s.len() && s[i] == y;
        if i < p {
            assert(r[i] == y);
        } else {
            assert(r[i - 1] == y);
        }
    }
}

/// String equality, decided by the characters.
fn string_eq(a: &String, b: &String) -> (r: bool)
    ensures
        r == (a@ == b@),
{
    a.eq(b)
}

/// Whether `d` already has a marker in `days`.
fn contains_day(days: &Vec<String>, d: &String) -> (r: bool)
    ensures
        r == days@.map_values(|s: String| s@).contains(d@),
{
    let ghost dview = days@.map_values(|s: String| s@);
    let mut i: usize = 0;
    while i < days.len()
        invariant
            0 <= i <= days.len(),
            dview == days@.map_values(|s: String| s@),
            forall|j: int| 0 <= j < i ==> dview[j] != d@,
        decreases days.len() - i,
    {
        if string_eq(&days[i], d) {
            assert(dview[i as int] == d@);
            return true;
        }
        i += 1;
    }
    false
}

/// The position of the transaction with the given id, if any.
fn find_tx(txs: &Vec<Transaction>, id: i32) -> (r: Option<usize>)
    ensures
        match r {
            Some(i) => 0 <= i < txs@.len() && txs@[i as int].id == id,
            None => forall|j: int| 0 <= j < txs@.len() ==> txs@[j].id != id,
        },
{
    let mut i: usize = 0;
    while i < txs.len()
        invariant
            0 <= i <= txs.len(),
            forall|j: int| 0 <= j < i ==> txs@[j].id != id,
        decreases txs.len() - i,
    {
        if txs[i].id == id {
            return Some(i);
        }
        i += 1;
    }
    None
}

/// Whether some transaction in `txs` has the given id.
pub open spec fn has_tx_with_id(txs: Seq<TransactionView>, id: int) -> bool {
    exists|i: int| 0 <= i < txs.len() && txs[i].id == id
}

/// `post` is `pre` with the one marker for `d` taken out.
pub open spec fn removed_marker(pre: Seq<Seq<char>>, post: Seq<Seq<char>>, d: Seq<char>) -> bool {
    exists|j: int| 0 <= j < pre.len() && pre[j] == d && post == #[trigger] pre.remove(j)
}

/// Rows a well-formed store may hand back: positive, pairwise-distinct ids
/// below the id ceiling, and valid dates.
pub open spec fn rows_ok(txs: Seq<TransactionView>) -> bool {
    &&& forall|i: int| 0 <= i < txs.len() ==> 1 <= #[trigger] txs[i].id < i32::MAX
    &&& forall|i: int, j: int| 0 <= i < j < txs.len() ==> txs[i].id != txs[j].id
    &&& forall|i: int| 0 <= i < txs.len() ==> is_valid_date(#[trigger] txs[i].date)
}

/// The next id to assign after the given rows: one more than the largest id
/// seen, or one for an empty ledger.
pub open spec fn next_id_of(txs: Seq<TransactionView>) -> int
    decreases txs.len(),
{
    if txs.len() == 0 {
        1
    } else {
        let rest = next_id_of(txs.drop_last());
        let last = txs.last().id + 1;
        if last > rest {
            last
        } else {
            rest
        }
    }
}

/// An identical copy of a transaction.
fn clone_tx(t: &Transaction) -> (r: Transaction)
    ensures
        r@ == t@,
{
    Transaction {
        id: t.id,
        description: t.description.clone(),
        amount: t.amount.clone(),
        transaction_type: t.transaction_type.clone(),
        date: t.date.clone(),
    }
}

/// Whether some transaction carries date `d`.
fn exists_tx_with_date(txs: &Vec<Transaction>, d: &String) -> (r: bool)
    ensures
        r == has_tx_on(txs@.map_values(|t: Transaction| t@), d@),
{
    let ghost tview = txs@.map_values(|t: Transaction| t@);
    let mut i: usize = 0;
    while i < txs.len()
        invariant
            0 <= i <= txs.len(),
            tview == txs@.map_values(|t: Transaction| t@),
            forall|j: int| 0 <= j < i ==> tview[j].date != d@,
        decreases txs.len() - i,
    {
        if string_eq(&txs[i].date, d) {
            assert(tview[i as int].date == d@);
            return true;
        }
        i += 1;
    }
    false
}

/// The position of the marker for `d`, if any.
fn find_day(days: &Vec<String>, d: &String) -> (r: Option<usize>)
    ensures
        match r {
            Some(j) => 0 <= j < days@.len() && days@[j as int]@ == d@,
            None => !days@.map_values(|s: String| s@).contains(d@),
        },
{
    let ghost dview = days@.map_values(|s: String| s@);
    let mut i: usize = 0;
    while i < days.len()
        invariant
            0 <= i <= days.len(),
            dview == days@.map_values(|s: String| s@),
            forall|j: int| 0 <= j < i ==> dview[j] != d@,
        decreases days.len() - i,
    {
        if string_eq(&days[i], d) {
            return Some(i);
        }
        i += 1;
    }
    assert(forall|j: int| 0 <= j < dview.len() ==> #[trigger] dview[j] != d@);
    None
}

impl Ledger {
    /// An empty ledger.
    pub fn new() -> (l: Ledger)
        ensures
            l@.inv(),
            l@.transactions.len() == 0,
            l@.days.len() == 0,
            l@.next_id == 1,
    {
        let l = Ledger { transactions: Vec::new(), days: Vec::new(), next_id: 1 };
        proof {
            assert(l@.transactions =~= Seq::<TransactionView>::empty());
            assert(l@.days =~= Seq::<Seq<char>>::empty());
        }
        l
    }

    /// Inserts a new transaction and marks its day.
    ///
    /// The new record gets the next free id. A day marker for its date is
    /// inserted only if the date had none, so two transactions on one date
    /// share a single marker. A date not written `DD.MM.YYYY` is rejected
    /// before anything changes.
    pub fn add_transaction(&mut self, input: TransactionInput) -> (r: Result<i32, StorageError>)
        requires
            old(self)@.inv(),
        ensures
            final(self)@.inv(),
            r is Ok <==> (is_valid_date(input.date@) && old(self)@.next_id < i32::MAX),
            r is Err ==> *final(self) == *old(self),
            !is_valid_date(input.date@) ==> r == Err::<i32, StorageError>(
                StorageError::InvalidDateFormat,
            ),
            is_valid_date(input.date@) && old(self)@.next_id == i32::MAX ==> r == Err::<
                i32,
                StorageError,
            >(StorageError::StoreFailure),
            r is Ok ==> ({
                let t = TransactionView {
                    id: old(self)@.next_id,
                    description: input.description@,
                    amount: input.amount@,
                    transaction_type: input.transaction_type@,
                    date: input.date@,
                };
                &&& r == Ok::<i32, StorageError>((old(self)@.next_id) as i32)
                &&& final(self)@.transactions == old(self)@.transactions.push(t)
                &&& final(self)@.next_id == old(self)@.next_id + 1
                &&& final(self)@.days == (if old(self)@.days.contains(input.date@) {
                    old(self)@.days
                } else {
                    old(self)@.days.push(input.date@)
                })
            }),
    {
        if !crate::date::check_date(input.date.as_str()) {
            return Err(StorageError::InvalidDateFormat);
        }
        if self.next_id == i32::MAX {
            return Err(StorageError::StoreFailure);
        }
        let ghost v0 = self@;
        let id = self.next_id;
        self.next_id = id + 1;
        let date_copy = input.date.clone();
        let t = Transaction {
            id,
            description: input.description,
            amount: input.amount,
            transaction_type: input.transaction_type,
            date: input.date,
        };
        let ghost tv = t@;
        self.transactions.push(t);
        let had_day = contains_day(&self.days, &date_copy);
        if !had_day {
            self.days.push(date_copy);
        }
        proof {
            let v1 = self@;
            assert(v1.transactions =~= v0.transactions.push(tv));
            if had_day {
                assert(v1.days =~= v0.days);
            } else {
                assert(v1.days =~= v0.days.push(tv.date));
            }
            assert forall|d: Seq<char>| #[trigger] v1.days.contains(d) == has_tx_on(
                v1.transactions,
                d,
            ) by {
                lemma_push_contains(v0.days, tv.date, d);
                if has_tx_on(v0.transactions, d) {
                    let i = choose|i: int|
                        0 <= i < v0.transactions.len() && v0.transactions[i].date == d;
                    assert(v1.transactions[i].date == d);
                }
                if has_tx_on(v1.transactions, d) && d != tv.date {
                    let i = choose|i: int|
                        0 <= i < v1.transactions.len() && v1.transactions[i].date == d;
                    assert(i < v0.transactions.len());
                    assert(v0.transactions[i].date == d);
                }
                assert(v1.transactions[v0.transactions.len() as int].date == tv.date);
            }
            assert(v1.days_distinct()) by {
                assert forall|i: int, j: int| 0 <= i < j < v1.days.len() implies v1.days[i]
                    != v1.days[j] by {
                    if j == v0.days.len() {
                        assert(v1.days[i] == v0.days[i]);
                        if v0.days[i] == tv.date {
                            assert(v0.days.contains(tv.date));
                        }
                    }
                }
            }
            assert(v1.ids_ok()) by {
                assert(forall|i: int|
                    0 <= i < v0.transactions.len() ==> v1.transactions[i]
                        == v0.transactions[i]);
            }
            assert(v1.dates_valid()) by {
                assert(forall|i: int|
                    0 <= i < v0.transactions.len() ==> v1.transactions[i]
                        == v0.transactions[i]);
            }
        }
        Ok(id)
    }

    /// Overwrites the transaction with the given id and reconciles the day
    /// markers.
    ///
    /// A marker for the new date is inserted only if the date had none. When
    /// the date changed and no transaction remains on the old date, the old
    /// marker is retired; a record that keeps its date leaves the markers
    /// untouched. A missing id is reported before the date is examined.
    pub fn update_transaction(&mut self, t: Transaction) -> (r: Result<(), StorageError>)
        requires
            old(self)@.inv(),
        ensures
            final(self)@.inv(),
            r is Ok <==> (has_tx_with_id(old(self)@.transactions, t@.id) && is_valid_date(
                t.date@,
            )),
            r is Err ==> *final(self) == *old(self),
            !has_tx_with_id(old(self)@.transactions, t@.id) ==> r == Err::<(), StorageError>(
                StorageError::NotFound,
            ),
            has_tx_with_id(old(self)@.transactions, t@.id) && !is_valid_date(t.date@) ==> r
                == Err::<(), StorageError>(StorageError::InvalidDateFormat),
            r is Ok ==> (exists|i: int|
                #![trigger old(self)@.transactions[i]]
                {
                    let mid = if old(self)@.days.contains(t@.date) {
                        old(self)@.days
                    } else {
                        old(self)@.days.push(t@.date)
                    };
                    let od = old(self)@.transactions[i].date;
                    &&& 0 <= i < old(self)@.transactions.len()
                    &&& old(self)@.transactions[i].id == t@.id
                    &&& final(self)@.transactions == old(self)@.transactions.update(i, t@)
                    &&& (od == t@.date ==> final(self)@.days == old(self)@.days)
                    &&& (has_tx_on(old(self)@.transactions.update(i, t@), od)
                        ==> final(self)@.days == mid)
                    &&& (!has_tx_on(old(self)@.transactions.update(i, t@), od)
                        ==> removed_marker(mid, final(self)@.days, od))
                }),
            final(self)@.next_id == old(self)@.next_id,
    {
        let idx = match find_tx(&self.transactions, t.id) {
            None => {
                return Err(StorageError::NotFound);
            },
            Some(i) => i,
        };
        proof {
            assert(has_tx_with_id(old(self)@.transactions, t@.id)) by {
                assert(old(self)@.transactions[idx as int].id == t@.id);
            }
        }
        if !crate::date::check_date(t.date.as_str()) {
            return Err(StorageError::InvalidDateFormat);
        }
        let ghost v0 = self@;
        let old_date = self.transactions[idx].date.clone();
        let new_date = t.date.clone();
        let same_date = string_eq(&old_date, &new_date);
        let ghost tv = t@;
        let ghost od = old_date@;
        let _prev = self.transactions.remove(idx);
        self.transactions.insert(idx, t);
        let ghost txs1 = self@.transactions;
        proof {
            assert(txs1 =~= v0.transactions.update(idx as int, tv));
            assert(v0.transactions[idx as int].date == od);
            assert(txs1[idx as int].date == tv.date);
        }
        let had_new = contains_day(&self.days, &new_date);
        if !had_new {
            self.days.push(new_date);
        }
        let ghost days1 = self@.days;
        proof {
            if had_new {
                assert(days1 =~= v0.days);
            } else {
                assert(days1 =~= v0.days.push(tv.date));
            }
            assert forall|i: int, j: int| 0 <= i < j < days1.len() implies days1[i]
                != days1[j] by {
                if j == v0.days.len() {
                    assert(days1[i] == v0.days[i]);
                    if v0.days[i] == tv.date {
                        assert(v0.days.contains(tv.date));
                    }
                }
            }
            if same_date {
                assert(od == tv.date);
                assert(has_tx_on(v0.transactions, tv.date)) by {
                    assert(v0.transactions[idx as int].date == tv.date);
                }
                assert(v0.days.contains(tv.date));
                assert(had_new);
            }
        }
        let still = same_date || exists_tx_with_date(&self.transactions, &old_date);
        if !still {
            match find_day(&self.days, &old_date) {
                Some(j) => {
                    let _day = self.days.remove(j);
                    proof {
                        assert(self@.days =~= days1.remove(j as int));
                    }
                },
                None => {
                    proof {
                        assert(has_tx_on(v0.transactions, od)) by {
                            assert(v0.transactions[idx as int].date == od);
                        }
                        assert(v0.days.contains(od));
                        lemma_push_contains(v0.days, tv.date, od);
                        assert(days1.contains(od));
                        assert(false);
                    }
                },
            }
        }
        proof {
            let v1 = self@;
            assert(v1.transactions == txs1);
            assert(still == (has_tx_on(txs1, od))) by {
                if same_date {
                    assert(txs1[idx as int].date == od);
                }
            }
            assert forall|d: Seq<char>| #[trigger] v1.days.contains(d) == has_tx_on(
                txs1,
                d,
            ) by {
                lemma_push_contains(v0.days, tv.date, d);
                assert(txs1[idx as int].date == tv.date);
                assert(v0.transactions[idx as int].date == od);
                if has_tx_on(v0.transactions, d) && d != od {
                    let i = choose|i: int|
                        0 <= i < v0.transactions.len() && v0.transactions[i].date == d;
                    assert(txs1[i].date == d);
                }
                if has_tx_on(txs1, d) && d != tv.date {
                    let i = choose|i: int| 0 <= i < txs1.len() && txs1[i].date == d;
                    assert(v0.transactions[i].date == d);
                }
                if still {
                    assert(v1.days == days1);
                    if d == od {
                        assert(has_tx_on(v0.transactions, od)) by {
                            assert(v0.transactions[idx as int].date == od);
                        }
                        assert(v0.days.contains(od));
                    }
                } else {
                    let j = choose|j: int|
                        0 <= j < days1.len() && days1[j] == od && v1.days == days1.remove(j);
                    lemma_remove_contains_distinct(days1, j, d);
                }
            }
            assert(v1.days_distinct()) by {
                if !still {
                    let jj = choose|j: int|
                        0 <= j < days1.len() && days1[j] == od && v1.days == days1.remove(j);
                    days1.remove_ensures(jj);
                    assert forall|i: int, j: int| 0 <= i < j < v1.days.len() implies v1.days[i]
                        != v1.days[j] by {
                        if j < jj {
                        } else if i < jj && jj <= j {
                            assert(v1.days[i] == days1[i]);
                            assert(v1.days[j] == days1[j + 1]);
                        } else {
                            assert(v1.days[i] == days1[i + 1]);
                            assert(v1.days[j] == days1[j + 1]);
                        }
                    }
                }
            }
            assert(v1.ids_ok() && v1.dates_valid()) by {
                assert(txs1[idx as int].id == v0.transactions[idx as int].id);
                assert(forall|i: int|
                    0 <= i < txs1.len() && i != idx as int ==> txs1[i] == v0.transactions[i]);
            }
            assert(v0.transactions[idx as int].date == tv.date ==> v1.days == v0.days) by {
                if v0.transactions[idx as int].date == tv.date {
                    assert(same_date);
                }
            }
            let iw = idx as int;
            let mid = if v0.days.contains(tv.date) {
                v0.days
            } else {
                v0.days.push(tv.date)
            };
            assert(days1 == mid);
            if still {
                assert(v1.days == mid);
            } else {
                let j = choose|j: int|
                    0 <= j < days1.len() && days1[j] == od && v1.days == days1.remove(j);
                assert(0 <= j < mid.len() && mid[j] == od && v1.days == mid.remove(j));
                assert(removed_marker(mid, v1.days, od));
            }
            assert(old(self)@.transactions[iw] == v0.transactions[iw]);
        }
        Ok(())
    }

    /// Removes the transaction with the given id and retires its day marker
    /// when no other transaction remains on that date.
    pub fn delete_transaction(&mut self, id: i32) -> (r: Result<(), StorageError>)
        requires
            old(self)@.inv(),
        ensures
            final(self)@.inv(),
            r is Ok <==> has_tx_with_id(old(self)@.transactions, id as int),
            r is Err ==> r == Err::<(), StorageError>(StorageError::NotFound) && *final(self)
                == *old(self),
            r is Ok ==> (exists|i: int|
                #![auto]
                {
                    &&& 0 <= i < old(self)@.transactions.len()
                    &&& old(self)@.transactions[i].id == id as int
                    &&& final(self)@.transactions == old(self)@.transactions.remove(i)
                    &&& (has_tx_on(
                        old(self)@.transactions.remove(i),
                        old(self)@.transactions[i].date,
                    ) ==> final(self)@.days == old(self)@.days)
                    &&& (!has_tx_on(
                        old(self)@.transactions.remove(i),
                        old(self)@.transactions[i].date,
                    ) ==> removed_marker(
                        old(self)@.days,
                        final(self)@.days,
                        old(self)@.transactions[i].date,
                    ))
                }),
            final(self)@.next_id == old(self)@.next_id,
    {
        let idx = match find_tx(&self.transactions, id) {
            None => {
                return Err(StorageError::NotFound);
            },
            Some(i) => i,
        };
        let ghost v0 = self@;
        let date = self.transactions[idx].date.clone();
        let _removed = self.transactions.remove(idx);
        let ghost txs1 = self@.transactions;
        proof {
            assert(txs1 =~= v0.transactions.remove(idx as int));
            v0.transactions.remove_ensures(idx as int);
        }
        let still = exists_tx_with_date(&self.transactions, &date);
        if !still {
            match find_day(&self.days, &date) {
                Some(j) => {
                    let _day = self.days.remove(j);
                    proof {
                        assert(self@.days =~= v0.days.remove(j as int));
                    }
                },
                None => {
                    proof {
                        assert(has_tx_on(v0.transactions, date@)) by {
                            assert(v0.transactions[idx as int].date == date@);
                        }
                        assert(v0.days.contains(date@));
                        assert(false);
                    }
                },
            }
        }
        proof {
            let v1 = self@;
            let d0 = v0.transactions[idx as int].date;
            assert(d0 == date@);
            assert forall|d: Seq<char>| #[trigger] v1.days.contains(d) == has_tx_on(
                v1.transactions,
                d,
            ) by {
                if still {
                    assert(v1.days == v0.days);
                } else {
                    let j = choose|j: int| 0 <= j < v0.days.len() && v0.days[j] == d0
                        && v1.days == v0.days.remove(j);
                    lemma_remove_contains_distinct(v0.days, j, d);
                }
                if has_tx_on(v0.transactions, d) && d != d0 {
                    let i = choose|i: int|
                        0 <= i < v0.transactions.len() && v0.transactions[i].date == d;
                    if i < idx as int {
                        assert(txs1[i].date == d);
                    } else {
                        assert(i != idx as int);
                        assert(txs1[i - 1].date == d);
                    }
                }
                if has_tx_on(txs1, d) {
                    let i = choose|i: int| 0 <= i < txs1.len() && txs1[i].date == d;
                    if i < idx as int {
                        assert(v0.transactions[i].date == d);
                    } else {
                        assert(v0.transactions[i + 1].date == d);
                    }
                }
                assert(v0.transactions[idx as int].date == d0);
            }
            assert(v1.days_distinct()) by {
                if !still {
                    let jj = choose|j: int| 0 <= j < v0.days.len() && v0.days[j] == d0
                        && v1.days == v0.days.remove(j);
                    v0.days.remove_ensures(jj);
                    assert forall|i: int, j: int| 0 <= i < j < v1.days.len() implies v1.days[i]
                        != v1.days[j] by {
                        if j < jj {
                        } else if i < jj && jj <= j {
                            assert(v1.days[i] == v0.days[i]);
                            assert(v1.days[j] == v0.days[j + 1]);
                        } else {
                            assert(v1.days[i] == v0.days[i + 1]);
                            assert(v1.days[j] == v0.days[j + 1]);
                        }
                    }
                }
            }
            assert(v1.ids_ok() && v1.dates_valid()) by {
                v0.transactions.remove_ensures(idx as int);
                assert forall|i: int| 0 <= i < v1.transactions.len() implies (1
                    <= #[trigger] v1.transactions[i].id < v1.next_id && is_valid_date(
                    v1.transactions[i].date,
                )) by {
                    if i < idx as int {
                        assert(v1.transactions[i] == v0.transactions[i]);
                    } else {
                        assert(v1.transactions[i] == v0.transactions[i + 1]);
                    }
                }
                assert forall|i: int, j: int| 0 <= i < j < v1.transactions.len() implies
                    v1.transactions[i].id != v1.transactions[j].id by {
                    if j < idx as int {
                    } else if i < idx as int {
                        assert(v1.transactions[i] == v0.transactions[i]);
                        assert(v1.transactions[j] == v0.transactions[j + 1]);
                    } else {
                        assert(v1.transactions[i] == v0.transactions[i + 1]);
                        assert(v1.transactions[j] == v0.transactions[j + 1]);
                    }
                }
            }
        }
        Ok(())
    }

    /// Appends a row with a caller-chosen fresh id, marking its day and
    /// raising the next id past it.
    fn insert_row(&mut self, t: Transaction)
        requires
            old(self)@.inv(),
            is_valid_date(t@.date),
            1 <= t@.id < i32::MAX,
            !has_tx_with_id(old(self)@.transactions, t@.id),
        ensures
            final(self)@.inv(),
            final(self)@.transactions == old(self)@.transactions.push(t@),
            final(self)@.days == (if old(self)@.days.contains(t@.date) {
                old(self)@.days
            } else {
                old(self)@.days.push(t@.date)
            }),
            final(self)@.next_id == (if t@.id + 1 > old(self)@.next_id {
                t@.id + 1
            } else {
                old(self)@.next_id
            }),
    {
        let ghost v0 = old(self)@;
        let date_copy = t.date.clone();
        let ghost tv = t@;
        if t.id >= self.next_id {
            self.next_id = t.id + 1;
        }
        self.transactions.push(t);
        let had_day = contains_day(&self.days, &date_copy);
        if !had_day {
            self.days.push(date_copy);
        }
        proof {
            let v1 = self@;
            assert(v1.transactions =~= v0.transactions.push(tv));
            if had_day {
                assert(v1.days =~= v0.days);
            } else {
                assert(v1.days =~= v0.days.push(tv.date));
            }
            assert forall|d: Seq<char>| #[trigger] v1.days.contains(d) == has_tx_on(
                v1.transactions,
                d,
            ) by {
                lemma_push_contains(v0.days, tv.date, d);
                if has_tx_on(v0.transactions, d) {
                    let i = choose|i: int|
                        0 <= i < v0.transactions.len() && v0.transactions[i].date == d;
                    assert(v1.transactions[i].date == d);
                }
                if has_tx_on(v1.transactions, d) && d != tv.date {
                    let i = choose|i: int|
                        0 <= i < v1.transactions.len() && v1.transactions[i].date == d;
                    assert(i < v0.transactions.len());
                    assert(v0.transactions[i].date == d);
                }
                assert(v1.transactions[v0.transactions.len() as int].date == tv.date);
            }
            assert(v1.days_distinct()) by {
                assert forall|i: int, j: int| 0 <= i < j < v1.days.len() implies v1.days[i]
                    != v1.days[j] by {
                    if j == v0.days.len() {
                        assert(v1.days[i] == v0.days[i]);
                        if v0.days[i] == tv.date {
                            assert(v0.days.contains(tv.date));
                        }
                    }
                }
            }
            assert(v1.ids_ok()) by {
                assert(forall|i: int|
                    0 <= i < v0.transactions.len() ==> v1.transactions[i]
                        == v0.transactions[i]);
            }
            assert(v1.dates_valid()) by {
                assert(forall|i: int|
                    0 <= i < v0.transactions.len() ==> v1.transactions[i]
                        == v0.transactions[i]);
            }
        }
    }

    /// Rebuilds a ledger from stored rows, deriving the day markers anew.
    ///
    /// The rows are accepted exactly when their ids are positive, pairwise
    /// distinct and below the id ceiling, and every date is a valid
    /// `DD.MM.YYYY` string; anything else is a store failure.
    pub fn from_rows(rows: Vec<Transaction>) -> (r: Result<Ledger, StorageError>)
        ensures
            r is Ok <==> rows_ok(rows@.map_values(|t: Transaction| t@)),
            r is Err ==> r == Err::<Ledger, StorageError>(StorageError::StoreFailure),
            r matches Ok(l) ==> ({
                &&& l@.inv()
                &&& l@.transactions == rows@.map_values(|t: Transaction| t@)
                &&& l@.next_id == next_id_of(rows@.map_values(|t: Transaction| t@))
            }),
    {
        let ghost rview = rows@.map_values(|t: Transaction| t@);
        let mut l = Ledger::new();
        proof {
            assert(l@.transactions =~= rview.take(0));
            assert(l@.next_id == next_id_of(rview.take(0)));
        }
        let mut i: usize = 0;
        while i < rows.len()
            invariant
                0 <= i <= rows.len(),
                rview == rows@.map_values(|t: Transaction| t@),
                l@.inv(),
                l@.transactions == rview.take(i as int),
                l@.next_id == next_id_of(rview.take(i as int)),
            decreases rows.len() - i,
        {
            let row = clone_tx(&rows[i]);
            assert(row@ == rview[i as int]);
            if row.id < 1 || row.id == i32::MAX {
                assert(!(1 <= rview[i as int].id < i32::MAX));
                return Err(StorageError::StoreFailure);
            }
            if !crate::date::check_date(row.date.as_str()) {
                assert(!is_valid_date(rview[i as int].date));
                return Err(StorageError::StoreFailure);
            }
            match find_tx(&l.transactions, row.id) {
                Some(j) => {
                    proof {
                        assert(l@.transactions[j as int].id == row@.id);
                        assert(rview[j as int] == rview.take(i as int)[j as int]);
                        assert(rview[j as int].id == rview[i as int].id && 0 <= (j as int) < i);
                    }
                    return Err(StorageError::StoreFailure);
                },
                None => {
                    proof {
                        assert(!has_tx_with_id(l@.transactions, row@.id)) by {
                            if has_tx_with_id(l@.transactions, row@.id) {
                                let k = choose|k: int|
                                    0 <= k < l@.transactions.len() && l@.transactions[k].id
                                        == row@.id;
                                assert(l.transactions@[k].id == row.id);
                            }
                        }
                    }
                },
            }
            let ghost pre = l@;
            l.insert_row(row);
            proof {
                let s1 = rview.take(i + 1);
                assert(s1.drop_last() =~= rview.take(i as int));
                assert(s1.last() == rview[i as int]);
                assert(l@.transactions =~= s1);
                assert(l@.next_id == next_id_of(s1));
            }
            i += 1;
        }
        proof {
            assert(rview.take(rows@.len() as int) =~= rview);
            assert(rows_ok(rview)) by {
                assert(l@.ids_ok() && l@.dates_valid());
            }
        }
        Ok(l)
    }

    /// All transactions, in storage order.
    pub fn get_transactions(&self) -> (r: Vec<Transaction>)
        ensures
            r@.map_values(|t: Transaction| t@) == self@.transactions,
    {
        let mut r: Vec<Transaction> = Vec::new();
        let mut i: usize = 0;
        while i < self.transactions.len()
            invariant
                0 <= i <= self.transactions.len(),
                r@.len() == i,
                forall|k: int| 0 <= k < i ==> #[trigger] r@[k]@ == self@.transactions[k],
            decreases self.transactions.len() - i,
        {
            r.push(clone_tx(&self.transactions[i]));
            i += 1;
        }
        proof {
            assert(r@.map_values(|t: Transaction| t@) =~= self@.transactions);
        }
        r
    }

    /// The current day markers, in storage order.
    pub fn get_days(&self) -> (r: Vec<Day>)
        ensures
            r@.map_values(|d: Day| d@) == self@.days,
    {
        let mut r: Vec<Day> = Vec::new();
        let mut i: usize = 0;
        while i < self.days.len()
            invariant
                0 <= i <= self.days.len(),
                r@.len() == i,
                forall|k: int| 0 <= k < i ==> #[trigger] r@[k]@ == self@.days[k],
            decreases self.days.len() - i,
        {
            r.push(Day { date: self.days[i].clone() });
            i += 1;
        }
        proof {
            assert(r@.map_values(|d: Day| d@) =~= self@.days);
        }
        r
    }
}

/// Coherence: in every ledger the operations produce, a date has a day
/// marker exactly when at least one transaction is dated on it.
pub proof fn lemma_marker_iff_transaction(v: LedgerView, d: Seq<char>)
    requires
        v.inv(),
    ensures
        v.days.contains(d) == has_tx_on(v.transactions, d),
{
}

/// Coherence as a set equation: the set of marked days equals the set of
/// dates that occur among the transactions.
pub proof fn lemma_day_set_matches_transaction_dates(v: LedgerView)
    requires
        v.inv(),
    ensures
        v.days.to_set() == Set::new(|d: Seq<char>| has_tx_on(v.transactions, d)),
{
    let marked = v.days.to_set();
    let dated = Set::new(|d: Seq<char>| has_tx_on(v.transactions, d));
    assert forall|d: Seq<char>| #[trigger] marked.contains(d) == dated.contains(d) by {
        assert(v.days.contains(d) == has_tx_on(v.transactions, d));
    }
    assert(marked =~= dated);
}

/// Idempotent day insertion: a date with at least one transaction has
/// exactly one marker, however many transactions share it.
pub proof fn lemma_one_marker_per_date(v: LedgerView, d: Seq<char>)
    requires
        v.inv(),
        has_tx_on(v.transactions, d),
    ensures
        exists|i: int| 0 <= i < v.days.len() && v.days[i] == d,
        forall|i: int, j: int|
            0 <= i < v.days.len() && 0 <= j < v.days.len() && v.days[i] == d && v.days[j] == d
                ==> i == j,
{
    assert(v.days.contains(d));
    assert forall|i: int, j: int|
        0 <= i < v.days.len() && 0 <= j < v.days.len() && v.days[i] == d && v.days[j]
            == d implies i == j by {
        if i < j {
            assert(v.days[i] != v.days[j]);
        }
        if j < i {
            assert(v.days[j] != v.days[i]);
        }
    }
}

/// Day retirement: a date whose last transaction is gone keeps no marker.
pub proof fn lemma_marker_retired(v: LedgerView, d: Seq<char>)
    requires
        v.inv(),
        !has_tx_on(v.transactions, d),
    ensures
        !v.days.contains(d),
{
}

/// Date-change migration: when the sole transaction on a date moves to a
/// different date, the old date loses its marker and the new date has one.
pub proof fn lemma_date_migration(pre: LedgerView, post: LedgerView, i: int, t: TransactionView)
    requires
        pre.inv(),
        post.inv(),
        0 <= i < pre.transactions.len(),
        post.transactions == pre.transactions.update(i, t),
        t.date != pre.transactions[i].date,
        forall|j: int|
            0 <= j < pre.transactions.len() && j != i ==> #[trigger] pre.transactions[j].date
                != pre.transactions[i].date,
    ensures
        !post.days.contains(pre.transactions[i].date),
        post.days.contains(t.date),
{
    let d1 = pre.transactions[i].date;
    assert(!has_tx_on(post.transactions, d1)) by {
        if has_tx_on(post.transactions, d1) {
            let j = choose|j: int|
                0 <= j < post.transactions.len() && post.transactions[j].date == d1;
            if j == i {
                assert(post.transactions[j].date == t.date);
            } else {
                assert(post.transactions[j] == pre.transactions[j]);
            }
        }
    }
    assert(has_tx_on(post.transactions, t.date)) by {
        assert(post.transactions[i].date == t.date);
    }
}

} // verus!
