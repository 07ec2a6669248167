//! Locks on tables and on ranges of index keys, and when they stand in each other's way.

use vstd::multiset::Multiset;
use vstd::prelude::*;

use crate::common::assoc::EqKey;
use crate::common::ordmap::{Duplicate, Order};
use crate::common::text::{compare_text, text_before};
use crate::common::value::{copy_values, same_values, CompareOp, SqlValue, TransactionId, DbValue};

verus! {

/// One side of a range of values.
pub struct Bound {
    pub op: CompareOp,
    pub value: DbValue,
}

/// The model of one side of a range.
#[verifier::ext_equal]
pub struct BoundView {
    pub op: CompareOp,
    pub value: SqlValue,
}

/// The model of an optional side of a range.
pub open spec fn bound_view(bound: Option<Bound>) -> Option<BoundView> {
    match bound {
        Some(b) => Some(BoundView { op: b.op, value: b.value@ }),
        None => None,
    }
}

/// What a predicate lock covers.
pub enum PredicateLockKind {
    Table,
    Record(Vec<DbValue>),
    Gap { prefix: Vec<DbValue>, lower: Option<Bound>, upper: Option<Bound> },
    NextKey { prefix: Vec<DbValue>, lower: Option<Bound>, upper: Option<Bound> },
}

/// The model of what a predicate lock covers.
pub enum LockKindView {
    Table,
    Record(Seq<SqlValue>),
    Gap { prefix: Seq<SqlValue>, lower: Option<BoundView>, upper: Option<BoundView> },
    NextKey { prefix: Seq<SqlValue>, lower: Option<BoundView>, upper: Option<BoundView> },
}

impl DeepView for PredicateLockKind {
    type V = LockKindView;

    open spec fn deep_view(&self) -> LockKindView {
        match self {
            PredicateLockKind::Table => LockKindView::Table,
            PredicateLockKind::Record(key) => LockKindView::Record(key.deep_view()),
            PredicateLockKind::Gap { prefix, lower, upper } => LockKindView::Gap {
                prefix: prefix.deep_view(),
                lower: bound_view(*lower),
                upper: bound_view(*upper),
            },
            PredicateLockKind::NextKey { prefix, lower, upper } => LockKindView::NextKey {
                prefix: prefix.deep_view(),
                lower: bound_view(*lower),
                upper: bound_view(*upper),
            },
        }
    }
}

fn copy_side(bound: &Option<Bound>) -> (r: Option<Bound>)
    ensures
        bound_view(r) == bound_view(*bound),
{
    match bound {
        Some(b) => Some(Bound { op: b.op, value: b.value.copy() }),
        None => None,
    }
}

impl Duplicate for PredicateLockKind {
    fn duplicate(&self) -> (r: PredicateLockKind) {
        match self {
            PredicateLockKind::Table => PredicateLockKind::Table,
            PredicateLockKind::Record(key) => PredicateLockKind::Record(key.duplicate()),
            PredicateLockKind::Gap { prefix, lower, upper } => PredicateLockKind::Gap {
                prefix: prefix.duplicate(),
                lower: copy_side(lower),
                upper: copy_side(upper),
            },
            PredicateLockKind::NextKey { prefix, lower, upper } => PredicateLockKind::NextKey {
                prefix: prefix.duplicate(),
                lower: copy_side(lower),
                upper: copy_side(upper),
            },
        }
    }
}

/// A lock of a transaction on keys of a table.
pub struct PredicateLock {
    pub txn_id: TransactionId,
    pub table: String,
    pub index: Option<String>,
    pub kind: PredicateLockKind,
}

/// The model of a predicate lock.
#[verifier::ext_equal]
pub struct PredicateLockView {
    pub txn_id: TransactionId,
    pub table: Seq<char>,
    pub index: Option<Seq<char>>,
    pub kind: LockKindView,
}

/// The model of an optional name.
pub open spec fn name_view(name: Option<String>) -> Option<Seq<char>> {
    match name {
        Some(s) => Some(s@),
        None => None,
    }
}

impl DeepView for PredicateLock {
    type V = PredicateLockView;

    open spec fn deep_view(&self) -> PredicateLockView {
        PredicateLockView {
            txn_id: self.txn_id,
            table: self.table@,
            index: name_view(self.index),
            kind: self.kind.deep_view(),
        }
    }
}

impl Duplicate for PredicateLock {
    fn duplicate(&self) -> (r: PredicateLock) {
        PredicateLock {
            txn_id: self.txn_id,
            table: self.table.clone(),
            index: match &self.index {
                Some(name) => Some(name.clone()),
                None => None,
            },
            kind: self.kind.duplicate(),
        }
    }
}

fn same_bound(a: &Option<Bound>, b: &Option<Bound>) -> (r: bool)
    ensures
        r == (bound_view(*a) == bound_view(*b)),
{
    match (a, b) {
        (None, None) => true,
        (Some(x), Some(y)) => x.op == y.op && x.value.same(&y.value),
        _ => false,
    }
}

impl PredicateLockKind {
    /// Whether two locks cover the same.
    pub fn same(&self, other: &PredicateLockKind) -> (r: bool)
        ensures
            r == (self.deep_view() == other.deep_view()),
    {
        match (self, other) {
            (PredicateLockKind::Table, PredicateLockKind::Table) => true,
            (PredicateLockKind::Record(a), PredicateLockKind::Record(b)) => same_values(
                a.as_slice(),
                b.as_slice(),
            ),
            (
                PredicateLockKind::Gap { prefix: a, lower: l, upper: u },
                PredicateLockKind::Gap { prefix: b, lower: m, upper: v },
            ) => same_values(a.as_slice(), b.as_slice()) && same_bound(l, m) && same_bound(u, v),
            (
                PredicateLockKind::NextKey { prefix: a, lower: l, upper: u },
                PredicateLockKind::NextKey { prefix: b, lower: m, upper: v },
            ) => same_values(a.as_slice(), b.as_slice()) && same_bound(l, m) && same_bound(u, v),
            _ => false,
        }
    }
}

impl PredicateLock {
    /// Whether two locks are the same.
    pub fn same(&self, other: &PredicateLock) -> (r: bool)
        ensures
            r == (self.deep_view() == other.deep_view()),
    {
        let same_index = match (&self.index, &other.index) {
            (None, None) => true,
            (Some(a), Some(b)) => *a == *b,
            _ => false,
        };
        self.txn_id == other.txn_id && self.table == other.table && same_index && self.kind.same(
            &other.kind,
        )
    }
}

/// How much of a table a transaction holds.
#[derive(Debug, Clone, Copy, PartialEq, Eq, Structural)]
pub enum TableLockMode {
    IntentionRead,
    IntentionWrite,
    Exclusive,
}

/// The strength of a table lock.
pub open spec fn mode_rank(mode: TableLockMode) -> int {
    match mode {
        TableLockMode::IntentionRead => 0,
        TableLockMode::IntentionWrite => 1,
        TableLockMode::Exclusive => 2,
    }
}

/// The stronger of two table locks.
pub open spec fn stronger(a: TableLockMode, b: TableLockMode) -> TableLockMode {
    if mode_rank(b) > mode_rank(a) {
        b
    } else {
        a
    }
}

/// The stronger of two table locks.
pub fn stronger_mode(a: TableLockMode, b: TableLockMode) -> (r: TableLockMode)
    ensures
        r == stronger(a, b),
{
    match (a, b) {
        (TableLockMode::IntentionRead, _) => b,
        (TableLockMode::IntentionWrite, TableLockMode::Exclusive) => b,
        _ => a,
    }
}

/// Whether two transactions cannot hold these locks on a table at once: exclusive locks
/// stand in the way of all others.
pub open spec fn modes_conflict(existing: TableLockMode, requested: TableLockMode) -> bool {
    existing == TableLockMode::Exclusive || requested == TableLockMode::Exclusive
}

/// Whether two transactions cannot hold these locks on a table at once.
pub fn table_lock_modes_conflict(existing: TableLockMode, requested: TableLockMode) -> (r: bool)
    ensures
        r == modes_conflict(existing, requested),
        r == modes_conflict(requested, existing),
{
    match (existing, requested) {
        (TableLockMode::IntentionRead, TableLockMode::IntentionRead) => false,
        (TableLockMode::IntentionRead, TableLockMode::IntentionWrite) => false,
        (TableLockMode::IntentionWrite, TableLockMode::IntentionRead) => false,
        (TableLockMode::IntentionWrite, TableLockMode::IntentionWrite) => false,
        _ => true,
    }
}

/// A lock of a transaction on a table.
pub struct TableLock {
    pub txn_id: TransactionId,
    pub table: String,
    pub mode: TableLockMode,
}

/// The model of a table lock.
#[verifier::ext_equal]
pub struct TableLockView {
    pub txn_id: TransactionId,
    pub table: Seq<char>,
    pub mode: TableLockMode,
}

impl DeepView for TableLock {
    type V = TableLockView;

    open spec fn deep_view(&self) -> TableLockView {
        TableLockView { txn_id: self.txn_id, table: self.table@, mode: self.mode }
    }
}

impl Duplicate for TableLock {
    fn duplicate(&self) -> (r: TableLock) {
        TableLock { txn_id: self.txn_id, table: self.table.clone(), mode: self.mode }
    }
}

/// The key that a row has in an index.
pub struct IndexKey {
    pub index: String,
    pub key: Vec<DbValue>,
}

/// The model of the key of a row in an index.
#[verifier::ext_equal]
pub struct IndexKeyView {
    pub index: Seq<char>,
    pub key: Seq<SqlValue>,
}

impl DeepView for IndexKey {
    type V = IndexKeyView;

    open spec fn deep_view(&self) -> IndexKeyView {
        IndexKeyView { index: self.index@, key: self.key.deep_view() }
    }
}

impl IndexKey {
    /// Copies a key.
    pub fn copy(&self) -> (r: IndexKey)
        ensures
            r.deep_view() == self.deep_view(),
    {
        IndexKey { index: self.index.clone(), key: copy_values(self.key.as_slice()) }
    }

    /// Whether two keys are the same.
    pub fn same(&self, other: &IndexKey) -> (r: bool)
        ensures
            r == (self.deep_view() == other.deep_view()),
    {
        self.index == other.index && same_values(self.key.as_slice(), other.key.as_slice())
    }
}

/// How two values of one type are ordered. Values of different types, real numbers and
/// blobs are not.
pub open spec fn value_order(left: SqlValue, right: SqlValue) -> Option<Order> {
    match (left, right) {
        (SqlValue::Null, SqlValue::Null) => Some(Order::Equal),
        (SqlValue::Boolean(a), SqlValue::Boolean(b)) => Some(
            if a == b {
                Order::Equal
            } else if b {
                Order::Less
            } else {
                Order::Greater
            },
        ),
        (SqlValue::Integer(a), SqlValue::Integer(b)) => Some(
            if a < b {
                Order::Less
            } else if a == b {
                Order::Equal
            } else {
                Order::Greater
            },
        ),
        (SqlValue::Text(a), SqlValue::Text(b)) => Some(
            if text_before(a, b) {
                Order::Less
            } else if a == b {
                Order::Equal
            } else {
                Order::Greater
            },
        ),
        _ => None,
    }
}

/// Whether a comparison of two values holds. Values that are not ordered are neither
/// smaller nor greater.
pub open spec fn comparison_holds(left: SqlValue, op: CompareOp, right: SqlValue) -> bool {
    let order = value_order(left, right);
    match op {
        CompareOp::Eq => left == right,
        CompareOp::Ne => left != right,
        CompareOp::Gt => order == Some(Order::Greater),
        CompareOp::Gte => order == Some(Order::Greater) || order == Some(Order::Equal),
        CompareOp::Lt => order == Some(Order::Less),
        CompareOp::Lte => order == Some(Order::Less) || order == Some(Order::Equal),
    }
}

/// Whether a value is inside an optional bound.
pub open spec fn inside(value: SqlValue, bound: Option<BoundView>) -> bool {
    match bound {
        Some(b) => comparison_holds(value, b.op, b.value),
        None => true,
    }
}

/// Whether a range lock covers a key: the key starts with the prefix, and its next value is
/// inside both bounds.
pub open spec fn range_covers(
    prefix: Seq<SqlValue>,
    lower: Option<BoundView>,
    upper: Option<BoundView>,
    key: Seq<SqlValue>,
) -> bool {
    &&& prefix.len() < key.len()
    &&& key.take(prefix.len() as int) == prefix
    &&& inside(key[prefix.len() as int], lower)
    &&& inside(key[prefix.len() as int], upper)
}

/// Whether a lock covers one key of a row.
pub open spec fn lock_covers(lock: PredicateLockView, key: IndexKeyView) -> bool {
    lock.index == Some(key.index) && match lock.kind {
        LockKindView::Table => true,
        LockKindView::Record(locked) => key.key == locked,
        LockKindView::Gap { prefix, lower, upper } => range_covers(prefix, lower, upper, key.key),
        LockKindView::NextKey { prefix, lower, upper } => range_covers(
            prefix,
            lower,
            upper,
            key.key,
        ),
    }
}

/// Whether writing a row with these index keys goes against a lock.
pub open spec fn lock_conflicts(lock: PredicateLockView, keys: Seq<IndexKeyView>) -> bool {
    lock.kind is Table || exists|i: int|
        0 <= i < keys.len() && lock_covers(lock, #[trigger] keys[i])
}

/// How two values of one type are ordered.
pub fn compare_values(left: &DbValue, right: &DbValue) -> (r: Option<Order>)
    ensures
        r == value_order(left@, right@),
{
    match (left, right) {
        (DbValue::Null, DbValue::Null) => Some(Order::Equal),
        (DbValue::Boolean(a), DbValue::Boolean(b)) => Some(
            if *a == *b {
                Order::Equal
            } else if *b {
                Order::Less
            } else {
                Order::Greater
            },
        ),
        (DbValue::Integer(a), DbValue::Integer(b)) => Some(
            if *a < *b {
                Order::Less
            } else if *a == *b {
                Order::Equal
            } else {
                Order::Greater
            },
        ),
        (DbValue::Text(a), DbValue::Text(b)) => Some(compare_text(a.as_str(), b.as_str())),
        _ => None,
    }
}

/// Whether a comparison of two values holds.
pub fn matches_compare(left: &DbValue, op: CompareOp, right: &DbValue) -> (r: bool)
    ensures
        r == comparison_holds(left@, op, right@),
{
    let order = compare_values(left, right);
    match op {
        CompareOp::Eq => left.same(right),
        CompareOp::Ne => !left.same(right),
        CompareOp::Gt => matches!(order, Some(Order::Greater)),
        CompareOp::Gte => matches!(order, Some(Order::Greater)) || matches!(
            order,
            Some(Order::Equal)
        ),
        CompareOp::Lt => matches!(order, Some(Order::Less)),
        CompareOp::Lte => matches!(order, Some(Order::Less)) || matches!(order, Some(Order::Equal)),
    }
}

fn is_inside(value: &DbValue, bound: &Option<Bound>) -> (r: bool)
    ensures
        r == inside(value@, bound_view(*bound)),
{
    match bound {
        Some(b) => matches_compare(value, b.op, &b.value),
        None => true,
    }
}

fn covers_range(
    prefix: &Vec<DbValue>,
    lower: &Option<Bound>,
    upper: &Option<Bound>,
    key: &Vec<DbValue>,
) -> (r: bool)
    ensures
        r == range_covers(
            prefix.deep_view(),
            bound_view(*lower),
            bound_view(*upper),
            key.deep_view(),
        ),
{
    if prefix.len() >= key.len() {
        return false;
    }
    let ghost p = prefix.deep_view();
    let ghost k = key.deep_view();
    let mut i: usize = 0;
    while i < prefix.len()
        invariant
            i <= prefix@.len() < key@.len(),
            p == prefix.deep_view(),
            k == key.deep_view(),
            forall|j: int| 0 <= j < i ==> #[trigger] p[j] == k[j],
        decreases prefix@.len() - i,
    {
        if !prefix[i].same(&key[i]) {
            assert(k.take(p.len() as int)[i as int] != p[i as int]);
            return false;
        }
        assert(p[i as int] == k[i as int]);
        i = i + 1;
    }
    assert(k.take(p.len() as int) =~= p);
    is_inside(&key[prefix.len()], lower) && is_inside(&key[prefix.len()], upper)
}

/// Whether writing a row with these index keys goes against a lock.
pub fn predicate_lock_conflicts(lock: &PredicateLock, index_keys: &[IndexKey]) -> (r: bool)
    ensures
        r == lock_conflicts(lock.deep_view(), index_keys.deep_view()),
{
    if let PredicateLockKind::Table = lock.kind {
        return true;
    }
    let ghost keys = index_keys.deep_view();
    let mut i: usize = 0;
    while i < index_keys.len()
        invariant
            i <= index_keys@.len(),
            keys == index_keys.deep_view(),
            !(lock.deep_view().kind is Table),
            forall|j: int| 0 <= j < i ==> !lock_covers(lock.deep_view(), #[trigger] keys[j]),
        decreases index_keys@.len() - i,
    {
        let candidate = &index_keys[i];
        assert(keys[i as int] == candidate.deep_view());
        let same_index = match &lock.index {
            Some(index) => *index == candidate.index,
            None => false,
        };
        let covered = match &lock.kind {
            PredicateLockKind::Table => true,
            PredicateLockKind::Record(locked) => same_values(
                candidate.key.as_slice(),
                locked.as_slice(),
            ),
            PredicateLockKind::Gap { prefix, lower, upper } => covers_range(
                prefix,
                lower,
                upper,
                &candidate.key,
            ),
            PredicateLockKind::NextKey { prefix, lower, upper } => covers_range(
                prefix,
                lower,
                upper,
                &candidate.key,
            ),
        };
        if same_index && covered {
            assert(lock_covers(lock.deep_view(), keys[i as int]));
            return true;
        }
        i = i + 1;
    }
    false
}

/// What a write waits for: a table and the index keys of the written row, whatever their
/// order.
pub struct PredicateWriteKey {
    pub table: String,
    pub index_keys: Vec<IndexKey>,
}

/// The model of what a write waits for.
#[verifier::ext_equal]
pub struct WriteKeyView {
    pub table: Seq<char>,
    pub index_keys: Multiset<IndexKeyView>,
}

impl DeepView for PredicateWriteKey {
    type V = WriteKeyView;

    open spec fn deep_view(&self) -> WriteKeyView {
        write_key(self.table@, self.index_keys.deep_view())
    }
}

impl Duplicate for IndexKey {
    fn duplicate(&self) -> (r: IndexKey) {
        self.copy()
    }
}

impl Duplicate for PredicateWriteKey {
    fn duplicate(&self) -> (r: PredicateWriteKey) {
        PredicateWriteKey { table: self.table.clone(), index_keys: self.index_keys.duplicate() }
    }
}

/// What a write of a row with these index keys to a table waits for.
pub open spec fn write_key(table: Seq<char>, index_keys: Seq<IndexKeyView>) -> WriteKeyView {
    WriteKeyView { table, index_keys: index_keys.to_multiset() }
}

/// How often a key stands in a list.
spec fn occurrences(keys: Seq<IndexKeyView>, key: IndexKeyView) -> nat {
    keys.to_multiset().count(key)
}

fn count_key(keys: &Vec<IndexKey>, key: &IndexKey) -> (n: usize)
    ensures
        n == occurrences(keys.deep_view(), key.deep_view()),
{
    let ghost all = keys.deep_view();
    let mut n: usize = 0;
    let mut i: usize = 0;
    assert(all.take(0) =~= Seq::<IndexKeyView>::empty());
    proof {
        broadcast use vstd::seq_lib::group_to_multiset_ensures;

    }
    assert(occurrences(all.take(0), key.deep_view()) == 0);
    while i < keys.len()
        invariant
            i <= keys@.len(),
            all == keys.deep_view(),
            n <= i,
            n == occurrences(all.take(i as int), key.deep_view()),
        decreases keys@.len() - i,
    {
        proof {
            broadcast use vstd::seq_lib::group_to_multiset_ensures;

            assert(all.take(i + 1) =~= all.take(i as int).push(all[i as int]));
        }
        if keys[i].same(key) {
            n = n + 1;
        }
        i = i + 1;
    }
    assert(all.take(keys@.len() as int) =~= all);
    n
}

fn counts_agree(of: &Vec<IndexKey>, a: &Vec<IndexKey>, b: &Vec<IndexKey>) -> (r: bool)
    ensures
        r == (forall|i: int|
            #![trigger of.deep_view()[i]]
            0 <= i < of.deep_view().len() ==> occurrences(a.deep_view(), of.deep_view()[i])
                == occurrences(b.deep_view(), of.deep_view()[i])),
{
    let ghost keys = of.deep_view();
    let mut i: usize = 0;
    while i < of.len()
        invariant
            i <= of@.len(),
            keys == of.deep_view(),
            forall|j: int|
                #![trigger keys[j]]
                0 <= j < i ==> occurrences(a.deep_view(), keys[j]) == occurrences(
                    b.deep_view(),
                    keys[j],
                ),
        decreases of@.len() - i,
    {
        let x: usize = count_key(a, &of[i]);
        let y: usize = count_key(b, &of[i]);
        assert(keys[i as int] == of@[i as int].deep_view());
        if x != y {
            return false;
        }
        i = i + 1;
    }
    true
}

impl EqKey for PredicateWriteKey {
    fn same_key(&self, other: &Self) -> (r: bool) {
        let ghost a = self.index_keys.deep_view();
        let ghost b = other.index_keys.deep_view();
        proof {
            broadcast use vstd::seq_lib::group_to_multiset_ensures;

        }
        let r = self.table == other.table && counts_agree(
            &self.index_keys,
            &self.index_keys,
            &other.index_keys,
        ) && counts_agree(&other.index_keys, &self.index_keys, &other.index_keys);
        proof {
            if r {
                assert forall|k: IndexKeyView| a.to_multiset().count(k) == b.to_multiset().count(
                    k,
                ) by {
                    if a.contains(k) {
                        let i = a.index_of(k);
                        assert(a[i] == k);
                    } else if b.contains(k) {
                        let i = b.index_of(k);
                        assert(b[i] == k);
                    }
                }
                assert(a.to_multiset() =~= b.to_multiset());
            }
        }
        r
    }
}

/// What a write of a row with these index keys to a table waits for.
pub fn predicate_write_key(table: &str, index_keys: &[IndexKey]) -> (r: PredicateWriteKey)
    ensures
        r.deep_view() == write_key(table@, index_keys.deep_view()),
{
    let mut keys: Vec<IndexKey> = Vec::new();
    let mut i: usize = 0;
    while i < index_keys.len()
        invariant
            i <= index_keys@.len(),
            keys@.len() == i,
            forall|j: int|
                0 <= j < i ==> (#[trigger] keys@[j]).deep_view() == index_keys@[j].deep_view(),
        decreases index_keys@.len() - i,
    {
        keys.push(index_keys[i].copy());
        i = i + 1;
    }
    assert(keys.deep_view() =~= index_keys.deep_view());
    PredicateWriteKey { table: table.to_owned(), index_keys: keys }
}

} // verus!
