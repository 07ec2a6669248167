//! What the engine holds.

use vstd::prelude::*;

use crate::common::assoc::AssocMap;
use crate::common::ordmap::{Duplicate, OrdKey, OrdMap};
use crate::common::ordset::{lemma_is_sorted, sorted, OrdSet};
use crate::common::schema::IndexMeta;
use crate::common::value::{DbValue, Row, RowId, TransactionId};
use crate::v1::model::{ActiveView, EngineView, IndexStateView, StateView};
use crate::v2::catalog::SharedSchema;

verus! {

/// An index: its definition, and the rows under each key.
pub struct IndexState {
    pub meta: IndexMeta,
    pub entries: AssocMap<Vec<DbValue>, OrdSet<RowId>>,
}

impl View for IndexState {
    type V = IndexStateView;

    open spec fn view(&self) -> IndexStateView {
        IndexStateView { meta: self.meta@, entries: self.entries@ }
    }
}

impl DeepView for IndexState {
    type V = IndexStateView;

    open spec fn deep_view(&self) -> IndexStateView {
        self@
    }
}

impl Duplicate for IndexState {
    fn duplicate(&self) -> (r: IndexState) {
        IndexState { meta: self.meta.duplicate(), entries: self.entries.duplicate() }
    }
}

/// What is kept from one transaction to the next.
pub struct PersistedState {
    pub schemas: OrdMap<String, SharedSchema>,
    pub rows: OrdMap<String, OrdMap<RowId, Row>>,
    pub indexes: OrdMap<String, OrdMap<String, IndexState>>,
    pub next_row_ids: OrdMap<String, u64>,
}

impl View for PersistedState {
    type V = StateView;

    open spec fn view(&self) -> StateView {
        StateView {
            schemas: self.schemas@,
            rows: self.rows@,
            indexes: self.indexes@,
            next_row_ids: self.next_row_ids@,
        }
    }
}

impl DeepView for PersistedState {
    type V = StateView;

    open spec fn deep_view(&self) -> StateView {
        self@
    }
}

impl Duplicate for PersistedState {
    fn duplicate(&self) -> (r: PersistedState) {
        PersistedState {
            schemas: self.schemas.duplicate(),
            rows: self.rows.duplicate(),
            indexes: self.indexes.duplicate(),
            next_row_ids: self.next_row_ids.duplicate(),
        }
    }
}

impl PersistedState {
    /// A state without tables.
    pub fn new() -> (r: PersistedState)
        ensures
            r@ == (StateView {
                schemas: Map::empty(),
                rows: Map::empty(),
                indexes: Map::empty(),
                next_row_ids: Map::empty(),
            }),
    {
        PersistedState {
            schemas: OrdMap::new(),
            rows: OrdMap::new(),
            indexes: OrdMap::new(),
            next_row_ids: OrdMap::new(),
        }
    }
}

/// A transaction that is under way, with the state before it.
pub struct ActiveTransaction {
    pub id: TransactionId,
    pub snapshot: PersistedState,
}

/// The engine: its state, and the transaction that is under way.
pub struct FileStorage {
    pub state: PersistedState,
    pub next_txn_id: u64,
    pub active_txn: Option<ActiveTransaction>,
}

impl View for FileStorage {
    type V = EngineView;

    open spec fn view(&self) -> EngineView {
        EngineView {
            state: self.state@,
            next_txn_id: self.next_txn_id,
            active_txn: match self.active_txn {
                Some(a) => Some(ActiveView { id: a.id, snapshot: a.snapshot@ }),
                None => None,
            },
        }
    }
}

/// The keys of a map, in order.
pub fn key_list<K: OrdKey, V: DeepView>(m: &OrdMap<K, V>) -> (r: Vec<K>)
    ensures
        r.deep_view() == sorted::<K>(m@.dom()),
        r.deep_view().to_set() == m@.dom(),
{
    let total: usize = m.len();
    let ghost keys = m.keys();
    let mut out: Vec<K> = Vec::new();
    let mut i: usize = 0;
    while i < total
        invariant
            i <= total,
            total == keys.len(),
            keys == m.keys(),
            out@.len() == i,
            forall|k: int| 0 <= k < i ==> (#[trigger] out@[k]).deep_view() == keys[k],
        decreases total - i,
    {
        out.push(m.key_at(i).copy_key());
        i = i + 1;
    }
    proof {
        assert(keys.to_set() =~= m@.dom());
        lemma_is_sorted::<K>(keys, m@.dom());
        assert(out.deep_view() =~= keys);
    }
    out
}

} // verus!
