//! What sessions leave in the files.

use vstd::prelude::*;

use crate::common::error::ErrorView;
use crate::common::ordmap::lemma_ascending_unique;
use crate::common::ordset::{lemma_sorted_exists, sorted};
use crate::common::schema::Schema;
use crate::common::value::{RowId, SqlValue, TransactionId};
use crate::v1::files::{
    completed, index_loaded, indexes_loaded, is_stored, lemma_loaded_all, rows_loaded, state_loaded,
    well_named, IndexFileView, StoredTableView,
};
use crate::v1::model::{below, EngineView, IndexStateView, StateView};
use crate::v1::storage::row_list;
use crate::v2::catalog::next_number;
use crate::v2::storage_model::RowView;

verus! {

/// What the files hold.
pub struct FilesView {
    pub schemas: Map<Seq<char>, Schema>,
    pub tables: Seq<StoredTableView>,
}

/// Whether files hold a state.
pub open spec fn holds_state(f: FilesView, s: StateView) -> bool {
    &&& f.schemas == s.schemas
    &&& f.tables.len() == sorted::<String>(s.schemas.dom()).len()
    &&& forall|i: int|
        0 <= i < f.tables.len() ==> is_stored(
            s,
            sorted::<String>(s.schemas.dom())[i],
            #[trigger] f.tables[i],
        )
}

/// The engine over what files hold.
pub open spec fn reopened(f: FilesView) -> EngineView {
    EngineView { state: state_loaded(f.schemas, f.tables), next_txn_id: 1, active_txn: None }
}

/// Whether a state is one that can be stored: it is finite, and each index is found under its
/// own name.
pub open spec fn storable_state(s: StateView) -> bool {
    &&& s.schemas.dom().finite()
    &&& forall|t: Seq<char>| #[trigger] below(s.rows, t).dom().finite()
    &&& forall|t: Seq<char>| #[trigger]
        below(s.indexes, t).dom().finite() && well_named(below(s.indexes, t))
}

proof fn lemma_rows_back(rows: Map<RowId, Seq<SqlValue>>)
    requires
        rows.dom().finite(),
    ensures
        rows_loaded(row_list(rows)) == rows,
{
    let ids = sorted::<RowId>(rows.dom());
    lemma_sorted_exists::<RowId>(rows.dom());
    let list = row_list(rows);
    let pairs = list.map_values(|r: RowView| (r.id, r.row));
    assert forall|k: int| 0 <= k < pairs.len() implies (#[trigger] pairs[k]).0 == ids[k]
        && pairs[k].1 == rows[ids[k]] by {}
    assert forall|k: int| 0 <= k < ids.len() implies rows.dom().contains(#[trigger] ids[k]) by {
        assert(ids.to_set().contains(ids[k]));
    }
    lemma_loaded_all(pairs, ids, rows);
}

proof fn lemma_indexes_back(files: Seq<IndexFileView>, by_name: Map<Seq<char>, IndexStateView>)
    requires
        by_name.dom().finite(),
        well_named(by_name),
        files.len() == by_name.dom().len(),
        forall|i: int|
            0 <= i < files.len() ==> index_loaded(#[trigger] files[i]) == by_name[sorted::<String>(
                by_name.dom(),
            )[i]],
    ensures
        indexes_loaded(files) == by_name,
{
    let names = sorted::<String>(by_name.dom());
    lemma_sorted_exists::<String>(by_name.dom());
    lemma_ascending_unique::<String>(names);
    assert(names.no_duplicates());
    names.unique_seq_to_set();
    let pairs = files.map_values(|f: IndexFileView| (f.meta.name, index_loaded(f)));
    assert forall|k: int| 0 <= k < names.len() implies by_name.dom().contains(
        #[trigger] names[k],
    ) by {
        assert(names.to_set().contains(names[k]));
    }
    assert forall|k: int| 0 <= k < pairs.len() implies (#[trigger] pairs[k]).0 == names[k]
        && pairs[k].1 == by_name[names[k]] by {
        assert(by_name.dom().contains(names[k]));
        assert(index_loaded(files[k]).meta == files[k].meta);
    }
    lemma_loaded_all(pairs, names, by_name);
}

/// Opening files that hold a state brings it back: the same tables, each with its rows, its
/// indexes and its next row number. The first transaction has number one.
pub proof fn law_stored_states_come_back(f: FilesView, s: StateView)
    requires
        holds_state(f, s),
        storable_state(s),
    ensures
        reopened(f).state == completed(s),
        reopened(f).state.schemas == s.schemas,
        forall|t: Seq<char>| #[trigger]
            s.schemas.dom().contains(t) ==> below(reopened(f).state.rows, t) == below(s.rows, t)
                && below(reopened(f).state.indexes, t) == below(s.indexes, t) && next_number(
                reopened(f).state.next_row_ids,
                t,
            ) == next_number(s.next_row_ids, t),
        reopened(f).begun().1 == Ok::<TransactionId, ErrorView>(TransactionId(1)),
        reopened(f).begun().0.state == completed(s),
{
    let names = sorted::<String>(s.schemas.dom());
    lemma_sorted_exists::<String>(s.schemas.dom());
    let want = completed(s);
    let views = f.tables;
    assert forall|k: int| 0 <= k < names.len() implies s.schemas.dom().contains(
        #[trigger] names[k],
    ) by {
        assert(names.to_set().contains(names[k]));
    }
    assert(want.rows.dom() =~= s.schemas.dom());
    assert(want.indexes.dom() =~= s.schemas.dom());
    assert(want.next_row_ids.dom() =~= s.schemas.dom());
    let row_pairs = views.map_values(|t: StoredTableView| (t.name, rows_loaded(t.table.rows)));
    assert forall|k: int| 0 <= k < row_pairs.len() implies (#[trigger] row_pairs[k]).0 == names[k]
        && row_pairs[k].1 == want.rows[names[k]] by {
        assert(is_stored(s, names[k], views[k]));
        lemma_rows_back(below(s.rows, names[k]));
    }
    lemma_loaded_all(row_pairs, names, want.rows);
    let index_pairs = views.map_values(|t: StoredTableView| (t.name, indexes_loaded(t.indexes)));
    assert forall|k: int| 0 <= k < index_pairs.len() implies (#[trigger] index_pairs[k]).0
        == names[k] && index_pairs[k].1 == want.indexes[names[k]] by {
        assert(is_stored(s, names[k], views[k]));
        assert(below(s.indexes, names[k]).dom().finite());
        lemma_indexes_back(views[k].indexes, below(s.indexes, names[k]));
    }
    lemma_loaded_all(index_pairs, names, want.indexes);
    let number_pairs = views.map_values(|t: StoredTableView| (t.name, t.table.next_row_id));
    assert forall|k: int| 0 <= k < number_pairs.len() implies (#[trigger] number_pairs[k]).0
        == names[k] && number_pairs[k].1 == want.next_row_ids[names[k]] by {
        assert(is_stored(s, names[k], views[k]));
    }
    lemma_loaded_all(number_pairs, names, want.next_row_ids);
    assert(reopened(f).state =~= want);
}

/// What happens in a session: transactions begin, change the state, and are committed or rolled
/// back.
pub enum SessionStep {
    Begin,
    Change(StateView),
    Commit,
    Rollback,
}

/// A session: the engine, and the state that was last put into the files.
pub struct Session {
    pub engine: EngineView,
    pub kept: StateView,
}

impl Session {
    /// The session once a step is taken. A commit puts the state into the files. A step that is
    /// out of turn changes nothing.
    pub open spec fn after(self, step: SessionStep) -> Session {
        match (step, self.engine.active_txn) {
            (SessionStep::Begin, _) => Session { engine: self.engine.begun().0, ..self },
            (SessionStep::Change(s), Some(a)) => Session {
                engine: self.engine.with_state(s),
                ..self
            },
            (SessionStep::Commit, Some(a)) => Session {
                engine: self.engine.committed(a.id).0,
                kept: self.engine.state,
            },
            (SessionStep::Rollback, Some(a)) => Session {
                engine: self.engine.rolled_back(a.id).0,
                ..self
            },
            (_, None) => self,
        }
    }

    /// The session once steps are taken.
    pub open spec fn after_all(self, steps: Seq<SessionStep>) -> Session
        decreases steps.len(),
    {
        if steps.len() == 0 {
            self
        } else {
            self.after_all(steps.drop_last()).after(steps.last())
        }
    }

    /// Whether the files hold what the engine shows, but for what a transaction under way has
    /// changed.
    pub open spec fn up_to_date(self) -> bool {
        match self.engine.active_txn {
            None => self.engine.state == self.kept,
            Some(a) => a.snapshot == self.kept,
        }
    }
}

/// Whatever happens in a session, what was committed last is in the files, and nothing else:
/// opening them again, at whatever point, shows that state, and what a transaction under way
/// has changed is gone.
pub proof fn law_sessions_keep_what_was_committed(
    start: Session,
    steps: Seq<SessionStep>,
    f: FilesView,
)
    requires
        start.up_to_date(),
        holds_state(f, start.after_all(steps).kept),
        storable_state(start.after_all(steps).kept),
    ensures
        start.after_all(steps).up_to_date(),
        reopened(f).begun().1 == Ok::<TransactionId, ErrorView>(TransactionId(1)),
        reopened(f).state == completed(start.after_all(steps).kept),
        (Session { engine: reopened(f), kept: reopened(f).state }).up_to_date(),
{
    lemma_up_to_date(start, steps);
    law_stored_states_come_back(f, start.after_all(steps).kept);
}

proof fn lemma_up_to_date(start: Session, steps: Seq<SessionStep>)
    requires
        start.up_to_date(),
    ensures
        start.after_all(steps).up_to_date(),
    decreases steps.len(),
{
    if steps.len() > 0 {
        lemma_up_to_date(start, steps.drop_last());
    }
}

} // verus!
