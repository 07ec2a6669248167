//! What a planner is told of the tables and their indexes.

use vstd::prelude::*;

use crate::common::error::{DbResult, ErrorView};
use crate::common::ordmap::{Duplicate, OrdMap};
use crate::common::ordset::{lemma_is_sorted, sorted};
use crate::common::schema::{IndexMeta, IndexView, Schema};
use crate::common::value::TransactionId;
use crate::v2::catalog::{CatalogModel, CatalogState, SharedSchema};
use crate::v2::storage::FileStorage;

verus! {

/// The tables, and the indexes of each table in the order of their names.
pub struct PlanningContext {
    pub schemas: OrdMap<String, SharedSchema>,
    pub indexes: OrdMap<String, Vec<IndexMeta>>,
}

/// The model of what a planner is told.
#[verifier::ext_equal]
pub struct PlanningView {
    pub schemas: Map<Seq<char>, Schema>,
    pub indexes: Map<Seq<char>, Seq<IndexView>>,
}

impl View for PlanningContext {
    type V = PlanningView;

    open spec fn view(&self) -> PlanningView {
        PlanningView { schemas: self.schemas@, indexes: self.indexes@ }
    }
}

/// Indexes in the order of their names.
pub open spec fn in_name_order(by_name: Map<Seq<char>, IndexView>) -> Seq<IndexView> {
    sorted::<String>(by_name.dom()).map_values(|n: Seq<char>| by_name[n])
}

/// What a planner is told of a catalog.
pub open spec fn planning_view(c: CatalogModel) -> PlanningView {
    PlanningView {
        schemas: c.schemas,
        indexes: c.indexes.map_values(|by_name: Map<Seq<char>, IndexView>| in_name_order(by_name)),
    }
}

fn list_metas(by_name: &OrdMap<String, IndexMeta>) -> (r: Vec<IndexMeta>)
    ensures
        r.deep_view() == in_name_order(by_name@),
{
    let total: usize = by_name.len();
    let ghost names = by_name.keys();
    let mut out: Vec<IndexMeta> = Vec::new();
    let mut i: usize = 0;
    while i < total
        invariant
            i <= total,
            total == names.len(),
            names == by_name.keys(),
            out@.len() == i,
            forall|k: int| 0 <= k < i ==> (#[trigger] out@[k])@ == by_name@[names[k]],
        decreases total - i,
    {
        out.push(by_name.value_at(i).duplicate());
        i = i + 1;
    }
    proof {
        assert(names.to_set() =~= by_name@.dom());
        lemma_is_sorted::<String>(names, by_name@.dom());
        assert(out.deep_view() =~= in_name_order(by_name@));
    }
    out
}

impl CatalogState {
    /// What a planner is told of the catalog.
    pub fn planning_context(&self) -> (r: PlanningContext)
        ensures
            r@ == planning_view(self@),
    {
        let total: usize = self.indexes.len();
        let ghost names = self.indexes.keys();
        let mut indexes: OrdMap<String, Vec<IndexMeta>> = OrdMap::new();
        let mut i: usize = 0;
        while i < total
            invariant
                i <= total,
                total == names.len(),
                names == self.indexes.keys(),
                forall|n: Seq<char>| #[trigger]
                    indexes@.dom().contains(n) <==> names.take(i as int).contains(n),
                forall|n: Seq<char>| #[trigger]
                    indexes@.dom().contains(n) ==> indexes@[n] == in_name_order(self.indexes@[n]),
            decreases total - i,
        {
            let metas = list_metas(self.indexes.value_at(i));
            indexes.insert(self.indexes.key_at(i).clone(), metas);
            proof {
                let shorter = names.take(i as int);
                let longer = names.take(i + 1);
                assert forall|n: Seq<char>| #[trigger] longer.contains(n) <==> shorter.contains(n)
                    || n == names[i as int] by {
                    if shorter.contains(n) {
                        assert(longer[shorter.index_of(n)] == n);
                    }
                    if n == names[i as int] {
                        assert(longer[i as int] == n);
                    }
                    if longer.contains(n) && n != names[i as int] {
                        assert(shorter[longer.index_of(n)] == n);
                    }
                }
            }
            i = i + 1;
        }
        proof {
            assert(names.take(total as int) =~= names);
            assert(names.to_set() =~= self.indexes@.dom());
            assert(indexes@ =~= planning_view(self@).indexes);
        }
        PlanningContext { schemas: self.schemas.duplicate(), indexes }
    }
}

impl FileStorage {
    /// What a planner is told, by the catalog that it goes by.
    pub fn planning_context_snapshot(
        &mut self,
        transaction_id: Option<TransactionId>,
        reloaded: Option<CatalogState>,
    ) -> (r: DbResult<PlanningContext>)
        requires
            old(self)@.pager.sound(),
        ensures
            ({
                let stored = match reloaded {
                    Some(c) => Some(c@),
                    None => None,
                };
                let model = old(self)@.planned(transaction_id, stored);
                &&& final(self)@ == model.0
                &&& match r {
                    Ok(p) => model.1 is Ok && p@ == planning_view(model.1->Ok_0),
                    Err(e) => model.1 == Err::<CatalogModel, ErrorView>(e@),
                }
            }),
            final(self)@.pager.sound(),
    {
        let catalog = self.planning_catalog_snapshot(transaction_id, reloaded)?;
        Ok(catalog.planning_context())
    }
}

} // verus!
