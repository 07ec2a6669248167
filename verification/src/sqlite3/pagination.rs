//! Dividing cells among pages.

use vstd::prelude::*;

use crate::sqlite3::reals::{fail, storage_stop, Eval, StopView};

verus! {

/// A run of cells: from one position up to another.
pub type Run = (usize, usize);

/// The model of runs that may be missing.
pub open spec fn runs_view(r: Eval<Vec<Run>>) -> Result<Seq<Run>, StopView> {
    match r {
        Ok(v) => Ok(v@),
        Err(s) => Err(s@),
    }
}

// ---------------------------------------------------------------------------
// Leaves

/// Runs of cells from a position on: a new page is started where the next cell would not fit
/// behind those already there. A page has a header of eight bytes, and each cell takes two
/// more for its pointer.
pub open spec fn leaf_runs_from(
    sizes: Seq<u128>,
    i: int,
    from: int,
    used: int,
    out: Seq<Run>,
) -> Result<Seq<Run>, StopView>
    decreases sizes.len() - i,
{
    if i < 0 || i >= sizes.len() {
        Ok(out.push((from as usize, sizes.len() as usize)))
    } else {
        let required = 2 + sizes[i];
        let full = i > from && used + required > 4096;
        let base = if full {
            8
        } else {
            used
        };
        if base + required > 4096 {
            Err(
                storage_stop(
                    "sqlite writer does not support a single btree cell larger than a page"@,
                ),
            )
        } else if full {
            leaf_runs_from(
                sizes,
                i + 1,
                i,
                base + required,
                out.push((from as usize, i as usize)),
            )
        } else {
            leaf_runs_from(sizes, i + 1, from, base + required, out)
        }
    }
}

/// Runs of cells for leaf pages.
pub open spec fn leaf_runs(sizes: Seq<u128>) -> Result<Seq<Run>, StopView> {
    leaf_runs_from(sizes, 0, 0, 8, Seq::empty())
}

/// Divides cells among leaf pages.
pub fn paginate_leaf_cells(sizes: &Vec<u128>) -> (r: Eval<Vec<Run>>)
    requires
        forall|i: int| 0 <= i < sizes@.len() ==> #[trigger] sizes@[i] <= 0x4_0000_0000_0000_0000,
    ensures
        runs_view(r) == leaf_runs(sizes@),
{
    let mut out: Vec<Run> = Vec::new();
    let mut from: usize = 0;
    let mut used: u128 = 8;
    let mut i: usize = 0;
    while i < sizes.len()
        invariant
            from <= i <= sizes@.len(),
            used <= 4096,
            forall|k: int|
                0 <= k < sizes@.len() ==> #[trigger] sizes@[k] <= 0x4_0000_0000_0000_0000,
            leaf_runs_from(sizes@, i as int, from as int, used as int, out@) == leaf_runs(sizes@),
        decreases sizes@.len() - i,
    {
        let required: u128 = 2 + sizes[i];
        if i > from && used + required > 4096 {
            out.push((from, i));
            from = i;
            used = 8;
        }
        if used + required > 4096 {
            return Err(
                fail("sqlite writer does not support a single btree cell larger than a page"),
            );
        }
        used = used + required;
        i = i + 1;
    }
    out.push((from, sizes.len()));
    Ok(out)
}

/// What cells of a run take on a page, each with its pointer.
pub open spec fn room(sizes: Seq<u128>, from: int, to: int) -> int
    decreases to - from,
{
    if from >= to {
        0
    } else {
        room(sizes, from, to - 1) + 2 + sizes[to - 1]
    }
}

/// Whether runs follow each other from the start up to a position, each of them with
/// something in it and small enough for a page.
#[verifier::opaque]
pub open spec fn runs_cover(sizes: Seq<u128>, runs: Seq<Run>, to: int) -> bool {
    &&& forall|k: int|
        0 <= k < runs.len() ==> {
            &&& (#[trigger] runs[k]).0 < runs[k].1 <= sizes.len()
            &&& runs[k].0 == if k == 0 {
                0
            } else {
                runs[k - 1].1 as int
            }
            &&& 8 + room(sizes, runs[k].0 as int, runs[k].1 as int) <= 4096
        }
    &&& to == if runs.len() == 0 {
        0
    } else {
        runs.last().1 as int
    }
}

proof fn lemma_cover_push(sizes: Seq<u128>, runs: Seq<Run>, from: usize, to: usize)
    requires
        runs_cover(sizes, runs, from as int),
        from < to <= sizes.len(),
        8 + room(sizes, from as int, to as int) <= 4096,
    ensures
        runs_cover(sizes, runs.push((from, to)), to as int),
{
    reveal(runs_cover);
    let next = runs.push((from, to));
    assert forall|k: int| 0 <= k < next.len() implies {
        &&& (#[trigger] next[k]).0 < next[k].1 <= sizes.len()
        &&& next[k].0 == if k == 0 {
            0
        } else {
            next[k - 1].1 as int
        }
        &&& 8 + room(sizes, next[k].0 as int, next[k].1 as int) <= 4096
    } by {
        if k < runs.len() {
            assert(next[k] == runs[k]);
        }
    }
}

proof fn lemma_leaf_runs(sizes: Seq<u128>, i: int, from: int, used: int, out: Seq<Run>)
    requires
        0 <= from <= i <= sizes.len() <= usize::MAX,
        i < sizes.len() ==> from < i || (from == i == 0),
        i == sizes.len() ==> from < i,
        used == 8 + room(sizes, from, i),
        used <= 4096,
        runs_cover(sizes, out, from),
        leaf_runs_from(sizes, i, from, used, out) is Ok,
    ensures
        runs_cover(sizes, leaf_runs_from(sizes, i, from, used, out)->Ok_0, sizes.len() as int),
    decreases sizes.len() - i,
{
    if i < sizes.len() {
        let required = 2 + sizes[i];
        assert(room(sizes, from, i + 1) == room(sizes, from, i) + 2 + sizes[i]);
        if i > from && used + required > 4096 {
            lemma_cover_push(sizes, out, from as usize, i as usize);
            assert(room(sizes, i, i) == 0);
            assert(room(sizes, i, i + 1) == room(sizes, i, i) + 2 + sizes[i]);
            lemma_leaf_runs(sizes, i + 1, i, 8 + required, out.push((from as usize, i as usize)));
        } else {
            lemma_leaf_runs(sizes, i + 1, from, used + required, out);
        }
    } else {
        lemma_cover_push(sizes, out, from as usize, i as usize);
    }
}

/// Dividing cells among leaf pages keeps every cell, in its place: the runs follow each other
/// from the first cell to the last, none is empty, and each fits a page.
pub proof fn law_leaf_runs_cover(sizes: Seq<u128>)
    requires
        0 < sizes.len() <= usize::MAX,
        leaf_runs(sizes) is Ok,
    ensures
        runs_cover(sizes, leaf_runs(sizes)->Ok_0, sizes.len() as int),
{
    assert(room(sizes, 0, 0) == 0);
    assert(runs_cover(sizes, Seq::empty(), 0)) by {
        reveal(runs_cover);
    }
    lemma_leaf_runs(sizes, 0, 0, 8, Seq::empty());
}

// ---------------------------------------------------------------------------
// Interior pages

/// Runs of children from a position on. A page has a header of twelve bytes and a cell for
/// each child but its last.
pub open spec fn interior_runs_from(
    sizes: Seq<u128>,
    i: int,
    from: int,
    used: int,
    out: Seq<Run>,
) -> Result<Seq<Run>, StopView>
    decreases sizes.len() - i,
{
    if i < 1 || i >= sizes.len() {
        Ok(out.push((from as usize, sizes.len() as usize)))
    } else {
        let required = 2 + sizes[i - 1];
        if i - from >= 2 && used + required > 4096 {
            interior_runs_from(sizes, i + 1, i, 12, out.push((from as usize, i as usize)))
        } else if used + required > 4096 {
            Err(
                storage_stop(
                    "sqlite writer does not support an interior btree cell larger than a page"@,
                ),
            )
        } else {
            interior_runs_from(sizes, i + 1, from, used + required, out)
        }
    }
}

/// Runs of which the last has more than one child: one is taken from the run before it where
/// it has only one.
pub open spec fn rebalanced(sizes: Seq<u128>, runs: Seq<Run>) -> Result<Seq<Run>, StopView> {
    let n = runs.len();
    if n > 1 && runs[n - 1].1 - runs[n - 1].0 == 1 {
        if runs[n - 2].1 - runs[n - 2].0 < 3 {
            Err(
                storage_stop(
                    "sqlite writer could not balance interior btree children across pages"@,
                ),
            )
        } else {
            let at = (runs[n - 2].1 - 1) as usize;
            if 14 + sizes[at as int] > 4096 {
                Err(
                    storage_stop(
                        "sqlite writer could not fit rebalanced interior btree children on a page"@,
                    ),
                )
            } else {
                Ok(runs.update(n - 2, (runs[n - 2].0, at)).update(n - 1, (at, runs[n - 1].1)))
            }
        }
    } else {
        Ok(runs)
    }
}

/// Runs of children for interior pages.
pub open spec fn interior_runs(sizes: Seq<u128>) -> Result<Seq<Run>, StopView> {
    if sizes.len() == 0 {
        Err(storage_stop("sqlite interior page must have at least one child"@))
    } else if sizes.len() == 1 {
        Ok(seq![(0usize, 1usize)])
    } else {
        match interior_runs_from(sizes, 1, 0, 12, Seq::empty()) {
            Err(s) => Err(s),
            Ok(runs) => rebalanced(sizes, runs),
        }
    }
}

/// Whether runs of children follow each other from the start up to a position, each with two
/// children or more.
pub open spec fn runs_follow(n: int, runs: Seq<Run>, to: int) -> bool {
    &&& forall|k: int|
        0 <= k < runs.len() ==> {
            &&& (#[trigger] runs[k]).0 + 2 <= runs[k].1 <= n
            &&& runs[k].0 == if k == 0 {
                0
            } else {
                runs[k - 1].1 as int
            }
        }
    &&& to == if runs.len() == 0 {
        0
    } else {
        runs.last().1 as int
    }
}

/// Whether runs of children follow each other to the end, the last with one child or more.
pub open spec fn runs_reach(n: int, runs: Seq<Run>) -> bool {
    &&& runs.len() > 0
    &&& runs_follow(n, runs.drop_last(), runs.last().0 as int)
    &&& runs.last().0 < runs.last().1 == n
}

proof fn lemma_follow_push(n: int, runs: Seq<Run>, from: usize, to: usize)
    requires
        runs_follow(n, runs, from as int),
        from + 2 <= to <= n,
    ensures
        runs_follow(n, runs.push((from, to)), to as int),
{
    let next = runs.push((from, to));
    assert forall|k: int| 0 <= k < next.len() implies {
        &&& (#[trigger] next[k]).0 + 2 <= next[k].1 <= n
        &&& next[k].0 == if k == 0 {
            0
        } else {
            next[k - 1].1 as int
        }
    } by {
        if k < runs.len() {
            assert(next[k] == runs[k]);
        }
    }
}

proof fn lemma_interior_runs(sizes: Seq<u128>, i: int, from: int, used: int, out: Seq<Run>)
    requires
        0 <= from < i <= sizes.len() <= usize::MAX,
        runs_follow(sizes.len() as int, out, from),
        interior_runs_from(sizes, i, from, used, out) is Ok,
    ensures
        runs_reach(
            sizes.len() as int,
            interior_runs_from(sizes, i, from, used, out)->Ok_0,
        ),
    decreases sizes.len() - i,
{
    if i < sizes.len() {
        let required = 2 + sizes[i - 1];
        if i - from >= 2 && used + required > 4096 {
            lemma_follow_push(sizes.len() as int, out, from as usize, i as usize);
            lemma_interior_runs(sizes, i + 1, i, 12, out.push((from as usize, i as usize)));
        } else {
            lemma_interior_runs(sizes, i + 1, from, used + required, out);
        }
    } else {
        let next = out.push((from as usize, i as usize));
        assert(next.drop_last() =~= out);
    }
}

/// Dividing children among interior pages keeps every child, in its place: the runs follow
/// each other from the first child to the last, and each has two children or more.
pub proof fn law_interior_runs_follow(sizes: Seq<u128>)
    requires
        2 <= sizes.len() <= usize::MAX,
        interior_runs(sizes) is Ok,
    ensures
        runs_follow(
            sizes.len() as int,
            interior_runs(sizes)->Ok_0,
            sizes.len() as int,
        ),
        interior_runs(sizes)->Ok_0.len() > 0,
        2 * interior_runs(sizes)->Ok_0.len() <= sizes.len(),
{
    let n = sizes.len() as int;
    lemma_interior_runs(sizes, 1, 0, 12, Seq::empty());
    let runs = interior_runs_from(sizes, 1, 0, 12, Seq::empty())->Ok_0;
    let init = runs.drop_last();
    let last = runs.last();
    let done = interior_runs(sizes)->Ok_0;
    assert forall|k: int| 0 <= k < init.len() implies #[trigger] runs[k] == init[k] by {}
    if runs.len() > 1 && last.1 - last.0 == 1 {
        let c = runs.len() as int;
        assert(init[c - 2] == runs[c - 2]);
        assert forall|k: int| 0 <= k < done.len() implies {
            &&& (#[trigger] done[k]).0 + 2 <= done[k].1 <= n
            &&& done[k].0 == if k == 0 {
                0
            } else {
                done[k - 1].1 as int
            }
        } by {
            if k < c - 2 {
                assert(done[k] == init[k]);
            } else if k == c - 2 {
                assert(done[k].0 == init[k].0);
            }
            if 0 < k <= c - 2 {
                assert(done[k - 1] == init[k - 1]);
            }
        }
    } else {
        if runs.len() == 1 {
            assert(last.0 == 0);
        }
        lemma_follow_push(n, init, last.0, last.1);
        assert(init.push(last) =~= runs);
    }
    lemma_run_count(n, done, n);
}

proof fn lemma_run_count(n: int, runs: Seq<Run>, to: int)
    requires
        runs_follow(n, runs, to),
    ensures
        2 * runs.len() <= to,
    decreases runs.len(),
{
    if runs.len() > 0 {
        let init = runs.drop_last();
        let c = runs.len() as int;
        assert(runs[c - 1] == runs.last());
        assert forall|k: int| 0 <= k < init.len() implies {
            &&& (#[trigger] init[k]).0 + 2 <= init[k].1 <= n
            &&& init[k].0 == if k == 0 {
                0
            } else {
                init[k - 1].1 as int
            }
        } by {
            assert(init[k] == runs[k]);
        }
        lemma_run_count(n, init, runs.last().0 as int);
    }
}

/// Divides children among interior pages.
pub fn paginate_interior_children(sizes: &Vec<u128>) -> (r: Eval<Vec<Run>>)
    requires
        forall|i: int| 0 <= i < sizes@.len() ==> #[trigger] sizes@[i] <= 0x4_0000_0000_0000_0000,
    ensures
        runs_view(r) == interior_runs(sizes@),
{
    let total: usize = sizes.len();
    if total == 0 {
        return Err(fail("sqlite interior page must have at least one child"));
    }
    let mut out: Vec<Run> = Vec::new();
    if total == 1 {
        out.push((0, 1));
        assert(out@ =~= seq![(0usize, 1usize)]);
        return Ok(out);
    }
    let mut from: usize = 0;
    let mut used: u128 = 12;
    let mut i: usize = 1;
    while i < total
        invariant
            from < i <= total == sizes@.len(),
            total >= 2,
            used <= 4096,
            forall|k: int|
                0 <= k < sizes@.len() ==> #[trigger] sizes@[k] <= 0x4_0000_0000_0000_0000,
            interior_runs_from(sizes@, i as int, from as int, used as int, out@)
                == interior_runs_from(sizes@, 1, 0, 12, Seq::empty()),
        decreases total - i,
    {
        let required: u128 = 2 + sizes[i - 1];
        if i - from >= 2 && used + required > 4096 {
            out.push((from, i));
            from = i;
            used = 12;
        } else if used + required > 4096 {
            return Err(
                fail("sqlite writer does not support an interior btree cell larger than a page"),
            );
        } else {
            used = used + required;
        }
        i = i + 1;
    }
    out.push((from, total));
    proof {
        lemma_interior_runs(sizes@, 1, 0, 12, Seq::empty());
    }
    let n: usize = out.len();
    let ghost runs = out@;
    assert(runs == interior_runs_from(sizes@, 1, 0, 12, Seq::empty())->Ok_0);
    let (start, end): Run = out[n - 1];
    if n > 1 && end - start == 1 {
        let (before, middle): Run = out[n - 2];
        assert(runs.drop_last()[n - 2] == runs[n - 2]);
        if middle - before < 3 {
            return Err(
                fail("sqlite writer could not balance interior btree children across pages"),
            );
        }
        let at: usize = middle - 1;
        if 14 + sizes[at] > 4096 {
            return Err(
                fail("sqlite writer could not fit rebalanced interior btree children on a page"),
            );
        }
        out.set(n - 2, (before, at));
        out.set(n - 1, (at, end));
    }
    Ok(out)
}

} // verus!
