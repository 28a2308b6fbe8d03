//! Runs of rows, and what is read of each row group.
use vstd::prelude::*;

verus! {

/// A number of consecutive rows that are all read or all skipped.
#[derive(Clone, Copy, Debug, PartialEq, Eq, Structural)]
pub struct Run {
    pub row_count: usize,
    pub skip: bool,
}

/// What is read of one row group.
pub enum GroupAccess {
    /// Nothing.
    Skip,
    /// Every row.
    Scan,
    /// The rows that are marked.
    Selection(Seq<bool>),
}

/// The rows of `runs`, one after the other; a row is marked where it is read.
pub open spec fn rows_of(runs: Seq<Run>) -> Seq<bool>
    decreases runs.len(),
{
    if runs.len() == 0 {
        Seq::empty()
    } else {
        rows_of(runs.drop_last()) + Seq::new(
            runs.last().row_count as nat,
            |i: int| !runs.last().skip,
        )
    }
}

/// The number of rows in `runs`.
pub open spec fn total_rows(runs: Seq<Run>) -> nat
    decreases runs.len(),
{
    if runs.len() == 0 {
        0
    } else {
        total_rows(runs.drop_last()) + runs.last().row_count as nat
    }
}

/// Whether every run that has rows is skipped, or every such run is read.
pub open spec fn is_uniform(runs: Seq<Run>, skip: bool) -> bool {
    forall|i: int| 0 <= i < runs.len() ==> (#[trigger] runs[i]).row_count == 0 || runs[i].skip == skip
}

/// Whether the rows of neighbouring runs that are treated alike can be counted in a `usize`.
pub open spec fn runs_fit(runs: Seq<Run>) -> bool {
    forall|i: int, j: int, skip: bool|
        0 <= i <= j <= runs.len() && #[trigger] is_uniform(runs.subrange(i, j), skip) ==> total_rows(
            runs.subrange(i, j),
        ) <= usize::MAX
}

/// Runs whose rows can all be counted in a `usize` can be counted neighbour by neighbour.
pub proof fn lemma_total_fits(runs: Seq<Run>)
    requires
        total_rows(runs) <= usize::MAX,
    ensures
        runs_fit(runs),
{
    assert forall|i: int, j: int, skip: bool|
        0 <= i <= j <= runs.len() && #[trigger] is_uniform(
            runs.subrange(i, j),
            skip,
        ) implies total_rows(runs.subrange(i, j)) <= usize::MAX by {
        lemma_total_of_part(runs, i, j);
    }
}

proof fn lemma_total_of_part(runs: Seq<Run>, i: int, j: int)
    requires
        0 <= i <= j <= runs.len(),
    ensures
        total_rows(runs.subrange(i, j)) <= total_rows(runs),
    decreases runs.len(),
{
    if j < runs.len() {
        assert(runs.subrange(i, j) =~= runs.drop_last().subrange(i, j));
        lemma_total_of_part(runs.drop_last(), i, j);
    } else if i < j {
        assert(runs.subrange(i, j).drop_last() =~= runs.drop_last().subrange(i, j - 1));
        lemma_total_of_part(runs.drop_last(), i, j - 1);
    }
}

proof fn lemma_extend(runs: Seq<Run>, i: int, n: int, skip: bool)
    requires
        0 <= i <= n < runs.len(),
    ensures
        total_rows(runs.subrange(i, n + 1)) == total_rows(runs.subrange(i, n)) + runs[n].row_count,
        is_uniform(runs.subrange(i, n + 1), skip) <==> is_uniform(runs.subrange(i, n), skip) && (
        runs[n].row_count == 0 || runs[n].skip == skip),
{
    let longer = runs.subrange(i, n + 1);
    let shorter = runs.subrange(i, n);
    assert(longer.drop_last() =~= shorter);
    assert(longer.last() == runs[n]);
    if is_uniform(longer, skip) {
        assert(longer[n - i] == runs[n]);
        assert forall|k: int| 0 <= k < shorter.len() implies (#[trigger] shorter[k]).row_count == 0
            || shorter[k].skip == skip by {
            assert(longer[k] == shorter[k]);
        }
    }
    if is_uniform(shorter, skip) && (runs[n].row_count == 0 || runs[n].skip == skip) {
        assert forall|k: int| 0 <= k < longer.len() implies (#[trigger] longer[k]).row_count == 0
            || longer[k].skip == skip by {
            if k < n - i {
                assert(longer[k] == shorter[k]);
            }
        }
    }
}

/// Whether the runs that end before run `n` can be counted, and `sum` is the number of rows
/// in the longest stretch before it that is treated as `skip` says.
spec fn counted(runs: Seq<Run>, n: int, skip: bool, sum: int) -> bool {
    &&& forall|i: int, j: int, s: bool|
        0 <= i <= j <= n && #[trigger] is_uniform(runs.subrange(i, j), s) ==> total_rows(
            runs.subrange(i, j),
        ) <= usize::MAX
    &&& forall|i: int|
        0 <= i <= n && #[trigger] is_uniform(runs.subrange(i, n), skip) ==> total_rows(
            runs.subrange(i, n),
        ) <= sum
    &&& forall|i: int, s: bool|
        0 <= i <= n && s != skip && #[trigger] is_uniform(runs.subrange(i, n), s) ==> total_rows(
            runs.subrange(i, n),
        ) == 0
    &&& exists|i: int|
        0 <= i <= n && #[trigger] is_uniform(runs.subrange(i, n), skip) && total_rows(
            runs.subrange(i, n),
        ) == sum
}

proof fn lemma_counted_step(runs: Seq<Run>, n: int, skip: bool, sum: int)
    requires
        0 <= n < runs.len(),
        counted(runs, n, skip, sum),
        0 <= sum,
    ensures
        ({
            let run = runs[n];
            if run.row_count == 0 {
                counted(runs, n + 1, skip, sum)
            } else if run.skip == skip {
                if sum + run.row_count <= usize::MAX {
                    counted(runs, n + 1, skip, sum + run.row_count)
                } else {
                    !runs_fit(runs)
                }
            } else {
                counted(runs, n + 1, run.skip, run.row_count as int)
            }
        }),
{
    let run = runs[n];
    let rows: int = run.row_count as int;
    assert(runs.subrange(n + 1, n + 1) =~= Seq::<Run>::empty());
    assert(runs.subrange(n, n) =~= Seq::<Run>::empty());
    assert(is_uniform(runs.subrange(n, n), run.skip));
    let w = choose|i: int|
        0 <= i <= n && #[trigger] is_uniform(runs.subrange(i, n), skip) && total_rows(
            runs.subrange(i, n),
        ) == sum;
    lemma_extend(runs, w, n, skip);
    lemma_extend(runs, n, n, run.skip);
    let grown = is_uniform(runs.subrange(w, n + 1), skip);
    let single = is_uniform(runs.subrange(n, n + 1), run.skip);
    if rows > 0 && run.skip == skip && sum + rows > usize::MAX {
        assert(grown);
        assert(!runs_fit(runs));
    } else {
        let (new_skip, new_sum) = if rows == 0 {
            (skip, sum)
        } else if run.skip == skip {
            (skip, sum + rows)
        } else {
            (run.skip, rows)
        };
        assert forall|i: int|
            0 <= i <= n + 1 && #[trigger] is_uniform(
                runs.subrange(i, n + 1),
                new_skip,
            ) implies total_rows(runs.subrange(i, n + 1)) <= new_sum by {
            if i <= n {
                lemma_extend(runs, i, n, new_skip);
            }
        }
        assert forall|i: int, s: bool|
            0 <= i <= n + 1 && s != new_skip && #[trigger] is_uniform(
                runs.subrange(i, n + 1),
                s,
            ) implies total_rows(runs.subrange(i, n + 1)) == 0 by {
            if i <= n {
                lemma_extend(runs, i, n, s);
            }
        }
        assert forall|i: int, j: int, s: bool|
            0 <= i <= j <= n + 1 && #[trigger] is_uniform(
                runs.subrange(i, j),
                s,
            ) implies total_rows(runs.subrange(i, j)) <= usize::MAX by {
        }
        if rows > 0 && run.skip != skip {
            assert(total_rows(runs.subrange(n, n)) == 0);
            assert(single && total_rows(runs.subrange(n, n + 1)) == new_sum);
        } else {
            assert(grown && total_rows(runs.subrange(w, n + 1)) == new_sum);
        }
    }
}

/// Whether the rows of neighbouring runs that are treated alike can be counted.
pub fn can_count(runs: &Vec<Run>) -> (fits: bool)
    ensures
        fits == runs_fit(runs@),
{
    let mut skip: bool = true;
    let mut sum: usize = 0;
    proof {
        assert(runs@.subrange(0, 0) =~= Seq::<Run>::empty());
        assert(is_uniform(runs@.subrange(0, 0), true));
    }
    for n in 0..runs.len()
        invariant
            counted(runs@, n as int, skip, sum as int),
    {
        let run: Run = runs[n];
        proof {
            lemma_counted_step(runs@, n as int, skip, sum as int);
        }
        if run.row_count != 0 {
            if run.skip == skip {
                match sum.checked_add(run.row_count) {
                    Some(more) => {
                        sum = more;
                    },
                    None => {
                        return false;
                    },
                }
            } else {
                skip = run.skip;
                sum = run.row_count;
            }
        }
    }
    true
}

/// `rows_of` has as many rows as the runs count.
pub proof fn law_rows_are_counted(runs: Seq<Run>)
    ensures
        rows_of(runs).len() == total_rows(runs),
    decreases runs.len(),
{
    if runs.len() > 0 {
        law_rows_are_counted(runs.drop_last());
    }
}

/// A row is read exactly where the run that it lies in is read: row `row` of run `at` comes
/// after all rows of the runs before it.
pub proof fn law_row_follows_its_run(runs: Seq<Run>, at: int, row: int)
    requires
        0 <= at < runs.len(),
        0 <= row < runs[at].row_count,
    ensures
        total_rows(runs.take(at)) + row < rows_of(runs).len(),
        rows_of(runs)[total_rows(runs.take(at)) + row] == !runs[at].skip,
    decreases runs.len(),
{
    let rest = runs.drop_last();
    law_rows_are_counted(runs);
    law_rows_are_counted(rest);
    if at == runs.len() - 1 {
        assert(runs.take(at) =~= rest);
    } else {
        assert(runs.take(at) =~= rest.take(at));
        assert(rest[at] == runs[at]);
        law_row_follows_its_run(rest, at, row);
    }
}

} // verus!
