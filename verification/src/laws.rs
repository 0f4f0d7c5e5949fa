//! What holds of the grids and of the batch, whatever the input.

use vstd::prelude::*;
use crate::batch::{
    batch_images,
    batch_result,
    complete,
    first_failure,
    first_fault,
    first_missing,
    joined,
    lemma_first_missing,
    lemma_valid_iff_no_fault,
    orientation_image,
    placed,
    planned,
    present,
    tasks_of,
    valid_input,
    TaskView,
    WireError,
    ORIENTATIONS,
};
use crate::image::{halo_distance, image_of, mark_after, Grid, Mark};
use crate::net::NetBox;

verus! {

/// Each grid that a worker delivered is the one that its task computes.
/// Nothing is said of which workers delivered.
pub open spec fn delivered_by(tasks: Seq<TaskView>, outcomes: Seq<Option<Grid>>) -> bool {
    &&& outcomes.len() == tasks.len()
    &&& forall|o: int|
        0 <= o < tasks.len() ==> ((#[trigger] outcomes[o]) matches Some(image) ==> image
            == image_of(tasks[o].nets, tasks[o].grid))
}

/// Every worker delivered.
pub open spec fn all_delivered(outcomes: Seq<Option<Grid>>) -> bool {
    forall|o: int| 0 <= o < outcomes.len() ==> (#[trigger] outcomes[o]) is Some
}

/// What a batch yields whose tasks are run by workers: the fault of the
/// input, or what joining the workers' outcomes yields.
pub open spec fn parallel_result(
    nets: Map<usize, Vec<NetBox>>,
    grid: nat,
    outcomes: Seq<Option<Grid>>,
) -> Result<Seq<Grid>, WireError> {
    match planned(nets, grid) {
        Err(fault) => Err(fault),
        Ok(_) => joined(outcomes),
    }
}

/// Where every worker delivered, no failure is found.
pub proof fn lemma_no_failure(outcomes: Seq<Option<Grid>>, from: int)
    requires
        0 <= from,
        all_delivered(outcomes),
    ensures
        first_failure(outcomes, from) is None,
    decreases outcomes.len() - from,
{
    if from < outcomes.len() {
        assert(outcomes[from] is Some);
        lemma_no_failure(outcomes, from + 1);
    }
}

/// The failure that is found is the first outcome without a grid; none is
/// found exactly when every worker delivered.
pub proof fn lemma_failure_found(outcomes: Seq<Option<Grid>>, from: int)
    requires
        0 <= from,
        outcomes.len() <= usize::MAX,
    ensures
        first_failure(outcomes, from) matches Some(o) ==> (from <= o < outcomes.len()
            && outcomes[o as int] is None && forall|p: int|
            from <= p < o ==> (#[trigger] outcomes[p]) is Some),
        first_failure(outcomes, from) is None ==> forall|p: int|
            from <= p < outcomes.len() ==> (#[trigger] outcomes[p]) is Some,
    decreases outcomes.len() - from,
{
    if from < outcomes.len() {
        lemma_failure_found(outcomes, from + 1);
    }
}

/// Handing the tasks to workers gives what computing the grids one after the
/// other gives: the same fault for a faulty input, and for a valid one, once
/// every worker has delivered, the same eight grids in the same order.
pub proof fn lemma_parallel_equals_sequential(
    nets: Map<usize, Vec<NetBox>>,
    grid: nat,
    outcomes: Seq<Option<Grid>>,
)
    requires
        planned(nets, grid) matches Ok(tasks) ==> (delivered_by(tasks, outcomes) && all_delivered(
            outcomes,
        )),
    ensures
        parallel_result(nets, grid, outcomes) == batch_result(nets, grid),
{
    if first_fault(nets, grid as int) is None {
        let tasks = tasks_of(nets, grid);
        lemma_no_failure(outcomes, 0);
        let collected = Seq::new(outcomes.len(), |o: int| outcomes[o]->Some_0);
        assert(collected =~= batch_images(nets, grid)) by {
            assert forall|o: int| 0 <= o < ORIENTATIONS implies collected[o]
                == #[trigger] orientation_image(nets, grid, o) by {
                assert(outcomes[o] is Some);
                assert(tasks[o].nets == nets[o as usize]@);
            }
        }
    }
}

/// A batch run by workers yields either what the sequential batch yields, or
/// the failure of a worker on an input that had no fault.
pub proof fn lemma_parallel_differs_only_by_worker_failure(
    nets: Map<usize, Vec<NetBox>>,
    grid: nat,
    outcomes: Seq<Option<Grid>>,
)
    requires
        planned(nets, grid) matches Ok(tasks) ==> delivered_by(tasks, outcomes),
    ensures
        match parallel_result(nets, grid, outcomes) {
            Err(WireError::WorkerFailure { orientation }) => batch_result(nets, grid) is Ok
                && orientation < ORIENTATIONS && outcomes[orientation as int] is None,
            other => other == batch_result(nets, grid),
        },
{
    if first_fault(nets, grid as int) is None {
        if first_failure(outcomes, 0) is None {
            lemma_failure_found(outcomes, 0);
            lemma_parallel_equals_sequential(nets, grid, outcomes);
        } else {
            lemma_failure_found(outcomes, 0);
        }
    }
}

/// Two runs of the batch by workers on one input, in each of which every
/// worker delivered, yield the same result, whatever order the workers
/// finished in.
pub proof fn lemma_parallel_runs_agree(
    nets: Map<usize, Vec<NetBox>>,
    grid: nat,
    first: Seq<Option<Grid>>,
    second: Seq<Option<Grid>>,
)
    requires
        planned(nets, grid) matches Ok(tasks) ==> (delivered_by(tasks, first) && all_delivered(first)
            && delivered_by(tasks, second) && all_delivered(second)),
    ensures
        parallel_result(nets, grid, first) == parallel_result(nets, grid, second),
{
    lemma_parallel_equals_sequential(nets, grid, first);
    lemma_parallel_equals_sequential(nets, grid, second);
}

/// The grid of side `grid` in which no cell has been written.
pub open spec fn blank_image(grid: nat) -> Grid {
    Seq::new(grid, |x: int| Seq::new(grid, |y: int| Mark::Untouched))
}

/// Without nets, no cell is written.
pub proof fn lemma_no_nets_blank_image(grid: nat)
    ensures
        image_of(Seq::<NetBox>::empty(), grid) == blank_image(grid),
{
    assert(image_of(Seq::<NetBox>::empty(), grid) =~~= blank_image(grid));
}

/// An input that has all eight orientations, none of them with a net, yields
/// eight grids of side `grid` in which no cell has been written.
pub proof fn lemma_empty_batch_is_blank(nets: Map<usize, Vec<NetBox>>, grid: nat)
    requires
        forall|o: usize| o < ORIENTATIONS ==> #[trigger] present(nets, o) && nets[o]@.len() == 0,
    ensures
        batch_result(nets, grid) == Ok::<Seq<Grid>, WireError>(
            Seq::new(ORIENTATIONS as nat, |o: int| blank_image(grid)),
        ),
{
    assert forall|o: usize| o < ORIENTATIONS implies #[trigger] placed(nets, grid as int, o) by {
        assert(present(nets, o));
    }
    assert(complete(nets)) by {
        assert forall|o: usize| o < ORIENTATIONS implies #[trigger] present(nets, o) by {
            assert(present(nets, o) && nets[o]@.len() == 0);
        }
    }
    lemma_valid_iff_no_fault(nets, grid as int);
    assert(batch_images(nets, grid) =~= Seq::new(ORIENTATIONS as nat, |o: int| blank_image(grid)))
        by {
        assert forall|o: int| 0 <= o < ORIENTATIONS implies #[trigger] orientation_image(
            nets,
            grid,
            o,
        ) == blank_image(grid) by {
            assert(present(nets, o as usize));
            assert(nets[o as usize]@ =~= Seq::<NetBox>::empty());
            lemma_no_nets_blank_image(grid);
        }
    }
}

/// On a grid of side zero every valid input yields eight grids without cells.
pub proof fn lemma_zero_grid_is_empty(nets: Map<usize, Vec<NetBox>>)
    requires
        valid_input(nets, 0),
    ensures
        batch_result(nets, 0) == Ok::<Seq<Grid>, WireError>(
            Seq::new(ORIENTATIONS as nat, |o: int| Seq::<Seq<Mark>>::empty()),
        ),
{
    lemma_valid_iff_no_fault(nets, 0);
    assert(batch_images(nets, 0) =~= Seq::new(
        ORIENTATIONS as nat,
        |o: int| Seq::<Seq<Mark>>::empty(),
    )) by {
        assert forall|o: int| 0 <= o < ORIENTATIONS implies #[trigger] orientation_image(nets, 0, o)
            == Seq::<Seq<Mark>>::empty() by {
            assert(image_of(nets[o as usize]@, 0) =~= Seq::<Seq<Mark>>::empty());
        }
    }
}

/// Nets that do not cover a cell leave on it what the nets before them left.
pub proof fn lemma_uncovering_nets_keep_mark(
    nets: Seq<NetBox>,
    from: int,
    count: int,
    x: int,
    y: int,
)
    requires
        0 <= from <= count <= nets.len(),
        forall|j: int| from <= j < count ==> halo_distance(#[trigger] nets[j], x, y) is None,
    ensures
        mark_after(nets, count, x, y) == mark_after(nets, from, x, y),
    decreases count - from,
{
    if from < count {
        assert(halo_distance(nets[count - 1], x, y) is None);
        lemma_uncovering_nets_keep_mark(nets, from, count - 1, x, y);
    }
}

/// Where the halos of several nets cover a cell, the cell carries the mark
/// of the one that comes last in the order in which the nets are given.
pub proof fn lemma_last_covering_net_wins(nets: Seq<NetBox>, last: int, x: int, y: int)
    requires
        0 <= last < nets.len(),
        halo_distance(nets[last], x, y) is Some,
        forall|j: int| last < j < nets.len() ==> halo_distance(#[trigger] nets[j], x, y) is None,
    ensures
        mark_after(nets, nets.len() as int, x, y) == (Mark::Halo {
            net: last as nat,
            distance: halo_distance(nets[last], x, y)->Some_0,
        }),
{
    lemma_uncovering_nets_keep_mark(nets, last + 1, nets.len() as int, x, y);
}

/// A cell stays unwritten exactly when no net's halo covers it.
pub proof fn lemma_untouched_iff_uncovered(nets: Seq<NetBox>, count: int, x: int, y: int)
    requires
        0 <= count <= nets.len(),
    ensures
        mark_after(nets, count, x, y) is Untouched <==> forall|j: int|
            0 <= j < count ==> halo_distance(#[trigger] nets[j], x, y) is None,
    decreases count,
{
    if count > 0 {
        lemma_untouched_iff_uncovered(nets, count - 1, x, y);
    }
}

/// An input that lacks an orientation is rejected for a missing orientation,
/// whatever else it holds, nets out of range included.
pub proof fn lemma_missing_orientation_rejected(
    nets: Map<usize, Vec<NetBox>>,
    grid: nat,
    missing: usize,
)
    requires
        missing < ORIENTATIONS,
        !present(nets, missing),
    ensures
        batch_result(nets, grid) matches Err(WireError::MissingOrientation { orientation })
            && orientation <= missing && !present(nets, orientation),
{
    lemma_first_missing(nets, 0);
    match first_missing(nets, 0) {
        Some(found) => {
            if missing < found {
                assert(present(nets, missing));
            }
        },
        None => {
            assert(present(nets, missing));
        },
    }
}

/// The error names the lowest orientation without an entry.
pub proof fn lemma_missing_orientation_reported(
    nets: Map<usize, Vec<NetBox>>,
    grid: nat,
    missing: usize,
)
    requires
        missing < ORIENTATIONS,
        !present(nets, missing),
        forall|o: usize| o < missing ==> #[trigger] present(nets, o),
    ensures
        batch_result(nets, grid) == Err::<Seq<Grid>, WireError>(
            WireError::MissingOrientation { orientation: missing },
        ),
{
    lemma_first_missing(nets, 0);
    match first_missing(nets, 0) {
        Some(found) => {
            if found < missing {
                assert(present(nets, found));
            } else if missing < found {
                assert(present(nets, missing));
            }
        },
        None => {
            assert(present(nets, missing));
        },
    }
}

} // verus!
