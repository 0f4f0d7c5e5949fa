//! The batch over the eight orientations: checking the input, handing out one
//! task per orientation, and collecting the grids in orientation order.

use std::collections::HashMap;
use vstd::prelude::*;
use crate::image::{compute_wire_image, image_of, Grid, WireImage};
use crate::net::{
    check_nets,
    first_out_of_range,
    lemma_in_range_iff_none_reported,
    nets_in_range,
    Coordinate,
    NetBox,
};

verus! {

broadcast use vstd::std_specs::hash::group_hash_axioms;

/// The number of candidate orientations of a placement site.
pub const ORIENTATIONS: usize = 8;

/// Why a batch produced no grids.
#[derive(Clone, Copy, Debug, PartialEq, Eq, Structural)]
pub enum WireError {
    /// The input has no entry for `orientation`.
    MissingOrientation { orientation: usize },
    /// The net at position `net` of `orientation` has `coordinate` beyond the
    /// grid.
    CoordinateOutOfRange { orientation: usize, net: usize, coordinate: Coordinate },
    /// The worker for `orientation` did not deliver a grid.
    WorkerFailure { orientation: usize },
}

/// The first orientation at or after `from` for which the input has no
/// entry.
pub open spec fn first_missing(nets: Map<usize, Vec<NetBox>>, from: int) -> Option<usize>
    decreases ORIENTATIONS - from,
{
    if from < 0 || from >= ORIENTATIONS {
        None
    } else if !nets.contains_key(from as usize) {
        Some(from as usize)
    } else {
        first_missing(nets, from + 1)
    }
}

/// The first net with an edge beyond `grid`, looking at the orientations from
/// `from` on in ascending order and at the nets of each in the order given:
/// the orientation, the net's position, and the edge.
pub open spec fn first_misplaced(nets: Map<usize, Vec<NetBox>>, grid: int, from: int) -> Option<
    (usize, usize, Coordinate),
>
    decreases ORIENTATIONS - from,
{
    if from < 0 || from >= ORIENTATIONS {
        None
    } else {
        match first_out_of_range(nets[from as usize]@, grid, 0) {
            Some((net, coordinate)) => Some((from as usize, net, coordinate)),
            None => first_misplaced(nets, grid, from + 1),
        }
    }
}

/// The fault for which the input is rejected, if it has one. A missing
/// orientation comes before any net out of range; among several of a kind the
/// first is named.
pub open spec fn first_fault(nets: Map<usize, Vec<NetBox>>, grid: int) -> Option<WireError> {
    match first_missing(nets, 0) {
        Some(orientation) => Some(WireError::MissingOrientation { orientation }),
        None => match first_misplaced(nets, grid, 0) {
            Some((orientation, net, coordinate)) => Some(
                WireError::CoordinateOutOfRange { orientation, net, coordinate },
            ),
            None => None,
        },
    }
}

/// Orientation `o` has an entry.
pub open spec fn present(nets: Map<usize, Vec<NetBox>>, o: usize) -> bool {
    nets.contains_key(o)
}

/// Every net of orientation `o` has its edges in `[0, grid]`.
pub open spec fn placed(nets: Map<usize, Vec<NetBox>>, grid: int, o: usize) -> bool {
    nets_in_range(nets[o]@, grid)
}

/// Every orientation has an entry.
pub open spec fn complete(nets: Map<usize, Vec<NetBox>>) -> bool {
    forall|o: usize| o < ORIENTATIONS ==> #[trigger] present(nets, o)
}

/// Every orientation has an entry, and every net has its edges in
/// `[0, grid]`.
pub open spec fn valid_input(nets: Map<usize, Vec<NetBox>>, grid: int) -> bool {
    &&& complete(nets)
    &&& forall|o: usize| o < ORIENTATIONS ==> #[trigger] placed(nets, grid, o)
}

/// No orientation is reported missing from `from` on exactly when each of
/// them has an entry.
pub proof fn lemma_first_missing(nets: Map<usize, Vec<NetBox>>, from: int)
    requires
        0 <= from,
    ensures
        first_missing(nets, from) is None <==> forall|o: usize|
            from <= o < ORIENTATIONS ==> #[trigger] present(nets, o),
        first_missing(nets, from) matches Some(o) ==> (from <= o < ORIENTATIONS && !present(
            nets,
            o,
        ) && forall|p: usize| from <= p < o ==> #[trigger] present(nets, p)),
    decreases ORIENTATIONS - from,
{
    if from < ORIENTATIONS {
        let here = from as usize;
        lemma_first_missing(nets, from + 1);
        if present(nets, here) {
            if first_missing(nets, from) is None {
                assert forall|o: usize| from <= o < ORIENTATIONS implies #[trigger] present(
                    nets,
                    o,
                ) by {
                    if o != here {
                        assert(from + 1 <= o);
                    }
                }
            } else {
                let found = first_missing(nets, from)->Some_0;
                assert forall|p: usize| from <= p < found implies #[trigger] present(nets, p) by {
                    if p != here {
                        assert(from + 1 <= p);
                    }
                }
            }
            if forall|o: usize| from <= o < ORIENTATIONS ==> #[trigger] present(nets, o) {
                assert forall|o: usize| from + 1 <= o < ORIENTATIONS implies #[trigger] present(
                    nets,
                    o,
                ) by {
                    assert(from <= o);
                }
            }
        }
    }
}

/// No net is reported out of range from orientation `from` on exactly when
/// the nets of each of them are in range.
pub proof fn lemma_first_misplaced(nets: Map<usize, Vec<NetBox>>, grid: int, from: int)
    requires
        0 <= from,
    ensures
        first_misplaced(nets, grid, from) is None <==> forall|o: usize|
            from <= o < ORIENTATIONS ==> #[trigger] placed(nets, grid, o),
    decreases ORIENTATIONS - from,
{
    if from < ORIENTATIONS {
        let here = from as usize;
        lemma_first_misplaced(nets, grid, from + 1);
        lemma_in_range_iff_none_reported(nets[here]@, grid, 0);
        if first_misplaced(nets, grid, from) is None {
            assert(placed(nets, grid, here));
            assert forall|o: usize| from <= o < ORIENTATIONS implies #[trigger] placed(
                nets,
                grid,
                o,
            ) by {
                if o != here {
                    assert(from + 1 <= o);
                }
            }
        }
        if forall|o: usize| from <= o < ORIENTATIONS ==> #[trigger] placed(nets, grid, o) {
            assert(placed(nets, grid, here));
            assert forall|o: usize| from + 1 <= o < ORIENTATIONS implies #[trigger] placed(
                nets,
                grid,
                o,
            ) by {
                assert(from <= o);
            }
        }
    }
}

/// The input has no fault exactly when it is valid.
pub proof fn lemma_valid_iff_no_fault(nets: Map<usize, Vec<NetBox>>, grid: int)
    ensures
        first_fault(nets, grid) is None <==> valid_input(nets, grid),
{
    lemma_first_missing(nets, 0);
    lemma_first_misplaced(nets, grid, 0);
}

/// What one worker is given: its orientation, that orientation's nets, and
/// the side of the grid.
pub struct TaskView {
    pub orientation: nat,
    pub nets: Seq<NetBox>,
    pub grid: nat,
}

/// The work for one orientation, with its own copy of the nets. A task exists
/// only for nets that are in range, so running it cannot fail on its input.
#[derive(Debug)]
pub struct WireTask {
    orientation: usize,
    nets: Vec<NetBox>,
    grid: usize,
}

impl View for WireTask {
    type V = TaskView;

    closed spec fn view(&self) -> TaskView {
        TaskView { orientation: self.orientation as nat, nets: self.nets@, grid: self.grid as nat }
    }
}

impl WireTask {
    #[verifier::type_invariant]
    spec fn runnable(self) -> bool {
        self.orientation < ORIENTATIONS && nets_in_range(self.nets@, self.grid as int)
    }

    /// The orientation whose grid the task computes.
    pub fn orientation(&self) -> (o: usize)
        ensures
            o == self@.orientation,
            o < ORIENTATIONS,
    {
        proof {
            use_type_invariant(self);
        }
        self.orientation
    }

    /// Computes this orientation's grid.
    pub fn run(&self) -> (image: WireImage)
        ensures
            image@ == image_of(self@.nets, self@.grid),
    {
        proof {
            use_type_invariant(self);
        }
        compute_wire_image(&self.nets, self.grid)
    }
}

/// The views of `tasks`, in order.
pub open spec fn tasks_view(tasks: Seq<WireTask>) -> Seq<TaskView> {
    Seq::new(tasks.len(), |o: int| tasks[o]@)
}

/// The tasks of a valid input: one per orientation, in ascending order.
pub open spec fn tasks_of(nets: Map<usize, Vec<NetBox>>, grid: nat) -> Seq<TaskView> {
    Seq::new(
        ORIENTATIONS as nat,
        |o: int| TaskView { orientation: o as nat, nets: nets[o as usize]@, grid },
    )
}

/// What planning yields: the first fault of the input, or its tasks.
pub open spec fn planned(nets: Map<usize, Vec<NetBox>>, grid: nat) -> Result<
    Seq<TaskView>,
    WireError,
> {
    match first_fault(nets, grid as int) {
        Some(fault) => Err(fault),
        None => Ok(tasks_of(nets, grid)),
    }
}

/// The view of a planning result.
pub open spec fn plan_view(r: Result<Vec<WireTask>, WireError>) -> Result<
    Seq<TaskView>,
    WireError,
> {
    match r {
        Ok(tasks) => Ok(tasks_view(tasks@)),
        Err(fault) => Err(fault),
    }
}

/// Copies `nets`.
fn copy_nets(nets: &Vec<NetBox>) -> (copy: Vec<NetBox>)
    ensures
        copy@ == nets@,
{
    let mut copy: Vec<NetBox> = Vec::new();
    let mut k: usize = 0;
    while k < nets.len()
        invariant
            k <= nets.len(),
            copy@ == nets@.take(k as int),
        decreases nets.len() - k,
    {
        copy.push(nets[k]);
        assert(nets@.take(k as int).push(nets@[k as int]) == nets@.take(k + 1));
        k += 1;
    }
    assert(nets@.take(nets@.len() as int) == nets@);
    copy
}

/// Looks up the entry of each orientation, in ascending order.
fn gather_entries(nets: &HashMap<usize, Vec<NetBox>>) -> (r: Result<Vec<&Vec<NetBox>>, usize>)
    ensures
        match r {
            Ok(entries) => first_missing(nets@, 0) is None && entries@.len() == ORIENTATIONS
                && forall|o: usize| o < ORIENTATIONS ==> *(#[trigger] entries@[o as int]) == nets@[o],
            Err(o) => first_missing(nets@, 0) == Some(o),
        },
{
    let mut entries: Vec<&Vec<NetBox>> = Vec::new();
    let mut o: usize = 0;
    while o < ORIENTATIONS
        invariant
            o <= ORIENTATIONS,
            entries@.len() == o,
            first_missing(nets@, 0) == first_missing(nets@, o as int),
            forall|p: usize| p < o ==> *(#[trigger] entries@[p as int]) == nets@[p],
        decreases ORIENTATIONS - o,
    {
        match nets.get(&o) {
            None => {
                return Err(o);
            },
            Some(found) => {
                entries.push(found);
            },
        }
        o += 1;
    }
    Ok(entries)
}

/// Checks the whole input before any work is done, and hands out one task
/// per orientation, each with its own copy of that orientation's nets.
/// An orientation without an entry is reported before any net out of range.
pub fn plan_wire_tasks(nets: &HashMap<usize, Vec<NetBox>>, grid: usize) -> (r: Result<
    Vec<WireTask>,
    WireError,
>)
    ensures
        plan_view(r) == planned(nets@, grid as nat),
{
    let entries = match gather_entries(nets) {
        Ok(entries) => entries,
        Err(orientation) => {
            return Err(WireError::MissingOrientation { orientation });
        },
    };
    let mut o: usize = 0;
    while o < ORIENTATIONS
        invariant
            o <= ORIENTATIONS,
            entries@.len() == ORIENTATIONS,
            first_missing(nets@, 0) is None,
            forall|p: usize| p < ORIENTATIONS ==> *(#[trigger] entries@[p as int]) == nets@[p],
            first_misplaced(nets@, grid as int, 0) == first_misplaced(
                nets@,
                grid as int,
                o as int,
            ),
        decreases ORIENTATIONS - o,
    {
        match check_nets(entries[o], grid) {
            Some((net, coordinate)) => {
                return Err(WireError::CoordinateOutOfRange { orientation: o, net, coordinate });
            },
            None => {},
        }
        o += 1;
    }
    proof {
        lemma_first_misplaced(nets@, grid as int, 0);
    }
    let mut tasks: Vec<WireTask> = Vec::new();
    let mut o: usize = 0;
    while o < ORIENTATIONS
        invariant
            o <= ORIENTATIONS,
            entries@.len() == ORIENTATIONS,
            tasks@.len() == o,
            forall|p: usize| p < ORIENTATIONS ==> *(#[trigger] entries@[p as int]) == nets@[p],
            forall|p: usize| p < ORIENTATIONS ==> #[trigger] placed(nets@, grid as int, p),
            forall|i: int|
                0 <= i < o ==> (#[trigger] tasks@[i])@ == (TaskView {
                    orientation: i as nat,
                    nets: nets@[i as usize]@,
                    grid: grid as nat,
                }),
        decreases ORIENTATIONS - o,
    {
        assert(placed(nets@, grid as int, o));
        let task = WireTask { orientation: o, nets: copy_nets(entries[o]), grid };
        tasks.push(task);
        o += 1;
    }
    assert(tasks_view(tasks@) =~= tasks_of(nets@, grid as nat));
    Ok(tasks)
}

/// The views of `images`, in order.
pub open spec fn images_view(images: Seq<WireImage>) -> Seq<Grid> {
    Seq::new(images.len(), |o: int| images[o]@)
}

/// The view of a batch result.
pub open spec fn result_view(r: Result<Vec<WireImage>, WireError>) -> Result<
    Seq<Grid>,
    WireError,
> {
    match r {
        Ok(images) => Ok(images_view(images@)),
        Err(fault) => Err(fault),
    }
}

/// The grid of orientation `o`.
pub open spec fn orientation_image(nets: Map<usize, Vec<NetBox>>, grid: nat, o: int) -> Grid {
    image_of(nets[o as usize]@, grid)
}

/// The grids of a valid input: one per orientation, in ascending order.
pub open spec fn batch_images(nets: Map<usize, Vec<NetBox>>, grid: nat) -> Seq<Grid> {
    Seq::new(ORIENTATIONS as nat, |o: int| orientation_image(nets, grid, o))
}

/// What the batch yields: the first fault of the input, or its eight grids.
pub open spec fn batch_result(nets: Map<usize, Vec<NetBox>>, grid: nat) -> Result<
    Seq<Grid>,
    WireError,
> {
    match first_fault(nets, grid as int) {
        Some(fault) => Err(fault),
        None => Ok(batch_images(nets, grid)),
    }
}

/// Computes the eight grids one after the other, in ascending order of
/// orientation.
pub fn compute_wire_images(nets: &HashMap<usize, Vec<NetBox>>, grid: usize) -> (r: Result<
    Vec<WireImage>,
    WireError,
>)
    ensures
        result_view(r) == batch_result(nets@, grid as nat),
{
    match plan_wire_tasks(nets, grid) {
        Err(fault) => Err(fault),
        Ok(tasks) => {
            proof {
                assert(tasks_view(tasks@).len() == tasks@.len());
            }
            let mut images: Vec<WireImage> = Vec::new();
            let mut o: usize = 0;
            while o < tasks.len()
                invariant
                    o <= tasks.len(),
                    tasks@.len() == ORIENTATIONS,
                    tasks_view(tasks@) == tasks_of(nets@, grid as nat),
                    images@.len() == o,
                    forall|i: int|
                        0 <= i < o ==> (#[trigger] images@[i])@ == image_of(
                            nets@[i as usize]@,
                            grid as nat,
                        ),
                decreases tasks.len() - o,
            {
                let image = tasks[o].run();
                assert(tasks_view(tasks@)[o as int] == tasks_of(nets@, grid as nat)[o as int]);
                images.push(image);
                o += 1;
            }
            assert(images_view(images@) =~= batch_images(nets@, grid as nat));
            Ok(images)
        },
    }
}

/// What the workers delivered, as mathematical values: for each orientation
/// its grid, or `None` where the worker failed.
pub open spec fn outcomes_view(outcomes: Seq<Option<WireImage>>) -> Seq<Option<Grid>> {
    Seq::new(
        outcomes.len(),
        |o: int|
            match outcomes[o] {
                Some(image) => Some(image@),
                None => None,
            },
    )
}

/// The first orientation at or after `from` whose worker failed.
pub open spec fn first_failure(outcomes: Seq<Option<Grid>>, from: int) -> Option<usize>
    decreases outcomes.len() - from,
{
    if from < 0 || from >= outcomes.len() {
        None
    } else if outcomes[from] is None {
        Some(from as usize)
    } else {
        first_failure(outcomes, from + 1)
    }
}

/// What joining yields: the grids in the order of the outcomes, or the first
/// orientation whose worker failed.
pub open spec fn joined(outcomes: Seq<Option<Grid>>) -> Result<Seq<Grid>, WireError> {
    match first_failure(outcomes, 0) {
        Some(orientation) => Err(WireError::WorkerFailure { orientation }),
        None => Ok(Seq::new(outcomes.len(), |o: int| outcomes[o]->Some_0)),
    }
}

/// Collects what the workers delivered, in orientation order, whatever the
/// order in which they finished. One failed worker fails the batch: the error
/// names the first orientation without a grid, and no grid is returned.
pub fn join_wire_images(outcomes: Vec<Option<WireImage>>) -> (r: Result<Vec<WireImage>, WireError>)
    ensures
        result_view(r) == joined(outcomes_view(outcomes@)),
{
    let ghost delivered = outcomes_view(outcomes@);
    let mut pending = outcomes;
    let mut images: Vec<WireImage> = Vec::new();
    let mut o: usize = 0;
    while o < pending.len()
        invariant
            o <= pending.len(),
            delivered == outcomes_view(outcomes@),
            pending@.len() == delivered.len(),
            images@.len() == o,
            first_failure(delivered, 0) == first_failure(delivered, o as int),
            forall|i: int| 0 <= i < o ==> Some((#[trigger] images@[i])@) == delivered[i],
            forall|i: int|
                o <= i < pending@.len() ==> (match #[trigger] pending@[i] {
                    Some(image) => Some(image@),
                    None => None,
                }) == delivered[i],
        decreases pending.len() - o,
    {
        let ghost before = pending@;
        match pending[o].take() {
            Some(image) => {
                images.push(image);
            },
            None => {
                assert(before[o as int] is None);
                assert(first_failure(delivered, o as int) == Some(o));
                return Err(WireError::WorkerFailure { orientation: o });
            },
        }
        o += 1;
    }
    assert(images_view(images@) =~= Seq::new(delivered.len(), |i: int| delivered[i]->Some_0));
    Ok(images)
}

} // verus!
