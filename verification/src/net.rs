//! Net bounding boxes and the range check on their coordinates.

use vstd::prelude::*;

verus! {

/// The bounding box of one net, in grid-cell coordinates, with the offsets
/// that are added to the distance on the far side of the box.
#[derive(Clone, Copy, Debug, PartialEq, Eq, Structural)]
pub struct NetBox {
    pub start_x: usize,
    pub start_y: usize,
    pub end_x: usize,
    pub end_y: usize,
    pub base_offset_x: usize,
    pub base_offset_y: usize,
}

/// The four edges of a net's bounding box.
#[derive(Clone, Copy, Debug, PartialEq, Eq, Structural)]
pub enum Coordinate {
    StartX,
    StartY,
    EndX,
    EndY,
}

/// The first edge of `b`, in the order start x, start y, end x, end y, that
/// lies beyond `grid`.
pub open spec fn edge_beyond(b: NetBox, grid: int) -> Option<Coordinate> {
    if b.start_x > grid {
        Some(Coordinate::StartX)
    } else if b.start_y > grid {
        Some(Coordinate::StartY)
    } else if b.end_x > grid {
        Some(Coordinate::EndX)
    } else if b.end_y > grid {
        Some(Coordinate::EndY)
    } else {
        None
    }
}

/// All four edges of `b` lie in `[0, grid]`.
pub open spec fn box_in_range(b: NetBox, grid: int) -> bool {
    b.start_x <= grid && b.start_y <= grid && b.end_x <= grid && b.end_y <= grid
}

/// Every net of `nets` has its edges in `[0, grid]`.
pub open spec fn nets_in_range(nets: Seq<NetBox>, grid: int) -> bool {
    forall|k: int| 0 <= k < nets.len() ==> box_in_range(#[trigger] nets[k], grid)
}

/// The first net at or after position `from` with an edge beyond `grid`,
/// together with that edge.
pub open spec fn first_out_of_range(nets: Seq<NetBox>, grid: int, from: int) -> Option<
    (usize, Coordinate),
>
    decreases nets.len() - from,
{
    if from < 0 || from >= nets.len() {
        None
    } else {
        match edge_beyond(nets[from], grid) {
            Some(c) => Some((from as usize, c)),
            None => first_out_of_range(nets, grid, from + 1),
        }
    }
}

/// No net is reported exactly when all nets are in range.
pub proof fn lemma_in_range_iff_none_reported(nets: Seq<NetBox>, grid: int, from: int)
    requires
        0 <= from,
    ensures
        first_out_of_range(nets, grid, from) is None <==> forall|k: int|
            from <= k < nets.len() ==> box_in_range(#[trigger] nets[k], grid),
    decreases nets.len() - from,
{
    if from < nets.len() {
        lemma_in_range_iff_none_reported(nets, grid, from + 1);
        if first_out_of_range(nets, grid, from) is None {
            assert forall|k: int| from <= k < nets.len() implies box_in_range(
                #[trigger] nets[k],
                grid,
            ) by {
                if k == from {
                    assert(edge_beyond(nets[from], grid) is None);
                }
            }
        }
    }
}

/// Finds the first edge of `b` that lies beyond `grid`.
pub fn check_box(b: &NetBox, grid: usize) -> (r: Option<Coordinate>)
    ensures
        r == edge_beyond(*b, grid as int),
{
    if b.start_x > grid {
        Some(Coordinate::StartX)
    } else if b.start_y > grid {
        Some(Coordinate::StartY)
    } else if b.end_x > grid {
        Some(Coordinate::EndX)
    } else if b.end_y > grid {
        Some(Coordinate::EndY)
    } else {
        None
    }
}

/// Finds the first net of `nets` with an edge beyond `grid`, and that edge.
/// `None` means that every net is in range.
pub fn check_nets(nets: &Vec<NetBox>, grid: usize) -> (r: Option<(usize, Coordinate)>)
    ensures
        r == first_out_of_range(nets@, grid as int, 0),
        r is None <==> nets_in_range(nets@, grid as int),
{
    let mut k: usize = 0;
    while k < nets.len()
        invariant
            k <= nets.len(),
            first_out_of_range(nets@, grid as int, 0) == first_out_of_range(
                nets@,
                grid as int,
                k as int,
            ),
        decreases nets.len() - k,
    {
        match check_box(&nets[k], grid) {
            Some(c) => {
                proof {
                    lemma_in_range_iff_none_reported(nets@, grid as int, 0);
                    assert(!box_in_range(nets@[k as int], grid as int));
                }
                return Some((k, c));
            },
            None => {},
        }
        k += 1;
    }
    proof {
        lemma_in_range_iff_none_reported(nets@, grid as int, 0);
    }
    None
}

} // verus!
