use orientplace_core::image::{compute_wire_image, Cell, WireImage};
use orientplace_core::net::{check_box, check_nets, Coordinate, NetBox};

fn net(start: (usize, usize), end: (usize, usize), offset: (usize, usize)) -> NetBox {
    NetBox {
        start_x: start.0,
        start_y: start.1,
        end_x: end.0,
        end_y: end.1,
        base_offset_x: offset.0,
        base_offset_y: offset.1,
    }
}

fn halo(net: usize, distance: u128) -> Cell {
    Cell::Halo { net, distance }
}

fn cost(cell: Cell, weights: &[f32]) -> f32 {
    match cell {
        Cell::Untouched => 0.0,
        Cell::Halo { net, distance } => distance as f32 * weights[net],
    }
}

fn costs(image: &WireImage, weights: &[f32]) -> Vec<Vec<f32>> {
    let side = image.side();
    let mut out = Vec::new();
    for x in 0..side {
        let mut column = Vec::new();
        for y in 0..side {
            column.push(cost(image.cell(x, y).unwrap(), weights));
        }
        out.push(column);
    }
    out
}

#[test]
fn single_net_marks_row_and_column_zero() {
    let nets = vec![net((1, 1), (3, 3), (0, 0))];
    assert_eq!(check_nets(&nets, 4), None);
    let image = compute_wire_image(&nets, 4);
    assert_eq!(image.side(), 4);
    let got = costs(&image, &[2.0]);
    // Column 0 and row 0 carry 2.0, but for their last cells: column 3 and
    // row 3 are written afterwards, with distance zero.
    let expected = vec![
        vec![2.0, 2.0, 2.0, 0.0],
        vec![2.0, 0.0, 0.0, 0.0],
        vec![2.0, 0.0, 0.0, 0.0],
        vec![0.0, 0.0, 0.0, 0.0],
    ];
    assert_eq!(got, expected);
    assert_eq!(image.cell(0, 0), Some(halo(0, 1)));
}

#[test]
fn single_net_writes_only_the_far_edge_with_distance_zero() {
    let nets = vec![net((1, 1), (3, 3), (0, 0))];
    let image = compute_wire_image(&nets, 4);
    for x in 0..4 {
        for y in 0..4 {
            let expected = if y == 3 || x == 3 {
                halo(0, 0)
            } else if y == 0 || x == 0 {
                halo(0, 1)
            } else {
                Cell::Untouched
            };
            assert_eq!(image.cell(x, y), Some(expected), "cell ({x}, {y})");
        }
    }
}

#[test]
fn corner_takes_the_later_region() {
    // Left region gives column 0 the distance 2; the region below then gives
    // row 0 the distance 3, also at the corner.
    let nets = vec![net((2, 3), (5, 5), (0, 0))];
    let image = compute_wire_image(&nets, 5);
    assert_eq!(image.cell(0, 0), Some(halo(0, 3)));
    assert_eq!(image.cell(1, 0), Some(halo(0, 3)));
    assert_eq!(image.cell(0, 3), Some(halo(0, 2)));
    assert_eq!(image.cell(1, 3), Some(halo(0, 1)));
    assert_eq!(image.cell(0, 2), Some(halo(0, 1)));
    assert_eq!(image.cell(2, 3), Some(Cell::Untouched));
}

#[test]
fn each_region_has_its_formula() {
    let nets = vec![net((2, 1), (4, 5), (10, 20))];
    let image = compute_wire_image(&nets, 7);
    // left of the box: start_x - x
    assert_eq!(image.cell(0, 3), Some(halo(0, 2)));
    assert_eq!(image.cell(1, 3), Some(halo(0, 1)));
    // below the box: start_y - y
    assert_eq!(image.cell(3, 0), Some(halo(0, 1)));
    // right of the box: x - end_x + base_offset_x
    assert_eq!(image.cell(4, 3), Some(halo(0, 10)));
    assert_eq!(image.cell(6, 3), Some(halo(0, 12)));
    // above the box: y - end_y + base_offset_y
    assert_eq!(image.cell(3, 5), Some(halo(0, 20)));
    assert_eq!(image.cell(3, 6), Some(halo(0, 21)));
    // the region above is written last
    assert_eq!(image.cell(6, 6), Some(halo(0, 21)));
    assert_eq!(image.cell(0, 6), Some(halo(0, 21)));
    // the region right of the box is written after the one below
    assert_eq!(image.cell(5, 0), Some(halo(0, 11)));
    // inside the box
    assert_eq!(image.cell(2, 1), Some(Cell::Untouched));
    assert_eq!(image.cell(3, 4), Some(Cell::Untouched));
}

#[test]
fn later_net_wins_where_halos_overlap() {
    let a = net((2, 0), (4, 4), (0, 0));
    let b = net((3, 0), (4, 4), (0, 0));
    let ab = compute_wire_image(&vec![a, b], 4);
    let ba = compute_wire_image(&vec![b, a], 4);
    // Column 0 is left of both boxes.
    assert_eq!(ab.cell(0, 1), Some(halo(1, 3)));
    assert_eq!(ba.cell(0, 1), Some(halo(1, 2)));
    // Column 2 is left of b's box only.
    assert_eq!(ab.cell(2, 1), Some(halo(1, 1)));
    assert_eq!(ba.cell(2, 1), Some(halo(0, 1)));
    // Column 3 is inside both boxes.
    assert_eq!(ab.cell(3, 1), Some(Cell::Untouched));
    assert_eq!(ba.cell(3, 1), Some(Cell::Untouched));
    let weights = [1.5, 4.0];
    assert_eq!(costs(&ab, &weights)[0][1], 12.0);
    assert_eq!(costs(&ba, &weights)[0][1], 8.0);
    assert_eq!(costs(&ba, &weights)[2][1], 1.5);
}

#[test]
fn earlier_net_stays_where_the_later_does_not_reach() {
    let a = net((0, 2), (3, 3), (0, 0));
    let b = net((1, 0), (3, 3), (0, 0));
    let image = compute_wire_image(&vec![a, b], 3);
    assert_eq!(image.cell(0, 0), Some(halo(1, 1)));
    assert_eq!(image.cell(1, 0), Some(halo(0, 2)));
    assert_eq!(image.cell(2, 1), Some(halo(0, 1)));
    assert_eq!(image.cell(1, 2), Some(Cell::Untouched));
}

#[test]
fn no_nets_leave_every_cell_untouched() {
    let image = compute_wire_image(&Vec::new(), 3);
    assert_eq!(image.side(), 3);
    for x in 0..3 {
        for y in 0..3 {
            assert_eq!(image.cell(x, y), Some(Cell::Untouched));
        }
    }
    assert_eq!(costs(&image, &[]), vec![vec![0.0f32; 3]; 3]);
}

#[test]
fn zero_grid_has_no_cells() {
    let image = compute_wire_image(&vec![net((0, 0), (0, 0), (7, 7))], 0);
    assert_eq!(image.side(), 0);
    assert_eq!(image.cell(0, 0), None);
}

#[test]
fn box_over_the_whole_grid_touches_nothing() {
    let image = compute_wire_image(&vec![net((0, 0), (3, 3), (5, 5))], 3);
    for x in 0..3 {
        for y in 0..3 {
            assert_eq!(image.cell(x, y), Some(Cell::Untouched));
        }
    }
}

#[test]
fn start_beyond_end_is_allowed() {
    // The box is inverted along x: every column is left of start_x, and the
    // columns from end_x on are then written again.
    let image = compute_wire_image(&vec![net((3, 0), (1, 3), (0, 0))], 3);
    assert_eq!(image.cell(0, 1), Some(halo(0, 3)));
    assert_eq!(image.cell(1, 1), Some(halo(0, 0)));
    assert_eq!(image.cell(2, 1), Some(halo(0, 1)));
}

#[test]
fn largest_offset_does_not_wrap() {
    let image = compute_wire_image(&vec![net((0, 0), (0, 1), (usize::MAX, usize::MAX))], 2);
    assert_eq!(image.cell(1, 0), Some(halo(0, usize::MAX as u128 + 1)));
    assert_eq!(image.cell(0, 0), Some(halo(0, usize::MAX as u128)));
    assert_eq!(image.cell(0, 1), Some(halo(0, usize::MAX as u128)));
}

#[test]
fn cell_outside_the_grid_is_none() {
    let image = compute_wire_image(&Vec::new(), 2);
    assert_eq!(image.cell(2, 0), None);
    assert_eq!(image.cell(0, 2), None);
    assert_eq!(image.cell(1, 1), Some(Cell::Untouched));
}

#[test]
fn check_box_names_the_first_edge_beyond_the_grid() {
    assert_eq!(check_box(&net((0, 0), (4, 4), (0, 0)), 4), None);
    assert_eq!(check_box(&net((5, 9), (9, 9), (0, 0)), 4), Some(Coordinate::StartX));
    assert_eq!(check_box(&net((4, 5), (9, 9), (0, 0)), 4), Some(Coordinate::StartY));
    assert_eq!(check_box(&net((4, 4), (5, 9), (0, 0)), 4), Some(Coordinate::EndX));
    assert_eq!(check_box(&net((4, 4), (4, 5), (0, 0)), 4), Some(Coordinate::EndY));
    assert_eq!(check_box(&net((0, 0), (0, 0), (9, 9)), 0), None);
}

#[test]
fn check_nets_names_the_first_net_out_of_range() {
    let good = net((1, 1), (3, 3), (0, 0));
    let bad_end = net((1, 1), (3, 6), (0, 0));
    let bad_start = net((9, 1), (3, 3), (0, 0));
    assert_eq!(check_nets(&vec![], 4), None);
    assert_eq!(check_nets(&vec![good, good], 4), None);
    assert_eq!(check_nets(&vec![good, bad_end, bad_start], 4), Some((1, Coordinate::EndY)));
    assert_eq!(check_nets(&vec![bad_start, bad_end], 4), Some((0, Coordinate::StartX)));
}
