use cross_stitch_solver::grid_cell::GridCell;
use cross_stitch_solver::layout::grid_extent;
use cross_stitch_solver::layout::inter_stitch_lines;
use cross_stitch_solver::layout::re_centre_stitches;
use cross_stitch_solver::layout::split_by_first_corner;
use cross_stitch_solver::stitch::HalfStitch;
use cross_stitch_solver::stitch::StartingStitchCorner;

#[test]
fn svg_output_test_centre_stitches_no_work() {
    let stitches = vec![HalfStitch {
        start: GridCell::new(0, 0),
        stitch_corner: StartingStitchCorner::BottomLeft,
        order: 0,
    }];
    let result = re_centre_stitches(&stitches);
    assert_eq!(result, stitches)
}

#[test]
fn svg_output_test_centre_stitches_one_x_re_centre() {
    let stitches = vec![HalfStitch {
        start: GridCell::new(5, 0),
        stitch_corner: StartingStitchCorner::BottomLeft,
        order: 0,
    }];
    let result = re_centre_stitches(&stitches);
    assert_eq!(result, vec![HalfStitch::default()])
}

#[test]
fn svg_output_test_centre_stitches_one_negative_x_re_centre() {
    let stitches = vec![HalfStitch {
        start: GridCell::new(-5, 0),
        stitch_corner: StartingStitchCorner::BottomLeft,
        order: 0,
    }];
    let result = re_centre_stitches(&stitches);
    assert_eq!(result, vec![HalfStitch::default()])
}

#[test]
fn svg_output_test_centre_stitches_one_y_re_centre() {
    let stitches = vec![HalfStitch {
        start: GridCell::new(0, 5),
        stitch_corner: StartingStitchCorner::BottomLeft,
        order: 0,
    }];
    let result = re_centre_stitches(&stitches);
    assert_eq!(result, vec![HalfStitch::default()])
}

#[test]
fn svg_output_test_centre_stitches_one_negative_y_re_centre() {
    let stitches = vec![HalfStitch {
        start: GridCell::new(0, -5),
        stitch_corner: StartingStitchCorner::BottomLeft,
        order: 0,
    }];
    let result = re_centre_stitches(&stitches);
    assert_eq!(result, vec![HalfStitch::default()])
}

#[test]
fn svg_output_test_centre_stitches_one_xy_re_centre() {
    let stitches = vec![HalfStitch {
        start: GridCell::new(5, 5),
        stitch_corner: StartingStitchCorner::BottomLeft,
        order: 0,
    }];
    let result = re_centre_stitches(&stitches);
    assert_eq!(result, vec![HalfStitch::default()])
}

#[test]
fn svg_output_test_centre_stitches_one_negative_xy_re_centre() {
    let stitches = vec![HalfStitch {
        start: GridCell::new(-5, -5),
        stitch_corner: StartingStitchCorner::BottomLeft,
        order: 0,
    }];
    let result = re_centre_stitches(&stitches);
    assert_eq!(result, vec![HalfStitch::default()])
}

#[test]
fn svg_output_test_centre_stitches_two_re_centre_no_work() {
    let stitches = vec![
        HalfStitch {
            start: GridCell::new(0, 0),
            stitch_corner: StartingStitchCorner::BottomLeft,
            order: 0,
        },
        HalfStitch {
            start: GridCell::new(1, 1),
            stitch_corner: StartingStitchCorner::BottomLeft,
            order: 0,
        },
    ];
    let result = re_centre_stitches(&stitches);
    assert_eq!(result, stitches)
}

#[test]
fn svg_output_test_centre_stitches_two_negative_re_centre() {
    let stitches = vec![
        HalfStitch {
            start: GridCell::new(-1, -1),
            stitch_corner: StartingStitchCorner::BottomLeft,
            order: 0,
        },
        HalfStitch {
            start: GridCell::new(1, 1),
            stitch_corner: StartingStitchCorner::BottomLeft,
            order: 0,
        },
    ];
    let result = re_centre_stitches(&stitches);
    assert_eq!(
        result,
        vec![
            HalfStitch::default(),
            HalfStitch {
                start: GridCell::new(2, 2),
                stitch_corner: StartingStitchCorner::BottomLeft,
                order: 0,
            }
        ]
    )
}

#[test]
fn svg_construction_test_centre_stitches_no_work() {
    let stitches = vec![HalfStitch {
        start: GridCell::new(0, 0),
        stitch_corner: StartingStitchCorner::BottomLeft,
        order: 0,
    }];
    let result = re_centre_stitches(&stitches);
    assert_eq!(result, stitches)
}

#[test]
fn svg_construction_test_centre_stitches_one_x_re_centre() {
    let stitches = vec![HalfStitch {
        start: GridCell::new(5, 0),
        stitch_corner: StartingStitchCorner::BottomLeft,
        order: 0,
    }];
    let result = re_centre_stitches(&stitches);
    assert_eq!(result, vec![HalfStitch::default()])
}

#[test]
fn svg_construction_test_centre_stitches_one_negative_x_re_centre() {
    let stitches = vec![HalfStitch {
        start: GridCell::new(-5, 0),
        stitch_corner: StartingStitchCorner::BottomLeft,
        order: 0,
    }];
    let result = re_centre_stitches(&stitches);
    assert_eq!(result, vec![HalfStitch::default()])
}

#[test]
fn svg_construction_test_centre_stitches_one_y_re_centre() {
    let stitches = vec![HalfStitch {
        start: GridCell::new(0, 5),
        stitch_corner: StartingStitchCorner::BottomLeft,
        order: 0,
    }];
    let result = re_centre_stitches(&stitches);
    assert_eq!(result, vec![HalfStitch::default()])
}

#[test]
fn svg_construction_test_centre_stitches_one_negative_y_re_centre() {
    let stitches = vec![HalfStitch {
        start: GridCell::new(0, -5),
        stitch_corner: StartingStitchCorner::BottomLeft,
        order: 0,
    }];
    let result = re_centre_stitches(&stitches);
    assert_eq!(result, vec![HalfStitch::default()])
}

#[test]
fn svg_construction_test_centre_stitches_one_xy_re_centre() {
    let stitches = vec![HalfStitch {
        start: GridCell::new(5, 5),
        stitch_corner: StartingStitchCorner::BottomLeft,
        order: 0,
    }];
    let result = re_centre_stitches(&stitches);
    assert_eq!(result, vec![HalfStitch::default()])
}

#[test]
fn svg_construction_test_centre_stitches_one_negative_xy_re_centre() {
    let stitches = vec![HalfStitch {
        start: GridCell::new(-5, -5),
        stitch_corner: StartingStitchCorner::BottomLeft,
        order: 0,
    }];
    let result = re_centre_stitches(&stitches);
    assert_eq!(result, vec![HalfStitch::default()])
}

#[test]
fn svg_construction_test_centre_stitches_two_re_centre_no_work() {
    let stitches = vec![
        HalfStitch {
            start: GridCell::new(0, 0),
            stitch_corner: StartingStitchCorner::BottomLeft,
            order: 0,
        },
        HalfStitch {
            start: GridCell::new(1, 1),
            stitch_corner: StartingStitchCorner::BottomLeft,
            order: 0,
        },
    ];
    let result = re_centre_stitches(&stitches);
    assert_eq!(result, stitches)
}

#[test]
fn svg_construction_test_centre_stitches_two_negative_re_centre() {
    let stitches = vec![
        HalfStitch {
            start: GridCell::new(-1, -1),
            stitch_corner: StartingStitchCorner::BottomLeft,
            order: 0,
        },
        HalfStitch {
            start: GridCell::new(1, 1),
            stitch_corner: StartingStitchCorner::BottomLeft,
            order: 0,
        },
    ];
    let result = re_centre_stitches(&stitches);
    assert_eq!(
        result,
        vec![
            HalfStitch::default(),
            HalfStitch {
                start: GridCell::new(2, 2),
                stitch_corner: StartingStitchCorner::BottomLeft,
                order: 0,
            }
        ]
    )
}

fn stitch(x: isize, y: isize, corner: StartingStitchCorner, order: usize) -> HalfStitch {
    HalfStitch {
        start: GridCell::new(x, y),
        stitch_corner: corner,
        order,
    }
}

#[test]
fn re_centring_keeps_corner_and_order_and_uses_separate_minima() {
    let stitches = vec![
        stitch(3, -2, StartingStitchCorner::TopRight, 5),
        stitch(-4, 6, StartingStitchCorner::BottomRight, 7),
    ];
    assert_eq!(
        re_centre_stitches(&stitches),
        vec![
            stitch(7, 0, StartingStitchCorner::TopRight, 5),
            stitch(0, 8, StartingStitchCorner::BottomRight, 7),
        ]
    );
}

#[test]
fn extent_counts_starts_and_ends() {
    let row = vec![
        stitch(0, 0, StartingStitchCorner::BottomLeft, 1),
        stitch(1, 0, StartingStitchCorner::BottomLeft, 3),
        stitch(3, 0, StartingStitchCorner::BottomRight, 5),
    ];
    assert_eq!(grid_extent(&row), (3, 1));
    let falling = vec![stitch(-2, -2, StartingStitchCorner::TopRight, 0)];
    assert_eq!(grid_extent(&falling), (-2, -2));
}

#[test]
fn split_keeps_order_within_each_part() {
    let stitches = vec![
        stitch(0, 0, StartingStitchCorner::BottomLeft, 1),
        stitch(1, 0, StartingStitchCorner::BottomRight, 2),
        stitch(1, 0, StartingStitchCorner::BottomLeft, 3),
        stitch(2, 0, StartingStitchCorner::TopLeft, 4),
    ];
    let (bottom, top) = split_by_first_corner(&stitches);
    assert_eq!(bottom, vec![stitches[0], stitches[2]]);
    assert_eq!(top, vec![stitches[1], stitches[3]]);
}

#[test]
fn lines_run_from_each_end_to_the_next_start() {
    let stitches = vec![
        stitch(0, 0, StartingStitchCorner::BottomLeft, 0),
        stitch(1, 0, StartingStitchCorner::BottomRight, 0),
        stitch(1, 0, StartingStitchCorner::BottomLeft, 0),
    ];
    assert_eq!(
        inter_stitch_lines(&stitches),
        vec![
            (GridCell::new(1, 1), GridCell::new(1, 0)),
            (GridCell::new(0, 1), GridCell::new(1, 0)),
        ]
    );
    assert_eq!(inter_stitch_lines(&stitches[..1]), vec![]);
    assert_eq!(inter_stitch_lines(&[]), vec![]);
}
