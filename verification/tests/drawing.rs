use pareto_r::BoundingBox;
use pareto_r::ParetoProblem;
use pareto_r::Primitive;
use pareto_r::label::label;

fn solved_sample() -> ParetoProblem {
    let mut p = ParetoProblem::new(2);
    assert_eq!(p.add_point(500, vec![50, 50]), Ok(()));
    assert_eq!(p.add_point(99, vec![30, 30]), Ok(()));
    assert_eq!(p.add_point(100, vec![10, 20]), Ok(()));
    assert_eq!(p.add_point(101, vec![20, 10]), Ok(()));
    assert_eq!(p.add_point(33, vec![15, 15]), Ok(()));
    p.solve();
    p
}

#[test]
fn new_box_is_undefined() {
    let b = BoundingBox::new();
    assert!(!b.is_defined());
    assert_eq!(b, BoundingBox { defined: false, min_x: 0, min_y: 0, max_x: 0, max_y: 0 });
}

#[test]
fn first_position_defines_the_box() {
    let mut b = BoundingBox::new();
    b.add_point(-3, 8);
    assert!(b.is_defined());
    assert_eq!(b, BoundingBox { defined: true, min_x: -3, min_y: 8, max_x: -3, max_y: 8 });
}

#[test]
fn box_grows_and_never_shrinks() {
    let mut b = BoundingBox::new();
    b.add_point(5, 5);
    b.add_point(2, 9);
    assert_eq!(b, BoundingBox { defined: true, min_x: 2, min_y: 5, max_x: 5, max_y: 9 });
    b.add_point(7, 1);
    assert_eq!(b, BoundingBox { defined: true, min_x: 2, min_y: 1, max_x: 7, max_y: 9 });
    b.add_point(3, 3);
    assert_eq!(b, BoundingBox { defined: true, min_x: 2, min_y: 1, max_x: 7, max_y: 9 });
    b.add_point(i32::MIN, i32::MAX);
    assert_eq!(
        b,
        BoundingBox { defined: true, min_x: i32::MIN, min_y: 1, max_x: 7, max_y: i32::MAX }
    );
}

#[test]
fn labels_are_tag_colon_rank() {
    assert_eq!(label(33, 0), "33:0");
    assert_eq!(label(0, 0), "0:0");
    assert_eq!(label(-7, 12), "-7:12");
    assert_eq!(label(500, 2), "500:2");
    assert_eq!(label(1000, 10), "1000:10");
    assert_eq!(label(i32::MAX, 109), "2147483647:109");
    assert_eq!(label(i32::MIN, usize::MAX), format!("-2147483648:{}", usize::MAX));
}

#[test]
fn boxes_come_before_labels() {
    let p = solved_sample();
    assert!(p.is_drawable());
    let scene = p.generate_ps();
    let expected = vec![
        Primitive::Box { x0: 50, y0: 50, x1: 51, y1: 51 },
        Primitive::Box { x0: 30, y0: 30, x1: 31, y1: 31 },
        Primitive::Box { x0: 10, y0: 20, x1: 11, y1: 21 },
        Primitive::Box { x0: 20, y0: 10, x1: 21, y1: 11 },
        Primitive::Box { x0: 15, y0: 15, x1: 16, y1: 16 },
        Primitive::Text { x: 50, y: 50, label: "500:2".to_string() },
        Primitive::Text { x: 30, y: 30, label: "99:1".to_string() },
        Primitive::Text { x: 10, y: 20, label: "100:0".to_string() },
        Primitive::Text { x: 20, y: 10, label: "101:0".to_string() },
        Primitive::Text { x: 15, y: 15, label: "33:0".to_string() },
    ];
    assert_eq!(scene.primitives, expected);
    assert_eq!(
        scene.bounds,
        BoundingBox { defined: true, min_x: 10, min_y: 10, max_x: 50, max_y: 50 }
    );
}

#[test]
fn drawing_is_repeatable_and_reads_only() {
    let p = solved_sample();
    let first = p.generate_ps();
    let second = p.generate_ps();
    assert_eq!(first.primitives, second.primitives);
    assert_eq!(first.bounds, second.bounds);
    assert_eq!(p.points.len(), 5);
    assert_eq!(p.points[0].rank, 2);
}

#[test]
fn empty_problem_draws_nothing() {
    let mut p = ParetoProblem::new(2);
    p.solve();
    assert!(p.is_drawable());
    let scene = p.generate_ps();
    assert!(scene.primitives.is_empty());
    assert!(!scene.bounds.is_defined());
    assert_eq!(
        scene.bounds,
        BoundingBox { defined: false, min_x: 0, min_y: 0, max_x: 0, max_y: 0 }
    );
}

#[test]
fn objectives_beyond_the_second_are_not_drawn() {
    let mut p = ParetoProblem::new(3);
    assert_eq!(p.add_point(1, vec![4, -5, 600]), Ok(()));
    let scene = p.generate_ps();
    assert_eq!(
        scene.primitives,
        vec![
            Primitive::Box { x0: 4, y0: -5, x1: 5, y1: -4 },
            Primitive::Text { x: 4, y: -5, label: "1:0".to_string() },
        ]
    );
    assert_eq!(
        scene.bounds,
        BoundingBox { defined: true, min_x: 4, min_y: -5, max_x: 4, max_y: -5 }
    );
}

#[test]
fn unit_box_at_the_largest_position() {
    let mut p = ParetoProblem::new(2);
    assert_eq!(p.add_point(1, vec![i32::MAX, i32::MIN]), Ok(()));
    let scene = p.generate_ps();
    assert_eq!(
        scene.primitives[0],
        Primitive::Box {
            x0: 2147483647,
            y0: -2147483648,
            x1: 2147483648,
            y1: -2147483647,
        }
    );
}

#[test]
fn one_objective_cannot_be_drawn() {
    let mut p = ParetoProblem::new(1);
    assert!(p.is_drawable());
    assert_eq!(p.add_point(1, vec![4]), Ok(()));
    assert!(!p.is_drawable());
}

#[test]
fn window_of_a_box() {
    let mut b = BoundingBox::new();
    assert_eq!(b.window(), (0, 0, 0, 0));
    b.add_point(4, -2);
    b.add_point(-1, 6);
    assert_eq!(b.window(), (-1, -2, 4, 6));
    let stale = BoundingBox { defined: false, min_x: 3, min_y: 3, max_x: 9, max_y: 9 };
    assert_eq!(stale.window(), (0, 0, 0, 0));
}
