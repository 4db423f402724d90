use gomoku_lib::evaluation::shape_score;
use gomoku_lib::functions::score_sqrt;

fn ladder() -> [(i64, bool); 21] {
    [
        shape_score(0, 0, false),
        shape_score(1, 0, false),
        shape_score(2, 0, false),
        shape_score(3, 0, false),
        shape_score(3, 0, true),
        shape_score(0, 2, false),
        shape_score(1, 2, false),
        shape_score(4, 1, true),
        shape_score(2, 2, false),
        shape_score(3, 1, false),
        shape_score(4, 2, true),
        shape_score(5, 1, true),
        shape_score(5, 2, true),
        shape_score(4, 1, false),
        shape_score(3, 2, false),
        shape_score(4, 2, false),
        shape_score(5, 0, false),
        shape_score(5, 1, false),
        shape_score(5, 2, false),
        shape_score(6, 2, false),
        shape_score(10, 2, false),
    ]
}

#[test]
fn evaluation_test_shape_score() {
    let shapes = ladder();

    shapes
        .iter()
        .zip(shapes[1..].iter())
        .enumerate()
        .for_each(|(i, (a, b))| assert!(a.0 <= b.0, "{i}: {a:?} {b:?}"));
}

#[test]
fn functions_test_shape_score() {
    let shapes = ladder();

    shapes
        .iter()
        .zip(shapes[1..].iter())
        .enumerate()
        .for_each(|(i, (a, b))| assert!(a.0 <= b.0, "{i}: {a:?} {b:?}"));
}

#[test]
fn test_score_sqrt() {
    let data = vec![(100, 10), (-25, -5), (0, 0), (30, 5)];

    for (src, target) in data {
        assert_eq!(score_sqrt(src), target);
    }
}
