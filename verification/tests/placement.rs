use vnf_placement::distance_matrix::DistanceCell;
use vnf_placement::placement_strategies::{BestFit, FirstFit, NodeSelection, WorstFit};

#[test]
fn test_first_fit() {
    let (row, capacities) = make_row();

    let selector = FirstFit::new();

    // Finds nearest when possible
    let first = selector.select(20, &row, &capacities);
    assert!(first.is_some());
    assert_eq!(0, first.unwrap());

    // Finds first with capacity when possible
    let nearest = selector.select(40, &row, &capacities);
    assert!(nearest.is_some());
    assert_eq!(2, nearest.unwrap());

    // Finds last if needed
    let last = selector.select(100, &row, &capacities);
    assert!(last.is_some());
    assert_eq!(6, last.unwrap());
}

#[test]
fn test_best_fit() {
    let (row, capacities) = make_row();

    let selector = BestFit::new();
    // Finds nearest when possible
    let first = selector.select(20, &row, &capacities);
    assert!(first.is_some());
    assert_eq!(0, first.unwrap());

    // Finds nearest server with closest capacity #1
    let nearest_one = selector.select(30, &row, &capacities);
    assert!(nearest_one.is_some());
    assert_eq!(1, nearest_one.unwrap());

    // Finds nearest server with closest capacity (boundary check)
    let nearest_two = selector.select(25, &row, &capacities);
    assert!(nearest_two.is_some());
    assert_eq!(1, nearest_two.unwrap());

    // Finds last if needed
    let last = selector.select(100, &row, &capacities);
    assert!(last.is_some());
    assert_eq!(6, last.unwrap());
}

#[test]
fn test_worst_fit() {
    let (row, capacities) = make_row();

    let selector = WorstFit::new();

    // Finds nearest when possible
    let first = selector.select(20, &row, &capacities);
    assert!(first.is_some());
    assert_eq!(0, first.unwrap());

    // Finds nearest server with worst capacity #1
    let nearest_one = selector.select(30, &row, &capacities);
    assert!(nearest_one.is_some());
    assert_eq!(2, nearest_one.unwrap());

    // Finds nearest server with closest capacity (boundary check)
    let nearest_two = selector.select(55, &row, &capacities);
    assert!(nearest_two.is_some());
    assert_eq!(5, nearest_two.unwrap());

    // Finds last if needed
    let last = selector.select(100, &row, &capacities);
    assert!(last.is_some());
    assert_eq!(6, last.unwrap());
}

#[test]
fn no_server_fits() {
    let (row, capacities) = make_row();
    assert_eq!(FirstFit::new().select(101, &row, &capacities), None);
    assert_eq!(BestFit::new().select(101, &row, &capacities), None);
    assert_eq!(WorstFit::new().select(101, &row, &capacities), None);
    let empty: Vec<DistanceCell> = Vec::new();
    assert_eq!(FirstFit::new().select(0, &empty, &capacities), None);
}

// Of equal servers the best fit takes the first and the worst fit the last.
#[test]
fn ties_follow_row_order() {
    let row = vec![
        DistanceCell { node_id: 0, distance: 0 },
        DistanceCell { node_id: 1, distance: 1 },
        DistanceCell { node_id: 2, distance: 1 },
    ];
    let capacities = vec![1, 7, 7];
    assert_eq!(BestFit::new().select(5, &row, &capacities), Some(1));
    assert_eq!(WorstFit::new().select(5, &row, &capacities), Some(2));
    let capacities = vec![1, usize::MAX, usize::MAX];
    assert_eq!(BestFit::new().select(5, &row, &capacities), Some(1));
}

fn make_row() -> (Vec<DistanceCell>, Vec<usize>) {
    let row = vec![
        DistanceCell { node_id: 0, distance: 0 },
        DistanceCell { node_id: 1, distance: 1 },
        DistanceCell { node_id: 2, distance: 1 },
        DistanceCell { node_id: 3, distance: 1 },
        DistanceCell { node_id: 4, distance: 2 },
        DistanceCell { node_id: 5, distance: 2 },
        DistanceCell { node_id: 6, distance: 3 },
    ];

    let capacities = vec![20, 30, 50, 40, 25, 60, 100];

    (row, capacities)
}
