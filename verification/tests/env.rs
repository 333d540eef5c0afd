use lib::env::GridExecutor;

#[test]
fn linear_grid_roundtrip() {
    let g = GridExecutor::new((4, 2, 3));
    assert_eq!(g.num_cores, 24);
    for id in 0..g.num_cores {
        let (x, y, z) = g.linear_to_grid(id);
        assert_eq!(g.grid_to_linear(x, y, z), id);
    }
}

#[test]
fn x_varies_fastest() {
    let g = GridExecutor::new((4, 2, 3));
    assert_eq!(g.linear_to_grid(0), (0, 0, 0));
    assert_eq!(g.linear_to_grid(1), (1, 0, 0));
    assert_eq!(g.linear_to_grid(4), (0, 1, 0));
    assert_eq!(g.linear_to_grid(8), (0, 0, 1));
    assert_eq!(g.linear_to_grid(23), (3, 1, 2));
    assert_eq!(g.grid_to_linear(3, 1, 2), 23);
}
