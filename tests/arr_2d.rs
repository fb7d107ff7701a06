use algorist::collections::arr_2d::{AdjacentCells, Arr, Cell};

fn grid(rows: usize, cols: usize, width: usize) -> Arr<usize> {
    Arr::with_generator(rows, cols, move |i, j| i * width + j)
}

#[test]
fn test_1() {
    let mut arr: Arr<usize> = Arr::new(2, 3);
    arr.set(0, 0, 1);
    arr.set(0, 1, 2);
    arr.set(0, 2, 3);
    arr.set(1, 0, 4);
    arr.set(1, 1, 5);
    arr.set(1, 2, 6);
    assert_eq!(*arr.as_ref(), vec![1, 2, 3, 4, 5, 6]);
}

#[test]
fn test_2() {
    let arr = Arr::with_generator(2, 3, |i, j| i * 3 + j);
    assert_eq!(*arr.as_ref(), vec![0, 1, 2, 3, 4, 5]);
}

#[test]
fn test_3() {
    let arr = Arr::with_generator(2, 3, |i, j| i * 3 + j);
    assert_eq!(arr.iter().sum::<usize>(), 15);
}

#[test]
fn test_5() {
    let arr = Arr::with_generator(2, 3, |i, j| i * 3 + j);
    assert_eq!(arr.row(0).into_iter().sum::<usize>(), 3);
    assert_eq!(arr.row(1).into_iter().sum::<usize>(), 12);
    assert_eq!(arr.row(0), vec![&0, &1, &2]);
    assert_eq!(arr.row(1), vec![&3, &4, &5]);
}

#[test]
fn test_7() {
    let arr = Arr::with_generator(2, 3, |i, j| i * 3 + j);
    assert_eq!(arr.col(0).into_iter().sum::<usize>(), 3);
    assert_eq!(arr.col(1).into_iter().sum::<usize>(), 5);
    assert_eq!(arr.col(0), vec![&0, &3]);
    assert_eq!(arr.col(1), vec![&1, &4]);
}

#[test]
fn test_9() {
    let mut arr = Arr::with_generator(2, 3, |i, j| i * 3 + j);
    assert_eq!(*arr.as_ref(), vec![0, 1, 2, 3, 4, 5]);
    arr.swap(0, 0, 1, 1);
    assert_eq!(*arr.as_ref(), vec![4, 1, 2, 3, 0, 5]);

    // swap the same element
    arr.swap(0, 0, 0, 0);
    assert_eq!(*arr.as_ref(), vec![4, 1, 2, 3, 0, 5]);
}

#[test]
fn test_10() {
    let arr = Arr::with_generator(2, 3, |i, j| i * 3 + j);
    assert_eq!(arr.rows(), 2);
    assert_eq!(arr.cols(), 3);
}

#[test]
fn test_11() {
    let arr = Arr::with_generator(2, 3, |i, j| i * 3 + j);
    assert_eq!(*arr.get(0, 0), 0);
    assert_eq!(*arr.get(1, 2), 5);
}

#[test]
fn test_12() {
    let mut arr = Arr::with_generator(2, 3, |i, j| i * 3 + j);
    arr.set(0, 0, 10);
    arr.set(1, 2, 20);
    assert_eq!(*arr.as_ref(), vec![10, 1, 2, 3, 4, 20]);
}

#[test]
fn test_13() {
    let arr = Arr::with_generator(2, 3, |i, j| i * 3 + j);
    assert_eq!(arr.row(0), vec![&0, &1, &2]);
    assert_eq!(arr.row(1), vec![&3, &4, &5]);
}

#[test]
fn test_15() {
    let arr = Arr::with_generator(2, 3, |i, j| i * 3 + j);
    assert_eq!(*arr.as_ref(), vec![0, 1, 2, 3, 4, 5]);
    assert_eq!(arr, arr.transpose().transpose());
    let arr_t = arr.transpose();
    assert_eq!(*arr_t.as_ref(), vec![0, 3, 1, 4, 2, 5]);
    assert_eq!(arr_t.row(0), vec![&0, &3]);
    assert_eq!(arr_t.row(1), vec![&1, &4]);
}

#[test]
fn test_16() {
    let arr = Arr::with_generator(2, 3, |i, j| i * 3 + j);
    let arr_t = arr.transpose();
    assert_eq!(arr_t.col(0), vec![&0, &1, &2]);
    assert_eq!(arr_t.col(1), vec![&3, &4, &5]);
}

#[test]
fn test_17() {
    let arr = Arr::with_generator(2, 3, |i, j| i * 3 + j);
    assert_eq!(arr.iter().sum::<usize>(), 15);
    assert_eq!(arr.iter().sum::<usize>(), 15);
    assert_eq!(arr.as_ref().clone().into_iter().sum::<usize>(), 15);
}

#[test]
fn test_neigh_coords() {
    let arr = Arr::with_generator(2, 3, |i, j| i * 3 + j);
    let cells = arr.adj_cells(0, 0, AdjacentCells::Adjacent);
    assert_eq!(cells, vec![Cell(&3, 1, 0), Cell(&1, 0, 1)]);

    let cells = arr.adj_cells(0, 0, AdjacentCells::Diagonal);
    assert_eq!(cells, vec![Cell(&4, 1, 1)]);

    let cells = arr.adj_cells(0, 0, AdjacentCells::Both);
    assert_eq!(cells, vec![Cell(&3, 1, 0), Cell(&1, 0, 1), Cell(&4, 1, 1)]);

    let cells = arr.adj_cells(0, 1, AdjacentCells::Adjacent);
    assert_eq!(cells, vec![Cell(&0, 0, 0), Cell(&4, 1, 1), Cell(&2, 0, 2)]);

    let cells = arr.adj_cells(0, 1, AdjacentCells::Diagonal);
    assert_eq!(cells, vec![Cell(&3, 1, 0), Cell(&5, 1, 2)]);

    let cells = arr.adj_cells(0, 1, AdjacentCells::Both);
    assert_eq!(
        cells,
        vec![
            Cell(&0, 0, 0),
            Cell(&4, 1, 1),
            Cell(&2, 0, 2),
            Cell(&3, 1, 0),
            Cell(&5, 1, 2)
        ]
    );
}

#[test]
fn test_neigh_vals() {
    let arr = Arr::with_generator(2, 3, |i, j| i * 3 + j);
    let cells = arr.adj_cells(0, 0, AdjacentCells::Adjacent);
    assert_eq!(cells, vec![Cell(&3, 1, 0), Cell(&1, 0, 1)]);

    let cells = arr.adj_cells(0, 1, AdjacentCells::Both);
    assert_eq!(
        cells,
        vec![
            Cell(&0, 0, 0),
            Cell(&4, 1, 1),
            Cell(&2, 0, 2),
            Cell(&3, 1, 0),
            Cell(&5, 1, 2),
        ]
    );
}

fn values(diags: Vec<Vec<&usize>>) -> Vec<Vec<usize>> {
    diags.into_iter().map(|x| x.into_iter().map(|v| *v).collect::<Vec<_>>()).collect::<Vec<_>>()
}

#[test]
fn test_right_diags() {
    let arr = grid(3, 3, 3);
    let diags = values(arr.diags_sw());
    assert_eq!(diags, vec![vec![0], vec![1, 3], vec![2, 4, 6], vec![5, 7], vec![8]]);
}

#[test]
fn test_left_diags() {
    let arr = grid(3, 3, 3);
    let diags = values(arr.diags_se());
    assert_eq!(diags, vec![vec![2], vec![1, 5], vec![0, 4, 8], vec![3, 7], vec![6]]);
}

#[test]
fn test_non_square_diags() {
    let arr = grid(3, 2, 2);
    let diags = values(arr.diags_sw());
    assert_eq!(diags, vec![vec![0], vec![1, 2], vec![3, 4], vec![5],]);

    let diags = values(arr.diags_se());
    assert_eq!(diags, vec![vec![1], vec![0, 3], vec![2, 5], vec![4],]);
}

#[test]
fn test_cell_diags_pos() {
    let arr = grid(3, 3, 3);
    assert_eq!(arr.cell_diags(0, 0), (0, 2));
    assert_eq!(arr.cell_diags(0, 1), (1, 1));
    assert_eq!(arr.cell_diags(0, 2), (2, 0));
    assert_eq!(arr.cell_diags(1, 0), (1, 3));
    assert_eq!(arr.cell_diags(1, 1), (2, 2));
    assert_eq!(arr.cell_diags(1, 2), (3, 1));
    assert_eq!(arr.cell_diags(2, 0), (2, 4));
    assert_eq!(arr.cell_diags(2, 1), (3, 3));
    assert_eq!(arr.cell_diags(2, 2), (4, 2));
}

#[test]
fn arr_cell_accessors() {
    let arr = grid(2, 3, 3);
    let c = arr.cell(1, 2);
    assert_eq!(*c.value(), 5);
    assert_eq!(c.row(), 1);
    assert_eq!(c.col(), 2);
    let c = Cell::from_arr(&arr, (0, 1));
    assert_eq!(c, Cell::new(&1, 0, 1));
}

#[test]
fn arr_from_vec_round_trip() {
    let arr = Arr::from_vec(vec![1, 2, 3, 4], 2, 2);
    assert_eq!(*arr.get(1, 0), 3);
    assert_eq!(*arr.transpose().get(1, 0), 2);
}

#[test]
fn test_18() {
    let arr = Arr::with_generator(2, 3, |i, j| i * 3 + j);
    let arr2 = Arr::from_scan(&mut algorist::io::Scanner::new(b"0 1 2 3 4 5\n".to_vec()), 2, 3).unwrap();
    assert_eq!(arr, arr2);
}

#[test]
fn from_scan_short_input() {
    assert!(Arr::from_scan(&mut algorist::io::Scanner::new(b"0 1 2".to_vec()), 2, 2).is_none());
}
