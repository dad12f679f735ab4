use mosaic_gen::engine::{calc_fingerprint, calc_valid_tiles, has_row_loop, mosaic_gen, mosaic_line};
use mosaic_gen::mosaic::Mosaic;
use mosaic_gen::table::ConnTable;
use mosaic_gen::tiles::{
    tile_connects_down, tile_connects_left, tile_connects_right, tile_connects_up,
};

#[test]
fn fingerprint_of_single_unassigned_cell() {
    // A 1x1 grid: right/left wrap to the cell itself (unassigned, digit
    // 2), up/down are the open boundary (digit 0): 2*1 + 0*3 + 2*9 + 0*27.
    let m = Mosaic::new(1);
    assert_eq!(calc_fingerprint(&m, 0, 1), 20);
    let table = ConnTable::new();
    assert_eq!(*calc_valid_tiles(&table, &m, 0, 1), vec![0u8, 5]);
}

#[test]
fn scenario_single_cell_threshold_only() {
    // size 1, threshold 0, row-loop filter disabled: both candidate
    // grids have crossing count 0 <= 0, so nothing is emitted.
    let table = ConnTable::new();
    let lines = mosaic_gen(&table, 1, Some(0), false);
    assert!(lines.is_empty());
}

#[test]
fn scenario_single_cell_row_loop_only() {
    // size 1, threshold disabled, row-loop filter enabled: tile 0 is
    // accepted, tile 5 forms a fully looping row and is rejected.
    let table = ConnTable::new();
    let lines = mosaic_gen(&table, 1, None, true);
    assert_eq!(lines.len(), 1);
    assert_eq!(lines[0], b"0".to_vec());
}

#[test]
fn single_cell_unfiltered() {
    let table = ConnTable::new();
    let lines = mosaic_gen(&table, 1, None, false);
    assert_eq!(lines.len(), 2);
    assert_eq!(lines[0], b"0".to_vec());
    assert_eq!(lines[1], b"5".to_vec());
}

#[test]
fn no_sentinel_digit_in_output() {
    let table = ConnTable::new();
    for size in 1..=3usize {
        for trim in [None, Some(0)] {
            let lines = mosaic_gen(&table, size, trim, false);
            for line in &lines {
                assert_eq!(line.len(), size * size);
                for &b in line.iter() {
                    assert!(b.is_ascii_hexdigit());
                    assert_ne!(b, b'b');
                }
            }
        }
    }
}

#[test]
fn determinism_run_to_run() {
    let table = ConnTable::new();
    let first = mosaic_gen(&table, 2, Some(0), true);
    let second = mosaic_gen(&table, 2, Some(0), true);
    assert_eq!(first, second);
    let other_table = ConnTable::new();
    let third = mosaic_gen(&other_table, 2, Some(0), true);
    assert_eq!(first, third);
}

fn tile_from_hex(b: u8) -> u8 {
    match b {
        b'0'..=b'9' => b - b'0',
        b'a' => 10,
        _ => panic!("not a tile digit: {b}"),
    }
}

/// All tile assignments of a 2x2 grid that satisfy the adjacency
/// constraints (cylindrical horizontal wrap, open vertical boundary),
/// enumerated in ascending lexicographic order.
fn brute_force_2x2() -> Vec<[u8; 4]> {
    let mut out = Vec::new();
    for t0 in 0..11u8 {
        for t1 in 0..11u8 {
            for t2 in 0..11u8 {
                for t3 in 0..11u8 {
                    let g = [t0, t1, t2, t3];
                    let at = |x: usize, y: usize| g[y * 2 + x];
                    let mut ok = true;
                    for y in 0..2 {
                        for x in 0..2 {
                            let t = at(x, y);
                            // horizontal adjacency, wrapping
                            ok &= tile_connects_right(t) == tile_connects_left(at((x + 1) % 2, y));
                            // vertical adjacency, open boundary
                            if y == 0 {
                                ok &= !tile_connects_up(t);
                                ok &= tile_connects_down(t) == tile_connects_up(at(x, 1));
                            } else {
                                ok &= !tile_connects_down(t);
                            }
                        }
                    }
                    if ok {
                        out.push(g);
                    }
                }
            }
        }
    }
    out
}

#[test]
fn unfiltered_output_is_exactly_every_solution_once() {
    // With both filters disabled the engine must emit strictly every
    // full assignment it visits, exactly once: the emitted lines equal
    // the brute-force solution list, in order, without duplicates.
    let table = ConnTable::new();
    let lines = mosaic_gen(&table, 2, None, false);
    let emitted: Vec<[u8; 4]> = lines
        .iter()
        .map(|l| {
            assert_eq!(l.len(), 4);
            [
                tile_from_hex(l[0]),
                tile_from_hex(l[1]),
                tile_from_hex(l[2]),
                tile_from_hex(l[3]),
            ]
        })
        .collect();
    let expected = brute_force_2x2();
    assert_eq!(emitted, expected);
    for i in 0..emitted.len() {
        for j in (i + 1)..emitted.len() {
            assert_ne!(emitted[i], emitted[j]);
        }
    }
}

#[test]
fn threshold_filter_keeps_high_crossing_grids_only() {
    let table = ConnTable::new();
    let all = mosaic_gen(&table, 2, None, false);
    for k in 0..3usize {
        let trimmed = mosaic_gen(&table, 2, Some(k), false);
        let expected: Vec<&Vec<u8>> = all
            .iter()
            .filter(|l| l.iter().filter(|&&b| b == b'a').count() > k)
            .collect();
        let got: Vec<&Vec<u8>> = trimmed.iter().collect();
        assert_eq!(got, expected, "threshold {k}");
    }
}

#[test]
fn row_loop_filter_drops_looping_rows_only() {
    let table = ConnTable::new();
    let all = mosaic_gen(&table, 2, None, false);
    let filtered = mosaic_gen(&table, 2, None, true);
    let loopy = |t: u8| t == 5 || t == 9 || t == 10;
    let expected: Vec<&Vec<u8>> = all
        .iter()
        .filter(|l| {
            let g: Vec<u8> = l.iter().map(|&b| tile_from_hex(b)).collect();
            let row0 = loopy(g[0]) && loopy(g[1]);
            let row1 = loopy(g[2]) && loopy(g[3]);
            !(row0 || row1)
        })
        .collect();
    let got: Vec<&Vec<u8>> = filtered.iter().collect();
    assert_eq!(got, expected);
}

#[test]
fn row_loop_detector() {
    let mut m = Mosaic::new(2);
    m.set(0, 0, 0);
    m.set(1, 0, 0);
    m.set(0, 1, 5);
    m.set(1, 1, 9);
    assert!(has_row_loop(&m));
    m.set(1, 1, 0);
    assert!(!has_row_loop(&m));
    m.set(0, 0, 10);
    m.set(1, 0, 10);
    assert!(has_row_loop(&m));
}

#[test]
fn serialization_hex_digits() {
    let mut m = Mosaic::new(4);
    for i in 0..11usize {
        m.set_linear(i, i as u8);
    }
    for i in 11..16usize {
        m.set_linear(i, 0);
    }
    let line = mosaic_line(&m);
    assert_eq!(line, b"0123456789a00000".to_vec());
}
