use mosaic_gen::table::ConnTable;
use mosaic_gen::tiles::{
    tile_connects_down, tile_connects_left, tile_connects_right, tile_connects_up,
};

fn digit_admits(d: usize, connected: bool) -> bool {
    d == 2 || (d == 1) == connected
}

#[test]
fn table_totality_round_trip() {
    // Every tile stored under a fingerprint satisfies that fingerprint's
    // per-direction 0/1/2 constraints when its classification is reapplied.
    let table = ConnTable::new();
    for f in 0..81usize {
        let cands = table.lookup(f);
        for &t in cands.iter() {
            assert!(t <= 10, "fingerprint {f} stores tile {t}");
            assert!(digit_admits(f % 3, tile_connects_right(t)));
            assert!(digit_admits((f / 3) % 3, tile_connects_up(t)));
            assert!(digit_admits((f / 9) % 3, tile_connects_left(t)));
            assert!(digit_admits((f / 27) % 3, tile_connects_down(t)));
        }
    }
}

#[test]
fn table_completeness() {
    // Conversely, every tile that satisfies a fingerprint is stored.
    let table = ConnTable::new();
    for f in 0..81usize {
        let cands = table.lookup(f);
        for t in 0..11u8 {
            let fits = digit_admits(f % 3, tile_connects_right(t))
                && digit_admits((f / 3) % 3, tile_connects_up(t))
                && digit_admits((f / 9) % 3, tile_connects_left(t))
                && digit_admits((f / 27) % 3, tile_connects_down(t));
            assert_eq!(fits, cands.contains(&t), "fingerprint {f}, tile {t}");
        }
    }
}

#[test]
fn table_known_entries() {
    let table = ConnTable::new();
    // No constraint in any direction admits only the blank tile.
    assert_eq!(*table.lookup(0), vec![0u8]);
    // All directions free admits every committed tile.
    assert_eq!(*table.lookup(80), vec![0u8, 1, 2, 3, 4, 5, 6, 7, 8, 9, 10]);
    // Horizontal free, vertical forbidden: the blank tile and the
    // horizontal bar (the single cell of a 1x1 grid).
    assert_eq!(*table.lookup(20), vec![0u8, 5]);
    // A connection required on every side admits exactly the crossings.
    assert_eq!(*table.lookup(1 + 3 + 9 + 27), vec![7u8, 8, 9, 10]);
}

#[test]
fn table_entries_sorted_and_distinct() {
    let table = ConnTable::new();
    for f in 0..81usize {
        let cands = table.lookup(f);
        for w in cands.windows(2) {
            assert!(w[0] < w[1], "fingerprint {f} not strictly ascending");
        }
    }
}
