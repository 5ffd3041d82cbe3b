use stampform::neighbors::Coordinate;
use stampform::neighbors::Neighbors;

fn collect(table: &Neighbors) -> Vec<(Coordinate, u64)> {
    let mut entries = Vec::new();
    let mut it = table.iter();
    while let Some(e) = it.next() {
        entries.push(e);
    }
    entries
}

#[test]
fn empty() {
    let r2 = (0.99f32 * 0.99f32).floor() as u64;
    let testee = Neighbors::new(r2);
    let neighbors = collect(&testee);
    assert_eq!(vec![(Coordinate { x: 0, y: 0 }, 0u64)], neighbors);
}

#[test]
fn tiny() {
    let r2 = (1.0f32 * 1.0f32).floor() as u64;
    let testee = Neighbors::new(r2);
    let neighbors = collect(&testee);
    assert_eq!(
        vec![
            (Coordinate { x: 0, y: 0 }, 0u64),
            (Coordinate { x: 0, y: -1 }, 1u64),
            (Coordinate { x: -1, y: 0 }, 1u64),
            (Coordinate { x: 1, y: 0 }, 1u64),
            (Coordinate { x: 0, y: 1 }, 1u64)
        ],
        neighbors
    );

    // Just below where (-1, -1), (1, -1), (-1, 1) and (1, 1) would be included
    let below = 1.9999f32.sqrt();
    let just_below_two = Neighbors::new((below * below).floor() as u64);
    let just_below_two_neighbors = collect(&just_below_two);
    assert_eq!(just_below_two_neighbors, neighbors);
}

#[test]
fn sqrt_2() {
    let sqrt_2 = 2.0f32.sqrt();
    // Make the radius slightly larger than sqrt(2) to include (-1, -1) etc
    let r = sqrt_2 + 0.0001;
    let testee = Neighbors::new((r * r).floor() as u64);
    let neighbors = collect(&testee);
    assert_eq!(
        vec![
            // Center
            (Coordinate { x: 0, y: 0 }, 0u64),
            // Distance 1
            (Coordinate { x: 0, y: -1 }, 1u64),
            (Coordinate { x: -1, y: 0 }, 1u64),
            (Coordinate { x: 1, y: 0 }, 1u64),
            (Coordinate { x: 0, y: 1 }, 1u64),
            // Corners
            (Coordinate { x: -1, y: -1 }, 2u64),
            (Coordinate { x: 1, y: -1 }, 2u64),
            (Coordinate { x: -1, y: 1 }, 2u64),
            (Coordinate { x: 1, y: 1 }, 2u64),
        ],
        neighbors
    );
}

#[test]
fn disk_membership_and_order() {
    let table = Neighbors::new(25);
    let entries = collect(&table);
    // every entry lies in the disk and carries its own squared distance
    for (c, d2) in &entries {
        let dd = (c.x as i64 * c.x as i64 + c.y as i64 * c.y as i64) as u64;
        assert!(dd <= 25);
        assert_eq!(dd, *d2);
    }
    // ascending squared distance
    for pair in entries.windows(2) {
        assert!(pair[0].1 <= pair[1].1);
    }
    // every offset of the disk appears exactly once
    for dy in -5i32..=5 {
        for dx in -5i32..=5 {
            let dd = (dx as i64 * dx as i64 + dy as i64 * dy as i64) as u64;
            let hits = entries
                .iter()
                .filter(|(c, _)| c.x == dx && c.y == dy)
                .count();
            if dd <= 25 {
                assert_eq!(hits, 1);
            } else {
                assert_eq!(hits, 0);
            }
        }
    }
}

#[test]
fn indexed_access_matches_iteration() {
    let table = Neighbors::new(2);
    let entries = collect(&table);
    assert_eq!(entries.len(), table.len());
    for (i, e) in entries.iter().enumerate() {
        assert_eq!(*e, table.get(i));
    }
}
