use hardest_maze::seen::{digest_of, same_cells, SeenSet, DIGEST_FACTOR, DIGEST_MODULUS};
use hardest_maze::Cell::{Space, Wall};

#[test]
fn digest_reads_the_cells_as_digits() {
    assert_eq!(digest_of(&vec![]), 0);
    assert_eq!(digest_of(&vec![Space]), 0);
    assert_eq!(digest_of(&vec![Wall]), 1);
    assert_eq!(digest_of(&vec![Wall, Space]), DIGEST_FACTOR);
    assert_eq!(digest_of(&vec![Wall, Wall]), DIGEST_FACTOR + 1);
    assert_eq!(digest_of(&vec![Space, Wall, Space]), DIGEST_FACTOR);
    let wide = DIGEST_FACTOR as u128 * DIGEST_FACTOR as u128 % DIGEST_MODULUS as u128;
    assert_eq!(digest_of(&vec![Wall, Space, Space]), wide as u64);
    assert_eq!(digest_of(&vec![Wall, Space, Space]), 956575116878633);
}

#[test]
fn same_cells_compares_cell_by_cell() {
    assert!(same_cells(&vec![], &vec![]));
    assert!(same_cells(&vec![Wall, Space], &vec![Wall, Space]));
    assert!(!same_cells(&vec![Wall, Space], &vec![Space, Wall]));
    assert!(!same_cells(&vec![Wall], &vec![Wall, Space]));
}

#[test]
fn a_new_set_holds_nothing() {
    let seen = SeenSet::new();
    assert!(!seen.contains(&vec![]));
    assert!(!seen.contains(&vec![Space, Wall]));
}

#[test]
fn what_was_inserted_is_found_and_nothing_else() {
    let mut seen = SeenSet::new();
    seen.insert(&vec![Space, Wall, Space]);
    seen.insert(&vec![Wall, Wall, Space]);
    assert!(seen.contains(&vec![Space, Wall, Space]));
    assert!(seen.contains(&vec![Wall, Wall, Space]));
    assert!(!seen.contains(&vec![Space, Space, Space]));
    assert!(!seen.contains(&vec![Wall, Space]));
    assert!(!seen.contains(&vec![Wall]));
    seen.insert(&vec![Space, Wall, Space]);
    assert!(seen.contains(&vec![Space, Wall, Space]));
}

#[test]
fn layouts_with_the_same_digest_are_told_apart() {
    let first = vec![Space, Wall];
    let second = vec![Wall];
    assert_eq!(digest_of(&first), digest_of(&second));
    let mut seen = SeenSet::new();
    seen.insert(&first);
    assert!(seen.contains(&first));
    assert!(!seen.contains(&second));
    seen.insert(&second);
    assert!(seen.contains(&second));
    assert!(seen.contains(&first));
}

fn layout_of(bits: u32) -> Vec<hardest_maze::Cell> {
    (0..12).map(|i| if bits >> i & 1 == 1 { Wall } else { Space }).collect()
}

#[test]
fn every_layout_of_twelve_cells_is_kept_apart() {
    let mut seen = SeenSet::new();
    for bits in (0..4096u32).step_by(2) {
        let cells = layout_of(bits);
        assert!(!seen.contains(&cells));
        seen.insert(&cells);
    }
    for bits in 0..4096u32 {
        assert_eq!(seen.contains(&layout_of(bits)), bits % 2 == 0);
    }
}
