use hardest_maze::frontier::{Entry, Frontier};
use hardest_maze::Point;

#[test]
fn empty_frontier_gives_nothing() {
    let mut frontier = Frontier::new();
    assert!(frontier.is_empty());
    assert_eq!(frontier.len(), 0);
    assert_eq!(frontier.pop(), None);
    assert_eq!(frontier.pop(), None);
}

#[test]
fn entries_leave_by_priority() {
    let mut frontier = Frontier::new();
    for priority in [5usize, 1, 9, 3, 7] {
        frontier.push(Entry { priority, point: Point(priority, 0) });
    }
    assert_eq!(frontier.len(), 5);
    let mut order = Vec::new();
    while let Some(entry) = frontier.pop() {
        order.push(entry.priority);
    }
    assert_eq!(order, vec![1, 3, 5, 7, 9]);
    assert!(frontier.is_empty());
}

#[test]
fn equal_priorities_leave_by_row_then_column() {
    let mut frontier = Frontier::new();
    for point in [Point(2, 0), Point(0, 3), Point(1, 1), Point(0, 1), Point(1, 0)] {
        frontier.push(Entry { priority: 4, point });
    }
    frontier.push(Entry { priority: 3, point: Point(9, 9) });
    let mut order = Vec::new();
    while let Some(entry) = frontier.pop() {
        order.push(entry.point);
    }
    assert_eq!(
        order,
        vec![Point(9, 9), Point(0, 1), Point(0, 3), Point(1, 0), Point(1, 1), Point(2, 0)]
    );
}

#[test]
fn equal_entries_are_kept_as_often_as_they_were_pushed() {
    let mut frontier = Frontier::new();
    let entry = Entry { priority: 2, point: Point(1, 1) };
    frontier.push(entry);
    frontier.push(entry);
    assert_eq!(frontier.len(), 2);
    assert_eq!(frontier.pop(), Some(entry));
    assert_eq!(frontier.len(), 1);
    assert_eq!(frontier.pop(), Some(entry));
    assert_eq!(frontier.pop(), None);
}

#[test]
fn comes_before_compares_priority_first() {
    let low = Entry { priority: 1, point: Point(5, 5) };
    let high = Entry { priority: 2, point: Point(0, 0) };
    assert!(low.comes_before(&high));
    assert!(!high.comes_before(&low));
    assert!(low.comes_before(&low));
    let left = Entry { priority: 2, point: Point(0, 0) };
    let right = Entry { priority: 2, point: Point(0, 1) };
    assert!(left.comes_before(&right));
    assert!(!right.comes_before(&left));
}
