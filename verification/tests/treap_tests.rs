use std::cell::Cell;

use treap::treap::PriorityGenerator;
use treap::treap::Treap;

/// Hands out `start`, then each time the value `step` further on.
struct Stepping {
    next: Cell<u8>,
    step: i8,
}

impl Stepping {
    fn new(start: u8, step: i8) -> Self {
        Stepping { next: Cell::new(start), step }
    }
}

impl PriorityGenerator<u8> for Stepping {
    fn generate(&self) -> u8 {
        let current = self.next.get();
        self.next.set(current.wrapping_add(self.step as u8));
        current
    }
}

/// Always hands out the same priority, and counts how often it was asked.
struct Constant {
    priority: u8,
    calls: Cell<usize>,
}

impl PriorityGenerator<u8> for Constant {
    fn generate(&self) -> u8 {
        self.calls.set(self.calls.get() + 1);
        self.priority
    }
}

fn fixed(entries: &[(i32, &str, u8)]) -> Treap<i32, String, u8, u8> {
    let mut treap = Treap::<i32, String, u8, u8>::new(0u8);
    for (key, value, priority) in entries {
        treap.insert_with_priority(*key, value.to_string(), *priority);
    }
    treap
}

#[test]
fn first_test() {
    let mut treap = Treap::<i32, String, u8, u8>::new(0u8);
    for i in 0..14 {
        println!("Inserting: {}\n", i);
        treap.insert(i, i.to_string());
        for line in treap.print() {
            println!("{}", line);
        }
    }
    println!("Height: {}", treap.height());
}

#[test]
fn benchmark() {
    let iterations = 10_000;
    let treap_elements = 1_023;
    let mut height_avg = 0;
    for _ in 1..=iterations {
        let mut treap = Treap::<i32, String>::new(0);
        for i in 1..=treap_elements {
            treap.insert(i, i.to_string());
        }
        let height = treap.height();
        height_avg += height;
    }
    println!("Height average: {}", height_avg as f32 / iterations as f32);
}

#[test]
fn empty_treap_has_no_height_no_entries_no_lines() {
    let mut treap = Treap::<i32, String, u8, u8>::new(0u8);
    assert_eq!(treap.height(), 0);
    assert_eq!(treap.get(1), None);
    assert!(treap.get_mut(1).is_none());
    assert!(treap.print().is_empty());
    assert!(!treap.has_collision(&0));
}

#[test]
fn single_node_has_height_one() {
    let treap = fixed(&[(7, "seven", 3)]);
    assert_eq!(treap.height(), 1);
    assert_eq!(treap.print(), vec![" (7,seven,3)".to_string()]);
}

#[test]
fn get_returns_the_last_value_assigned() {
    let mut treap = Treap::<i32, String>::new(0);
    for i in 0..200 {
        treap.insert(i, i.to_string());
    }
    for i in (0..200).step_by(3) {
        treap.insert(i, format!("again {}", i));
    }
    for i in 0..200 {
        let expected = if i % 3 == 0 { format!("again {}", i) } else { i.to_string() };
        assert_eq!(treap.get(i), Some(&expected));
    }
    assert_eq!(treap.get(-1), None);
    assert_eq!(treap.get(200), None);
}

#[test]
fn inserting_a_present_key_changes_the_value_only() {
    let mut treap = fixed(&[(5, "e", 50), (2, "b", 20), (8, "h", 80), (1, "a", 60)]);
    let before = treap.print();
    let height = treap.height();
    treap.insert_with_priority(8, "H".to_string(), 1);
    assert_eq!(treap.get(8), Some(&"H".to_string()));
    assert_eq!(treap.height(), height);
    let after = treap.print();
    assert_eq!(after.len(), before.len());
    for (old, new) in before.iter().zip(after.iter()) {
        assert_eq!(old.replace("(8,h,80)", "(8,H,80)"), *new);
    }
    assert_eq!(treap.get(5), Some(&"e".to_string()));
    assert_eq!(treap.get(2), Some(&"b".to_string()));
    assert_eq!(treap.get(1), Some(&"a".to_string()));
}

#[test]
fn get_mut_writes_through() {
    let mut treap = fixed(&[(5, "e", 50), (2, "b", 20), (8, "h", 80)]);
    let shape = treap.print();
    match treap.get_mut(5) {
        Some(value) => value.push_str("!"),
        None => panic!("key 5 was inserted"),
    }
    assert_eq!(treap.get(5), Some(&"e!".to_string()));
    assert_eq!(treap.get(2), Some(&"b".to_string()));
    assert_eq!(treap.get(8), Some(&"h".to_string()));
    assert!(treap.get_mut(6).is_none());
    assert_eq!(treap.print().len(), shape.len());
}

#[test]
fn listing_goes_root_right_left() {
    let treap = fixed(&[(4, "d", 1), (2, "b", 2), (6, "f", 3), (1, "a", 4), (3, "c", 5), (5, "e", 6), (7, "g", 7)]);
    assert_eq!(treap.height(), 3);
    assert_eq!(
        treap.print(),
        vec![
            " (4,d,1)",
            "  ├R(6,f,3)",
            "  │ ├R(7,g,7)",
            "  │ └L(5,e,6)",
            "  └L(2,b,2)",
            "   ├R(3,c,5)",
            "   └L(1,a,4)",
        ]
    );
}

#[test]
fn right_rotation_lifts_the_middle_of_a_left_chain() {
    // 3 over 1, then 2 below 1: 2 first rises over 1, which leaves the chain
    // 3 - 2 - 1 with the heap order broken between 3 and 2 only.
    let treap = fixed(&[(3, "c", 5), (1, "a", 7), (2, "b", 1)]);
    assert_eq!(treap.print(), vec![" (2,b,1)", "  ├R(3,c,5)", "  └L(1,a,7)"]);
    assert_eq!(treap.height(), 2);
}

#[test]
fn left_rotation_lifts_the_middle_of_a_right_chain() {
    // 1 over 3, then 2 below 3: 2 first rises over 3, which leaves the chain
    // 1 - 2 - 3 with the heap order broken between 1 and 2 only.
    let treap = fixed(&[(1, "a", 5), (3, "c", 7), (2, "b", 1)]);
    assert_eq!(treap.print(), vec![" (2,b,1)", "  ├R(3,c,7)", "  └L(1,a,5)"]);
    assert_eq!(treap.height(), 2);
}

#[test]
fn a_single_rotation_right() {
    let treap = fixed(&[(2, "b", 5), (1, "a", 3)]);
    assert_eq!(treap.print(), vec![" (1,a,3)", "  └R(2,b,5)"]);
}

#[test]
fn a_single_rotation_left() {
    let treap = fixed(&[(1, "a", 5), (2, "b", 3)]);
    assert_eq!(treap.print(), vec![" (2,b,3)", "  └L(1,a,5)"]);
}

#[test]
fn equal_priorities_do_not_rotate() {
    let treap = fixed(&[(2, "b", 5), (1, "a", 5), (3, "c", 5)]);
    assert_eq!(treap.print(), vec![" (2,b,5)", "  ├R(3,c,5)", "  └L(1,a,5)"]);
    let chain = fixed(&[(1, "a", 5), (2, "b", 5), (3, "c", 5)]);
    assert_eq!(chain.print(), vec![" (1,a,5)", "  └R(2,b,5)", "   └R(3,c,5)"]);
    assert_eq!(chain.height(), 3);
}

#[test]
fn ascending_keys_with_rising_priorities_lean_right() {
    let mut treap = Treap::<i32, String, u8, Stepping>::new(Stepping::new(1, 1));
    for key in 1..=10 {
        treap.insert(key, key.to_string());
    }
    assert_eq!(treap.height(), 10);
    let lines = treap.print();
    assert_eq!(lines.len(), 10);
    assert_eq!(lines[0], " (1,1,1)");
    for (depth, line) in lines.iter().enumerate().skip(1) {
        let key = depth + 1;
        assert_eq!(*line, format!("{} └R({},{},{})", " ".repeat(depth), key, key, key));
    }
}

#[test]
fn ascending_keys_with_falling_priorities_lean_left() {
    let mut treap = Treap::<i32, String, u8, Stepping>::new(Stepping::new(10, -1));
    for key in 1..=10 {
        treap.insert(key, key.to_string());
    }
    assert_eq!(treap.height(), 10);
    let lines = treap.print();
    assert_eq!(lines.len(), 10);
    assert_eq!(lines[0], " (10,10,1)");
    for (depth, line) in lines.iter().enumerate().skip(1) {
        let key = 10 - depth;
        let priority = depth + 1;
        assert_eq!(*line, format!("{} └L({},{},{})", " ".repeat(depth), key, key, priority));
    }
}

#[test]
fn insert_draws_one_priority_each_time() {
    let mut treap = Treap::<i32, String, u8, Constant>::new(Constant { priority: 9, calls: Cell::new(0) });
    treap.insert(1, "a".to_string());
    treap.insert(2, "b".to_string());
    treap.insert(1, "c".to_string());
    assert_eq!(treap.print(), vec![" (1,c,9)", "  └R(2,b,9)"]);
    // The generator is owned by the treap; what it handed out shows in the
    // listing, and the update of key 1 left the priority in place.
    assert_eq!(treap.get(1), Some(&"c".to_string()));
}

#[test]
fn has_collision_follows_one_path() {
    let treap = fixed(&[(4, "d", 10), (2, "b", 20), (6, "f", 30), (1, "a", 40), (7, "g", 35)]);
    assert_eq!(
        treap.print(),
        vec![" (4,d,10)", "  ├R(6,f,30)", "  │ └R(7,g,35)", "  └L(2,b,20)", "   └L(1,a,40)"]
    );
    assert!(treap.has_collision(&10));
    assert!(treap.has_collision(&30));
    assert!(treap.has_collision(&35));
    assert!(!treap.has_collision(&5));
    assert!(!treap.has_collision(&31));
    // 20 and 40 hang to the left of a smaller priority, where a descent for
    // a greater one does not go.
    assert!(!treap.has_collision(&20));
    assert!(!treap.has_collision(&40));
}

fn parse(line: &str) -> (usize, i32, u64) {
    let open = line.find('(').expect("an entry");
    let inner = &line[open + 1..line.len() - 1];
    let parts: Vec<&str> = inner.split(',').collect();
    let indent = line.chars().take_while(|c| *c != '(').count();
    (indent, parts[0].parse().unwrap(), parts[2].parse().unwrap())
}

#[test]
fn random_priorities_keep_both_orders() {
    let mut treap = Treap::<i32, String>::new(0);
    let keys: Vec<i32> = (0..500).map(|i| (i * 37) % 500).collect();
    for key in &keys {
        treap.insert(*key, key.to_string());
    }
    let lines = treap.print();
    assert_eq!(lines.len(), 500);
    // Every node is listed before its descendants: a stack of the open
    // ancestors gives each node its parent.
    let mut path: Vec<(usize, i32, u64, bool)> = Vec::new();
    let mut seen = Vec::new();
    for line in &lines {
        let (indent, key, priority) = parse(line);
        let is_left = line.contains("└L");
        while let Some(top) = path.last() {
            if top.0 >= indent {
                path.pop();
            } else {
                break;
            }
        }
        if let Some(parent) = path.last() {
            assert!(parent.2 <= priority);
            if is_left {
                assert!(key < parent.1);
            } else {
                assert!(key > parent.1);
            }
        }
        path.push((indent, key, priority, is_left));
        seen.push(key);
    }
    seen.sort();
    assert_eq!(seen, (0..500).collect::<Vec<i32>>());
    let height = treap.height();
    assert!(height >= 9);
    assert!(height <= 500);
}

#[test]
fn average_height_tracks_the_logarithm() {
    let trees = 200;
    let keys = 1_023;
    let mut total = 0usize;
    for _ in 0..trees {
        let mut treap = Treap::<i32, String>::new(0);
        for key in 1..=keys {
            treap.insert(key, key.to_string());
        }
        total += treap.height();
    }
    let average = total as f64 / trees as f64;
    let log2 = (keys as f64).log2();
    assert!(average >= log2);
    assert!(average <= 4.0 * log2);
}

#[test]
fn random_generators_spread() {
    let wide: Vec<u64> = (0..64).map(|_| 0u64.generate()).collect();
    assert!(wide.iter().any(|p| *p != wide[0]));
    let narrow: Vec<u8> = (0..64).map(|_| 0u8.generate()).collect();
    assert!(narrow.iter().any(|p| *p != narrow[0]));
}
