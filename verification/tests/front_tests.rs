use blaise::network::Time;
use blaise::raptor::front::{ParetoFront, ParetoLabel};

fn label(time: u32, cost: u64) -> ParetoLabel {
    ParetoLabel::new(Time(time), cost)
}

#[test]
fn add_to_empty_front_is_accepted() {
    let mut f = ParetoFront::new();
    assert!(f.is_empty());
    assert!(f.add(label(100, 50), false));
    assert_eq!(f.len(), 1);
    assert_eq!(f.get(0), label(100, 50));
    assert!(!f.is_empty());
}

#[test]
fn dominated_label_is_rejected_forward() {
    let mut f = ParetoFront::new();
    assert!(f.add(label(100, 50), false));
    // Later and dearer: dominated.
    assert!(!f.add(label(120, 60), false));
    // Same label: dominated by itself.
    assert!(!f.add(label(100, 50), false));
    assert_eq!(f.iter(), vec![label(100, 50)]);
}

#[test]
fn incomparable_labels_are_kept_in_order() {
    let mut f = ParetoFront::new();
    assert!(f.add(label(100, 50), false));
    assert!(f.add(label(90, 80), false));
    assert!(f.add(label(110, 10), false));
    assert_eq!(f.iter(), vec![label(100, 50), label(90, 80), label(110, 10)]);
}

#[test]
fn new_label_removes_the_labels_it_dominates() {
    let mut f = ParetoFront::new();
    f.add(label(100, 50), false);
    f.add(label(90, 80), false);
    f.add(label(110, 10), false);
    f.add(label(120, 5), false);
    // (95, 40) dominates (100, 50) only.
    assert!(f.add(label(95, 40), false));
    assert_eq!(f.iter(), vec![label(90, 80), label(110, 10), label(120, 5), label(95, 40)]);
    // (80, 0) dominates everything.
    assert!(f.add(label(80, 0), false));
    assert_eq!(f.iter(), vec![label(80, 0)]);
}

#[test]
fn backward_dominance_prefers_later_times() {
    let mut f = ParetoFront::new();
    assert!(f.add(label(100, 50), true));
    assert!(f.is_dominated(Time(90), 60, true));
    assert!(!f.is_dominated(Time(110), 60, true));
    assert!(!f.is_dominated(Time(90), 40, true));
    assert!(f.add(label(120, 50), true));
    assert_eq!(f.iter(), vec![label(120, 50)]);
}

#[test]
fn is_dominated_checks_time_and_cost() {
    let mut f = ParetoFront::new();
    f.add(label(100, 50), false);
    assert!(f.is_dominated(Time(100), 50, false));
    assert!(f.is_dominated(Time(101), 51, false));
    assert!(!f.is_dominated(Time(99), 51, false));
    assert!(!f.is_dominated(Time(101), 49, false));
}

#[test]
fn best_cost_and_best_time() {
    let mut f = ParetoFront::new();
    assert_eq!(f.best_cost(), u64::MAX);
    assert_eq!(f.best_time(false), None);
    assert_eq!(f.best_time(true), None);
    f.add(label(100, 50), false);
    f.add(label(90, 80), false);
    f.add(label(110, 10), false);
    assert_eq!(f.best_cost(), 10);
    assert_eq!(f.best_time(false), Some(Time(90)));
    assert_eq!(f.best_time(true), Some(Time(110)));
}

#[test]
fn clear_empties_the_front() {
    let mut f = ParetoFront::new();
    f.add(label(100, 50), false);
    f.add(label(90, 80), false);
    f.clear();
    assert!(f.is_empty());
    assert_eq!(f.len(), 0);
    assert!(f.add(label(200, 200), false));
}

#[test]
fn front_spills_past_its_inline_capacity() {
    let mut f = ParetoFront::new();
    for k in 0..10u32 {
        assert!(f.add(label(100 + k, 100 - k as u64), false));
    }
    assert_eq!(f.len(), 10);
    assert_eq!(f.get(9), label(109, 91));
    assert_eq!(f.best_cost(), 91);
}

#[test]
fn no_label_on_a_front_dominates_another() {
    let mut f = ParetoFront::new();
    let offers = [(5u32, 9u64), (7, 3), (4, 12), (6, 6), (3, 20), (8, 1), (5, 9), (2, 30)];
    for (t, c) in offers {
        f.add(label(t, c), false);
    }
    let v = f.iter();
    for (i, a) in v.iter().enumerate() {
        for (j, b) in v.iter().enumerate() {
            if i != j {
                assert!(!(a.time.0 <= b.time.0 && a.cost <= b.cost));
            }
        }
    }
    // Every offered label is dominated by the front afterwards.
    for (t, c) in offers {
        assert!(f.is_dominated(Time(t), c, false));
    }
}

#[test]
fn extreme_labels() {
    assert_eq!(ParetoLabel::max_label(), label(u32::MAX, u64::MAX));
    assert_eq!(ParetoLabel::min_label(), label(0, u64::MAX));
}
