use delivery_planner::frontier::{Frontier, Node};

#[test]
fn empty_frontier_gives_nothing() {
    let mut f = Frontier::new();
    assert!(f.is_empty());
    assert_eq!(f.len(), 0);
    assert!(f.pop_min().is_none());
    assert!(f.is_empty());
}

#[test]
fn least_priority_leaves_first() {
    let mut f = Frontier::new();
    f.push(Node::from(50, 5));
    f.push(Node::from(30, 3));
    f.push(Node::from(90, 9));
    f.push(Node::from(10, 1));
    assert_eq!(f.len(), 4);
    let order: Vec<(u64, usize)> =
        (0..4).map(|_| f.pop_min().unwrap()).map(|e| (e.cost, e.coord)).collect();
    assert_eq!(order, vec![(1, 10), (3, 30), (5, 50), (9, 90)]);
    assert!(f.pop_min().is_none());
}

#[test]
fn equal_priorities_leave_in_the_order_queued() {
    let mut f = Frontier::new();
    f.push(Node::from(1, 2));
    f.push(Node::from(2, 1));
    f.push(Node::from(3, 2));
    f.push(Node::from(4, 1));
    f.push(Node::from(5, 2));
    let order: Vec<usize> = (0..5).map(|_| f.pop_min().unwrap().coord).collect();
    assert_eq!(order, vec![2, 4, 1, 3, 5]);
}

#[test]
fn pushes_between_pops() {
    let mut f = Frontier::new();
    f.push(Node::from(1, 10));
    f.push(Node::from(2, 20));
    assert_eq!(f.pop_min().unwrap().coord, 1);
    f.push(Node::from(3, 5));
    f.push(Node::from(4, u64::MAX));
    f.push(Node::from(5, 0));
    assert_eq!(f.pop_min().unwrap().coord, 5);
    assert_eq!(f.pop_min().unwrap().coord, 3);
    assert_eq!(f.pop_min().unwrap().coord, 2);
    let last = f.pop_min().unwrap();
    assert_eq!((last.cost, last.coord), (u64::MAX, 4));
    assert!(f.is_empty());
}

#[test]
fn agrees_with_a_plain_list_on_random_pushes_and_pops() {
    let rng = fastrand::Rng::with_seed(2024);
    for round in 0..20 {
        let mut f = Frontier::new();
        let mut model: Vec<(u64, usize)> = Vec::new();
        let spread = 1 + round as u64 * 3;
        for step in 0..2000usize {
            if model.is_empty() || rng.u32(0..3) > 0 {
                let p = rng.u64(0..spread);
                f.push(Node::from(step, p));
                model.push((p, step));
            } else {
                let least = model.iter().map(|e| e.0).min().unwrap();
                let at = model.iter().position(|e| e.0 == least).unwrap();
                let expected = model.remove(at);
                let got = f.pop_min().unwrap();
                assert_eq!((got.cost, got.coord), expected);
            }
            assert_eq!(f.len(), model.len());
            assert_eq!(f.is_empty(), model.is_empty());
        }
        while let Some(got) = f.pop_min() {
            let least = model.iter().map(|e| e.0).min().unwrap();
            let at = model.iter().position(|e| e.0 == least).unwrap();
            assert_eq!((got.cost, got.coord), model.remove(at));
        }
        assert!(model.is_empty());
    }
}
