use quadtree::geometry::AABB;
use quadtree::traits::Dynamic;
use quadtree::tree::{drop_escaped, QuadTree};
use quadtree::vals::TestVal;
use std::time::Duration;

fn val(x: i32, y: i32, w: u32, h: u32) -> TestVal {
    TestVal { bbox: AABB { x, y, w, h } }
}

fn boxes(t: &QuadTree<TestVal>) -> Vec<AABB> {
    t.values().iter().map(|v| v.bbox).collect()
}

fn count(t: &QuadTree<TestVal>) -> usize {
    t.values().len() + t.children().iter().map(count).sum::<usize>()
}

#[test]
fn default_tree() {
    let t = QuadTree::<TestVal>::default();
    assert!(t.is_leaf());
    assert_eq!(t.zone(), AABB { x: 0, y: 0, w: 256, h: 256 });
    assert_eq!(t.max_values(), 1);
    assert_eq!(t.max_depth(), 4);
    assert_eq!(t.values().len(), 0);
}

#[test]
fn new_tree() {
    let t = QuadTree::<TestVal>::new(3, 2, -8, 4, 16, 32);
    assert!(t.is_leaf());
    assert_eq!(t.zone(), AABB { x: -8, y: 4, w: 16, h: 32 });
    assert_eq!(t.max_values(), 3);
    assert_eq!(t.max_depth(), 2);
}

#[test]
fn leaf_under_capacity_keeps_values() {
    let mut t = QuadTree::<TestVal>::new(3, 4, 0, 0, 256, 256);
    t.insert(val(1, 1, 10, 10));
    t.insert(val(200, 1, 10, 10));
    t.insert(val(1, 200, 10, 10));
    assert!(t.is_leaf());
    assert_eq!(boxes(&t).len(), 3);
    assert_eq!(boxes(&t)[1], AABB { x: 200, y: 1, w: 10, h: 10 });
}

#[test]
fn second_insert_splits_once() {
    let mut t = QuadTree::<TestVal>::default();
    t.insert(val(1, 1, 10, 10));
    assert!(t.is_leaf());
    t.insert(val(150, 10, 10, 10));
    assert!(!t.is_leaf());
    assert_eq!(t.children().len(), 4);
    assert_eq!(t.values().len(), 0);
    for c in t.children() {
        assert!(c.is_leaf());
        assert_eq!(c.max_depth(), 3);
        assert_eq!(c.max_values(), 1);
    }
    assert_eq!(boxes(&t.children()[0]), vec![AABB { x: 1, y: 1, w: 10, h: 10 }]);
    assert_eq!(boxes(&t.children()[1]), vec![AABB { x: 150, y: 10, w: 10, h: 10 }]);
    assert_eq!(t.children()[2].values().len(), 0);
    assert_eq!(t.children()[3].values().len(), 0);
    assert_eq!(t.children()[1].zone(), AABB { x: 129, y: 0, w: 128, h: 128 });
}

#[test]
fn straddling_value_stays_on_root() {
    let mut t = QuadTree::<TestVal>::default();
    t.insert(val(1, 1, 10, 10));
    t.insert(val(150, 10, 10, 10));
    t.insert(val(120, 10, 40, 10));
    assert!(!t.is_leaf());
    assert_eq!(boxes(&t), vec![AABB { x: 120, y: 10, w: 40, h: 10 }]);
    assert_eq!(t.children()[0].values().len(), 1);
    assert_eq!(t.children()[1].values().len(), 1);
    assert_eq!(count(&t), 3);
}

#[test]
fn full_leaf_keeps_value_that_fits_no_quadrant() {
    let mut t = QuadTree::<TestVal>::default();
    t.insert(val(1, 1, 10, 10));
    t.insert(val(120, 10, 40, 10));
    assert!(t.is_leaf());
    assert_eq!(boxes(&t).len(), 2);
}

#[test]
fn four_values_end_to_end() {
    let mut t = QuadTree::<TestVal>::default();
    t.insert(val(1, 1, 10, 10));
    t.insert(val(50, 50, 10, 10));
    t.insert(val(150, 150, 10, 10));
    t.insert(val(240, 240, 10, 10));
    assert!(!t.is_leaf());
    assert_eq!(t.values().len(), 0);
    assert_eq!(count(&t), 4);
    let tl = &t.children()[0];
    let br = &t.children()[3];
    assert_eq!(count(tl), 2);
    assert_eq!(count(br), 2);
    assert_eq!(count(&t.children()[1]), 0);
    assert_eq!(count(&t.children()[2]), 0);
    let tltl = &tl.children()[0];
    assert_eq!(tltl.zone(), AABB { x: 0, y: 0, w: 64, h: 64 });
    assert_eq!(boxes(&tltl.children()[0]), vec![AABB { x: 1, y: 1, w: 10, h: 10 }]);
    assert_eq!(boxes(&tltl.children()[3]), vec![AABB { x: 50, y: 50, w: 10, h: 10 }]);
    assert_eq!(tltl.children()[3].max_depth(), 1);
    assert_eq!(boxes(&br.children()[0]), vec![AABB { x: 150, y: 150, w: 10, h: 10 }]);
    assert_eq!(boxes(&br.children()[3]), vec![AABB { x: 240, y: 240, w: 10, h: 10 }]);
    assert_eq!(br.children()[3].zone(), AABB { x: 194, y: 194, w: 64, h: 64 });
}

#[test]
fn depth_zero_is_an_unbounded_bucket() {
    let mut t = QuadTree::<TestVal>::new(1, 0, 0, 0, 16, 16);
    for i in 0..5 {
        t.insert(val(i, i, 1, 1));
    }
    assert!(t.is_leaf());
    assert_eq!(t.values().len(), 5);
    t.split();
    assert!(t.is_leaf());
}

#[test]
fn split_twice_is_split_once() {
    let mut t = QuadTree::<TestVal>::new(4, 3, 0, 0, 64, 64);
    t.insert(val(1, 1, 4, 4));
    t.insert(val(40, 40, 4, 4));
    t.insert(val(30, 1, 4, 4));
    t.split();
    let zones: Vec<AABB> = t.children().iter().map(|c| c.zone()).collect();
    let kept = boxes(&t);
    let per_child: Vec<Vec<AABB>> = t.children().iter().map(boxes).collect();
    t.split();
    assert_eq!(t.children().iter().map(|c| c.zone()).collect::<Vec<AABB>>(), zones);
    assert_eq!(boxes(&t), kept);
    assert_eq!(t.children().iter().map(boxes).collect::<Vec<Vec<AABB>>>(), per_child);
    assert_eq!(count(&t), 3);
    assert_eq!(kept, vec![AABB { x: 30, y: 1, w: 4, h: 4 }]);
    assert_eq!(per_child[0], vec![AABB { x: 1, y: 1, w: 4, h: 4 }]);
    assert_eq!(per_child[3], vec![AABB { x: 40, y: 40, w: 4, h: 4 }]);
}

#[test]
fn moving_value_leaves_its_node() {
    let mut t = QuadTree::<TestVal>::default();
    t.insert(val(1, 1, 10, 10));
    t.insert(val(110, 10, 10, 10));
    let node = &t.children()[0].children()[1];
    assert_eq!(node.zone(), AABB { x: 65, y: 0, w: 64, h: 64 });
    assert_eq!(boxes(node), vec![AABB { x: 110, y: 10, w: 10, h: 10 }]);
    let d = Duration::new(0, 0);
    for _ in 0..9 {
        assert!(t.update(&d));
    }
    let node = &t.children()[0].children()[1];
    assert_eq!(boxes(node), vec![AABB { x: 119, y: 10, w: 10, h: 10 }]);
    assert!(t.update(&d));
    let node = &t.children()[0].children()[1];
    assert_eq!(node.values().len(), 0);
    assert_eq!(count(&t), 1);
    assert_eq!(boxes(&t.children()[0].children()[0]), vec![AABB { x: 11, y: 1, w: 10, h: 10 }]);
}

#[test]
fn moving_value_leaves_the_root() {
    let mut t = QuadTree::<TestVal>::default();
    t.insert(val(240, 10, 10, 10));
    let d = Duration::new(0, 0);
    for _ in 0..6 {
        t.update(&d);
    }
    assert_eq!(boxes(&t), vec![AABB { x: 246, y: 10, w: 10, h: 10 }]);
    assert!(t.update(&d));
    assert_eq!(t.values().len(), 0);
}

#[test]
fn empty_tree_update_reports_no_change() {
    let mut t = QuadTree::<TestVal>::default();
    assert!(!t.update(&Duration::new(0, 0)));
}

#[test]
fn value_at_the_end_of_the_range_does_not_move() {
    let mut v = val(i32::MAX, 0, 0, 0);
    assert!(!v.update(&Duration::new(0, 0)));
    assert_eq!(v.bbox.x, i32::MAX);
    let mut w = val(7, 0, 1, 1);
    assert!(w.update(&Duration::new(0, 0)));
    assert_eq!(w.bbox, AABB { x: 8, y: 0, w: 1, h: 1 });
}

#[test]
fn drop_escaped_keeps_order() {
    let zone = AABB { x: 0, y: 0, w: 10, h: 10 };
    let mut values = vec![val(1, 1, 2, 2), val(20, 1, 2, 2), val(30, 1, 2, 2), val(5, 5, 2, 2)];
    let flags = vec![true, true, false, false];
    drop_escaped(&mut values, &flags, zone);
    let got: Vec<AABB> = values.iter().map(|v| v.bbox).collect();
    assert_eq!(
        got,
        vec![
            AABB { x: 1, y: 1, w: 2, h: 2 },
            AABB { x: 30, y: 1, w: 2, h: 2 },
            AABB { x: 5, y: 5, w: 2, h: 2 }
        ]
    );
}

#[test]
fn two_values_leave_one_node_on_one_tick() {
    let mut t = QuadTree::<TestVal>::new(3, 4, 0, 0, 100, 100);
    t.insert(val(90, 1, 10, 10));
    t.insert(val(10, 10, 5, 5));
    t.insert(val(90, 50, 10, 10));
    assert!(t.is_leaf());
    assert_eq!(t.values().len(), 3);
    assert!(t.update(&Duration::new(0, 0)));
    assert_eq!(boxes(&t), vec![AABB { x: 11, y: 10, w: 5, h: 5 }]);
}

#[test]
fn leaving_values_at_both_ends_of_a_node() {
    let mut t = QuadTree::<TestVal>::new(4, 4, 0, 0, 100, 100);
    t.insert(val(90, 1, 10, 10));
    t.insert(val(10, 10, 5, 5));
    t.insert(val(20, 30, 5, 5));
    t.insert(val(90, 50, 10, 10));
    assert!(t.update(&Duration::new(0, 0)));
    assert_eq!(
        boxes(&t),
        vec![AABB { x: 11, y: 10, w: 5, h: 5 }, AABB { x: 21, y: 30, w: 5, h: 5 }]
    );
}

#[test]
fn drift_out_of_one_child_only() {
    let mut t = QuadTree::<TestVal>::default();
    t.insert(val(110, 10, 10, 10));
    t.insert(val(150, 10, 10, 10));
    assert_eq!(boxes(&t.children()[0]), vec![AABB { x: 110, y: 10, w: 10, h: 10 }]);
    assert_eq!(boxes(&t.children()[1]), vec![AABB { x: 150, y: 10, w: 10, h: 10 }]);
    let d = Duration::new(0, 0);
    for _ in 0..8 {
        assert!(t.update(&d));
    }
    assert_eq!(boxes(&t.children()[0]), vec![AABB { x: 118, y: 10, w: 10, h: 10 }]);
    assert!(t.update(&d));
    assert_eq!(t.children()[0].values().len(), 0);
    assert_eq!(boxes(&t.children()[1]), vec![AABB { x: 159, y: 10, w: 10, h: 10 }]);
    assert_eq!(t.values().len(), 0);
    assert_eq!(count(&t), 1);
}

#[test]
fn split_of_a_leaf_gives_the_four_quadrants() {
    let mut t = QuadTree::<TestVal>::default();
    t.insert(val(1, 1, 10, 10));
    t.split();
    t.split();
    let zones: Vec<AABB> = t.children().iter().map(|c| c.zone()).collect();
    assert_eq!(
        zones,
        vec![
            AABB { x: 0, y: 0, w: 128, h: 128 },
            AABB { x: 129, y: 0, w: 128, h: 128 },
            AABB { x: 0, y: 129, w: 128, h: 128 },
            AABB { x: 129, y: 129, w: 128, h: 128 }
        ]
    );
    assert_eq!(t.values().len(), 0);
    assert_eq!(boxes(&t.children()[0]), vec![AABB { x: 1, y: 1, w: 10, h: 10 }]);
    assert_eq!(count(&t), 1);
}
