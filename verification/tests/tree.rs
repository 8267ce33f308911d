use quadtree::{BoundingBox, Point, Quadtree, Spacial};

fn bb(x: i64, y: i64, w: i64, h: i64) -> BoundingBox {
    BoundingBox { x, y, w, h }
}

fn pt(x: i64, y: i64) -> Point {
    Point { x, y }
}

fn sorted(found: Vec<&Point>) -> Vec<(i64, i64)> {
    let mut v: Vec<(i64, i64)> = found.iter().map(|p| (p.x, p.y)).collect();
    v.sort();
    v
}

#[test]
fn a_new_tree_is_an_empty_leaf() {
    let qt: Quadtree<Point> = Quadtree::new(bb(0, 0, 50, 50), 2);
    assert_eq!(qt.tot_trees(), 0);
    assert!(qt.find(&bb(0, 0, 50, 50)).is_empty());
}

#[test]
fn three_points_with_threshold_two() {
    let pts = [pt(10, 10), pt(-10, -10), pt(20, 20)];
    let mut qt: Quadtree<Point> = Quadtree::new(bb(0, 0, 50, 50), 2);
    assert!(qt.insert(&pts[0]));
    assert!(qt.insert(&pts[1]));
    assert_eq!(qt.tot_trees(), 0);
    assert!(qt.insert(&pts[2]));
    assert_eq!(qt.tot_trees(), 4);
    let found = qt.find(&bb(0, 0, 30, 30));
    assert_eq!(found.len(), 3);
    assert_eq!(sorted(found), vec![(-10, -10), (10, 10), (20, 20)]);
    // the third point sits in the top-right quadrant and nowhere else
    assert_eq!(sorted(qt.find(&bb(25, 25, 25, 25))), vec![(10, 10), (20, 20)]);
    assert_eq!(sorted(qt.find(&bb(20, 20, 0, 0))), vec![(20, 20)]);
}

#[test]
fn find_reports_root_items_before_quadrant_items() {
    let pts = [pt(10, 10), pt(-10, -10), pt(20, 20)];
    let mut qt: Quadtree<Point> = Quadtree::new(bb(0, 0, 50, 50), 2);
    for p in pts.iter() {
        assert!(qt.insert(p));
    }
    let found = qt.find(&bb(0, 0, 50, 50));
    assert_eq!(found, vec![&pts[0], &pts[1], &pts[2]]);
}

#[test]
fn insert_refuses_a_point_outside_the_root() {
    let inside = pt(1, 1);
    let outside = [pt(51, 0), pt(-51, 0), pt(0, 51), pt(0, -51), pt(1000, 1000)];
    let mut qt: Quadtree<Point> = Quadtree::new(bb(0, 0, 50, 50), 1);
    assert!(qt.insert(&inside));
    for p in outside.iter() {
        assert!(!qt.insert(p));
        assert_eq!(qt.tot_trees(), 0);
        assert_eq!(qt.find(&bb(0, 0, 2000, 2000)), vec![&inside]);
    }
}

#[test]
fn insert_accepts_points_on_the_edge_of_the_root() {
    let pts = [pt(50, 50), pt(-50, 50), pt(-50, -50), pt(50, -50)];
    let mut qt: Quadtree<Point> = Quadtree::new(bb(0, 0, 50, 50), 4);
    for p in pts.iter() {
        assert!(qt.insert(p));
    }
    assert_eq!(qt.find(&bb(0, 0, 50, 50)).len(), 4);
}

#[test]
fn find_never_reports_a_point_outside_the_search_region() {
    let mut pts = Vec::new();
    for x in -8..=8 {
        for y in -8..=8 {
            pts.push(pt(x * 5, y * 5));
        }
    }
    let mut qt: Quadtree<Point> = Quadtree::new(bb(0, 0, 64, 64), 3);
    let mut stored = Vec::new();
    for p in pts.iter() {
        if qt.insert(p) {
            stored.push((p.x, p.y));
        }
    }
    let sb = bb(7, -3, 12, 9);
    let found = qt.find(&sb);
    for p in found.iter() {
        assert!(sb.contains(*p));
    }
    let mut expected: Vec<(i64, i64)> =
        stored.iter().copied().filter(|&(x, y)| sb.contains(&pt(x, y))).collect();
    expected.sort();
    assert_eq!(sorted(found), expected);
}

#[test]
fn every_point_off_the_split_lines_is_stored_and_found() {
    // odd coordinates never fall on a split line of a region of half-extent 64
    let mut pts = Vec::new();
    for x in -10..10 {
        for y in -10..10 {
            pts.push(pt(2 * x * 3 + 1, 2 * y * 3 + 1));
        }
    }
    let root = bb(0, 0, 64, 64);
    let mut qt: Quadtree<Point> = Quadtree::new(root, 2);
    for p in pts.iter() {
        assert!(qt.insert(p));
        assert!(qt.find(&root).contains(&p));
    }
    assert_eq!(qt.find(&root).len(), pts.len());
}

#[test]
fn repeated_overflow_keeps_four_quadrants() {
    let pts = [pt(10, 10), pt(-10, -10), pt(20, 20), pt(30, 30), pt(-30, 30), pt(-20, 20)];
    let mut qt: Quadtree<Point> = Quadtree::new(bb(0, 0, 50, 50), 2);
    for p in pts.iter() {
        assert!(qt.insert(p));
    }
    assert_eq!(qt.tot_trees(), 4);
    assert_eq!(qt.find(&bb(0, 0, 50, 50)).len(), 6);
}

#[test]
fn a_full_quadrant_splits_in_turn() {
    let pts = [pt(10, 10), pt(20, 20), pt(30, 30), pt(40, 40)];
    let mut qt: Quadtree<Point> = Quadtree::new(bb(0, 0, 64, 64), 1);
    assert!(qt.insert(&pts[0]));
    assert_eq!(qt.tot_trees(), 0);
    assert!(qt.insert(&pts[1]));
    assert_eq!(qt.tot_trees(), 4);
    assert!(qt.insert(&pts[2]));
    assert_eq!(qt.tot_trees(), 8);
    assert!(qt.insert(&pts[3]));
    assert_eq!(qt.tot_trees(), 8);
    assert_eq!(qt.find(&bb(0, 0, 64, 64)).len(), 4);
}

#[test]
fn a_point_on_a_split_line_goes_to_the_first_quadrant_that_contains_it() {
    let pts = [pt(1, 1), pt(10, 10), pt(0, 0), pt(0, -10), pt(10, 0)];
    let mut qt: Quadtree<Point> = Quadtree::new(bb(0, 0, 50, 50), 1);
    assert!(qt.insert(&pts[0]));
    assert!(qt.insert(&pts[1]));
    // the centre belongs to all four quadrants: the top-left one takes it
    assert!(qt.insert(&pts[2]));
    assert_eq!(qt.tot_trees(), 4);
    assert_eq!(qt.find(&bb(0, 0, 50, 50)), vec![&pts[0], &pts[2], &pts[1]]);
    // (0, -10) lies between bottom-left and bottom-right: bottom-left takes it
    assert!(qt.insert(&pts[3]));
    assert_eq!(qt.tot_trees(), 4);
    // (10, 0) lies between top-right and bottom-right; top-right is full and
    // splits, but its quadrants (half-extent 12 around 25) start at 1 and
    // refuse the point, so bottom-right takes it
    assert!(qt.insert(&pts[4]));
    assert_eq!(qt.tot_trees(), 8);
    assert_eq!(
        qt.find(&bb(0, 0, 50, 50)),
        vec![&pts[0], &pts[2], &pts[1], &pts[3], &pts[4]]
    );
}

#[test]
fn a_point_in_no_quadrant_is_refused_after_the_split() {
    // half-extent 5 gives quadrants of half-extent 2, which reach to 4 only
    let pts = [pt(0, 0), pt(5, 5), pt(4, 4)];
    let root = bb(0, 0, 5, 5);
    let mut qt: Quadtree<Point> = Quadtree::new(root, 1);
    assert!(qt.insert(&pts[0]));
    assert!(!qt.insert(&pts[1]));
    assert_eq!(qt.tot_trees(), 4);
    assert_eq!(qt.find(&root), vec![&pts[0]]);
    assert!(!qt.insert(&pts[1]));
    assert_eq!(qt.tot_trees(), 4);
    assert!(qt.insert(&pts[2]));
    assert_eq!(qt.find(&root), vec![&pts[0], &pts[2]]);
}

#[test]
fn equal_points_pile_up_level_by_level() {
    let pts = [pt(3, 3), pt(3, 3), pt(3, 3)];
    let root = bb(0, 0, 8, 8);
    let mut qt: Quadtree<Point> = Quadtree::new(root, 1);
    for p in pts.iter() {
        assert!(qt.insert(p));
    }
    assert_eq!(qt.tot_trees(), 8);
    assert_eq!(qt.find(&bb(3, 3, 0, 0)).len(), 3);
}

#[test]
fn find_skips_regions_that_do_not_meet_the_search_region() {
    let pts = [pt(10, 10), pt(-10, -10), pt(20, 20), pt(-40, 40)];
    let mut qt: Quadtree<Point> = Quadtree::new(bb(0, 0, 50, 50), 2);
    for p in pts.iter() {
        assert!(qt.insert(p));
    }
    assert!(qt.find(&bb(200, 200, 10, 10)).is_empty());
    assert_eq!(sorted(qt.find(&bb(-40, 40, 5, 5))), vec![(-40, 40)]);
    assert_eq!(sorted(qt.find(&bb(-10, -10, 0, 0))), vec![(-10, -10)]);
    assert!(qt.find(&bb(-30, -30, 5, 5)).is_empty());
}

#[test]
fn clear_gives_back_an_empty_leaf() {
    let pts = [pt(10, 10), pt(-10, -10), pt(20, 20), pt(-20, 20)];
    let root = bb(0, 0, 50, 50);
    let mut qt: Quadtree<Point> = Quadtree::new(root, 1);
    for p in pts.iter() {
        assert!(qt.insert(p));
    }
    assert!(qt.tot_trees() > 0);
    qt.clear();
    assert_eq!(qt.tot_trees(), 0);
    assert!(qt.find(&root).is_empty());
    assert!(qt.find(&bb(10, 10, 0, 0)).is_empty());
    // and it takes items again as a new tree would
    assert!(qt.insert(&pts[2]));
    assert_eq!(qt.tot_trees(), 0);
    assert_eq!(qt.find(&root), vec![&pts[2]]);
    assert!(qt.contains(&pts[0]));
    assert!(!qt.contains(&pt(51, 0)));
}

#[test]
fn items_with_an_extent_are_filed_by_their_centre() {
    let boxes = [bb(10, 10, 100, 100), bb(49, 49, 5, 5), bb(60, 0, 20, 20)];
    let mut qt: Quadtree<BoundingBox> = Quadtree::new(bb(0, 0, 50, 50), 4);
    assert!(qt.insert(&boxes[0]));
    assert!(qt.insert(&boxes[1]));
    // the centre is outside although the box reaches into the region
    assert!(!qt.insert(&boxes[2]));
    assert_eq!(qt.find(&bb(48, 48, 2, 2)), vec![&boxes[1]]);
}

struct City {
    name: &'static str,
    at: Point,
    reach: i64,
}

impl Spacial for City {
    fn extent(&self) -> BoundingBox {
        self.bounds()
    }

    fn bounds(&self) -> BoundingBox {
        BoundingBox { x: self.at.x, y: self.at.y, w: self.reach, h: self.reach }
    }
}

#[test]
fn items_of_a_type_of_the_caller_are_indexed_by_their_bounds() {
    let cities = [
        City { name: "north", at: pt(0, 40), reach: 3 },
        City { name: "south", at: pt(0, -40), reach: 30 },
        City { name: "far", at: pt(500, 0), reach: 1000 },
    ];
    let mut qt: Quadtree<City> = Quadtree::new(bb(0, 0, 50, 50), 1);
    assert!(qt.insert(&cities[0]));
    assert!(qt.insert(&cities[1]));
    assert!(!qt.insert(&cities[2]));
    let found = qt.find(&bb(0, -45, 10, 10));
    assert_eq!(found.len(), 1);
    assert_eq!(found[0].name, "south");
}

#[test]
fn a_tree_over_the_whole_grid_takes_its_corners() {
    let m = i64::MAX;
    let pts = [pt(m, m), pt(-m, -m), pt(m, -m), pt(-m, m), pt(0, 0), pt(i64::MIN, 0)];
    let root = bb(0, 0, m, m);
    assert!(root.is_well_formed());
    let mut qt: Quadtree<Point> = Quadtree::new(root, 1);
    assert!(qt.insert(&pts[0]));
    // the quadrants have half-extent (m - 1) / 2 and stop one step short of
    // the corners
    assert!(!qt.insert(&pts[1]));
    assert!(!qt.insert(&pts[2]));
    assert!(!qt.insert(&pts[3]));
    assert!(qt.insert(&pts[4]));
    assert!(!qt.insert(&pts[5]));
    assert_eq!(qt.tot_trees(), 4);
    assert_eq!(qt.find(&root), vec![&pts[0], &pts[4]]);
    assert_eq!(qt.find(&bb(-1, -1, m, m)), vec![&pts[4]]);
    assert!(qt.find(&bb(i64::MIN, i64::MIN, m, m)).is_empty());
}

#[test]
fn a_tree_over_a_single_position_piles_up_equal_points() {
    let pts = [pt(7, 7), pt(7, 7), pt(7, 7), pt(8, 7)];
    let root = bb(7, 7, 0, 0);
    let mut qt: Quadtree<Point> = Quadtree::new(root, 1);
    assert!(qt.insert(&pts[0]));
    assert!(qt.insert(&pts[1]));
    assert!(qt.insert(&pts[2]));
    assert!(!qt.insert(&pts[3]));
    assert_eq!(qt.tot_trees(), 8);
    assert_eq!(qt.find(&root).len(), 3);
}
