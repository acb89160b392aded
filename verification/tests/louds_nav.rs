use louds::Louds;

const NODES_LIGHT: &[usize] = &[2, 3, 2, 0, 2, 1, 1, 0, 0, 0, 0, 0];

const FIRST_CHILDREN_LIGHT: &[Option<usize>] = &[
    Some(1),
    Some(3),
    Some(6),
    None,
    Some(8),
    Some(10),
    Some(11),
    None,
    None,
    None,
    None,
    None,
];

const LAST_CHILDREN_LIGHT: &[Option<usize>] = &[
    Some(2),
    Some(5),
    Some(7),
    None,
    Some(9),
    Some(10),
    Some(11),
    None,
    None,
    None,
    None,
    None,
];

const SIBLINGS_LIGHT: &[Option<usize>] = &[
    None,
    Some(2),
    None,
    Some(4),
    Some(5),
    None,
    Some(7),
    None,
    Some(9),
    None,
    None,
    None,
];

const DEPTH_LIGHT: &[usize] = &[0, 1, 1, 2, 2, 2, 2, 2, 3, 3, 3, 3];

const PARENTS_LIGHT: &[Option<usize>] = &[
    None,
    Some(0),
    Some(0),
    Some(1),
    Some(1),
    Some(1),
    Some(2),
    Some(2),
    Some(4),
    Some(4),
    Some(5),
    Some(6),
];

fn get_tree_light() -> Louds {
    let mut louds = Louds::new();
    for &d in NODES_LIGHT {
        louds.push_node(d);
    }
    louds
}

#[test]
fn test_first_child() {
    let louds = get_tree_light();

    for i in 0..NODES_LIGHT.len() {
        assert_eq!(
            louds.first_child(i),
            FIRST_CHILDREN_LIGHT[i],
            "The first child of node {} is {:?}",
            i,
            FIRST_CHILDREN_LIGHT[i]
        );
    }
}

#[test]
fn test_last_child() {
    let louds = get_tree_light();

    for i in 0..NODES_LIGHT.len() {
        assert_eq!(
            louds.last_child(i),
            LAST_CHILDREN_LIGHT[i],
            "The last child of node {} is {:?}",
            i,
            LAST_CHILDREN_LIGHT[i]
        );
    }
}

#[test]
fn test_is_leaf() {
    let louds = get_tree_light();

    for i in 0..NODES_LIGHT.len() {
        let ans = NODES_LIGHT[i] == 0;
        assert_eq!(
            louds.is_leaf(i),
            ans,
            "The node {} is {}a leaf node.",
            i,
            if ans { "" } else { "not " }
        );
    }
}

#[test]
fn test_degree() {
    let louds = get_tree_light();

    for (i, d) in NODES_LIGHT.iter().enumerate() {
        assert_eq!(louds.degree(i), *d, "The degree of node {} is {}", i, *d);
    }
}

#[test]
fn test_range_children() {
    let louds = get_tree_light();

    for i in 0..NODES_LIGHT.len() {
        let f = FIRST_CHILDREN_LIGHT[i];
        let l = LAST_CHILDREN_LIGHT[i];
        let ans = f.and_then(|a| l.map(|b| (a, b)));
        assert_eq!(
            louds.range_children(i),
            ans,
            "The last child of node {} is {:?}",
            i,
            ans
        );
    }
}

#[test]
fn test_sibling() {
    let louds = get_tree_light();

    for i in 0..NODES_LIGHT.len() {
        assert_eq!(
            louds.sibling(i),
            SIBLINGS_LIGHT[i],
            "The next sibling of node {} is {:?}",
            i,
            SIBLINGS_LIGHT[i]
        );
    }
}

#[test]
fn test_child() {
    let louds = get_tree_light();
    for i in 0..NODES_LIGHT.len() {
        let d = louds.degree(i);
        let mut ans = louds.first_child(i);
        for k in 0..=d {
            let c = louds.child(i, k);
            assert_eq!(c, ans, "The {}-th child of node {} is {:?}", k, i, ans);
            ans = ans.and_then(|i| louds.sibling(i));
        }
    }
}

#[test]
fn test_parent() {
    let louds = get_tree_light();

    for i in 0..NODES_LIGHT.len() {
        assert_eq!(
            louds.parent(i),
            PARENTS_LIGHT[i],
            "The parent of node {} is {:?}",
            i,
            PARENTS_LIGHT[i]
        );
    }
}

#[test]
fn test_depth() {
    let louds = get_tree_light();

    for i in 0..NODES_LIGHT.len() {
        assert_eq!(
            louds.depth(i),
            DEPTH_LIGHT[i],
            "The depth of node {} is {:?}",
            i,
            DEPTH_LIGHT[i]
        );
    }
}

// Pushing the degree blocks bit by bit gives the same tree as push_node:
// the light tree's encoding after the sentinel is
// 1 1 0 1 1 1 0 1 1 0 0 1 1 0 1 0 1 0 0 0 0 0 0.
#[test]
fn test_push_bit_encoding() {
    let bits: &[u8] = &[
        1, 1, 0, 1, 1, 1, 0, 1, 1, 0, 0, 1, 1, 0, 1, 0, 1, 0, 0, 0, 0, 0, 0,
    ];
    assert_eq!(bits.len(), 2 * NODES_LIGHT.len() + 1 - 2);
    let mut by_bits = Louds::new();
    for &b in bits {
        by_bits.push_bit(b == 1);
    }
    let by_nodes = get_tree_light();
    for i in 0..NODES_LIGHT.len() {
        assert_eq!(by_bits.degree(i), by_nodes.degree(i));
        assert_eq!(by_bits.first_child(i), by_nodes.first_child(i));
        assert_eq!(by_bits.last_child(i), by_nodes.last_child(i));
        assert_eq!(by_bits.sibling(i), by_nodes.sibling(i));
        assert_eq!(by_bits.parent(i), by_nodes.parent(i));
        assert_eq!(by_bits.depth(i), by_nodes.depth(i));
    }
}

// A single leaf node.
#[test]
fn test_singleton_tree() {
    let mut louds = Louds::new();
    louds.push_node(0);
    assert_eq!(louds.degree(0), 0);
    assert!(louds.is_leaf(0));
    assert_eq!(louds.parent(0), None);
    assert_eq!(louds.depth(0), 0);
    assert_eq!(louds.sibling(0), None);
    assert_eq!(louds.first_child(0), None);
}

// A linear chain of four nodes.
#[test]
fn test_linear_chain() {
    let mut louds = Louds::new();
    for &d in &[1, 1, 1, 0] {
        louds.push_node(d);
    }
    let parents = &[None, Some(0), Some(1), Some(2)];
    let depths = &[0, 1, 2, 3];
    let first = &[Some(1), Some(2), Some(3), None];
    for i in 0..4 {
        assert_eq!(louds.parent(i), parents[i]);
        assert_eq!(louds.depth(i), depths[i]);
        assert_eq!(louds.first_child(i), first[i]);
        assert_eq!(louds.last_child(i), first[i]);
    }
}

// For a large pseudo-random tree, following parent and then child-by-rank
// comes back to the start for exactly one rank.
#[test]
fn test_parent_child_round_trip_random() {
    let n: usize = 10000;
    let mut louds = Louds::new();
    let mut state: u64 = 0x2545F4914F6CDD1D;
    let mut assigned: usize = 1;
    for i in 0..n {
        state = state
            .wrapping_mul(6364136223846793005)
            .wrapping_add(1442695040888963407);
        let mut d = (state >> 33) as usize % 4;
        if d > n - assigned {
            d = n - assigned;
        }
        if assigned == i + 1 && assigned < n && d == 0 {
            d = 1;
        }
        louds.push_node(d);
        assigned += d;
    }
    assert_eq!(assigned, n);
    for i in 1..n {
        let p = louds.parent(i).expect("non-root node must have a parent");
        let mut hits = 0;
        let mut k = 0;
        while let Some(c) = louds.child(p, k) {
            if c == i {
                hits += 1;
            }
            k += 1;
        }
        assert_eq!(hits, 1, "node {} must be a child of {} exactly once", i, p);
    }
}
