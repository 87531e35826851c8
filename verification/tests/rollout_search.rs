use battlesnake_alphazero::game::{Board, Move, Position, SnakeId};
use battlesnake_alphazero::normal_mcts::{
    backpropagate, best_child, best_child_exploring, best_node_from_mcts, mcts,
    merge_root_children, root_and_children, run_simulation, visits_or_one, MCTSNode,
};

fn at(x: i32, y: i32) -> Position {
    Position { x, y }
}

fn board() -> Board {
    Board::start_board([at(1, 1), at(9, 9)], 99, &vec![at(5, 5)]).unwrap()
}

fn node(parent: Option<usize>, children: Vec<usize>, wins: usize, visits: usize) -> MCTSNode {
    let mut node = MCTSNode::new(board(), parent, None, 0);
    node.children = children;
    node.wins = wins;
    node.visits = visits;
    node
}

fn labelled(parent: usize, first: Move, second: Move, wins: usize, visits: usize) -> MCTSNode {
    let moves = vec![(SnakeId(0), first), (SnakeId(1), second)];
    let mut node = MCTSNode::new(board(), Some(parent), Some(moves), 1);
    node.wins = wins;
    node.visits = visits;
    node
}

/// win rate plus exploration bonus, as a key that orders like the score
fn ucb(wins: usize, visits: usize, parent_visits: usize) -> i64 {
    let score =
        wins as f64 / visits as f64 + (2.0 * (parent_visits as f64).ln() / visits as f64).sqrt();
    (score * 1_000_000.0) as i64
}

#[test]
fn a_new_node_counts_nothing() {
    let fresh = MCTSNode::new(board(), Some(3), None, 7);
    assert_eq!(fresh.parent, Some(3));
    assert!(fresh.children.is_empty());
    assert_eq!(fresh.moves_made, None);
    assert_eq!((fresh.wins, fresh.visits, fresh.deep), (0, 0, 7));
    let copy = fresh.clone();
    assert_eq!((copy.parent, copy.wins, copy.visits, copy.deep), (Some(3), 0, 0, 7));
}

#[test]
fn the_move_made_is_looked_up_by_snake() {
    let child = labelled(0, Move::Left, Move::Down, 0, 0);
    assert_eq!(child.get_best_move_made(&SnakeId(0)), Move::Left);
    assert_eq!(child.get_best_move_made(&SnakeId(1)), Move::Down);
    assert_eq!(child.find_move_made(&SnakeId(1)), Some(Move::Down));
    assert_eq!(child.find_move_made(&SnakeId(2)), None);
    assert_eq!(MCTSNode::new(board(), None, None, 0).find_move_made(&SnakeId(0)), None);
}

#[test]
fn backpropagation_counts_along_the_way_to_the_root() {
    // 0 <- 1 <- 3, and 0 <- 2
    let mut tree = vec![
        node(None, vec![1, 2], 0, 0),
        node(Some(0), vec![3], 0, 0),
        node(Some(0), vec![], 0, 0),
        node(Some(1), vec![], 0, 0),
    ];
    backpropagate(&mut tree, 3, Some(SnakeId(1)), &SnakeId(1));
    let counts: Vec<(usize, usize)> = tree.iter().map(|n| (n.wins, n.visits)).collect();
    assert_eq!(counts, vec![(1, 1), (1, 1), (0, 0), (1, 1)]);
    backpropagate(&mut tree, 2, Some(SnakeId(0)), &SnakeId(1));
    let counts: Vec<(usize, usize)> = tree.iter().map(|n| (n.wins, n.visits)).collect();
    assert_eq!(counts, vec![(1, 2), (1, 1), (0, 1), (1, 1)]);
    backpropagate(&mut tree, 1, None, &SnakeId(1));
    let counts: Vec<(usize, usize)> = tree.iter().map(|n| (n.wins, n.visits)).collect();
    assert_eq!(counts, vec![(1, 3), (1, 2), (0, 1), (1, 1)]);
    // a start outside the tree changes nothing
    backpropagate(&mut tree, 9, Some(SnakeId(1)), &SnakeId(1));
    let counts: Vec<(usize, usize)> = tree.iter().map(|n| (n.wins, n.visits)).collect();
    assert_eq!(counts, vec![(1, 3), (1, 2), (0, 1), (1, 1)]);
}

#[test]
fn backpropagation_stops_at_a_link_to_itself() {
    let mut tree = vec![node(None, vec![], 0, 0), node(Some(1), vec![], 0, 0)];
    backpropagate(&mut tree, 1, Some(SnakeId(0)), &SnakeId(0));
    assert_eq!((tree[1].wins, tree[1].visits), (1, 1));
    assert_eq!((tree[0].wins, tree[0].visits), (0, 0));
}

#[test]
fn backpropagation_follows_links_to_later_nodes() {
    // node 0 names node 1 as its parent, and node 1 has none
    let mut tree = vec![node(Some(1), vec![], 0, 0), node(None, vec![], 0, 0)];
    backpropagate(&mut tree, 0, Some(SnakeId(0)), &SnakeId(0));
    let counts: Vec<(usize, usize)> = tree.iter().map(|n| (n.wins, n.visits)).collect();
    assert_eq!(counts, vec![(1, 1), (1, 1)]);
    // a link out of the list ends the walk
    let mut tree = vec![node(Some(7), vec![], 0, 0), node(Some(0), vec![], 0, 0)];
    backpropagate(&mut tree, 1, None, &SnakeId(0));
    let counts: Vec<(usize, usize)> = tree.iter().map(|n| (n.wins, n.visits)).collect();
    assert_eq!(counts, vec![(0, 1), (0, 1)]);
}

#[test]
fn backpropagation_ends_on_a_ring_of_links() {
    // 0 -> 1 -> 2 -> 0: the walk makes as many steps as there are nodes
    let mut tree = vec![
        node(Some(1), vec![], 0, 0),
        node(Some(2), vec![], 0, 0),
        node(Some(0), vec![], 0, 0),
        node(None, vec![], 0, 0),
    ];
    backpropagate(&mut tree, 0, Some(SnakeId(1)), &SnakeId(1));
    let counts: Vec<(usize, usize)> = tree.iter().map(|n| (n.wins, n.visits)).collect();
    assert_eq!(counts, vec![(2, 2), (1, 1), (1, 1), (0, 0)]);
}

#[test]
fn the_best_child_has_the_greatest_win_rate() {
    let tree = vec![
        node(None, vec![1, 2, 3, 4], 10, 20),
        node(Some(0), vec![], 1, 4),
        node(Some(0), vec![], 3, 5),
        node(Some(0), vec![], 6, 10),
        node(Some(0), vec![], 0, 0),
    ];
    // 1/4 < 3/5 = 6/10: the first of the two best wins
    assert_eq!(best_child(&tree[0], &tree), 2);
    assert_eq!(best_child(&tree[1], &tree), 0);
    let best = best_node_from_mcts(&tree);
    assert_eq!((best.wins, best.visits), (3, 5));
}

#[test]
fn an_unvisited_child_is_divided_by_one() {
    assert_eq!(visits_or_one(0), 1);
    assert_eq!(visits_or_one(1), 1);
    assert_eq!(visits_or_one(17), 17);
    let tree = vec![
        node(None, vec![1, 2], 10, 20),
        node(Some(0), vec![], 0, 0),
        node(Some(0), vec![], 0, 9),
    ];
    assert_eq!(best_child(&tree[0], &tree), 1);
}

#[test]
fn exploration_prefers_the_rarely_visited_child() {
    let tree = vec![
        node(None, vec![1, 2], 50, 101),
        node(Some(0), vec![], 50, 100),
        node(Some(0), vec![], 0, 1),
    ];
    assert_eq!(best_child(&tree[0], &tree), 1);
    // 0.5 + sqrt(2 ln 101 / 100) = 0.80 against 0 + sqrt(2 ln 101 / 1) = 3.04
    assert_eq!(best_child_exploring(&tree[0], &tree, &ucb), 2);
    assert_eq!(best_child_exploring(&tree[1], &tree, &ucb), 0);
    // equal scores: the first child stays
    assert_eq!(best_child_exploring(&tree[0], &tree, &|_, _, _| 7), 1);
}

#[test]
fn a_playout_names_a_snake_of_the_board_or_nobody() {
    for _ in 0..20 {
        match run_simulation(board()) {
            Some(winner) => assert!(winner == SnakeId(0) || winner == SnakeId(1)),
            None => {}
        }
    }
}

#[test]
fn a_search_grows_a_tree_with_sound_counts() {
    let root = MCTSNode::new(board(), None, None, 0);
    let tree = mcts(root, &SnakeId(1), 40, &ucb);
    assert_eq!(tree[0].visits, 40);
    assert_eq!(tree[0].parent, None);
    // the corner-near snake has four moves, so has the other: sixteen joint moves
    assert_eq!(tree[0].children, (1..=16).collect::<Vec<usize>>());
    for (index, node) in tree.iter().enumerate() {
        assert!(node.wins <= node.visits);
        assert!(node.visits <= tree[0].visits);
        if index > 0 {
            let parent = node.parent.unwrap();
            assert!(parent < index);
            assert!(tree[parent].children.contains(&index));
            assert_eq!(node.deep, tree[parent].deep + 1);
            assert_eq!(node.moves_made.as_ref().unwrap().len(), 2);
        }
        for child in &node.children {
            assert_eq!(tree[*child].parent, Some(index));
        }
    }
    let visits_below: usize = tree[0].children.iter().map(|child| tree[*child].visits).sum();
    assert_eq!(visits_below, 40);
    // every playout started below the root: what the root won, its children won
    let wins_below: usize = tree[0].children.iter().map(|child| tree[*child].wins).sum();
    assert_eq!(wins_below, tree[0].wins);
    // a node counts the playouts that started at it and those that passed it
    for node in &tree {
        let visits: usize = node.children.iter().map(|child| tree[*child].visits).sum();
        let wins: usize = node.children.iter().map(|child| tree[*child].wins).sum();
        assert!(visits <= node.visits);
        assert!(wins <= node.wins);
    }
    let first = &tree[1];
    assert_eq!(first.get_best_move_made(&SnakeId(0)), Move::Up);
    assert_eq!(first.get_best_move_made(&SnakeId(1)), Move::Up);
    let last = &tree[16];
    assert_eq!(last.get_best_move_made(&SnakeId(0)), Move::Right);
    assert_eq!(last.get_best_move_made(&SnakeId(1)), Move::Right);
}

#[test]
fn a_search_walks_down_by_the_score() {
    // a score that ranks the child with the fewest visits first spreads the playouts
    let fewest = |_wins: usize, visits: usize, _parent_visits: usize| -(visits as i64);
    let tree = mcts(MCTSNode::new(board(), None, None, 0), &SnakeId(0), 32, &fewest);
    for child in &tree[0].children {
        assert_eq!(tree[*child].visits, 2);
    }
    // a score that ranks the child with the most visits first stays with the first child
    let most = |_wins: usize, visits: usize, _parent_visits: usize| visits as i64;
    let tree = mcts(MCTSNode::new(board(), None, None, 0), &SnakeId(0), 32, &most);
    assert_eq!(tree[1].visits, 32);
    for child in &tree[0].children[1..] {
        assert_eq!(tree[*child].visits, 0);
    }
}

#[test]
fn a_search_of_no_playouts_keeps_the_root_alone() {
    let root = MCTSNode::new(board(), None, None, 0);
    let tree = mcts(root, &SnakeId(0), 0, &ucb);
    assert_eq!(tree.len(), 1);
    assert_eq!(tree[0].visits, 0);
    let best = best_node_from_mcts(&tree);
    assert_eq!(best.parent, None);
}

#[test]
fn root_and_children_keeps_the_first_level() {
    let tree = vec![
        node(None, vec![1, 2], 3, 6),
        labelled(0, Move::Up, Move::Up, 1, 2),
        labelled(0, Move::Up, Move::Down, 2, 4),
        labelled(1, Move::Left, Move::Left, 1, 1),
    ];
    let kept = root_and_children(&tree);
    assert_eq!(kept.len(), 3);
    assert_eq!((kept[0].wins, kept[0].visits), (3, 6));
    assert_eq!(kept[0].children, vec![1, 2]);
    assert_eq!((kept[1].wins, kept[1].visits), (1, 2));
    assert_eq!((kept[2].wins, kept[2].visits), (2, 4));
    assert_eq!(kept[2].get_best_move_made(&SnakeId(1)), Move::Down);
}

#[test]
fn merging_adds_the_counts_of_the_same_joint_move() {
    let first = vec![
        node(None, vec![1, 2], 3, 6),
        labelled(0, Move::Up, Move::Up, 1, 2),
        labelled(0, Move::Up, Move::Down, 2, 4),
    ];
    // the second tree lists the joint moves the other way round, and one more
    let second = vec![
        node(None, vec![1, 2, 3], 5, 9),
        labelled(0, Move::Up, Move::Down, 1, 3),
        labelled(0, Move::Up, Move::Up, 4, 5),
        labelled(0, Move::Left, Move::Left, 0, 1),
    ];
    let third = vec![node(None, vec![1], 0, 2), labelled(0, Move::Up, Move::Up, 0, 2)];
    let merged = merge_root_children(&vec![first, second, third]).unwrap();
    assert_eq!(merged.len(), 3);
    assert_eq!((merged[0].wins, merged[0].visits), (3, 6));
    assert_eq!((merged[1].wins, merged[1].visits), (1 + 4 + 0, 2 + 5 + 2));
    assert_eq!((merged[2].wins, merged[2].visits), (2 + 1, 4 + 3));
    // 5/9 against 3/7: the first child is the best
    let best = best_node_from_mcts(&merged);
    assert_eq!(best.get_best_move_made(&SnakeId(1)), Move::Up);
}

#[test]
fn merging_refuses_counts_that_do_not_fit() {
    let first = vec![node(None, vec![1], 0, 0), labelled(0, Move::Up, Move::Up, 0, usize::MAX)];
    let second = vec![node(None, vec![1], 0, 0), labelled(0, Move::Up, Move::Up, 0, 1)];
    assert!(merge_root_children(&vec![first, second]).is_none());
}

#[test]
fn merged_searches_decide_a_move() {
    let trees: Vec<Vec<MCTSNode>> = (0..3)
        .map(|_| {
            let root = MCTSNode::new(board(), None, None, 0);
            root_and_children(&mcts(root, &SnakeId(1), 30, &ucb))
        })
        .collect();
    let merged = merge_root_children(&trees).unwrap();
    let visits: usize = merged[1..].iter().map(|child| child.visits).sum();
    assert_eq!(visits, 90);
    let wins: usize = merged[1..].iter().map(|child| child.wins).sum();
    let counted: usize = trees
        .iter()
        .map(|tree| tree[1..].iter().map(|child| child.wins).sum::<usize>())
        .sum();
    assert_eq!(wins, counted);
    assert_eq!(merged[0].children, (1..=16).collect::<Vec<usize>>());
    for child in &merged[1..] {
        assert!(child.find_move_made(&SnakeId(0)).is_some());
        assert!(child.find_move_made(&SnakeId(1)).is_some());
    }
    let best = best_node_from_mcts(&merged);
    assert!(best.find_move_made(&SnakeId(0)).is_some());
    assert!(best.find_move_made(&SnakeId(1)).is_some());
    assert!(best.get_best_move_made(&SnakeId(1)).as_index() < 4);
}

#[test]
fn an_expansion_makes_no_joint_move_twice() {
    let root = MCTSNode::new(board(), None, None, 0);
    let tree = mcts(root, &SnakeId(0), 1, &ucb);
    let joint = board().get_available_moves();
    assert_eq!(tree[0].children.len(), joint.len());
    for (k, pair) in joint.iter().enumerate() {
        for other in &joint[k + 1..] {
            assert_ne!(pair, other);
        }
        let child = &tree[tree[0].children[k]];
        assert_eq!(child.find_move_made(&SnakeId(0)), Some(pair[0]));
        assert_eq!(child.find_move_made(&SnakeId(1)), Some(pair[1]));
    }
}
