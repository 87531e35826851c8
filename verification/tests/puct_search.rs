use battlesnake_alphazero::canonical_board::{CanonicalBoard, Outcome};
use battlesnake_alphazero::game::{Board, Move, Position};
use battlesnake_alphazero::mcts::{
    best_actions, choose_best_action, one_hot, sample_action, select_action, BackupEdge,
    SearchStep, MCTS,
};

fn at(x: i32, y: i32) -> Position {
    Position { x, y }
}

/// Both snakes sit in a corner, one step from food and one step from elimination: a
/// snake that does not eat at once is out.
fn hungry_corners() -> CanonicalBoard {
    let board = Board::start_board([at(0, 0), at(10, 10)], 51, &vec![at(0, 1), at(10, 9)]);
    board.unwrap().as_canonical(1, 51)
}

fn value_of(outcome: Outcome) -> f32 {
    match outcome {
        Outcome::Ongoing => 0.0,
        Outcome::Win => 1.0,
        Outcome::Loss => -1.0,
        Outcome::Draw => 1e-4,
        Outcome::DrawAgainst => -1e-4,
    }
}

/// the real-valued side of the search, kept by position
struct Estimates {
    prior: Vec<[f32; 4]>,
    value: Vec<[f32; 4]>,
}

impl Estimates {
    fn room_for(&mut self, node: usize) {
        while self.prior.len() <= node {
            self.prior.push([0.0; 4]);
            self.value.push([0.0; 4]);
        }
    }
}

fn masked(prior: [f32; 4], valid: [bool; 4]) -> [f32; 4] {
    let mut kept = [0.0f32; 4];
    for a in 0..4 {
        if valid[a] {
            kept[a] = prior[a];
        }
    }
    let sum: f32 = kept.iter().sum();
    if sum > 0.0 {
        kept.map(|p| p / sum)
    } else {
        let open = valid.iter().filter(|v| **v).count() as f32;
        valid.map(|v| if v { 1.0 / open } else { 0.0 })
    }
}

fn simulate(
    search: &mut MCTS,
    estimates: &mut Estimates,
    root: &CanonicalBoard,
    evaluate: &dyn Fn(&CanonicalBoard) -> ([f32; 4], f32),
) -> Vec<BackupEdge> {
    search.begin(root);
    let leaf;
    loop {
        match search.step().unwrap() {
            SearchStep::Terminal { value, .. } => {
                leaf = value_of(value);
                break;
            }
            SearchStep::Evaluate { node, board, valid_moves, .. } => {
                let (prior, value) = evaluate(&board);
                estimates.room_for(node);
                estimates.prior[node] = masked(prior, valid_moves);
                leaf = -value;
                break;
            }
            SearchStep::Select { node, valid_moves } => {
                let stats = search.statistics(node).unwrap();
                let mut keys = [i64::MIN; 4];
                for a in 0..4 {
                    if !valid_moves[a] {
                        continue;
                    }
                    let prior = estimates.prior[node][a];
                    let visits = stats.visits as f32;
                    let taken = stats.action_visits[a];
                    let score = if taken == 0 {
                        prior * (visits + 1e-8).sqrt()
                    } else {
                        estimates.value[node][a] + prior * visits.sqrt() / (1.0 + taken as f32)
                    };
                    keys[a] = (score * 1e6) as i64;
                }
                search.descend(&keys).unwrap();
            }
        }
    }
    let edges = search.backup().unwrap();
    for edge in &edges {
        let value = if edge.negated { -leaf } else { leaf };
        let mean = &mut estimates.value[edge.node][edge.action];
        *mean = ((edge.visits - 1) as f32 * *mean + value) / edge.visits as f32;
    }
    edges
}

#[test]
fn a_new_search_has_seen_nothing() {
    let mut search = MCTS::new(25);
    assert_eq!(search.num_mcts_sims(), 25);
    assert_eq!(search.max_deep(), 0);
    assert_eq!(search.len(), 0);
    assert!(search.statistics(0).is_none());
    assert!(search.step().is_none());
    assert!(search.descend(&[0; 4]).is_none());
    assert!(search.backup().is_none());
    assert_eq!(search.visit_counts(&hungry_corners()), [0; 4]);
    assert_eq!(search.visit_shares(&hungry_corners()), ([0; 4], 0));
}

#[test]
fn the_first_step_asks_for_an_evaluation_at_the_root() {
    let root = hungry_corners();
    let mut search = MCTS::new(1);
    search.begin(&root);
    match search.step().unwrap() {
        SearchStep::Evaluate { node, board, valid_moves, at_root } => {
            assert_eq!(node, 0);
            assert!(at_root);
            assert_eq!(valid_moves, [true, false, false, true]);
            assert_eq!(board.to_hashmap_string(), root.to_hashmap_string());
        }
        _ => panic!("the root has to be evaluated first"),
    }
    assert_eq!(search.find(&root.to_hashmap_string()), Some(0));
    assert_eq!(search.find(&String::from("a121")), None);
    let stats = search.statistics(0).unwrap();
    assert_eq!(stats.key, root.to_hashmap_string());
    assert_eq!(stats.terminal, Outcome::Ongoing);
    assert!(stats.expanded);
    assert_eq!(stats.valid_moves, [true, false, false, true]);
    assert_eq!((stats.visits, stats.action_visits), (0, [0; 4]));
    // the simulation ends at the new position: nothing is on its path
    assert_eq!(search.backup().unwrap(), vec![]);
    assert!(search.step().is_none());
}

#[test]
fn a_simulation_descends_by_the_greatest_key_and_counts_its_path() {
    let root = hungry_corners();
    let mut search = MCTS::new(1);
    search.begin(&root);
    assert!(matches!(search.step(), Some(SearchStep::Evaluate { .. })));
    search.backup().unwrap();

    search.begin(&root);
    assert!(matches!(search.step(), Some(SearchStep::Select { node: 0, .. })));
    // while the search waits for the ranking, a step does nothing
    assert!(search.step().is_none());
    // the move with index 2 has the greatest key but is not open: 3 beats 0
    assert_eq!(search.descend(&[5, 9, 99, 7]), Some(3));
    // the other side is to move on the same board: a new position for the search
    match search.step().unwrap() {
        SearchStep::Evaluate { node, valid_moves, at_root, board } => {
            assert_eq!(node, 1);
            assert!(!at_root);
            assert_eq!(valid_moves, [false, true, true, false]);
            assert_eq!(board.get_current_player(), -1);
        }
        _ => panic!("the second position is new"),
    }
    let edges = search.backup().unwrap();
    assert_eq!(edges, vec![BackupEdge { node: 0, action: 3, visits: 1, negated: false }]);
    assert_eq!(search.statistics(0).unwrap().visits, 1);
    assert_eq!(search.statistics(0).unwrap().action_visits, [0, 0, 0, 1]);
    assert_eq!(search.visit_counts(&root), [0, 0, 0, 1]);
    assert_eq!(search.max_deep(), 1);

    // third simulation: both snakes move, the first away from its food
    search.begin(&root);
    assert!(matches!(search.step(), Some(SearchStep::Select { node: 0, .. })));
    assert_eq!(search.descend(&[0, 0, 0, 1]), Some(3));
    assert!(matches!(search.step(), Some(SearchStep::Select { node: 1, .. })));
    assert_eq!(search.descend(&[0, 4, 3, 0]), Some(1));
    match search.step().unwrap() {
        SearchStep::Terminal { node, value } => {
            assert_eq!(node, 2);
            // the first snake is out and the second has eaten: a loss for the first
            // player, which is a win for the side that moved last
            assert_eq!(value, Outcome::Win);
        }
        _ => panic!("the game has ended"),
    }
    assert_eq!(search.statistics(2).unwrap().terminal, Outcome::Loss);
    assert!(!search.statistics(2).unwrap().expanded);
    let edges = search.backup().unwrap();
    assert_eq!(
        edges,
        vec![
            BackupEdge { node: 1, action: 1, visits: 1, negated: false },
            BackupEdge { node: 0, action: 3, visits: 2, negated: true },
        ]
    );
    assert_eq!(search.statistics(0).unwrap().visits, 2);
    assert_eq!(search.statistics(1).unwrap().visits, 1);
    assert_eq!(search.max_deep(), 2);
    assert_eq!(search.len(), 3);
}

#[test]
fn the_first_half_moves_of_a_ply_are_filed_apart() {
    let root = hungry_corners();
    let mut search = MCTS::new(1);
    search.begin(&root);
    assert!(matches!(search.step(), Some(SearchStep::Evaluate { node: 0, .. })));
    search.backup().unwrap();

    // the first player goes up: the other side decides on a position of its own
    search.begin(&root);
    assert!(matches!(search.step(), Some(SearchStep::Select { node: 0, .. })));
    assert_eq!(search.descend(&[9, 0, 0, 1]), Some(0));
    assert!(matches!(search.step(), Some(SearchStep::Evaluate { node: 1, .. })));
    search.backup().unwrap();

    // the first player goes right: the board is the same, the position is another
    search.begin(&root);
    assert!(matches!(search.step(), Some(SearchStep::Select { node: 0, .. })));
    assert_eq!(search.descend(&[1, 0, 0, 9]), Some(3));
    assert!(matches!(search.step(), Some(SearchStep::Evaluate { node: 2, .. })));
    search.backup().unwrap();

    let after_up = search.statistics(1).unwrap().key.clone();
    let after_right = search.statistics(2).unwrap().key.clone();
    assert_eq!(after_up, root.play_action(Move::Up).to_hashmap_string());
    assert_eq!(after_right, root.play_action(Move::Right).to_hashmap_string());
    assert!(after_up.ends_with("u?"));
    assert!(after_right.ends_with("r?"));
    assert_eq!(after_up[..after_up.len() - 2], after_right[..after_right.len() - 2]);
    assert!(search.statistics(0).unwrap().key.ends_with("n?"));
    assert_eq!(search.len(), 3);
}

#[test]
fn both_snakes_out_is_a_draw_for_the_last_mover_too() {
    let root = hungry_corners();
    let mut search = MCTS::new(1);
    for keys in [[0i64; 4], [0, 0, 0, 1]] {
        search.begin(&root);
        while let Some(SearchStep::Select { .. }) = search.step() {
            search.descend(&keys).unwrap();
        }
        search.backup().unwrap();
    }
    search.begin(&root);
    assert!(matches!(search.step(), Some(SearchStep::Select { node: 0, .. })));
    assert_eq!(search.descend(&[0, 0, 0, 1]), Some(3));
    assert!(matches!(search.step(), Some(SearchStep::Select { node: 1, .. })));
    assert_eq!(search.descend(&[0, 0, 1, 0]), Some(2));
    match search.step().unwrap() {
        SearchStep::Terminal { value, node } => {
            assert_eq!(search.statistics(node).unwrap().terminal, Outcome::Draw);
            assert_eq!(value, Outcome::DrawAgainst);
        }
        _ => panic!("the game has ended"),
    }
}

#[test]
fn the_search_prefers_the_good_move_against_a_wrong_prior() {
    let root = hungry_corners();
    // the evaluator likes the move away from the food, and calls every position even
    let evaluate = |state: &CanonicalBoard| {
        let prior = if state.get_current_player() == 1 {
            [0.1, 0.0, 0.0, 0.9]
        } else {
            [0.25, 0.25, 0.25, 0.25]
        };
        (prior, 0.0f32)
    };
    let mut search = MCTS::new(300);
    let mut estimates = Estimates { prior: vec![], value: vec![] };
    for _ in 0..search.num_mcts_sims() {
        simulate(&mut search, &mut estimates, &root, &evaluate);
    }
    let counts = search.visit_counts(&root);
    assert_eq!(counts.iter().sum::<usize>(), 299);
    assert_eq!(search.visit_shares(&root), (counts, 299));
    let shares: f32 = counts.iter().map(|count| *count as f32 / 299.0).sum();
    assert!((shares - 1.0).abs() < 1e-6);
    assert_eq!((counts[1], counts[2]), (0, 0));
    assert!(counts[0] > 2 * counts[3], "up {} right {}", counts[0], counts[3]);
    assert!(estimates.value[0][0] > estimates.value[0][3]);
    assert!(estimates.value[0][3] < -0.5);
    assert_eq!(search.decide(&root), 0);
    assert_eq!(one_hot(search.decide(&root), 0.0f32, 1.0f32), [1.0, 0.0, 0.0, 0.0]);
    let stats = search.statistics(0).unwrap();
    assert_eq!(stats.visits, stats.action_visits.iter().sum::<usize>());
}

#[test]
fn select_action_takes_the_first_of_the_best_open_moves() {
    assert_eq!(select_action(&[true, true, true, true], &[1, 5, 5, 2]), Some(1));
    assert_eq!(select_action(&[true, false, true, true], &[1, 5, 5, 2]), Some(2));
    assert_eq!(select_action(&[false, false, false, true], &[9, 9, 9, i64::MIN]), Some(3));
    assert_eq!(select_action(&[true, true, false, false], &[-3, -3, 0, 0]), Some(0));
    assert_eq!(select_action(&[false, false, false, false], &[1, 2, 3, 4]), None);
}

#[test]
fn the_decision_without_exploration_is_one_hot() {
    assert_eq!(best_actions(&[3, 7, 7, 1]), vec![1, 2]);
    assert_eq!(best_actions(&[0, 0, 0, 0]), vec![0, 1, 2, 3]);
    assert_eq!(best_actions(&[0, 0, 0, 4]), vec![3]);
    let mut drawn = [0usize; 4];
    for _ in 0..400 {
        let action = choose_best_action(&[3, 7, 7, 1]);
        drawn[action] += 1;
        let distribution = one_hot(action, 0.0f32, 1.0f32);
        assert_eq!(distribution.iter().sum::<f32>(), 1.0);
        assert_eq!(distribution.iter().filter(|p| **p == 1.0).count(), 1);
        assert_eq!(distribution[action], 1.0);
    }
    // ties are broken by chance: both best moves are drawn
    assert_eq!((drawn[0], drawn[3]), (0, 0));
    assert!(drawn[1] > 100 && drawn[2] > 100);
    assert_eq!(one_hot(2, 'n', 'y'), ['n', 'n', 'y', 'n']);
}

#[test]
fn moves_are_sampled_by_their_share_of_the_counts() {
    assert_eq!(sample_action(&[0, 0, 0, 0], 0), None);
    for _ in 0..50 {
        assert_eq!(sample_action(&[0, 0, 5, 0], 5), Some(2));
        assert_eq!(sample_action(&[0, 0, 0, 1], 1), Some(3));
    }
    let mut drawn = [0usize; 4];
    for _ in 0..4000 {
        drawn[sample_action(&[1, 0, 6, 3], 10).unwrap()] += 1;
    }
    assert_eq!(drawn[1], 0);
    assert!(drawn[0] > 250 && drawn[0] < 560, "{:?}", drawn);
    assert!(drawn[2] > 2150 && drawn[2] < 2650, "{:?}", drawn);
    assert!(drawn[3] > 1000 && drawn[3] < 1400, "{:?}", drawn);
}

#[test]
fn a_searched_state_is_sampled_among_the_moves_taken() {
    let root = hungry_corners();
    let evaluate = |_: &CanonicalBoard| ([0.25f32; 4], 0.0f32);
    let mut search = MCTS::new(40);
    let mut estimates = Estimates { prior: vec![], value: vec![] };
    assert_eq!(search.sample(&root), None);
    simulate(&mut search, &mut estimates, &root, &evaluate);
    // the root is known but no simulation has moved on from it yet
    assert_eq!(search.sample(&root), None);
    for _ in 0..39 {
        simulate(&mut search, &mut estimates, &root, &evaluate);
    }
    let counts = search.visit_counts(&root);
    for _ in 0..100 {
        let action = search.sample(&root).unwrap();
        assert!(counts[action] > 0);
        assert!(action == 0 || action == 3);
    }
}
