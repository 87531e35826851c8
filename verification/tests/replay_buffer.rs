use battlesnake_alphazero::examples_handler::{
    example_file_name, example_index, ExamplesHandler, Saved,
};

#[test]
fn file_names_give_their_index() {
    assert_eq!(example_index("examples_0"), Some(0));
    assert_eq!(example_index("examples_12"), Some(12));
    assert_eq!(example_index("examples_007"), Some(7));
    assert_eq!(example_index("examples_+5"), Some(5));
    assert_eq!(example_index("examples_3_old"), Some(3));
    assert_eq!(example_index("examples_18446744073709551615"), Some(u64::MAX as usize));
}

#[test]
fn other_names_give_no_index() {
    assert_eq!(example_index("examples_"), None);
    assert_eq!(example_index("examples_+"), None);
    assert_eq!(example_index("examples__3"), None);
    assert_eq!(example_index("examples_12a"), None);
    assert_eq!(example_index("examples_-1"), None);
    assert_eq!(example_index("examples_ 1"), None);
    assert_eq!(example_index("examples_18446744073709551616"), None);
    assert_eq!(example_index("examples"), None);
    assert_eq!(example_index("example_12"), None);
    assert_eq!(example_index("best.pth.tar"), None);
    assert_eq!(example_index(""), None);
    assert_eq!(example_index("Examples_1"), None);
}

#[test]
fn the_newest_generations_are_loaded() {
    let mut handler: ExamplesHandler<u8> = ExamplesHandler::new(vec![7, 2, 9, 4], 3);
    assert_eq!(handler.indexes_to_load(), vec![4, 7, 9]);
    assert!(handler.examples().is_empty());
    assert!(!handler.load_examples(vec![vec![1]]));
    assert!(handler.examples().is_empty());
    assert!(handler.load_examples(vec![vec![4], vec![7, 7], vec![9]]));
    assert_eq!(handler.examples(), &vec![vec![4], vec![7, 7], vec![9]]);
    // the next generation follows the newest index, and the oldest one held is dropped
    assert_eq!(handler.save_example(vec![10]), Some(Saved { index: 10, removed: Some(4) }));
    assert_eq!(handler.examples(), &vec![vec![7, 7], vec![9], vec![10]]);
    assert_eq!(handler.indexes_to_load(), vec![7, 9, 10]);
}

#[test]
fn fewer_generations_than_the_bound_are_all_loaded() {
    let handler: ExamplesHandler<u8> = ExamplesHandler::new(vec![3, 1], 5);
    assert_eq!(handler.indexes_to_load(), vec![1, 3]);
    let empty: ExamplesHandler<u8> = ExamplesHandler::new(vec![], 5);
    assert_eq!(empty.indexes_to_load(), Vec::<usize>::new());
}

#[test]
fn the_buffer_never_holds_more_than_its_bound() {
    let mut handler: ExamplesHandler<usize> = ExamplesHandler::new(vec![], 3);
    for round in 0..10 {
        let saved = handler.save_example(vec![round, round]).unwrap();
        assert_eq!(saved.index, round);
        let removed = if round >= 3 { Some(round - 3) } else { None };
        assert_eq!(saved.removed, removed);
        assert!(handler.examples().len() <= 3);
        assert_eq!(handler.examples().len(), (round + 1).min(3));
        assert_eq!(handler.examples().last().unwrap(), &vec![round, round]);
        let first = (round + 1).saturating_sub(3);
        assert_eq!(handler.examples()[0], vec![first, first]);
    }
}

#[test]
fn a_buffer_without_room_drops_what_it_is_given() {
    let mut handler: ExamplesHandler<u8> = ExamplesHandler::new(vec![], 0);
    assert_eq!(handler.save_example(vec![1]), Some(Saved { index: 0, removed: Some(0) }));
    assert!(handler.examples().is_empty());
    assert_eq!(handler.save_example(vec![2]), Some(Saved { index: 1, removed: Some(1) }));
    assert!(handler.examples().is_empty());
}

#[test]
fn an_index_that_does_not_fit_is_refused() {
    let mut handler: ExamplesHandler<u8> = ExamplesHandler::new(vec![usize::MAX], 2);
    assert_eq!(handler.save_example(vec![1]), None);
    assert!(handler.examples().is_empty());
}

#[test]
fn file_names_are_the_prefix_and_the_index() {
    assert_eq!(example_file_name(0), "examples_0");
    assert_eq!(example_file_name(7), "examples_7");
    assert_eq!(example_file_name(120), "examples_120");
    assert_eq!(example_file_name(usize::MAX), format!("examples_{}", usize::MAX));
    for index in [0, 1, 9, 10, 99, 100, 12345, usize::MAX] {
        assert_eq!(example_index(&example_file_name(index)), Some(index));
    }
}
