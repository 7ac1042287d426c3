use any4::board_queue::BoardContainer;
use any4::controller::{GameController, WorkbenchSlot};
use any4::input::InputSemantic;
use any4::pools::{DifficultyPools, InputDifficulty, PoolEntry, PoolMap};
use any4::rational::{OpType, Rational};
use any4::sampler::SetConfig;

fn controller() -> GameController {
    let entry = PoolEntry {
        target: Rational::from_int(3),
        pools: DifficultyPools { easy: vec![vec![1, 2]], moderate: Vec::new(), hard: Vec::new() },
    };
    let map = PoolMap { entries: vec![entry] };
    let config = SetConfig::new(1, Some(Rational::from_int(3)), None, vec![InputDifficulty::Easy]);
    GameController::new(BoardContainer::new(map, config))
}

fn hotbar(c: &GameController) -> Vec<Option<i64>> {
    c.visible_board.as_ref().unwrap().hotbar_values.iter().map(|v| v.map(|r| if r.neg { -(r.num as i64) } else { r.num as i64 })).collect()
}

#[test]
fn first_update_shows_a_board() {
    let mut c = controller();
    assert!(c.visible_board.is_none());
    c.update();
    assert!(c.seq_initialized);
    assert_eq!(hotbar(&c), vec![Some(1), Some(2)]);
    assert_eq!(c.get_open_workbench_slot(), Some(WorkbenchSlot::Left));
}

#[test]
fn solving_a_board_moves_on() {
    let mut c = controller();
    c.update();
    assert!(c.try_move_number_to_workbench(0));
    assert_eq!(c.get_open_workbench_slot(), Some(WorkbenchSlot::Right));
    assert!(c.try_move_number_to_workbench(1));
    assert_eq!(c.get_open_workbench_slot(), None);
    assert!(!c.try_move_number_to_workbench(1));
    c.set_visible_operation(OpType::Plus);
    assert_eq!(c.history.len(), 3);
    assert!(c.try_compute());
    assert_eq!(hotbar(&c), vec![Some(1), Some(2)]);
    assert_eq!(c.history.len(), 0);
}

#[test]
fn wrong_result_stays_on_the_board() {
    let mut c = controller();
    c.update();
    c.try_move_number_to_workbench(1);
    c.try_move_number_to_workbench(0);
    c.set_visible_operation(OpType::Minus);
    assert!(!c.try_compute());
    let vb = c.visible_board.as_ref().unwrap();
    let left = vb.workbench_left_value.unwrap();
    assert!(left.same_value(&Rational::from_int(1)));
    assert!(vb.workbench_right_value.is_none());
    assert_eq!(vb.workbench_center_value, OpType::NoOp);
}

#[test]
fn undo_restores_the_previous_state() {
    let mut c = controller();
    c.update();
    c.try_move_number_to_workbench(0);
    assert_eq!(hotbar(&c), vec![None, Some(2)]);
    c.undo_last_action();
    assert_eq!(hotbar(&c), vec![Some(1), Some(2)]);
    assert!(c.visible_board.as_ref().unwrap().workbench_left_value.is_none());
    c.undo_last_action();
    assert_eq!(hotbar(&c), vec![Some(1), Some(2)]);
}

#[test]
fn pressed_inputs_drive_the_board() {
    let mut c = controller();
    c.update();
    c.process_input(&vec![InputSemantic::Hotbar1, InputSemantic::Hotbar2, InputSemantic::Multiply]);
    let vb = c.visible_board.as_ref().unwrap();
    assert_eq!(vb.workbench_center_value, OpType::Multiply);
    assert!(vb.workbench_right_value.unwrap().same_value(&Rational::from_int(2)));
    c.process_input(&vec![InputSemantic::Back]);
    assert_eq!(c.visible_board.as_ref().unwrap().workbench_center_value, OpType::NoOp);
}

#[test]
fn division_by_zero_changes_nothing() {
    let entry = PoolEntry {
        target: Rational::from_int(0),
        pools: DifficultyPools { easy: vec![vec![0, 0]], moderate: Vec::new(), hard: Vec::new() },
    };
    let map = PoolMap { entries: vec![entry] };
    let config = SetConfig::new(1, Some(Rational::from_int(0)), None, vec![InputDifficulty::Easy]);
    let mut c = GameController::new(BoardContainer::new(map, config));
    c.update();
    c.try_move_number_to_workbench(0);
    c.try_move_number_to_workbench(1);
    c.set_visible_operation(OpType::Divide);
    let before = c.history.len();
    assert!(!c.try_compute());
    assert_eq!(c.history.len(), before);
    assert!(c.visible_board.as_ref().unwrap().workbench_right_value.is_some());
}

#[test]
fn board_queue_hands_out_in_order() {
    let entry = PoolEntry {
        target: Rational::from_int(3),
        pools: DifficultyPools { easy: vec![vec![1, 2], vec![3, 0]], moderate: Vec::new(), hard: Vec::new() },
    };
    let map = PoolMap { entries: vec![entry] };
    let config = SetConfig::new(2, Some(Rational::from_int(3)), None, vec![InputDifficulty::Easy]);
    let mut container = BoardContainer::new(map, config);
    assert!(container.get_next_board().is_none());
    container.generate_new_board_sequence();
    let a = container.get_next_board().unwrap();
    let b = container.get_next_board().unwrap();
    assert!(container.get_next_board().is_none());
    assert_ne!(a.input, b.input);
    assert_eq!(container.pool_map.entries[0].pools.easy.len(), 2);
}
