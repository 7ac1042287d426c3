use any4::input::{get_highest_priority_input, InputState, InputStateContainer};
use any4::state::{GameObject, GameState, ObjectGroup};

struct Thing {
    depth: i32,
}

impl GameObject for Thing {
    fn get_depth(&self) -> i32 {
        self.depth
    }
}

#[test]
fn input_state_cycle() {
    let mut s = InputStateContainer::new();
    assert_eq!(s.get_input_state(), InputState::AtRest);
    s.process_input_pressed();
    assert_eq!(s.get_input_state(), InputState::Pressed);
    s.process_input();
    assert_eq!(s.get_input_state(), InputState::Held);
    s.process_input();
    assert_eq!(s.get_input_state(), InputState::Held);
    s.process_input_released();
    assert_eq!(s.get_input_state(), InputState::Released);
    s.process_input();
    assert_eq!(s.get_input_state(), InputState::AtRest);
}

#[test]
fn highest_priority_wins() {
    assert_eq!(get_highest_priority_input(&vec![]), InputState::AtRest);
    assert_eq!(get_highest_priority_input(&vec![InputState::Released, InputState::Pressed, InputState::AtRest]), InputState::Pressed);
    assert_eq!(get_highest_priority_input(&vec![InputState::Held, InputState::Pressed]), InputState::Held);
}

#[test]
fn render_order_follows_depth() {
    let mut state: GameState<Thing, Thing> = GameState::new();
    state.add_object(Thing { depth: 5 });
    state.add_object(Thing { depth: -1 });
    state.add_controllable(Thing { depth: 0 });
    state.add_object(Thing { depth: 5 });
    let order = state.collect_render_instructions();
    let got: Vec<(ObjectGroup, usize, i32)> = order.iter().map(|i| (i.group, i.index, i.depth)).collect();
    assert_eq!(got, vec![
        (ObjectGroup::General, 1, -1),
        (ObjectGroup::Controllable, 0, 0),
        (ObjectGroup::General, 0, 5),
        (ObjectGroup::General, 2, 5),
    ]);
}

#[test]
fn removing_objects() {
    let mut state: GameState<Thing, Thing> = GameState::new();
    assert_eq!(state.add_object(Thing { depth: 1 }), 0);
    assert_eq!(state.add_object(Thing { depth: 2 }), 1);
    assert_eq!(state.add_controllable(Thing { depth: 3 }), 0);
    state.remove_object(0);
    assert_eq!(state.objects.len(), 1);
    assert_eq!(state.objects[0].depth, 2);
    state.remove_object(7);
    assert_eq!(state.objects.len(), 1);
    state.remove_controllable(0);
    assert_eq!(state.controllables.len(), 0);
    assert_eq!(state.objects.len(), 1);
}

use any4::input::{InputManager, InputProcessor, InputSemantic, InputType, KeyboardInputProcessor, MouseInputProcessor};

#[test]
fn manager_reports_most_urgent_processor() {
    let mut m = InputManager::new();
    m.register_input(InputSemantic::Accept, InputProcessor::Keyboard(KeyboardInputProcessor::new(vec![13, 32])));
    m.register_input(InputSemantic::Accept, InputProcessor::Mouse(MouseInputProcessor::new(vec![1])));
    m.register_input(InputSemantic::Back, InputProcessor::Keyboard(KeyboardInputProcessor::new(vec![8])));
    assert_eq!(m.get_input_state(InputSemantic::Accept), InputState::AtRest);
    m.process_input_pressed(InputType::Mouse(1));
    assert_eq!(m.get_input_state(InputSemantic::Accept), InputState::Pressed);
    assert_eq!(m.get_input_state(InputSemantic::Back), InputState::AtRest);
    m.process_input();
    assert_eq!(m.get_input_state(InputSemantic::Accept), InputState::Held);
    m.process_input_pressed(InputType::Keyboard(32));
    assert_eq!(m.get_input_state(InputSemantic::Accept), InputState::Held);
    m.process_input_released(InputType::Mouse(1));
    assert_eq!(m.get_input_state(InputSemantic::Accept), InputState::Pressed);
    assert_eq!(m.get_input_state(InputSemantic::Up), InputState::AtRest);
    m.process_input_pressed(InputType::Keyboard(1));
    assert_eq!(m.get_input_state(InputSemantic::Back), InputState::AtRest);
}
