//! The state of one semantic input across frames: pressed, held, released,
//! at rest.
use vstd::prelude::*;

verus! {

/// What an input means to the game, whatever key or button produced it.
#[derive(Clone, Copy, Debug, PartialEq, Eq, Structural, Hash)]
pub enum InputSemantic {
    Up,
    Down,
    Left,
    Right,
    Accept,
    Back,
    Plus,
    Minus,
    Multiply,
    Divide,
    Hotbar1,
    Hotbar2,
    Hotbar3,
    Hotbar4,
}

/// The state of an input in the current frame, from least to most urgent.
#[derive(Clone, Copy, Debug, PartialEq, Eq, Structural)]
pub enum InputState {
    AtRest,
    Released,
    Pressed,
    Held,
}

/// Urgency of a state: the order of the variants.
pub open spec fn priority(s: InputState) -> nat {
    match s {
        InputState::AtRest => 0,
        InputState::Released => 1,
        InputState::Pressed => 2,
        InputState::Held => 3,
    }
}

pub fn state_priority(s: InputState) -> (r: u8)
    ensures
        r as nat == priority(s),
{
    match s {
        InputState::AtRest => 0,
        InputState::Released => 1,
        InputState::Pressed => 2,
        InputState::Held => 3,
    }
}

/// The state an input moves to at the end of a frame: a press becomes a
/// hold, a release comes to rest.
pub open spec fn next_frame(s: InputState) -> InputState {
    match s {
        InputState::Pressed => InputState::Held,
        InputState::Released => InputState::AtRest,
        _ => s,
    }
}

/// One input's state.
pub struct InputStateContainer {
    pub state: InputState,
}

impl InputStateContainer {
    pub fn new() -> (r: InputStateContainer)
        ensures
            r.state == InputState::AtRest,
    {
        InputStateContainer { state: InputState::AtRest }
    }

    pub fn process_input_pressed(&mut self)
        ensures
            final(self).state == InputState::Pressed,
    {
        self.state = InputState::Pressed;
    }

    pub fn process_input_released(&mut self)
        ensures
            final(self).state == InputState::Released,
    {
        self.state = InputState::Released;
    }

    /// Moves to the next frame.
    pub fn process_input(&mut self)
        ensures
            final(self).state == next_frame(old(self).state),
    {
        match self.state {
            InputState::Pressed => {
                self.state = InputState::Held;
            },
            InputState::Released => {
                self.state = InputState::AtRest;
            },
            _ => {},
        }
    }

    pub fn get_input_state(&self) -> (r: InputState)
        ensures
            r == self.state,
    {
        self.state
    }
}

/// The most urgent of several states of one semantic input; at rest when
/// there are none.
pub fn get_highest_priority_input(list_of_inputs: &Vec<InputState>) -> (r: InputState)
    ensures
        forall|i: int| 0 <= i < list_of_inputs@.len() ==> priority(#[trigger] list_of_inputs@[i]) <= priority(r),
        r == InputState::AtRest || exists|i: int| 0 <= i < list_of_inputs@.len() && list_of_inputs@[i] == r,
{
    let mut previous_best = InputState::AtRest;
    let mut k: usize = 0;
    while k < list_of_inputs.len()
        invariant
            k <= list_of_inputs@.len(),
            forall|i: int| 0 <= i < k ==> priority(#[trigger] list_of_inputs@[i]) <= priority(previous_best),
            previous_best == InputState::AtRest || exists|i: int| 0 <= i < k && list_of_inputs@[i] == previous_best,
        decreases list_of_inputs@.len() - k,
    {
        let i = list_of_inputs[k];
        if state_priority(previous_best) < state_priority(i) {
            previous_best = i;
        }
        k += 1;
    }
    previous_best
}

/// A raw input: a key or a mouse button, by its code.
#[derive(Clone, Copy, Debug, PartialEq, Eq, Structural)]
pub enum InputType {
    Keyboard(u32),
    Mouse(u32),
}

/// Keys that together stand for one semantic input.
pub struct KeyboardInputProcessor {
    pub state: InputStateContainer,
    pub input_list: Vec<u32>,
}

/// Mouse buttons that together stand for one semantic input.
pub struct MouseInputProcessor {
    pub state: InputStateContainer,
    pub input_list: Vec<u32>,
}

/// The kinds of input device.
pub enum InputProcessor {
    Keyboard(KeyboardInputProcessor),
    Mouse(MouseInputProcessor),
}

/// Whether `code` is among `list`.
fn code_listed(list: &Vec<u32>, code: u32) -> (r: bool)
    ensures
        r == list@.contains(code),
{
    let mut k: usize = 0;
    while k < list.len()
        invariant
            k <= list@.len(),
            forall|t: int| 0 <= t < k ==> list@[t] != code,
        decreases list@.len() - k,
    {
        if list[k] == code {
            return true;
        }
        k += 1;
    }
    false
}

impl KeyboardInputProcessor {
    pub fn new(input_list: Vec<u32>) -> (r: KeyboardInputProcessor)
        ensures
            r.state.state == InputState::AtRest,
            r.input_list@ == input_list@,
    {
        KeyboardInputProcessor { state: InputStateContainer::new(), input_list }
    }
}

impl MouseInputProcessor {
    pub fn new(input_list: Vec<u32>) -> (r: MouseInputProcessor)
        ensures
            r.state.state == InputState::AtRest,
            r.input_list@ == input_list@,
    {
        MouseInputProcessor { state: InputStateContainer::new(), input_list }
    }
}

impl InputProcessor {
    pub open spec fn current(&self) -> InputState {
        match self {
            InputProcessor::Keyboard(k) => k.state.state,
            InputProcessor::Mouse(m) => m.state.state,
        }
    }

    /// The processor listens to `input`.
    pub open spec fn listens(&self, input: InputType) -> bool {
        match (self, input) {
            (InputProcessor::Keyboard(k), InputType::Keyboard(c)) => k.input_list@.contains(c),
            (InputProcessor::Mouse(m), InputType::Mouse(c)) => m.input_list@.contains(c),
            _ => false,
        }
    }

    pub open spec fn codes(&self) -> Seq<u32> {
        match self {
            InputProcessor::Keyboard(k) => k.input_list@,
            InputProcessor::Mouse(m) => m.input_list@,
        }
    }

    pub open spec fn is_keyboard(&self) -> bool {
        self is Keyboard
    }

    pub fn has_input(&self, input: InputType) -> (r: bool)
        ensures
            r == self.listens(input),
    {
        match (self, input) {
            (InputProcessor::Keyboard(k), InputType::Keyboard(c)) => code_listed(&k.input_list, c),
            (InputProcessor::Mouse(m), InputType::Mouse(c)) => code_listed(&m.input_list, c),
            _ => false,
        }
    }

    pub fn get_input_state(&self) -> (r: InputState)
        ensures
            r == self.current(),
    {
        match self {
            InputProcessor::Keyboard(k) => k.state.get_input_state(),
            InputProcessor::Mouse(m) => m.state.get_input_state(),
        }
    }

    /// Sets the state; the device and its codes stay.
    fn set_state(&mut self, s: InputState)
        ensures
            final(self).current() == s,
            final(self).codes() == old(self).codes(),
            final(self).is_keyboard() == old(self).is_keyboard(),
            forall|i: InputType| final(self).listens(i) == old(self).listens(i),
    {
        match self {
            InputProcessor::Keyboard(k) => { k.state.state = s; },
            InputProcessor::Mouse(m) => { m.state.state = s; },
        }
    }
}

/// Semantic inputs, each fed by the processors registered for it.
pub struct InputManager {
    pub input_map: Vec<(InputSemantic, Vec<usize>)>,
    pub input_processors: Vec<InputProcessor>,
}

impl InputManager {
    /// Each semantic is listed once, and refers only to registered processors.
    pub open spec fn wf(&self) -> bool {
        &&& forall|a: int, b: int| 0 <= a < b < self.input_map@.len() ==> (#[trigger] self.input_map@[a]).0 != (#[trigger] self.input_map@[b]).0
        &&& forall|a: int, k: int| 0 <= a < self.input_map@.len() && 0 <= k < self.input_map@[a].1@.len()
            ==> #[trigger] self.input_map@[a].1@[k] < self.input_processors@.len()
    }

    /// The processors registered for `semantic`.
    pub open spec fn registered(&self, semantic: InputSemantic) -> Seq<usize> {
        if exists|a: int| 0 <= a < self.input_map@.len() && (#[trigger] self.input_map@[a]).0 == semantic {
            self.input_map@[choose|a: int| 0 <= a < self.input_map@.len() && (#[trigger] self.input_map@[a]).0 == semantic].1@
        } else {
            Seq::empty()
        }
    }

    pub fn new() -> (r: InputManager)
        ensures
            r.wf(),
            r.input_map@.len() == 0,
            r.input_processors@.len() == 0,
    {
        InputManager { input_map: Vec::new(), input_processors: Vec::new() }
    }

    fn find(&self, semantic: InputSemantic) -> (r: Option<usize>)
        ensures
            r matches Some(a) ==> a < self.input_map@.len() && self.input_map@[a as int].0 == semantic,
            r is None ==> forall|a: int| 0 <= a < self.input_map@.len() ==> (#[trigger] self.input_map@[a]).0 != semantic,
    {
        let mut a: usize = 0;
        while a < self.input_map.len()
            invariant
                a <= self.input_map@.len(),
                forall|t: int| 0 <= t < a ==> (#[trigger] self.input_map@[t]).0 != semantic,
            decreases self.input_map@.len() - a,
        {
            if self.input_map[a].0 == semantic {
                return Some(a);
            }
            a += 1;
        }
        None
    }

    /// Registers a processor for `semantic`.
    pub fn register_input(&mut self, semantic: InputSemantic, input_processor: InputProcessor)
        requires
            old(self).wf(),
            old(self).input_processors@.len() < usize::MAX,
        ensures
            final(self).wf(),
            final(self).input_processors@ == old(self).input_processors@.push(input_processor),
            final(self).registered(semantic) == old(self).registered(semantic).push(old(self).input_processors@.len() as usize),
            forall|s: InputSemantic| s != semantic ==> #[trigger] final(self).registered(s) == old(self).registered(s),
    {
        let idx = self.input_processors.len();
        self.input_processors.push(input_processor);
        let ghost m0 = self.input_map@;
        match self.find(semantic) {
            Some(a) => {
                let (s, mut v) = self.input_map.remove(a);
                v.push(idx);
                self.input_map.insert(a, (s, v));
                proof {
                    assert(self.input_map@ =~= m0.update(a as int, (s, v)));
                    assert forall|x: int, y: int| 0 <= x < y < self.input_map@.len()
                        implies (#[trigger] self.input_map@[x]).0 != (#[trigger] self.input_map@[y]).0 by {
                        assert(self.input_map@[x].0 == m0[x].0 && self.input_map@[y].0 == m0[y].0);
                    }
                    assert forall|x: int, k: int| 0 <= x < self.input_map@.len() && 0 <= k < self.input_map@[x].1@.len()
                        implies #[trigger] self.input_map@[x].1@[k] < self.input_processors@.len() by {
                        if x != a {
                            assert(self.input_map@[x] == m0[x]);
                        } else if k < v@.len() - 1 {
                            assert(self.input_map@[x].1@[k] == m0[x].1@[k]);
                        }
                    }
                    let c = choose|t: int| 0 <= t < m0.len() && (#[trigger] m0[t]).0 == semantic;
                    assert(c == a);
                    assert(self.input_map@[a as int].0 == semantic);
                    let c2 = choose|t: int| 0 <= t < self.input_map@.len() && (#[trigger] self.input_map@[t]).0 == semantic;
                    assert(c2 == a);
                    assert forall|s: InputSemantic| s != semantic implies #[trigger] self.registered(s) == old(self).registered(s) by {
                        if exists|t: int| 0 <= t < m0.len() && (#[trigger] m0[t]).0 == s {
                            let c = choose|t: int| 0 <= t < m0.len() && (#[trigger] m0[t]).0 == s;
                            assert(self.input_map@[c].0 == s);
                            let c2 = choose|t: int| 0 <= t < self.input_map@.len() && (#[trigger] self.input_map@[t]).0 == s;
                            assert(c2 == c);
                        } else {
                            assert forall|t: int| 0 <= t < self.input_map@.len() implies (#[trigger] self.input_map@[t]).0 != s by {
                                assert(self.input_map@[t].0 == m0[t].0);
                            }
                        }
                    }
                }
            },
            None => {
                let mut v: Vec<usize> = Vec::new();
                v.push(idx);
                self.input_map.push((semantic, v));
                proof {
                    let n = m0.len() as int;
                    assert(self.input_map@[n].0 == semantic);
                    let c2 = choose|t: int| 0 <= t < self.input_map@.len() && (#[trigger] self.input_map@[t]).0 == semantic;
                    assert(c2 == n);
                    assert(v@ =~= Seq::<usize>::empty().push(idx));
                    assert forall|x: int, y: int| 0 <= x < y < self.input_map@.len()
                        implies (#[trigger] self.input_map@[x]).0 != (#[trigger] self.input_map@[y]).0 by {
                        assert(x < n ==> self.input_map@[x] == m0[x]);
                        assert(y < n ==> self.input_map@[y] == m0[y]);
                    }
                    assert forall|x: int, k: int| 0 <= x < self.input_map@.len() && 0 <= k < self.input_map@[x].1@.len()
                        implies #[trigger] self.input_map@[x].1@[k] < self.input_processors@.len() by {
                        if x < n {
                            assert(self.input_map@[x] == m0[x]);
                        }
                    }
                    assert forall|s: InputSemantic| s != semantic implies #[trigger] self.registered(s) == old(self).registered(s) by {
                        if exists|t: int| 0 <= t < m0.len() && (#[trigger] m0[t]).0 == s {
                            let c = choose|t: int| 0 <= t < m0.len() && (#[trigger] m0[t]).0 == s;
                            assert(self.input_map@[c] == m0[c]);
                            let c2 = choose|t: int| 0 <= t < self.input_map@.len() && (#[trigger] self.input_map@[t]).0 == s;
                            assert(c2 < n ==> self.input_map@[c2] == m0[c2]);
                        } else {
                            assert forall|t: int| 0 <= t < self.input_map@.len() implies (#[trigger] self.input_map@[t]).0 != s by {
                                assert(t < n ==> self.input_map@[t] == m0[t]);
                            }
                        }
                    }
                }
            },
        }
    }

    /// The most urgent state among the processors registered for `semantic`;
    /// at rest when none is registered.
    pub fn get_input_state(&self, semantic: InputSemantic) -> (r: InputState)
        requires
            self.wf(),
        ensures
            forall|k: int| 0 <= k < self.registered(semantic).len()
                ==> priority(self.input_processors@[#[trigger] self.registered(semantic)[k] as int].current()) <= priority(r),
            r == InputState::AtRest || exists|k: int| 0 <= k < self.registered(semantic).len()
                && self.input_processors@[#[trigger] self.registered(semantic)[k] as int].current() == r,
    {
        match self.find(semantic) {
            Some(a) => {
                proof {
                    let c = choose|t: int| 0 <= t < self.input_map@.len() && (#[trigger] self.input_map@[t]).0 == semantic;
                    assert(c == a as int);
                }
                let index_vec = &self.input_map[a].1;
                let mut input_accumulator: Vec<InputState> = Vec::new();
                let mut k: usize = 0;
                while k < index_vec.len()
                    invariant
                        self.wf(),
                        a < self.input_map@.len(),
                        *index_vec == self.input_map@[a as int].1,
                        k <= index_vec@.len(),
                        input_accumulator@.len() == k,
                        forall|t: int| 0 <= t < k ==> #[trigger] input_accumulator@[t] == self.input_processors@[index_vec@[t] as int].current(),
                    decreases index_vec@.len() - k,
                {
                    let index = index_vec[k];
                    assert(self.input_map@[a as int].1@[k as int] < self.input_processors@.len());
                    input_accumulator.push(self.input_processors[index].get_input_state());
                    k += 1;
                }
                let r = get_highest_priority_input(&input_accumulator);
                proof {
                    assert forall|k: int| 0 <= k < index_vec@.len()
                        implies priority(self.input_processors@[#[trigger] index_vec@[k] as int].current()) <= priority(r) by {
                        assert(input_accumulator@[k] == self.input_processors@[index_vec@[k] as int].current());
                    }
                }
                r
            },
            None => InputState::AtRest,
        }
    }

    /// Every processor that listens to `input` is pressed.
    pub fn process_input_pressed(&mut self, input: InputType)
        ensures
            final(self).input_map@ == old(self).input_map@,
            final(self).input_processors@.len() == old(self).input_processors@.len(),
            forall|k: int| 0 <= k < final(self).input_processors@.len() ==> (#[trigger] final(self).input_processors@[k]).current()
                == if old(self).input_processors@[k].listens(input) { InputState::Pressed } else { old(self).input_processors@[k].current() },
    {
        self.set_listening(input, InputState::Pressed);
    }

    /// Every processor that listens to `input` is released.
    pub fn process_input_released(&mut self, input: InputType)
        ensures
            final(self).input_map@ == old(self).input_map@,
            final(self).input_processors@.len() == old(self).input_processors@.len(),
            forall|k: int| 0 <= k < final(self).input_processors@.len() ==> (#[trigger] final(self).input_processors@[k]).current()
                == if old(self).input_processors@[k].listens(input) { InputState::Released } else { old(self).input_processors@[k].current() },
    {
        self.set_listening(input, InputState::Released);
    }

    fn set_listening(&mut self, input: InputType, s: InputState)
        ensures
            final(self).input_map@ == old(self).input_map@,
            final(self).input_processors@.len() == old(self).input_processors@.len(),
            forall|k: int| 0 <= k < final(self).input_processors@.len() ==> (#[trigger] final(self).input_processors@[k]).current()
                == if old(self).input_processors@[k].listens(input) { s } else { old(self).input_processors@[k].current() },
    {
        let ghost p0 = self.input_processors@;
        let mut k: usize = 0;
        while k < self.input_processors.len()
            invariant
                self.input_map@ == old(self).input_map@,
                p0 == old(self).input_processors@,
                self.input_processors@.len() == p0.len(),
                k <= p0.len(),
                forall|t: int| 0 <= t < k ==> (#[trigger] self.input_processors@[t]).current()
                    == if p0[t].listens(input) { s } else { p0[t].current() },
                forall|t: int| k <= t < p0.len() ==> #[trigger] self.input_processors@[t] == p0[t],
            decreases p0.len() - k,
        {
            if self.input_processors[k].has_input(input) {
                let mut p = self.input_processors.remove(k);
                p.set_state(s);
                self.input_processors.insert(k, p);
            }
            k += 1;
        }
    }

    /// Moves every processor to the next frame.
    pub fn process_input(&mut self)
        ensures
            final(self).input_map@ == old(self).input_map@,
            final(self).input_processors@.len() == old(self).input_processors@.len(),
            forall|k: int| 0 <= k < final(self).input_processors@.len() ==> (#[trigger] final(self).input_processors@[k]).current()
                == next_frame(old(self).input_processors@[k].current()),
    {
        let ghost p0 = self.input_processors@;
        let mut k: usize = 0;
        while k < self.input_processors.len()
            invariant
                self.input_map@ == old(self).input_map@,
                p0 == old(self).input_processors@,
                self.input_processors@.len() == p0.len(),
                k <= p0.len(),
                forall|t: int| 0 <= t < k ==> (#[trigger] self.input_processors@[t]).current() == next_frame(p0[t].current()),
                forall|t: int| k <= t < p0.len() ==> #[trigger] self.input_processors@[t] == p0[t],
            decreases p0.len() - k,
        {
            let mut p = self.input_processors.remove(k);
            let next = match p.get_input_state() {
                InputState::Pressed => InputState::Held,
                InputState::Released => InputState::AtRest,
                other => other,
            };
            p.set_state(next);
            self.input_processors.insert(k, p);
            k += 1;
        }
    }
}

} // verus!
