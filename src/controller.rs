//! The player's side of a board: moving hotbar numbers onto the workbench,
//! choosing an operator, computing, undoing, and moving on to the next board.
use crate::board_queue::{queued, BoardContainer};
use crate::input::InputSemantic;
use crate::rational::{apply_op, op_result, OpType, Rational};
use crate::sampler::{supply, Board};
use crate::tree::all_wf;
use vstd::prelude::*;

verus! {

/// What the player sees of a board: the hotbar numbers not yet used, the
/// target, and the workbench with two operand slots and an operator.
pub struct BoardState {
    pub hotbar_values: Vec<Option<Rational>>,
    pub target_value: Option<Rational>,
    pub workbench_left_value: Option<Rational>,
    pub workbench_center_value: OpType,
    pub workbench_right_value: Option<Rational>,
}

/// Two board states show the same thing.
pub open spec fn same_state(a: BoardState, b: BoardState) -> bool {
    &&& a.hotbar_values@ == b.hotbar_values@
    &&& a.target_value == b.target_value
    &&& a.workbench_left_value == b.workbench_left_value
    &&& a.workbench_center_value == b.workbench_center_value
    &&& a.workbench_right_value == b.workbench_right_value
}

/// Every number shown is well formed.
pub open spec fn state_wf(s: BoardState) -> bool {
    &&& forall|k: int| 0 <= k < s.hotbar_values@.len() ==> (#[trigger] s.hotbar_values@[k] matches Some(v) ==> v.wf())
    &&& s.target_value matches Some(v) ==> v.wf()
    &&& s.workbench_left_value matches Some(v) ==> v.wf()
    &&& s.workbench_right_value matches Some(v) ==> v.wf()
}

/// Every hotbar number has been used.
pub open spec fn exhausted(s: BoardState) -> bool {
    forall|k: int| 0 <= k < s.hotbar_values@.len() ==> (#[trigger] s.hotbar_values@[k]) is None
}

impl BoardState {
    /// A copy.
    pub fn duplicate(&self) -> (r: BoardState)
        ensures
            same_state(r, *self),
    {
        let mut hotbar_values: Vec<Option<Rational>> = Vec::new();
        let mut k: usize = 0;
        while k < self.hotbar_values.len()
            invariant
                k <= self.hotbar_values@.len(),
                hotbar_values@ == self.hotbar_values@.subrange(0, k as int),
            decreases self.hotbar_values@.len() - k,
        {
            hotbar_values.push(self.hotbar_values[k]);
            k += 1;
            assert(hotbar_values@ =~= self.hotbar_values@.subrange(0, k as int));
        }
        assert(self.hotbar_values@.subrange(0, k as int) =~= self.hotbar_values@);
        BoardState {
            hotbar_values,
            target_value: self.target_value,
            workbench_left_value: self.workbench_left_value,
            workbench_center_value: self.workbench_center_value,
            workbench_right_value: self.workbench_right_value,
        }
    }

    /// The fresh state of a drawn board: its numbers in the hotbar, its
    /// target, an empty workbench.
    pub fn from_board(b: &Board) -> (r: BoardState)
        requires
            b.target.wf(),
        ensures
            state_wf(r),
            r.hotbar_values@.len() == b.input@.len(),
            forall|k: int| 0 <= k < b.input@.len() ==> ((#[trigger] r.hotbar_values@[k]) matches Some(v)
                && v.den == 1 && v.num_int() == b.input@[k] as int),
            r.target_value == Some(b.target),
            r.workbench_left_value is None,
            r.workbench_right_value is None,
            r.workbench_center_value == OpType::NoOp,
    {
        let mut hotbar_values: Vec<Option<Rational>> = Vec::new();
        let mut k: usize = 0;
        while k < b.input.len()
            invariant
                k <= b.input@.len(),
                hotbar_values@.len() == k,
                forall|t: int| 0 <= t < k ==> ((#[trigger] hotbar_values@[t]) matches Some(v)
                    && v.den == 1 && v.num_int() == b.input@[t] as int),
            decreases b.input@.len() - k,
        {
            hotbar_values.push(Some(Rational::from_int(b.input[k] as i64)));
            k += 1;
        }
        BoardState {
            hotbar_values,
            target_value: Some(b.target),
            workbench_left_value: None,
            workbench_center_value: OpType::NoOp,
            workbench_right_value: None,
        }
    }
}

/// `t` is `s` with hotbar number `index` moved into the first empty
/// workbench slot.
pub open spec fn moved(s: BoardState, index: int, t: BoardState) -> bool {
    let v = s.hotbar_values@[index];
    &&& t.hotbar_values@ == s.hotbar_values@.update(index, None)
    &&& t.target_value == s.target_value
    &&& t.workbench_center_value == s.workbench_center_value
    &&& if s.workbench_left_value is None {
        t.workbench_left_value == v && t.workbench_right_value == s.workbench_right_value
    } else {
        t.workbench_left_value == s.workbench_left_value && t.workbench_right_value == v
    }
}

/// A hotbar number at `index` can be moved: it is there and a slot is free.
pub open spec fn can_move(s: BoardState, index: int) -> bool {
    &&& 0 <= index < s.hotbar_values@.len()
    &&& s.hotbar_values@[index] is Some
    &&& (s.workbench_left_value is None || s.workbench_right_value is None)
}

/// Both operands and an operator are on the workbench.
pub open spec fn ready(s: BoardState) -> bool {
    s.workbench_left_value is Some && s.workbench_right_value is Some && s.workbench_center_value != OpType::NoOp
}

/// `t` is `s` after computing: the result in the left slot, the right slot
/// and the operator cleared.
pub open spec fn computed(s: BoardState, t: BoardState) -> bool {
    &&& t.hotbar_values@ == s.hotbar_values@
    &&& t.target_value == s.target_value
    &&& t.workbench_right_value is None
    &&& t.workbench_center_value == OpType::NoOp
    &&& t.workbench_left_value matches Some(x)
        && op_result(s.workbench_center_value, s.workbench_left_value->Some_0, s.workbench_right_value->Some_0, x)
}

/// The board is won: every number used and the result equals the target.
pub open spec fn won(t: BoardState) -> bool {
    &&& exhausted(t)
    &&& t.target_value matches Some(g) && t.workbench_left_value matches Some(x) && x.same(g)
}

/// Which workbench slot the next number goes to.
#[derive(Clone, Copy, Debug, PartialEq, Eq, Structural)]
pub enum WorkbenchSlot {
    Left,
    Right,
}

/// `t` is the fresh state of board `b`.
pub open spec fn fresh_state(b: Board, t: BoardState) -> bool {
    &&& t.hotbar_values@.len() == b.input@.len()
    &&& forall|k: int| 0 <= k < b.input@.len() ==> ((#[trigger] t.hotbar_values@[k]) matches Some(v)
        && v.den == 1 && v.num_int() == b.input@[k] as int)
    &&& t.target_value == Some(b.target)
    &&& t.workbench_left_value is None
    &&& t.workbench_right_value is None
    &&& t.workbench_center_value == OpType::NoOp
}

/// `n` is `o` after loading the next board: the front of the queue, or,
/// when the queue is empty, the first of a freshly drawn sequence.
pub open spec fn load_effect(o: GameController, n: GameController) -> bool {
    let q = queued(o.board.sequence);
    &&& n.board.pool_map == o.board.pool_map
    &&& n.board.config == o.board.config
    &&& n.visible_board is Some ==> n.history@.len() == 0
    &&& q.len() > 0 ==> (n.visible_board matches Some(t) && fresh_state(q[0], t)
        && queued(n.board.sequence) == q.drop_first())
    &&& q.len() == 0 ==> (n.visible_board is Some <==> (o.board.config.size > 0
        && supply(o.board.pool_map, o.board.config) >= o.board.config.size))
}

/// `n` is `o` after trying to move hotbar number `index` to the workbench.
pub open spec fn move_effect(o: GameController, n: GameController, index: int) -> bool {
    &&& n.board == o.board
    &&& if o.visible_board matches Some(s) && can_move(s, index) {
        n.visible_board matches Some(t) && moved(o.visible_board->Some_0, index, t)
            && n.history@.len() == o.history@.len() + 1
            && n.history@.subrange(0, o.history@.len() as int) == o.history@
            && same_state(n.history@.last(), o.visible_board->Some_0)
    } else {
        n.visible_board == o.visible_board && n.history@ == o.history@
    }
}

/// `n` is `o` after putting `op` on the workbench.
pub open spec fn op_effect(o: GameController, n: GameController, op: OpType) -> bool {
    &&& n.board == o.board
    &&& o.visible_board is None ==> n.visible_board is None && n.history@ == o.history@
    &&& o.visible_board is Some ==> (n.visible_board matches Some(t)
        && t.workbench_center_value == op
        && t.hotbar_values@ == o.visible_board->Some_0.hotbar_values@
        && t.target_value == o.visible_board->Some_0.target_value
        && t.workbench_left_value == o.visible_board->Some_0.workbench_left_value
        && t.workbench_right_value == o.visible_board->Some_0.workbench_right_value
        && n.history@.len() == o.history@.len() + 1
        && n.history@.subrange(0, o.history@.len() as int) == o.history@
        && same_state(n.history@.last(), o.visible_board->Some_0))
}

/// `n` is `o` after undoing the last action.
pub open spec fn undo_effect(o: GameController, n: GameController) -> bool {
    &&& n.board == o.board
    &&& o.history@.len() == 0 ==> n.visible_board == o.visible_board && n.history@ == o.history@
    &&& o.history@.len() > 0 ==> (n.visible_board matches Some(t) && same_state(t, o.history@.last())
        && n.history@ == o.history@.drop_last())
}

/// The operands fit one checked step and no division by zero is asked for.
pub open spec fn computable(s: BoardState) -> bool {
    &&& ready(s)
    &&& s.workbench_left_value->Some_0.small()
    &&& s.workbench_right_value->Some_0.small()
    &&& !(s.workbench_center_value == OpType::Divide && s.workbench_right_value->Some_0.is_zero())
}

/// `n` is `o` after one computation on the workbench, `r` telling whether
/// the board is won.
pub open spec fn compute_effect(o: GameController, n: GameController, r: bool) -> bool {
    &&& n.board == o.board
    &&& r ==> (n.visible_board matches Some(t) && won(t))
    &&& o.visible_board is None ==> !r && n.visible_board is None && n.history@ == o.history@
    &&& (o.visible_board is Some && !ready(o.visible_board->Some_0)) ==> !r
        && n.visible_board == o.visible_board
        && n.history@.len() == o.history@.len() + 1
        && n.history@.subrange(0, o.history@.len() as int) == o.history@
        && same_state(n.history@.last(), o.visible_board->Some_0)
    &&& (o.visible_board is Some && ready(o.visible_board->Some_0)) ==> (
        (n.visible_board == o.visible_board && n.history@ == o.history@ && !r)
        || (n.visible_board matches Some(t) && computed(o.visible_board->Some_0, t) && r == won(t)
            && n.history@.len() == o.history@.len() + 1
            && n.history@.subrange(0, o.history@.len() as int) == o.history@
            && same_state(n.history@.last(), o.visible_board->Some_0)))
    &&& (o.visible_board is Some && computable(o.visible_board->Some_0)) ==>
        (n.visible_board matches Some(t) && computed(o.visible_board->Some_0, t) && r == won(t)
            && n.history@.len() == o.history@.len() + 1
            && n.history@.subrange(0, o.history@.len() as int) == o.history@
            && same_state(n.history@.last(), o.visible_board->Some_0))
    &&& (o.visible_board is Some && ready(o.visible_board->Some_0)
        && o.visible_board->Some_0.workbench_center_value == OpType::Divide
        && o.visible_board->Some_0.workbench_right_value->Some_0.is_zero()) ==> n.visible_board == o.visible_board
}

/// `n` is `o` after computing and, on a win, loading the next board.
pub open spec fn try_compute_effect(o: GameController, n: GameController, r: bool) -> bool {
    &&& !r ==> compute_effect(o, n, false)
    &&& r ==> (o.visible_board is Some && ready(o.visible_board->Some_0)
        && (exists|t: BoardState| #[trigger] computed(o.visible_board->Some_0, t) && won(t))
        && load_effect(o, n))
}

/// `n` is `o` after drawing a new sequence and loading its first board.
pub open spec fn reinit_effect(o: GameController, n: GameController) -> bool {
    &&& n.board.pool_map == o.board.pool_map
    &&& n.board.config == o.board.config
    &&& n.visible_board is Some ==> n.history@.len() == 0
    &&& (n.visible_board is Some <==> (queued(o.board.sequence).len() > 0
        || (o.board.config.size > 0 && supply(o.board.pool_map, o.board.config) >= o.board.config.size)))
}

/// Whether `s` is among `v`.
pub fn vec_has(v: &Vec<InputSemantic>, s: InputSemantic) -> (r: bool)
    ensures
        r == v@.contains(s),
{
    let mut k: usize = 0;
    while k < v.len()
        invariant
            k <= v@.len(),
            forall|t: int| 0 <= t < k ==> v@[t] != s,
        decreases v@.len() - k,
    {
        if v[k] == s {
            return true;
        }
        k += 1;
    }
    false
}

/// The board being played, the boards to come, and the states to undo to.
pub struct GameController {
    pub board: BoardContainer,
    pub visible_board: Option<BoardState>,
    pub seq_initialized: bool,
    pub history: Vec<BoardState>,
}

pub open spec fn history_wf(h: Seq<BoardState>) -> bool {
    forall|k: int| 0 <= k < h.len() ==> state_wf(#[trigger] h[k])
}

impl GameController {
    pub open spec fn wf(&self) -> bool {
        &&& self.board.pool_map.wf()
        &&& self.board.config.wf()
        &&& forall|k: int| 0 <= k < queued(self.board.sequence).len()
            ==> (#[trigger] queued(self.board.sequence)[k]).target.wf()
        &&& self.visible_board matches Some(s) ==> state_wf(s)
        &&& history_wf(self.history@)
    }

    pub fn new(board: BoardContainer) -> (r: GameController)
        ensures
            r.board == board,
            r.visible_board is None,
            !r.seq_initialized,
            r.history@.len() == 0,
    {
        GameController { board, visible_board: None, seq_initialized: false, history: Vec::new() }
    }

    /// Shows the next queued board with a fresh history; when none is
    /// queued, draws a new sequence and tries once more.
    pub fn load_board(&mut self)
        requires
            old(self).wf(),
        ensures
            final(self).wf(),
            load_effect(*old(self), *final(self)),
    {
        self.visible_board = None;
        let ghost q0 = queued(self.board.sequence);
        let mut next = self.board.get_next_board();
        proof {
            if q0.len() > 0 {
                assert(q0[0].target.wf());
                assert forall|k: int| 0 <= k < queued(self.board.sequence).len()
                    implies (#[trigger] queued(self.board.sequence)[k]).target.wf() by {
                    assert(queued(self.board.sequence)[k] == q0[k + 1]);
                }
            }
        }
        if next.is_none() {
            assert(queued(self.board.sequence).len() == 0);
            self.board.generate_new_board_sequence();
            let ghost q1 = queued(self.board.sequence);
            next = self.board.get_next_board();
            proof {
                if q1.len() > 0 {
                    assert(q1[0].target.wf());
                    assert forall|k: int| 0 <= k < queued(self.board.sequence).len()
                        implies (#[trigger] queued(self.board.sequence)[k]).target.wf() by {
                        assert(queued(self.board.sequence)[k] == q1[k + 1]);
                    }
                }
            }
        }
        match next {
            Some(b) => {
                self.visible_board = Some(BoardState::from_board(&b));
                self.history.clear();
            },
            None => {},
        }
    }

    /// Moves hotbar number `index` into the first empty workbench slot,
    /// saving the state before for undo. Nothing happens when there is no
    /// such number or no free slot.
    pub fn try_move_number_to_workbench(&mut self, index: usize) -> (r: bool)
        requires
            old(self).wf(),
        ensures
            final(self).wf(),
            r == (old(self).visible_board matches Some(s) && can_move(s, index as int)),
            move_effect(*old(self), *final(self), index as int),
    {
        let slot = self.get_open_workbench_slot();
        match &self.visible_board {
            Some(vb) => {
                if index < vb.hotbar_values.len() && vb.hotbar_values[index].is_some() && slot.is_some() {
                    let saved = vb.duplicate();
                    let mut next = vb.duplicate();
                    let v = vb.hotbar_values[index];
                    match slot {
                        Some(WorkbenchSlot::Left) => { next.workbench_left_value = v; },
                        _ => { next.workbench_right_value = v; },
                    }
                    next.hotbar_values.set(index, None);
                    let ghost h0 = self.history@;
                    self.history.push(saved);
                    proof {
                        assert(self.history@.subrange(0, h0.len() as int) =~= h0);
                        assert forall|k: int| 0 <= k < next.hotbar_values@.len()
                            implies (#[trigger] next.hotbar_values@[k] matches Some(w) ==> w.wf()) by {
                            assert(k != index ==> next.hotbar_values@[k] == vb.hotbar_values@[k]);
                        }
                        assert(history_wf(self.history@)) by {
                            assert forall|k: int| 0 <= k < self.history@.len() implies state_wf(#[trigger] self.history@[k]) by {
                                if k < h0.len() { assert(self.history@[k] == h0[k]); }
                            }
                        }
                    }
                    self.visible_board = Some(next);
                    return true;
                }
                false
            },
            None => false,
        }
    }

    /// Puts `op_type` on the workbench, saving the state before for undo.
    pub fn set_visible_operation(&mut self, op_type: OpType)
        requires
            old(self).wf(),
        ensures
            final(self).wf(),
            op_effect(*old(self), *final(self), op_type),
    {
        match &self.visible_board {
            Some(vb) => {
                let saved = vb.duplicate();
                let mut next = vb.duplicate();
                next.workbench_center_value = op_type;
                let ghost h0 = self.history@;
                self.history.push(saved);
                proof {
                    assert(self.history@.subrange(0, h0.len() as int) =~= h0);
                    assert forall|k: int| 0 <= k < self.history@.len() implies state_wf(#[trigger] self.history@[k]) by {
                        if k < h0.len() { assert(self.history@[k] == h0[k]); }
                    }
                }
                self.visible_board = Some(next);
            },
            None => {},
        }
    }

    /// Applies the workbench operator to the two operands, saving the state
    /// before for undo; the result takes the left slot. Returns whether the
    /// board is won. A division by zero, or a result that does not fit,
    /// changes nothing.
    pub fn compute_step(&mut self) -> (r: bool)
        requires
            old(self).wf(),
        ensures
            final(self).wf(),
            compute_effect(*old(self), *final(self), r),
    {
        match &self.visible_board {
            Some(vb) => {
                let saved = vb.duplicate();
                let ghost h0 = self.history@;
                if vb.workbench_left_value.is_some() && vb.workbench_right_value.is_some()
                    && vb.workbench_center_value != OpType::NoOp {
                    let l = vb.workbench_left_value.unwrap();
                    let rv = vb.workbench_right_value.unwrap();
                    match apply_op(vb.workbench_center_value, l, rv) {
                        Some(v) => {
                            let mut next = vb.duplicate();
                            next.workbench_left_value = Some(v);
                            next.workbench_right_value = None;
                            next.workbench_center_value = OpType::NoOp;
                            let mut all_values_exhausted = true;
                            let mut k: usize = 0;
                            while k < next.hotbar_values.len()
                                invariant
                                    k <= next.hotbar_values@.len(),
                                    all_values_exhausted == forall|t: int| 0 <= t < k ==> (#[trigger] next.hotbar_values@[t]) is None,
                                decreases next.hotbar_values@.len() - k,
                            {
                                if next.hotbar_values[k].is_some() {
                                    all_values_exhausted = false;
                                }
                                k += 1;
                            }
                            let hit = match next.target_value {
                                Some(g) => v.same_value(&g),
                                None => false,
                            };
                            self.history.push(saved);
                            proof {
                                assert(self.history@.subrange(0, h0.len() as int) =~= h0);
                                assert forall|k: int| 0 <= k < self.history@.len() implies state_wf(#[trigger] self.history@[k]) by {
                                    if k < h0.len() { assert(self.history@[k] == h0[k]); }
                                }
                            }
                            self.visible_board = Some(next);
                            all_values_exhausted && hit
                        },
                        None => false,
                    }
                } else {
                    self.history.push(saved);
                    proof {
                        assert(self.history@.subrange(0, h0.len() as int) =~= h0);
                        assert forall|k: int| 0 <= k < self.history@.len() implies state_wf(#[trigger] self.history@[k]) by {
                            if k < h0.len() { assert(self.history@[k] == h0[k]); }
                        }
                    }
                    false
                }
            },
            None => false,
        }
    }

    /// Computes, and on a win moves on to the next board.
    pub fn try_compute(&mut self) -> (r: bool)
        requires
            old(self).wf(),
        ensures
            final(self).wf(),
            try_compute_effect(*old(self), *final(self), r),
    {
        let ghost o = *self;
        let won = self.compute_step();
        let ghost mid = *self;
        if won {
            assert(mid.visible_board is Some);
            assert(computed(o.visible_board->Some_0, mid.visible_board->Some_0));
            self.load_board();
        }
        won
    }

    /// Goes back to the state before the last move, operator or computation.
    pub fn undo_last_action(&mut self)
        requires
            old(self).wf(),
        ensures
            final(self).wf(),
            undo_effect(*old(self), *final(self)),
    {
        if self.history.len() == 0 {
            return;
        }
        let last = self.history.pop().unwrap();
        self.visible_board = Some(last);
        proof {
            assert forall|k: int| 0 <= k < self.history@.len() implies state_wf(#[trigger] self.history@[k]) by {
                assert(self.history@[k] == old(self).history@[k]);
            }
        }
    }

    /// Draws a new sequence of boards and shows the first.
    pub fn reinitialize(&mut self)
        requires
            old(self).wf(),
        ensures
            final(self).wf(),
            reinit_effect(*old(self), *final(self)),
    {
        self.board.generate_new_board_sequence();
        proof {
            assert forall|k: int| 0 <= k < queued(self.board.sequence).len()
                implies (#[trigger] queued(self.board.sequence)[k]).target.wf() by {
                if k < queued(old(self).board.sequence).len() {
                    assert(queued(self.board.sequence)[k] == queued(self.board.sequence).subrange(0, queued(old(self).board.sequence).len() as int)[k]);
                }
            }
        }
        self.load_board();
    }

    /// Once per frame: the first frame draws the first boards.
    pub fn update(&mut self)
        requires
            old(self).wf(),
        ensures
            final(self).wf(),
            final(self).seq_initialized,
            !old(self).seq_initialized ==> reinit_effect(*old(self), *final(self)),
            old(self).seq_initialized ==> *final(self) == *old(self),
    {
        if !self.seq_initialized {
            self.reinitialize();
            self.seq_initialized = true;
        }
    }

    /// Acts on the inputs pressed this frame, in a fixed order: compute,
    /// hotbar moves, operators, undo.
    pub fn process_input(&mut self, pressed: &Vec<InputSemantic>)
        requires
            old(self).wf(),
        ensures
            final(self).wf(),
            pressed@.len() == 0 ==> *final(self) == *old(self),
            pressed@ == seq![InputSemantic::Accept] ==> exists|r: bool| #[trigger] try_compute_effect(*old(self), *final(self), r),
            pressed@ == seq![InputSemantic::Hotbar1] ==> move_effect(*old(self), *final(self), 0),
            pressed@ == seq![InputSemantic::Hotbar2] ==> move_effect(*old(self), *final(self), 1),
            pressed@ == seq![InputSemantic::Hotbar3] ==> move_effect(*old(self), *final(self), 2),
            pressed@ == seq![InputSemantic::Hotbar4] ==> move_effect(*old(self), *final(self), 3),
            pressed@ == seq![InputSemantic::Plus] ==> op_effect(*old(self), *final(self), OpType::Plus),
            pressed@ == seq![InputSemantic::Minus] ==> op_effect(*old(self), *final(self), OpType::Minus),
            pressed@ == seq![InputSemantic::Multiply] ==> op_effect(*old(self), *final(self), OpType::Multiply),
            pressed@ == seq![InputSemantic::Divide] ==> op_effect(*old(self), *final(self), OpType::Divide),
            pressed@ == seq![InputSemantic::Back] ==> undo_effect(*old(self), *final(self)),
    {
        let ghost o = *self;
        proof {
            assert forall|x: InputSemantic| pressed@.len() == 1 implies (pressed@.contains(x) <==> x == pressed@[0]) by {
                if x == pressed@[0] {
                    assert(pressed@[0] == x);
                }
            }
        }
        if vec_has(pressed, InputSemantic::Accept) {
            let r = self.try_compute();
            assert(try_compute_effect(o, *self, r));
        }
        if vec_has(pressed, InputSemantic::Hotbar1) { self.try_move_number_to_workbench(0); }
        if vec_has(pressed, InputSemantic::Hotbar2) { self.try_move_number_to_workbench(1); }
        if vec_has(pressed, InputSemantic::Hotbar3) { self.try_move_number_to_workbench(2); }
        if vec_has(pressed, InputSemantic::Hotbar4) { self.try_move_number_to_workbench(3); }
        if vec_has(pressed, InputSemantic::Plus) { self.set_visible_operation(OpType::Plus); }
        if vec_has(pressed, InputSemantic::Minus) { self.set_visible_operation(OpType::Minus); }
        if vec_has(pressed, InputSemantic::Multiply) { self.set_visible_operation(OpType::Multiply); }
        if vec_has(pressed, InputSemantic::Divide) { self.set_visible_operation(OpType::Divide); }
        if vec_has(pressed, InputSemantic::Back) { self.undo_last_action(); }
    }

    /// The first empty workbench slot, left before right.
    pub fn get_open_workbench_slot(&self) -> (r: Option<WorkbenchSlot>)
        ensures
            r == match self.visible_board {
                Some(s) => if s.workbench_left_value is None {
                    Some(WorkbenchSlot::Left)
                } else if s.workbench_right_value is None {
                    Some(WorkbenchSlot::Right)
                } else {
                    None
                },
                None => None,
            },
    {
        match &self.visible_board {
            Some(vb) => {
                if vb.workbench_left_value.is_none() {
                    Some(WorkbenchSlot::Left)
                } else if vb.workbench_right_value.is_none() {
                    Some(WorkbenchSlot::Right)
                } else {
                    None
                }
            },
            None => None,
        }
    }
}

} // verus!
