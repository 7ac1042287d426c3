//! A queue of drawn boards, handed out one at a time and refilled from the
//! pools when it runs dry.
use crate::pools::PoolMap;
use crate::sampler::{get_set_of_inputs, lemma_supply_same_shape, supply, Board, SetConfig};
use queues::IsQueue;
use vstd::prelude::*;

verus! {

#[verifier::external_type_specification]
#[verifier::external_body]
#[verifier::reject_recursive_types(T)]
pub struct ExQueue<T: Clone>(queues::Queue<T>);

/// The boards a queue holds, front first.
pub uninterp spec fn queued(q: queues::Queue<Board>) -> Seq<Board>;

/// Relies on `queues::Queue::new`: an empty queue.
#[verifier::external_body]
fn empty_queue() -> (r: queues::Queue<Board>)
    ensures
        queued(r) == Seq::<Board>::empty(),
{
    queues::Queue::new()
}

/// Relies on `IsQueue::add` for `queues::Queue`: the board goes to the back
/// (the call always returns `Ok(None)`).
#[verifier::external_body]
fn enqueue(q: &mut queues::Queue<Board>, b: Board)
    ensures
        queued(*final(q)) == queued(*old(q)).push(b),
{
    let _ = q.add(b);
}

/// Relies on `IsQueue::remove` for `queues::Queue`: the front board, taken
/// out; an error, and no change, when the queue is empty.
#[verifier::external_body]
fn dequeue(q: &mut queues::Queue<Board>) -> (r: Option<Board>)
    ensures
        queued(*old(q)).len() == 0 ==> r is None && queued(*final(q)) == queued(*old(q)),
        queued(*old(q)).len() > 0 ==> r == Some(queued(*old(q))[0]) && queued(*final(q)) == queued(*old(q)).drop_first(),
{
    q.remove().ok()
}

/// The pools, the request, and the boards drawn but not yet played.
pub struct BoardContainer {
    pub pool_map: PoolMap,
    pub config: SetConfig,
    pub sequence: queues::Queue<Board>,
}

impl BoardContainer {
    pub fn new(pool_map: PoolMap, config: SetConfig) -> (r: BoardContainer)
        ensures
            r.pool_map == pool_map,
            r.config == config,
            queued(r.sequence).len() == 0,
    {
        BoardContainer { pool_map, config, sequence: empty_queue() }
    }

    /// Draws a fresh set of boards from a copy of the pools and queues them
    /// behind the boards still waiting; when the set cannot be drawn nothing
    /// is queued.
    pub fn generate_new_board_sequence(&mut self)
        requires
            old(self).pool_map.wf(),
            old(self).config.wf(),
        ensures
            final(self).pool_map == old(self).pool_map,
            final(self).config == old(self).config,
            supply(old(self).pool_map, old(self).config) >= old(self).config.size
                ==> queued(final(self).sequence).len() == queued(old(self).sequence).len() + old(self).config.size,
            supply(old(self).pool_map, old(self).config) < old(self).config.size
                ==> queued(final(self).sequence) == queued(old(self).sequence),
            queued(final(self).sequence).subrange(0, queued(old(self).sequence).len() as int) == queued(old(self).sequence),
            forall|k: int| queued(old(self).sequence).len() <= k < queued(final(self).sequence).len()
                ==> old(self).config.eligible((#[trigger] queued(final(self).sequence)[k]).target)
                && queued(final(self).sequence)[k].target.wf(),
    {
        let ghost start = queued(self.sequence);
        let ghost pm0 = self.pool_map;
        let ghost cfg0 = self.config;
        let copy = self.pool_map.duplicate();
        proof {
            lemma_supply_same_shape(copy, self.pool_map, self.config);
        }
        match get_set_of_inputs(copy, &self.config) {
            Ok(res) => {
                let mut boards = res;
                let ghost all = boards@;
                let mut taken: usize = 0;
                while boards.len() > 0
                    invariant
                        self.pool_map == pm0,
                        self.config == cfg0,
                        self.config.wf(),
                        all.len() == self.config.size,
                        taken + boards@.len() == all.len(),
                        boards@ == all.subrange(taken as int, all.len() as int),
                        forall|k: int| 0 <= k < all.len() ==> self.config.eligible((#[trigger] all[k]).target) && all[k].target.wf(),
                        queued(self.sequence) == start + all.subrange(0, taken as int),
                    decreases boards@.len(),
                {
                    let b = boards.remove(0);
                    enqueue(&mut self.sequence, b);
                    proof {
                        assert(all.subrange(0, taken as int + 1) =~= all.subrange(0, taken as int).push(b));
                        assert(boards@ =~= all.subrange(taken as int + 1, all.len() as int));
                    }
                    taken += 1;
                }
                proof {
                    assert(all.subrange(0, taken as int) =~= all);
                    assert(queued(self.sequence).subrange(0, start.len() as int) =~= start);
                }
            },
            Err(_) => {
                assert(queued(self.sequence).subrange(0, start.len() as int) =~= start);
            },
        }
    }

    /// The next board, if one is queued.
    pub fn get_next_board(&mut self) -> (r: Option<Board>)
        ensures
            queued(old(self).sequence).len() == 0 ==> r is None && queued(final(self).sequence) == queued(old(self).sequence),
            queued(old(self).sequence).len() > 0 ==> r == Some(queued(old(self).sequence)[0])
                && queued(final(self).sequence) == queued(old(self).sequence).drop_first(),
            final(self).pool_map == old(self).pool_map,
            final(self).config == old(self).config,
    {
        dequeue(&mut self.sequence)
    }
}

} // verus!
