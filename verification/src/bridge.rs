//! The bounded, ordered command bridge from the UI into the engine.
//!
//! One producer side (the UI) and one consumer (the coordinator). The
//! queue holds at most `QUEUE_CAPACITY` pending commands; a refused
//! enqueue means the caller must wait (backpressure, never a silent drop).
//! Commands leave in insertion order, so send-intents submitted in order
//! by a caller are handed to the coordinator in that order.
use vstd::prelude::*;
use crate::codec::spec_encode;
use crate::message::{Command, CommandModel, command_message};

verus! {

/// How many commands may wait in the bridge at once.
pub const QUEUE_CAPACITY: usize = 100;

/// The bounded FIFO queue of pending commands.
pub struct CommandQueue {
    items: Vec<Command>,
}

impl View for CommandQueue {
    type V = Seq<CommandModel>;

    closed spec fn view(&self) -> Seq<CommandModel> {
        self.items@.map_values(|c: Command| c@)
    }
}

impl CommandQueue {
    /// An empty bridge.
    pub fn new() -> (q: Self)
        ensures
            q@ == Seq::<CommandModel>::empty(),
    {
        let q = CommandQueue { items: Vec::new() };
        proof {
            assert(q@ =~= Seq::<CommandModel>::empty());
        }
        q
    }

    /// How many commands wait right now.
    pub fn len(&self) -> (n: usize)
        ensures
            n == self@.len(),
    {
        self.items.len()
    }

    /// Appends a command when there is room and says so; a refusal leaves
    /// the queue unchanged and means the caller must wait for the
    /// coordinator to drain before retrying. Nothing is ever dropped.
    pub fn try_enqueue(&mut self, c: Command) -> (accepted: bool)
        ensures
            accepted == (old(self)@.len() < QUEUE_CAPACITY),
            accepted ==> final(self)@ == old(self)@.push(c@),
            !accepted ==> final(self)@ == old(self)@,
    {
        if self.items.len() < QUEUE_CAPACITY {
            let ghost cv = c@;
            self.items.push(c);
            proof {
                assert(self@ =~= old(self)@.push(cv));
            }
            true
        } else {
            false
        }
    }

    /// Removes and returns the oldest pending command, if any.
    pub fn dequeue(&mut self) -> (r: Option<Command>)
        ensures
            old(self)@.len() == 0 ==> r is None && final(self)@ == old(self)@,
            old(self)@.len() > 0 ==> {
                &&& r matches Option::Some(c) && c@ == old(self)@[0]
                &&& final(self)@ == old(self)@.drop_first()
            },
    {
        if self.items.len() == 0 {
            Option::None
        } else {
            let c = self.items.remove(0);
            proof {
                assert(self@ =~= old(self)@.drop_first());
            }
            Option::Some(c)
        }
    }
}

/// The payloads the coordinator publishes for a run of commands drained in
/// order: the canonical encoding of each command's message, in the
/// commands' own order.
pub open spec fn publish_sequence(cmds: Seq<CommandModel>) -> Seq<Seq<u8>> {
    cmds.map_values(|c: CommandModel| spec_encode(command_message(c)))
}

/// Law (ordering): two commands submitted in order by a caller stand at
/// consecutive places of the queue, and the payload published for the
/// earlier one stands before the payload published for the later one.
/// With `try_enqueue` appending at the tail, `dequeue` taking the head
/// and the coordinator publishing each drained command's encoding, the
/// network sees the submission order.
pub proof fn lemma_submission_order(pending: Seq<CommandModel>, s1: CommandModel, s2: CommandModel)
    ensures
        ({
            let after = pending.push(s1).push(s2);
            let pubs = publish_sequence(after);
            &&& pubs.len() == after.len()
            &&& pubs[pending.len() as int] == spec_encode(command_message(s1))
            &&& pubs[pending.len() as int + 1] == spec_encode(command_message(s2))
        }),
{
    let after = pending.push(s1).push(s2);
    assert(after[pending.len() as int] == s1);
    assert(after[pending.len() as int + 1] == s2);
}

} // verus!
