//! Generic undo/redo chronology. The history stores actions without knowing
//! what they change; running an action is the caller's work, between
//! `take_step` and `complete_step`.
use vstd::prelude::*;

verus! {

/// Which way a history step goes.
#[derive(Debug, Clone, Copy, PartialEq, Eq, Structural)]
pub enum HistoryStep {
    Undo,
    Redo,
}

#[derive(Debug, Clone)]
pub enum HistoryOutcome {
    Undid,
    Redid,
    NothingToUndo,
    NothingToRedo,
    Failed(String),
}

/// Undo and redo stacks; the last element of each is the next to apply.
pub struct EditHistory<A> {
    undo: Vec<A>,
    redo: Vec<A>,
}

/// The two stacks of a history, undo first.
pub type Stacks<A> = (Seq<A>, Seq<A>);

impl<A> View for EditHistory<A> {
    type V = Stacks<A>;

    closed spec fn view(&self) -> Stacks<A> {
        (self.undo@, self.redo@)
    }
}

/// Stacks after recording a new action: it is the next undo, and redo is gone.
pub open spec fn recorded<A>(h: Stacks<A>, action: A) -> Stacks<A> {
    (h.0.push(action), Seq::empty())
}

/// The stack a step takes its action from.
pub open spec fn source_of<A>(h: Stacks<A>, step: HistoryStep) -> Seq<A> {
    match step {
        HistoryStep::Undo => h.0,
        HistoryStep::Redo => h.1,
    }
}

/// Stacks after a whole step: when there is an action and running it
/// succeeded, it moves to the other stack; otherwise nothing changes.
pub open spec fn stepped<A>(h: Stacks<A>, step: HistoryStep, succeeded: bool) -> Stacks<A> {
    let source = source_of(h, step);
    if source.len() == 0 || !succeeded {
        h
    } else {
        match step {
            HistoryStep::Undo => (h.0.drop_last(), h.1.push(h.0.last())),
            HistoryStep::Redo => (h.0.push(h.1.last()), h.1.drop_last()),
        }
    }
}

/// Stacks while an action is out being run.
pub open spec fn taken<A>(h: Stacks<A>, step: HistoryStep) -> Stacks<A> {
    match step {
        HistoryStep::Undo => (h.0.drop_last(), h.1),
        HistoryStep::Redo => (h.0, h.1.drop_last()),
    }
}

/// Stacks after an action taken for `step` has been run.
pub open spec fn returned<A>(h: Stacks<A>, step: HistoryStep, action: A, succeeded: bool) -> Stacks<A> {
    match (step, succeeded) {
        (HistoryStep::Undo, true) => (h.0, h.1.push(action)),
        (HistoryStep::Redo, true) => (h.0.push(action), h.1),
        (HistoryStep::Undo, false) => (h.0.push(action), h.1),
        (HistoryStep::Redo, false) => (h.0, h.1.push(action)),
    }
}

impl<A> EditHistory<A> {
    pub fn new() -> (r: Self)
        ensures
            r@ == (Seq::<A>::empty(), Seq::<A>::empty()),
    {
        EditHistory { undo: Vec::new(), redo: Vec::new() }
    }

    /// Records a completed edit; whatever could be redone is forgotten.
    pub fn record(&mut self, action: A)
        ensures
            final(self)@ == recorded(old(self)@, action),
    {
        self.undo.push(action);
        self.redo.clear();
    }

    pub fn undo_len(&self) -> (r: usize)
        ensures
            r == self@.0.len(),
    {
        self.undo.len()
    }

    pub fn redo_len(&self) -> (r: usize)
        ensures
            r == self@.1.len(),
    {
        self.redo.len()
    }

    pub fn clear(&mut self)
        ensures
            final(self)@ == (Seq::<A>::empty(), Seq::<A>::empty()),
    {
        self.undo.clear();
        self.redo.clear();
    }

    /// Takes the action a step would apply, or nothing when its stack is empty.
    pub fn take_step(&mut self, step: HistoryStep) -> (r: Option<A>)
        ensures
            source_of(old(self)@, step).len() == 0 ==> r is None && final(self)@ == old(self)@,
            source_of(old(self)@, step).len() > 0 ==> r == Some(source_of(old(self)@, step).last())
                && final(self)@ == taken(old(self)@, step),
    {
        match step {
            HistoryStep::Undo => self.undo.pop(),
            HistoryStep::Redo => self.redo.pop(),
        }
    }

    /// Puts back an action once it has been run and says how the step went:
    /// a success moves it to the other stack, a failure returns it to its own.
    pub fn complete_step(&mut self, step: HistoryStep, action: A, result: Result<(), String>) -> (r: HistoryOutcome)
        ensures
            final(self)@ == returned(old(self)@, step, action, result is Ok),
            step_outcome(step, result, r),
    {
        match step {
            HistoryStep::Undo => match result {
                Ok(()) => {
                    self.redo.push(action);
                    HistoryOutcome::Undid
                },
                Err(error) => {
                    self.undo.push(action);
                    HistoryOutcome::Failed(error)
                },
            },
            HistoryStep::Redo => match result {
                Ok(()) => {
                    self.undo.push(action);
                    HistoryOutcome::Redid
                },
                Err(error) => {
                    self.redo.push(action);
                    HistoryOutcome::Failed(error)
                },
            },
        }
    }
}

/// Outcome reported for a step whose stack was empty.
pub open spec fn nothing_outcome(step: HistoryStep, outcome: HistoryOutcome) -> bool {
    match step {
        HistoryStep::Undo => outcome is NothingToUndo,
        HistoryStep::Redo => outcome is NothingToRedo,
    }
}

pub fn nothing_to_do(step: HistoryStep) -> (r: HistoryOutcome)
    ensures
        nothing_outcome(step, r),
{
    match step {
        HistoryStep::Undo => HistoryOutcome::NothingToUndo,
        HistoryStep::Redo => HistoryOutcome::NothingToRedo,
    }
}

/// Outcome reported for a step whose action ran with `result`.
pub open spec fn step_outcome(step: HistoryStep, result: Result<(), String>, outcome: HistoryOutcome) -> bool {
    match result {
        Ok(()) => match step {
            HistoryStep::Undo => outcome is Undid,
            HistoryStep::Redo => outcome is Redid,
        },
        Err(e) => outcome matches HistoryOutcome::Failed(m) && m == e,
    }
}

/// Taking an action for a step and returning it with the step's result gives
/// exactly the stacks of the whole step.
pub proof fn lemma_take_then_return<A>(h: Stacks<A>, step: HistoryStep, succeeded: bool)
    requires
        source_of(h, step).len() > 0,
    ensures
        returned(taken(h, step), step, source_of(h, step).last(), succeeded) == stepped(
            h,
            step,
            succeeded,
        ),
{
    match step {
        HistoryStep::Undo => {
            if !succeeded {
                assert(h.0.drop_last().push(h.0.last()) =~= h.0);
            }
        },
        HistoryStep::Redo => {
            if !succeeded {
                assert(h.1.drop_last().push(h.1.last()) =~= h.1);
            }
        },
    }
}

/// Undoing a freshly recorded edit brings back the undo stack from before it
/// and leaves exactly that edit to redo.
pub proof fn lemma_undo_after_record<A>(h: Stacks<A>, action: A)
    ensures
        stepped(recorded(h, action), HistoryStep::Undo, true) == (h.0, seq![action]),
{
    assert(h.0.push(action).drop_last() =~= h.0);
    assert(Seq::<A>::empty().push(action) =~= seq![action]);
}

/// A successful undo followed by a successful redo restores both stacks.
pub proof fn lemma_undo_then_redo<A>(h: Stacks<A>)
    requires
        h.0.len() > 0,
    ensures
        stepped(stepped(h, HistoryStep::Undo, true), HistoryStep::Redo, true) == h,
{
    assert(h.0.drop_last().push(h.0.last()) =~= h.0);
    assert(h.1.push(h.0.last()).drop_last() =~= h.1);
}

/// A successful redo followed by a successful undo restores both stacks.
pub proof fn lemma_redo_then_undo<A>(h: Stacks<A>)
    requires
        h.1.len() > 0,
    ensures
        stepped(stepped(h, HistoryStep::Redo, true), HistoryStep::Undo, true) == h,
{
    assert(h.1.drop_last().push(h.1.last()) =~= h.1);
    assert(h.0.push(h.1.last()).drop_last() =~= h.0);
}

/// Recording always empties the redo stack, and a step keeps the total number
/// of stored actions.
pub proof fn lemma_step_keeps_actions<A>(h: Stacks<A>, step: HistoryStep, succeeded: bool, action: A)
    ensures
        recorded(h, action).1.len() == 0,
        stepped(h, step, succeeded).0.len() + stepped(h, step, succeeded).1.len() == h.0.len()
            + h.1.len(),
{
}

/// `after` is `before` with `entry` recorded on it; without a history nothing
/// is recorded.
pub open spec fn records<A>(before: Option<EditHistory<A>>, after: Option<EditHistory<A>>, entry: A) -> bool {
    match before {
        None => after is None,
        Some(h) => after matches Some(g) && g@ == recorded(h@, entry),
    }
}

/// Records `entry` when there is a history to record it in.
pub fn record_if_present<A>(history: &mut Option<EditHistory<A>>, entry: A)
    ensures
        records(*old(history), *final(history), entry),
{
    match history.take() {
        Some(mut h) => {
            h.record(entry);
            *history = Some(h);
        },
        None => {},
    }
}

/// An edit that history can take back and make again. Each kind of edit
/// says which world it works on, when it can run there, and what running it
/// does.
pub trait UndoAction<W>: Sized {
    /// Whether this edit can be run on `world`.
    spec fn fits(&self, world: W) -> bool;

    /// Taking the edit back turns `before` into `after` and reports `result`.
    spec fn undone(&self, before: W, after: W, result: Result<(), String>) -> bool;

    /// Making the edit again turns `before` into `after` and reports `result`.
    spec fn redone(&self, before: W, after: W, result: Result<(), String>) -> bool;

    fn undo(&self, world: &mut W) -> (r: Result<(), String>)
        requires
            self.fits(*old(world)),
        ensures
            self.undone(*old(world), *final(world), r),
    ;

    fn redo(&self, world: &mut W) -> (r: Result<(), String>)
        requires
            self.fits(*old(world)),
        ensures
            self.redone(*old(world), *final(world), r),
    ;
}

/// The stacks of a history that may not exist yet; a missing one is empty.
pub open spec fn stacks_or_empty<A>(h: Option<EditHistory<A>>) -> Stacks<A> {
    match h {
        Some(h) => h@,
        None => (Seq::empty(), Seq::empty()),
    }
}

/// What running `action` for `step` does to the world.
pub open spec fn ran<W, A: UndoAction<W>>(
    action: A,
    step: HistoryStep,
    before: W,
    after: W,
    result: Result<(), String>,
) -> bool {
    match step {
        HistoryStep::Undo => action.undone(before, after, result),
        HistoryStep::Redo => action.redone(before, after, result),
    }
}

/// The action result an outcome reports: a failure carries its error, every
/// other outcome is a success.
pub open spec fn outcome_result(outcome: HistoryOutcome) -> Result<(), String> {
    match outcome {
        HistoryOutcome::Failed(e) => Err(e),
        _ => Ok(()),
    }
}

impl HistoryStep {
    /// Runs one undo or redo against `world`. A missing history is treated as
    /// empty and is put in place. With nothing to take, the world and stacks
    /// stay as they are; otherwise the action on top of the step's stack runs
    /// once, in this step's direction, and moves to the other stack when it
    /// succeeds or goes back where it was when it fails.
    pub fn apply<W, A: UndoAction<W>>(self, history: &mut Option<EditHistory<A>>, world: &mut W) -> (r: HistoryOutcome)
        requires
            source_of(stacks_or_empty(*old(history)), self).len() > 0 ==> source_of(
                stacks_or_empty(*old(history)),
                self,
            ).last().fits(*old(world)),
        ensures
            (*final(history)) is Some,
            ({
                let h = stacks_or_empty(*old(history));
                let source = source_of(h, self);
                &&& source.len() == 0 ==> nothing_outcome(self, r) && *final(world) == *old(world)
                    && (*final(history)).unwrap()@ == h
                &&& source.len() > 0 ==> {
                    &&& step_outcome(self, outcome_result(r), r)
                    &&& ran(source.last(), self, *old(world), *final(world), outcome_result(r))
                    &&& (*final(history)).unwrap()@ == stepped(h, self, outcome_result(r) is Ok)
                }
            }),
    {
        let mut h = match history.take() {
            Some(h) => h,
            None => EditHistory::new(),
        };
        let ghost before = h@;
        assert(before == stacks_or_empty(*old(history)));
        match h.take_step(self) {
            None => {
                *history = Some(h);
                nothing_to_do(self)
            },
            Some(action) => {
                let result = match self {
                    HistoryStep::Undo => action.undo(world),
                    HistoryStep::Redo => action.redo(world),
                };
                proof {
                    lemma_take_then_return(before, self, result is Ok);
                }
                let ghost ran_with = result;
                let outcome = h.complete_step(self, action, result);
                proof {
                    match ran_with {
                        Ok(u) => {
                            assert(outcome !is Failed);
                            assert(outcome_result(outcome) == Ok::<(), String>(()));
                        },
                        Err(e) => {
                            assert(outcome_result(outcome) == Err::<(), String>(e));
                        },
                    }
                }
                *history = Some(h);
                outcome
            },
        }
    }
}

/// Request to undo the latest edit.
#[derive(Debug, Clone, Copy)]
pub struct Undo;

/// Request to redo the latest undone edit.
#[derive(Debug, Clone, Copy)]
pub struct Redo;

/// Optional undo/redo capability.
pub struct HistoryPlugin;

} // verus!
