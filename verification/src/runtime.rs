use vstd::prelude::*;
use crate::vars::Variables;
use crate::eval::{SExec, Vars, ExecutionResult, spec_step, spec_renew, result_view};
use crate::exec::{Exec, steppable, spec_new};
use crate::expr::{SExpr, runnable};

verus! {

/// A program being run step by step, with the variables it started from.
pub struct Runtime {
    program: Exec,
    initial: Option<Variables>,
    locals: Variables,
    running: bool,
}

/// The variables a runtime starts (and restarts) from.
pub open spec fn start_vars(initial: Option<Variables>) -> Vars {
    match initial {
        Some(v) => v@,
        None => Map::empty(),
    }
}

impl Runtime {
    /// The program can be stepped (none of its assignments multiplies).
    pub closed spec fn wf(&self) -> bool {
        steppable(self.program@)
    }

    /// The execution state of the program.
    pub closed spec fn state(&self) -> SExec {
        self.program@
    }

    /// The current variables.
    pub closed spec fn vars(&self) -> Vars {
        self.locals@
    }

    /// The variables that a reset restores.
    pub closed spec fn initial_vars(&self) -> Vars {
        start_vars(self.initial)
    }

    /// Whether no step has yet reported the end of the program.
    pub closed spec fn running(&self) -> bool {
        self.running
    }

    /// A runtime for `exec`, starting from `locals` (no variable when absent).
    pub fn new(exec: Exec, locals: Option<Variables>) -> (r: Runtime)
        requires
            steppable(exec@),
        ensures
            r.state() == exec@,
            r.vars() == start_vars(locals),
            r.initial_vars() == start_vars(locals),
            r.running(),
            r.wf(),
    {
        let current = match &locals {
            Some(v) => v.clone(),
            None => Variables::new(),
        };
        Runtime { program: exec, initial: locals, locals: current, running: true }
    }

    /// One step of the program (see `spec_step`); after a step that reports nothing the
    /// runtime is no longer running.
    pub fn step(&mut self) -> (r: Option<ExecutionResult>)
        requires
            old(self).wf(),
        ensures
            final(self).wf(),
            (final(self).state(), final(self).vars(), result_view(r)) == spec_step(old(self).state(), old(self).vars()),
            final(self).initial_vars() == old(self).initial_vars(),
            final(self).running() == (old(self).running() && r is Some),
    {
        let ghost e0 = self.program@;
        let ghost v0 = self.locals@;
        let result = self.program.step(&mut self.locals);
        proof {
            crate::eval::law_renew_forgets_step(e0, v0);
        }
        if result.is_none() {
            self.running = false;
        }
        result
    }

    /// Restarts the program: the starting variables and the program's first state are
    /// restored, and the runtime runs again.
    pub fn reset(&mut self)
        requires
            old(self).wf(),
        ensures
            final(self).wf(),
            final(self).state() == spec_renew(old(self).state()),
            final(self).vars() == old(self).initial_vars(),
            final(self).initial_vars() == old(self).initial_vars(),
            final(self).running(),
    {
        let ghost e0 = self.program@;
        self.locals = match &self.initial {
            Some(v) => v.clone(),
            None => Variables::new(),
        };
        let renewed = self.program.renew();
        proof {
            crate::eval::lemma_renew_idempotent(e0);
        }
        self.program = renewed;
        self.running = true;
    }

    /// Whether no step has yet reported the end of the program.
    pub fn is_running(&self) -> (r: bool)
        ensures
            r == self.running(),
    {
        self.running
    }

    /// A copy of the current variables.
    pub fn context(&self) -> (r: Variables)
        ensures
            r@ == self.vars(),
    {
        self.locals.clone()
    }
}

/// Once a step has reported the end of the program, every later step reports nothing and
/// changes no variable, and the runtime stays stopped.
pub proof fn law_runtime_stays_finished(e: SExec, v: Vars, w: Vars)
    requires
        spec_step(e, v).2 is None,
    ensures
        spec_step(spec_step(e, v).0, w) == (spec_step(e, v).0, w, None::<(usize, Seq<crate::eval::SChange>)>),
        spec_step(e, v).1 == v,
{
    crate::eval::law_finished_is_final(e, v, w);
    crate::eval::law_finished_is_final(spec_step(e, v).0, w, w);
}

/// The state and variables after `n` steps from `e` with the variables `v`.
pub open spec fn steps(e: SExec, v: Vars, n: nat) -> (SExec, Vars)
    decreases n,
{
    if n == 0 {
        (e, v)
    } else {
        let s = spec_step(e, v);
        steps(s.0, s.1, (n - 1) as nat)
    }
}

/// Renewing after any number of steps gives what renewing the start gives.
proof fn lemma_renew_steps(e: SExec, v: Vars, n: nat)
    ensures
        spec_renew(steps(e, v, n).0) == spec_renew(e),
    decreases n,
{
    if n > 0 {
        let s = spec_step(e, v);
        lemma_renew_steps(s.0, s.1, (n - 1) as nat);
        crate::eval::law_renew_forgets_step(e, v);
    }
}

/// Resetting a runtime started on a runnable program, after any number of steps, brings
/// the program back to its starting state.
pub proof fn law_reset_restarts(e: SExpr, v: Vars, n: nat)
    requires
        runnable(e),
    ensures
        spec_renew(steps(spec_new(e), v, n).0) == spec_new(e),
{
    lemma_renew_steps(spec_new(e), v, n);
    crate::exec::lemma_new_is_renewed(e);
}

} // verus!
