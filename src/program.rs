//! Programs: combinator DAGs whose nodes carry finalized types, and the
//! capabilities (jets) that some nodes delegate to.
use vstd::prelude::*;
use crate::machine::{ends_as, BitMachine, ExecError, MachineModel};
use crate::types::{type_wf, FinalType, Value};

verus! {

/// A combinator. Children are given as backward offsets: a child of the
/// node at index `i` given as `t` is the node at index `i - t`.
pub enum Term<J> {
    Unit,
    Iden,
    InjL(usize),
    InjR(usize),
    Pair(usize, usize),
    Comp(usize, usize),
    Disconnect(usize, usize),
    Take(usize),
    Drop(usize),
    Case(usize, usize),
    Witness(Value),
    Hidden([u8; 32]),
    Jet(J),
    Fail,
}

/// A node of a program: its combinator, its finalized types, and its
/// 256-bit commitment digest.
pub struct Node<J> {
    pub term: Term<J>,
    pub source_ty: FinalType,
    pub target_ty: FinalType,
    pub cmr: [u8; 32],
}

/// A program; its root is the last node.
pub struct Program<J> {
    pub nodes: Vec<Node<J>>,
    /// Bits needed beyond input and output at any point of a run.
    pub extra_cells_bound: usize,
    /// Frames live at once at any point of a run, besides input and output.
    pub frame_count_bound: usize,
}

/// A capability that a `Jet` node hands the machine to.
pub trait Jet: Sized {
    /// What the capability may read besides the machine.
    type Env;

    /// What running the capability does to a machine.
    spec fn spec_exec(&self, m: MachineModel, env: Self::Env) -> Result<MachineModel, ExecError>;

    fn exec(&self, mach: &mut BitMachine, env: &Self::Env) -> (r: Result<(), ExecError>)
        requires
            old(mach).wf(),
        ensures
            final(mach).wf(),
            ends_as(r, final(mach)@, self.spec_exec(old(mach)@, *env)),
    ;
}

/// The empty set of capabilities, for programs that call none: a `Jet`
/// node holding it aborts the run, as an unreachable node does.
#[derive(Clone, Copy, Debug, PartialEq, Eq)]
pub struct NoJets;

impl Jet for NoJets {
    type Env = ();

    open spec fn spec_exec(&self, m: MachineModel, env: ()) -> Result<MachineModel, ExecError> {
        Err(ExecError::UnreachableNodeFault)
    }

    fn exec(&self, mach: &mut BitMachine, env: &()) -> (r: Result<(), ExecError>) {
        Err(ExecError::UnreachableNodeFault)
    }
}

/// Offset `t` names a node before the node at index `i`.
pub open spec fn link_ok(i: int, t: usize) -> bool {
    1 <= t <= i
}

pub open spec fn term_links_ok<J>(term: Term<J>, i: int) -> bool {
    match term {
        Term::InjL(t) | Term::InjR(t) | Term::Take(t) | Term::Drop(t) => link_ok(i, t),
        Term::Pair(s, t) | Term::Comp(s, t) | Term::Disconnect(s, t) | Term::Case(s, t) => link_ok(
            i,
            s,
        ) && link_ok(i, t),
        _ => true,
    }
}

impl<J> Program<J> {
    /// Nonempty, every child before its parent, every stored width right.
    pub open spec fn wf(&self) -> bool {
        &&& self.nodes@.len() > 0
        &&& forall|i: int|
            0 <= i < self.nodes@.len() ==> {
                &&& term_links_ok(#[trigger] self.nodes@[i].term, i)
                &&& type_wf(self.nodes@[i].source_ty)
                &&& type_wf(self.nodes@[i].target_ty)
            }
    }

    pub open spec fn root(&self) -> Node<J> {
        self.nodes@.last()
    }
}

} // verus!
