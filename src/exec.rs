//! The evaluator: an iterative walk over a program's DAG driven by an
//! explicit stack of continuations, never by native recursion.
use vstd::prelude::*;
use crate::frame::{bytes_bits, lemma_copy_bits_disjoint, Frame};
use crate::machine::{
    input_spec, back_spec, copy_spec, drop_frame_spec, fwd_spec, move_frame_spec, new_frame_spec,
    ends_as, output_spec, peek_bit_spec, skip_spec, write_bits_spec, BitMachine, ExecError, MachineModel,
};
use crate::program::{link_ok, Jet, Program, Term};
use crate::types::{encode, has_type, lemma_decode_encode, type_wf, width, FinalType, TypeShape, Value};

verus! {

/// Deferred work of the evaluator.
#[derive(Clone, Copy, Debug, PartialEq, Eq, Structural)]
pub enum Continuation {
    /// Evaluate the node at this index.
    GoTo(usize),
    /// Move the active write frame to the read stack.
    MoveFrame,
    /// Release the active read frame.
    DropFrame,
    /// Copy this many bits to the write frame, then move the read cursor past them.
    CopyFwd(usize),
    /// Move the read cursor back by this many bits.
    Back(usize),
}

/// Number of evaluator steps that evaluating node `i` can take at most.
pub open spec fn cost<J>(p: Program<J>, i: int) -> nat
    decreases i,
{
    if i < 0 || i >= p.nodes@.len() {
        1
    } else {
        match p.nodes@[i].term {
            Term::InjL(t) | Term::InjR(t) | Term::Take(t) => 1 + if link_ok(i, t) {
                cost(p, i - t)
            } else {
                0
            },
            Term::Drop(t) => 2 + if link_ok(i, t) {
                cost(p, i - t)
            } else {
                0
            },
            Term::Pair(s, t) | Term::Comp(s, t) | Term::Disconnect(s, t) | Term::Case(s, t) => 5
                + (if link_ok(i, s) {
                cost(p, i - s)
            } else {
                0
            }) + (if link_ok(i, t) {
                cost(p, i - t)
            } else {
                0
            }),
            _ => 1,
        }
    }
}

pub open spec fn weight<J>(p: Program<J>, c: Continuation) -> nat {
    match c {
        Continuation::GoTo(i) => cost(p, i as int),
        _ => 1,
    }
}

/// The most steps that working off `stack` can take.
pub open spec fn total<J>(p: Program<J>, stack: Seq<Continuation>) -> nat
    decreases stack.len(),
{
    if stack.len() == 0 {
        0
    } else {
        total(p, stack.drop_last()) + weight(p, stack.last())
    }
}

/// A machine outcome paired with the continuations to schedule on success.
pub open spec fn then(
    r: Result<MachineModel, ExecError>,
    k: Seq<Continuation>,
) -> Result<(MachineModel, Seq<Continuation>), ExecError> {
    match r {
        Ok(m) => Ok((m, k)),
        Err(e) => Err(e),
    }
}

/// The continuation that evaluates the child at offset `t` of node `i`.
pub open spec fn goto(i: usize, t: usize) -> Continuation {
    Continuation::GoTo((i - t) as usize)
}

/// Evaluating node `i`: what it does to the machine, and the continuations
/// it schedules, the one to run first last.
pub open spec fn node_step<J: Jet>(p: Program<J>, env: J::Env, m: MachineModel, i: usize) -> Result<
    (MachineModel, Seq<Continuation>),
    ExecError,
> {
    if i >= p.nodes@.len() {
        Err(ExecError::StructuralTypeFault)
    } else {
        let node = p.nodes@[i as int];
        match node.term {
            Term::Unit => Ok((m, seq![])),
            Term::Iden => then(copy_spec(m, node.source_ty.bit_width as nat), seq![]),
            Term::InjL(t) => match node.target_ty.shape {
                TypeShape::Sum(a, _) => match write_bits_spec(m, seq![false]) {
                    Ok(m1) => then(
                        skip_spec(m1, (node.target_ty.bit_width - a.bit_width - 1) as nat),
                        seq![goto(i, t)],
                    ),
                    Err(e) => Err(e),
                },
                _ => Err(ExecError::StructuralTypeFault),
            },
            Term::InjR(t) => match node.target_ty.shape {
                TypeShape::Sum(_, b) => match write_bits_spec(m, seq![true]) {
                    Ok(m1) => then(
                        skip_spec(m1, (node.target_ty.bit_width - b.bit_width - 1) as nat),
                        seq![goto(i, t)],
                    ),
                    Err(e) => Err(e),
                },
                _ => Err(ExecError::StructuralTypeFault),
            },
            Term::Pair(s, t) => Ok((m, seq![goto(i, t), goto(i, s)])),
            Term::Comp(s, t) => then(
                new_frame_spec(m, p.nodes@[i - s].target_ty.bit_width as nat),
                seq![Continuation::DropFrame, goto(i, t), Continuation::MoveFrame, goto(i, s)],
            ),
            Term::Disconnect(s, t) => {
                let sn = p.nodes@[i - s];
                let tn = p.nodes@[i - t];
                let size = sn.source_ty.bit_width;
                let out = sn.target_ty.bit_width;
                if size < 256 || out < tn.source_ty.bit_width {
                    Err(ExecError::StructuralTypeFault)
                } else {
                    match new_frame_spec(m, size as nat) {
                        Ok(m1) => match write_bits_spec(m1, bytes_bits(tn.cmr@)) {
                            Ok(m2) => match copy_spec(m2, (size - 256) as nat) {
                                Ok(m3) => match move_frame_spec(m3) {
                                    Ok(m4) => then(
                                        new_frame_spec(m4, out as nat),
                                        seq![
                                            Continuation::DropFrame,
                                            Continuation::DropFrame,
                                            goto(i, t),
                                            Continuation::CopyFwd((out - tn.source_ty.bit_width) as usize),
                                            Continuation::MoveFrame,
                                            goto(i, s),
                                        ],
                                    ),
                                    Err(e) => Err(e),
                                },
                                Err(e) => Err(e),
                            },
                            Err(e) => Err(e),
                        },
                        Err(e) => Err(e),
                    }
                }
            },
            Term::Take(t) => Ok((m, seq![goto(i, t)])),
            Term::Drop(t) => match node.source_ty.shape {
                TypeShape::Product(a, _) => then(
                    fwd_spec(m, a.bit_width as nat),
                    seq![Continuation::Back(a.bit_width), goto(i, t)],
                ),
                _ => Err(ExecError::StructuralTypeFault),
            },
            Term::Case(s, t) => match node.source_ty.shape {
                TypeShape::Product(x, _) => match x.shape {
                    TypeShape::Sum(a, b) => match peek_bit_spec(m) {
                        Ok(bit) => {
                            let mx = vstd::math::max(a.bit_width as int, b.bit_width as int);
                            let n = if bit {
                                1 + mx - b.bit_width
                            } else {
                                1 + mx - a.bit_width
                            };
                            then(
                                fwd_spec(m, n as nat),
                                seq![
                                    Continuation::Back(n as usize),
                                    goto(
                                        i,
                                        if bit {
                                            t
                                        } else {
                                            s
                                        },
                                    ),
                                ],
                            )
                        },
                        Err(e) => Err(e),
                    },
                    _ => Err(ExecError::StructuralTypeFault),
                },
                _ => Err(ExecError::StructuralTypeFault),
            },
            Term::Witness(v) => then(write_bits_spec(m, encode(v)), seq![]),
            Term::Hidden(_) => Err(ExecError::UnreachableNodeFault),
            Term::Jet(j) => then(j.spec_exec(m, env), seq![]),
            Term::Fail => Err(ExecError::UnreachableNodeFault),
        }
    }
}

/// Carrying out a continuation other than `GoTo`.
pub open spec fn admin_step(m: MachineModel, c: Continuation) -> Result<MachineModel, ExecError> {
    match c {
        Continuation::MoveFrame => move_frame_spec(m),
        Continuation::DropFrame => drop_frame_spec(m),
        Continuation::CopyFwd(n) => match copy_spec(m, n as nat) {
            Ok(m1) => fwd_spec(m1, n as nat),
            Err(e) => Err(e),
        },
        Continuation::Back(n) => back_spec(m, n as nat),
        Continuation::GoTo(_) => Err(ExecError::StructuralTypeFault),
    }
}

/// One step of the evaluator: pop the top continuation and carry it out.
pub open spec fn step<J: Jet>(p: Program<J>, env: J::Env, m: MachineModel, stack: Seq<Continuation>) -> Result<
    (MachineModel, Seq<Continuation>),
    ExecError,
> {
    let rest = stack.drop_last();
    match stack.last() {
        Continuation::GoTo(i) => match node_step(p, env, m, i) {
            Ok((m1, k)) => Ok((m1, rest + k)),
            Err(e) => Err(e),
        },
        c => match admin_step(m, c) {
            Ok(m1) => Ok((m1, rest)),
            Err(e) => Err(e),
        },
    }
}

/// Steps until the continuation stack is empty, or a fault. On a
/// well-formed program every step shrinks `total` (`lemma_step_decreases`),
/// so the last branch is never taken there.
pub open spec fn run<J: Jet>(p: Program<J>, env: J::Env, m: MachineModel, stack: Seq<Continuation>) -> Result<
    MachineModel,
    ExecError,
>
    decreases total(p, stack),
{
    if stack.len() == 0 {
        Ok(m)
    } else {
        match step(p, env, m, stack) {
            Ok((m1, s1)) => if total(p, s1) < total(p, stack) {
                run(p, env, m1, s1)
            } else {
                Err(ExecError::StructuralTypeFault)
            },
            Err(e) => Err(e),
        }
    }
}

/// Running `p` on a machine: the output frame is allocated up front, the
/// root is evaluated, and the output frame is decoded.
pub open spec fn eval<J: Jet>(p: Program<J>, env: J::Env, m: MachineModel) -> Result<Value, ExecError> {
    let root = p.root();
    let out = root.target_ty.bit_width;
    let start = if out > 0 {
        new_frame_spec(m, out as nat)
    } else {
        Ok(m)
    };
    match start {
        Ok(m1) => match run(p, env, m1, seq![Continuation::GoTo((p.nodes@.len() - 1) as usize)]) {
            Ok(mf) => if out > 0 {
                output_spec(mf, root.target_ty)
            } else {
                Ok(Value::Unit)
            },
            Err(e) => Err(e),
        },
        Err(e) => Err(e),
    }
}

pub proof fn lemma_total_concat<J>(p: Program<J>, a: Seq<Continuation>, b: Seq<Continuation>)
    ensures
        total(p, a + b) == total(p, a) + total(p, b),
    decreases b.len(),
{
    if b.len() == 0 {
        assert(a + b =~= a);
    } else {
        lemma_total_concat(p, a, b.drop_last());
        assert((a + b).drop_last() =~= a + b.drop_last());
    }
}

proof fn lemma_total_small<J>(p: Program<J>, a: Continuation, b: Continuation)
    ensures
        total(p, Seq::<Continuation>::empty()) == 0,
        total(p, seq![a]) == weight(p, a),
        total(p, seq![a, b]) == weight(p, a) + weight(p, b),
{
    assert(seq![a].drop_last() =~= Seq::<Continuation>::empty());
    assert(seq![a, b].drop_last() =~= seq![a]);
    reveal_with_fuel(total, 3);
}

/// Evaluating a node schedules less work than the node's own bound.
proof fn lemma_node_step_decreases<J: Jet>(p: Program<J>, env: J::Env, m: MachineModel, i: usize)
    requires
        p.wf(),
        node_step(p, env, m, i) is Ok,
    ensures
        total(p, node_step(p, env, m, i).unwrap().1) < cost(p, i as int),
{
    let k = node_step(p, env, m, i).unwrap().1;
    assert(crate::program::term_links_ok(p.nodes@[i as int].term, i as int));
    match p.nodes@[i as int].term {
        Term::InjL(t) | Term::InjR(t) | Term::Take(t) => {
            lemma_total_small(p, goto(i, t), goto(i, t));
        },
        Term::Drop(t) => {
            lemma_total_small(p, k[0], goto(i, t));
            assert(k =~= seq![k[0], goto(i, t)]);
        },
        Term::Pair(s, t) => {
            lemma_total_small(p, goto(i, t), goto(i, s));
        },
        Term::Case(s, t) => {
            lemma_total_small(p, k[0], k[1]);
            assert(k =~= seq![k[0], k[1]]);
        },
        Term::Comp(s, t) => {
            lemma_total_small(p, Continuation::DropFrame, goto(i, t));
            lemma_total_small(p, Continuation::MoveFrame, goto(i, s));
            lemma_total_concat(p, seq![Continuation::DropFrame, goto(i, t)], seq![Continuation::MoveFrame, goto(i, s)]);
            assert(k =~= seq![Continuation::DropFrame, goto(i, t)] + seq![Continuation::MoveFrame, goto(i, s)]);
        },
        Term::Disconnect(s, t) => {
            let a = seq![Continuation::DropFrame, Continuation::DropFrame];
            let b = seq![goto(i, t), k[3]];
            let c = seq![Continuation::MoveFrame, goto(i, s)];
            lemma_total_small(p, Continuation::DropFrame, Continuation::DropFrame);
            lemma_total_small(p, goto(i, t), k[3]);
            lemma_total_small(p, Continuation::MoveFrame, goto(i, s));
            lemma_total_concat(p, a, b);
            lemma_total_concat(p, a + b, c);
            assert(k =~= a + b + c);
        },
        _ => {
            lemma_total_small(p, Continuation::MoveFrame, Continuation::MoveFrame);
        },
    }
}

/// Every step of a well-formed program shrinks the bound on the steps left.
pub proof fn lemma_step_decreases<J: Jet>(
    p: Program<J>,
    env: J::Env,
    m: MachineModel,
    stack: Seq<Continuation>,
)
    requires
        p.wf(),
        stack.len() > 0,
        step(p, env, m, stack) is Ok,
    ensures
        total(p, step(p, env, m, stack).unwrap().1) < total(p, stack),
{
    let rest = stack.drop_last();
    match stack.last() {
        Continuation::GoTo(i) => {
            let k = node_step(p, env, m, i).unwrap().1;
            lemma_total_concat(p, rest, k);
            lemma_node_step_decreases(p, env, m, i);
        },
        _ => {},
    }
}

impl BitMachine {
    /// A machine with room to run `program`: an arena for its input, its
    /// output and its extra cells, and room reserved for its frames.
    pub fn for_program<J>(program: &Program<J>) -> (r: BitMachine)
        requires
            program.wf(),
            program.root().source_ty.bit_width + program.root().target_ty.bit_width
                + program.extra_cells_bound + 7 <= usize::MAX,
        ensures
            r.wf(),
            r@.is_fresh(
                (program.root().source_ty.bit_width + program.root().target_ty.bit_width
                    + program.extra_cells_bound) as nat,
            ),
    {
        let root = &program.nodes[program.nodes.len() - 1];
        let io_width = root.source_ty.bit_width + root.target_ty.bit_width;
        let frames = if program.frame_count_bound < usize::MAX {
            program.frame_count_bound + 1
        } else {
            program.frame_count_bound
        };
        BitMachine::with_capacity(io_width + program.extra_cells_bound, frames)
    }

    /// Carries out a continuation other than `GoTo`.
    fn exec_admin(&mut self, c: Continuation) -> (r: Result<(), ExecError>)
        requires
            old(self).wf(),
        ensures
            final(self).wf(),
            ends_as(r, final(self)@, admin_step(old(self)@, c)),
    {
        match c {
            Continuation::MoveFrame => self.move_frame(),
            Continuation::DropFrame => self.drop_frame(),
            Continuation::CopyFwd(n) => {
                self.copy(n)?;
                self.fwd(n)
            },
            Continuation::Back(n) => self.back(n),
            Continuation::GoTo(_) => Err(ExecError::StructuralTypeFault),
        }
    }

    /// Evaluates node `i`, pushing the continuations it schedules.
    fn exec_node<J: Jet>(
        &mut self,
        program: &Program<J>,
        env: &J::Env,
        i: usize,
        stack: &mut Vec<Continuation>,
    ) -> (r: Result<(), ExecError>)
        requires
            old(self).wf(),
            program.wf(),
        ensures
            final(self).wf(),
            match node_step(*program, *env, old(self)@, i) {
                Ok((m, k)) => r is Ok && final(self)@ == m && final(stack)@ == old(stack)@ + k,
                Err(e) => r == Err::<(), ExecError>(e),
            },
    {
        if i >= program.nodes.len() {
            return Err(ExecError::StructuralTypeFault);
        }
        let node = &program.nodes[i];
        proof {
            assert(crate::program::term_links_ok(program.nodes@[i as int].term, i as int));
            assert(type_wf(node.source_ty));
            assert(type_wf(node.target_ty));
        }
        match &node.term {
            Term::Unit => {
                assert(stack@ =~= old(stack)@ + seq![]);
            },
            Term::Iden => {
                self.copy(node.source_ty.bit_width)?;
                assert(stack@ =~= old(stack)@ + seq![]);
            },
            Term::InjL(t) => match &node.target_ty.shape {
                TypeShape::Sum(a, _) => {
                    assert(type_wf(**a));
                    self.write_bit(false)?;
                    self.skip(node.target_ty.bit_width - a.bit_width - 1)?;
                    stack.push(Continuation::GoTo(i - *t));
                    assert(stack@ =~= old(stack)@ + seq![goto(i, *t)]);
                },
                _ => {
                    return Err(ExecError::StructuralTypeFault);
                },
            },
            Term::InjR(t) => match &node.target_ty.shape {
                TypeShape::Sum(_, b) => {
                    assert(type_wf(**b));
                    self.write_bit(true)?;
                    self.skip(node.target_ty.bit_width - b.bit_width - 1)?;
                    stack.push(Continuation::GoTo(i - *t));
                    assert(stack@ =~= old(stack)@ + seq![goto(i, *t)]);
                },
                _ => {
                    return Err(ExecError::StructuralTypeFault);
                },
            },
            Term::Pair(s, t) => {
                stack.push(Continuation::GoTo(i - *t));
                stack.push(Continuation::GoTo(i - *s));
                assert(stack@ =~= old(stack)@ + seq![goto(i, *t), goto(i, *s)]);
            },
            Term::Comp(s, t) => {
                let size = program.nodes[i - *s].target_ty.bit_width;
                self.new_frame(size)?;
                stack.push(Continuation::DropFrame);
                stack.push(Continuation::GoTo(i - *t));
                stack.push(Continuation::MoveFrame);
                stack.push(Continuation::GoTo(i - *s));
                assert(stack@ =~= old(stack)@ + seq![
                    Continuation::DropFrame,
                    goto(i, *t),
                    Continuation::MoveFrame,
                    goto(i, *s),
                ]);
            },
            Term::Disconnect(s, t) => {
                let sn = &program.nodes[i - *s];
                let tn = &program.nodes[i - *t];
                let size = sn.source_ty.bit_width;
                let out = sn.target_ty.bit_width;
                if size < 256 || out < tn.source_ty.bit_width {
                    return Err(ExecError::StructuralTypeFault);
                }
                // A fresh read frame: the commitment digest of `t`, then the
                // rest of `s`'s input copied from the active read frame.
                self.new_frame(size)?;
                let cmr = tn.cmr.as_slice();
                assert(cmr@ == tn.cmr@);
                self.write_bytes(cmr)?;
                self.copy(size - 256)?;
                self.move_frame()?;
                self.new_frame(out)?;
                // Pushed last runs first: `s`, then its output to the read
                // stack, then the first half copied out and `t` on the rest,
                // then both frames released.
                stack.push(Continuation::DropFrame);
                stack.push(Continuation::DropFrame);
                stack.push(Continuation::GoTo(i - *t));
                stack.push(Continuation::CopyFwd(out - tn.source_ty.bit_width));
                stack.push(Continuation::MoveFrame);
                stack.push(Continuation::GoTo(i - *s));
                assert(stack@ =~= old(stack)@ + seq![
                    Continuation::DropFrame,
                    Continuation::DropFrame,
                    goto(i, *t),
                    Continuation::CopyFwd((out - tn.source_ty.bit_width) as usize),
                    Continuation::MoveFrame,
                    goto(i, *s),
                ]);
            },
            Term::Take(t) => {
                stack.push(Continuation::GoTo(i - *t));
                assert(stack@ =~= old(stack)@ + seq![goto(i, *t)]);
            },
            Term::Drop(t) => match &node.source_ty.shape {
                TypeShape::Product(a, _) => {
                    let aw = a.bit_width;
                    self.fwd(aw)?;
                    stack.push(Continuation::Back(aw));
                    stack.push(Continuation::GoTo(i - *t));
                    assert(stack@ =~= old(stack)@ + seq![Continuation::Back(aw), goto(i, *t)]);
                },
                _ => {
                    return Err(ExecError::StructuralTypeFault);
                },
            },
            Term::Case(s, t) => match &node.source_ty.shape {
                TypeShape::Product(x, _) => match &x.shape {
                    TypeShape::Sum(a, b) => {
                        assert(type_wf(**x));
                        assert(type_wf(**a) && type_wf(**b));
                        let bit = self.peek_bit()?;
                        let aw = a.bit_width;
                        let bw = b.bit_width;
                        let mx = if aw > bw {
                            aw
                        } else {
                            bw
                        };
                        // The sum takes `1 + mx` bits whichever arm it holds;
                        // the arm's payload is at its end.
                        let n = if bit {
                            1 + mx - bw
                        } else {
                            1 + mx - aw
                        };
                        let c = if bit {
                            *t
                        } else {
                            *s
                        };
                        self.fwd(n)?;
                        stack.push(Continuation::Back(n));
                        stack.push(Continuation::GoTo(i - c));
                        assert(stack@ =~= old(stack)@ + seq![Continuation::Back(n), goto(i, c)]);
                    },
                    _ => {
                        return Err(ExecError::StructuralTypeFault);
                    },
                },
                _ => {
                    return Err(ExecError::StructuralTypeFault);
                },
            },
            Term::Witness(v) => {
                self.write_value(v)?;
                assert(stack@ =~= old(stack)@ + seq![]);
            },
            Term::Hidden(_) => {
                return Err(ExecError::UnreachableNodeFault);
            },
            Term::Jet(j) => {
                j.exec(self, env)?;
                assert(stack@ =~= old(stack)@ + seq![]);
            },
            Term::Fail => {
                return Err(ExecError::UnreachableNodeFault);
            },
        }
        Ok(())
    }

    /// Runs `program` on this machine, whose input, if the program takes
    /// any, is already installed, and decodes its output.
    pub fn exec<J: Jet>(&mut self, program: &Program<J>, env: &J::Env) -> (r: Result<Value, ExecError>)
        requires
            old(self).wf(),
            program.wf(),
        ensures
            final(self).wf(),
            r == eval(*program, *env, old(self)@),
    {
        let root = program.nodes.len() - 1;
        let output_width = program.nodes[root].target_ty.bit_width;
        if output_width > 0 {
            self.new_frame(output_width)?;
        }
        let ghost m1 = self@;
        let ghost start = seq![Continuation::GoTo(root)];
        let mut stack: Vec<Continuation> = Vec::new();
        stack.push(Continuation::GoTo(root));
        assert(stack@ =~= start);
        loop
            invariant
                self.wf(),
                program.wf(),
                run(*program, *env, self@, stack@) == run(*program, *env, m1, start),
                eval(*program, *env, old(self)@) == match run(*program, *env, m1, start) {
                    Ok(mf) => if output_width > 0 {
                        output_spec(mf, program.root().target_ty)
                    } else {
                        Ok(Value::Unit)
                    },
                    Err(e) => Err(e),
                },
                output_width == program.root().target_ty.bit_width,
                root == program.nodes@.len() - 1,
            ensures
                self.wf(),
                stack@.len() == 0,
                run(*program, *env, self@, stack@) == run(*program, *env, m1, start),
            decreases total(*program, stack@),
        {
            let ghost before = stack@;
            let ghost mb = self@;
            let c = match stack.pop() {
                Some(c) => c,
                None => {
                    break ;
                },
            };
            proof {
                assert(before.drop_last() =~= stack@);
                if step(*program, *env, mb, before) is Ok {
                    lemma_step_decreases(*program, *env, mb, before);
                }
            }
            let res = match c {
                Continuation::GoTo(i) => self.exec_node(program, env, i, &mut stack),
                _ => self.exec_admin(c),
            };
            if let Err(e) = res {
                assert(step(*program, *env, mb, before) == Err::<(MachineModel, Seq<Continuation>), ExecError>(e));
                assert(run(*program, *env, mb, before) == Err::<MachineModel, ExecError>(e));
                return Err(e);
            }
            assert(step(*program, *env, mb, before) == Ok::<(MachineModel, Seq<Continuation>), ExecError>((self@, stack@)));
        }
        assert(run(*program, *env, self@, stack@) == Ok::<MachineModel, ExecError>(self@));
        if output_width > 0 {
            self.output_value(&program.nodes[root].target_ty)
        } else {
            Ok(Value::Unit)
        }
    }
}

/// Reaching a `Hidden` node aborts the run with `UnreachableNodeFault`,
/// whatever else is scheduled.
pub proof fn lemma_hidden_aborts<J: Jet>(
    p: Program<J>,
    env: J::Env,
    m: MachineModel,
    stack: Seq<Continuation>,
    i: usize,
)
    requires
        stack.len() > 0,
        stack.last() == Continuation::GoTo(i),
        i < p.nodes@.len(),
        p.nodes@[i as int].term is Hidden,
    ensures
        run(p, env, m, stack) == Err::<MachineModel, ExecError>(ExecError::UnreachableNodeFault),
{
}

/// Evaluating `Drop` whose source type is not a product aborts the run
/// with `StructuralTypeFault`.
pub proof fn lemma_drop_needs_product<J: Jet>(
    p: Program<J>,
    env: J::Env,
    m: MachineModel,
    stack: Seq<Continuation>,
    i: usize,
)
    requires
        stack.len() > 0,
        stack.last() == Continuation::GoTo(i),
        i < p.nodes@.len(),
        p.nodes@[i as int].term is Drop,
        !(p.nodes@[i as int].source_ty.shape is Product),
    ensures
        run(p, env, m, stack) == Err::<MachineModel, ExecError>(ExecError::StructuralTypeFault),
{
}

/// Installing a value as input and evaluating the identity combinator on
/// it gives the value back: the bit encoding round-trips through the
/// machine. This holds for types of nonzero width whose values all encode
/// to the full width; the identity copies the type's width in bits.
pub proof fn lemma_iden_round_trip<J: Jet>(
    p: Program<J>,
    env: J::Env,
    m: MachineModel,
    ty: FinalType,
    v: Value,
)
    requires
        p.wf(),
        p.nodes@.len() == 1,
        p.nodes@[0].term is Iden,
        p.nodes@[0].source_ty == ty,
        p.nodes@[0].target_ty == ty,
        has_type(v, ty),
        encode(v).len() == width(ty),
        width(ty) > 0,
        m.wf(),
        m.next + 2 * width(ty) <= m.bits.len(),
    ensures
        input_spec(m, v) is Ok,
        eval(p, env, input_spec(m, v).unwrap()) == Ok::<Value, ExecError>(v),
{
    let w = width(ty);
    let enc = encode(v);
    let m2 = input_spec(m, v).unwrap();
    let m3 = new_frame_spec(m2, w).unwrap();
    let m4 = copy_spec(m3, w).unwrap();
    let start = seq![Continuation::GoTo(0)];
    assert(type_wf(p.nodes@[0].source_ty));
    assert(m3.read.last() == Frame { start: m.next as usize, len: w as usize, cursor: 0 });
    assert(m3.write.last() == Frame { start: (m.next + w) as usize, len: w as usize, cursor: 0 });
    assert(start.drop_last() + Seq::<Continuation>::empty() =~= Seq::<Continuation>::empty());
    assert(step(p, env, m3, start) == Ok::<(MachineModel, Seq<Continuation>), ExecError>((m4, Seq::empty())));
    reveal_with_fuel(total, 2);
    assert(total(p, start) == 1);
    assert(run(p, env, m3, start) == run(p, env, m4, Seq::empty()));
    lemma_copy_bits_disjoint(m3.bits, m.next as int, (m.next + w) as int, w);
    let out = m4.bits.subrange((m.next + w) as int, (m.next + 2 * w) as int);
    assert(out =~= enc);
    lemma_decode_encode(v, ty, Seq::empty());
    assert(enc + Seq::<bool>::empty() =~= enc);
}

/// Working off `rest + s` works off `s` first, then `rest` on the machine
/// that `s` left.
pub proof fn lemma_run_append<J: Jet>(
    p: Program<J>,
    env: J::Env,
    m: MachineModel,
    rest: Seq<Continuation>,
    s: Seq<Continuation>,
)
    requires
        p.wf(),
    ensures
        run(p, env, m, rest + s) == match run(p, env, m, s) {
            Ok(m1) => run(p, env, m1, rest),
            Err(e) => Err(e),
        },
    decreases total(p, s),
{
    if s.len() == 0 {
        assert(rest + s =~= rest);
    } else {
        let all = rest + s;
        assert(all.last() == s.last());
        assert(all.drop_last() =~= rest + s.drop_last());
        match s.last() {
            Continuation::GoTo(i) => {
                if node_step(p, env, m, i) is Ok {
                    let k = node_step(p, env, m, i).unwrap().1;
                    assert(rest + s.drop_last() + k =~= rest + (s.drop_last() + k));
                }
            },
            _ => {},
        }
        if step(p, env, m, s) is Ok {
            let (m1, s1) = step(p, env, m, s).unwrap();
            assert(step(p, env, m, all) == Ok::<(MachineModel, Seq<Continuation>), ExecError>((m1, rest + s1)));
            lemma_step_decreases(p, env, m, s);
            lemma_total_concat(p, rest, s1);
            lemma_total_concat(p, rest, s);
            lemma_run_append(p, env, m1, rest, s1);
        }
    }
}

proof fn lemma_run_admin<J: Jet>(p: Program<J>, env: J::Env, m: MachineModel, c: Continuation)
    requires
        !(c is GoTo),
    ensures
        run(p, env, m, seq![c]) == admin_step(m, c),
{
    let one = seq![c];
    assert(one.drop_last() =~= Seq::<Continuation>::empty());
    reveal_with_fuel(total, 2);
    assert(total(p, one) == 1);
    if admin_step(m, c) is Ok {
        let m1 = admin_step(m, c).unwrap();
        assert(step(p, env, m, one) == Ok::<(MachineModel, Seq<Continuation>), ExecError>((m1, Seq::empty())));
        assert(run(p, env, m1, Seq::empty()) == Ok::<MachineModel, ExecError>(m1));
    }
}

/// `Comp(s, t)` allocates a frame for `s`'s output, runs `s` into it,
/// commits it, runs `t` reading from it, and releases it.
pub proof fn lemma_comp_chains<J: Jet>(p: Program<J>, env: J::Env, m: MachineModel, i: usize)
    requires
        p.wf(),
        i < p.nodes@.len(),
        p.nodes@[i as int].term is Comp,
    ensures
        ({
            let (s, t) = match p.nodes@[i as int].term {
                Term::Comp(s, t) => (s, t),
                _ => (0usize, 0usize),
            };
            run(p, env, m, seq![Continuation::GoTo(i)]) == match new_frame_spec(
                m,
                p.nodes@[i - s].target_ty.bit_width as nat,
            ) {
                Ok(m1) => match run(p, env, m1, seq![goto(i, s)]) {
                    Ok(m2) => match move_frame_spec(m2) {
                        Ok(m3) => match run(p, env, m3, seq![goto(i, t)]) {
                            Ok(m4) => drop_frame_spec(m4),
                            Err(e) => Err(e),
                        },
                        Err(e) => Err(e),
                    },
                    Err(e) => Err(e),
                },
                Err(e) => Err(e),
            }
        }),
{
    let (s, t) = match p.nodes@[i as int].term {
        Term::Comp(s, t) => (s, t),
        _ => (0usize, 0usize),
    };
    let start = seq![Continuation::GoTo(i)];
    assert(start.drop_last() =~= Seq::<Continuation>::empty());
    if new_frame_spec(m, p.nodes@[i - s].target_ty.bit_width as nat) is Ok {
        let m1 = new_frame_spec(m, p.nodes@[i - s].target_ty.bit_width as nat).unwrap();
        let k = seq![Continuation::DropFrame, goto(i, t), Continuation::MoveFrame, goto(i, s)];
        assert(Seq::<Continuation>::empty() + k =~= k);
        assert(step(p, env, m, start) == Ok::<(MachineModel, Seq<Continuation>), ExecError>((m1, k)));
        lemma_step_decreases(p, env, m, start);
        let a = seq![Continuation::DropFrame, goto(i, t), Continuation::MoveFrame];
        let b = seq![Continuation::DropFrame, goto(i, t)];
        let c = seq![Continuation::DropFrame];
        assert(k =~= a + seq![goto(i, s)]);
        assert(a =~= b + seq![Continuation::MoveFrame]);
        assert(b =~= c + seq![goto(i, t)]);
        lemma_run_append(p, env, m1, a, seq![goto(i, s)]);
        if run(p, env, m1, seq![goto(i, s)]) is Ok {
            let m2 = run(p, env, m1, seq![goto(i, s)]).unwrap();
            lemma_run_append(p, env, m2, b, seq![Continuation::MoveFrame]);
            lemma_run_admin(p, env, m2, Continuation::MoveFrame);
            if move_frame_spec(m2) is Ok {
                let m3 = move_frame_spec(m2).unwrap();
                lemma_run_append(p, env, m3, c, seq![goto(i, t)]);
                if run(p, env, m3, seq![goto(i, t)]) is Ok {
                    lemma_run_admin(p, env, run(p, env, m3, seq![goto(i, t)]).unwrap(), Continuation::DropFrame);
                }
            }
        }
    }
}

/// `Case(s, t)` with the discriminant bit under the read cursor clear moves
/// the cursor past the tag and the left arm's padding, runs `s` there, and
/// moves the cursor back; with the bit set, the same with the right arm
/// and `t`.
pub proof fn lemma_case_branches<J: Jet>(p: Program<J>, env: J::Env, m: MachineModel, i: usize)
    requires
        p.wf(),
        i < p.nodes@.len(),
        p.nodes@[i as int].term is Case,
        p.nodes@[i as int].source_ty.shape is Product,
        p.nodes@[i as int].source_ty.shape->Product_0.shape is Sum,
        peek_bit_spec(m) is Ok,
    ensures
        ({
            let (s, t) = match p.nodes@[i as int].term {
                Term::Case(s, t) => (s, t),
                _ => (0usize, 0usize),
            };
            let x = p.nodes@[i as int].source_ty.shape->Product_0;
            let aw = x.shape->Sum_0.bit_width;
            let bw = x.shape->Sum_1.bit_width;
            let mx = vstd::math::max(aw as int, bw as int);
            let bit = peek_bit_spec(m).unwrap();
            let n = if bit {
                1 + mx - bw
            } else {
                1 + mx - aw
            };
            let branch = if bit {
                t
            } else {
                s
            };
            run(p, env, m, seq![Continuation::GoTo(i)]) == match fwd_spec(m, n as nat) {
                Ok(m1) => match run(p, env, m1, seq![goto(i, branch)]) {
                    Ok(m2) => back_spec(m2, n as nat),
                    Err(e) => Err(e),
                },
                Err(e) => Err(e),
            }
        }),
{
    let (s, t) = match p.nodes@[i as int].term {
        Term::Case(s, t) => (s, t),
        _ => (0usize, 0usize),
    };
    let x = p.nodes@[i as int].source_ty.shape->Product_0;
    let aw = x.shape->Sum_0.bit_width;
    let bw = x.shape->Sum_1.bit_width;
    let mx = vstd::math::max(aw as int, bw as int);
    let bit = peek_bit_spec(m).unwrap();
    let n = if bit {
        1 + mx - bw
    } else {
        1 + mx - aw
    };
    let branch = if bit {
        t
    } else {
        s
    };
    let start = seq![Continuation::GoTo(i)];
    assert(start.drop_last() =~= Seq::<Continuation>::empty());
    if fwd_spec(m, n as nat) is Ok {
        let m1 = fwd_spec(m, n as nat).unwrap();
        let k = seq![Continuation::Back(n as usize), goto(i, branch)];
        assert(Seq::<Continuation>::empty() + k =~= k);
        assert(step(p, env, m, start) == Ok::<(MachineModel, Seq<Continuation>), ExecError>((m1, k)));
        lemma_step_decreases(p, env, m, start);
        assert(k =~= seq![Continuation::Back(n as usize)] + seq![goto(i, branch)]);
        lemma_run_append(p, env, m1, seq![Continuation::Back(n as usize)], seq![goto(i, branch)]);
        if run(p, env, m1, seq![goto(i, branch)]) is Ok {
            lemma_run_admin(p, env, run(p, env, m1, seq![goto(i, branch)]).unwrap(), Continuation::Back(n as usize));
        }
    }
}

} // verus!
