//! The toolchain as one value: it compiles, loads, runs and renders
//! programs, and holds what a run reads and writes.

use crate::assembly::{asm_text, emit_assembly, parse, parse_assembly};
use crate::assembly_laws::lemma_text_valid;
use crate::bytecode::{decode, decode_bytecode, emit_bytecode, encode};
use crate::cli::Opt;
use crate::error::CompileError;
use crate::grid::{decode_from, decode_grid, decode_text, fits, grid_program, grid_width, split_rows};
use crate::ir::{Origin, Program, ProgramView};
use crate::num::int_of;
use crate::optimize::optimized;
use crate::passes::optimize;
use crate::semantics::{run_steps, Fault, MachineView, StatusView};
use crate::unicode::{code_points, lemma_decode_str};
use crate::vm::{Machine, Status};
use malachite_bigint::BigInt;
use vstd::prelude::*;
use vstd::slice::slice_to_vec;

verus! {

/// A compiled program.
#[derive(Debug)]
pub struct Object {
    program: Program,
}

impl View for Object {
    type V = ProgramView;

    closed spec fn view(&self) -> ProgramView {
        self.program@
    }
}

impl Clone for Object {
    fn clone(&self) -> (r: Object)
        ensures
            r@ == self@,
            self.wf() ==> r.wf(),
    {
        Object { program: self.program.duplicate() }
    }
}

impl Object {
    /// The validity that every object has.
    pub open spec fn wf(&self) -> bool {
        self@.wf()
    }

    /// The object that holds a valid program.
    pub fn new(program: Program) -> (r: Object)
        requires
            program.wf(),
        ensures
            r.wf(),
            r@ == program@,
    {
        Object { program }
    }

    /// The program that the object holds.
    pub fn program(&self) -> (r: &Program)
        ensures
            r@ == self@,
            self.wf() ==> r.wf(),
    {
        &self.program
    }
}

/// Why a run gave no halt value.
#[derive(Clone, Copy, Debug, PartialEq, Eq, Structural)]
pub enum RunError {
    /// A step failed: the fault, the index of the instruction that failed,
    /// and where that instruction came from, if that is known.
    Failed(Fault, usize, Option<Origin>),
    /// The step budget ran out before the program halted.
    OutOfSteps,
}

/// Why a program could not be rendered.
#[derive(Clone, Copy, Debug, PartialEq, Eq, Structural)]
pub enum EmitError {
    /// The rendered bytes are no UTF-8 text.
    NotText,
}

/// The program compiled from the code points of a text at a level: the
/// text is laid out as a grid, decoded cell by cell, and optimized. The
/// only failure is a grid too large to index.
pub open spec fn compile_chars(cps: Seq<u32>, level: Opt) -> Result<ProgramView, CompileError> {
    if fits(split_rows(cps).len() as int, grid_width(split_rows(cps))) {
        Ok(optimized(grid_program(split_rows(cps)), level))
    } else {
        Err(CompileError::TooLarge)
    }
}

/// The program compiled from a text given as bytes: the bytes are decoded
/// as UTF-8, which fails at the first sequence that encodes no scalar
/// value, and the code points are compiled.
pub open spec fn compile_text(bytes: Seq<u8>, level: Opt) -> Result<ProgramView, CompileError> {
    match decode_from(bytes, 0) {
        Err(at) => Err(CompileError::InvalidEncoding(at)),
        Ok(cps) => compile_chars(cps, level),
    }
}

/// `String::from_utf8`: the string whose UTF-8 encoding is the given bytes,
/// or `None` when the bytes are no valid UTF-8.
#[verifier::external_body]
fn string_of(bytes: Vec<u8>) -> (r: Option<String>)
    ensures
        match r {
            Some(s) => vstd::utf8::encode_utf8(s@) == bytes@,
            None => !vstd::utf8::valid_utf8(bytes@),
        },
{
    match String::from_utf8(bytes) {
        Ok(s) => Some(s),
        Err(_) => None,
    }
}

/// The toolchain.
#[derive(Debug)]
pub struct Aheui {
    level: Opt,
    budget: u64,
    input: Vec<u8>,
    output: Vec<u8>,
}

impl Default for Aheui {
    fn default() -> (r: Aheui)
        ensures
            r.level() == Opt::O1,
            r.budget() == u64::MAX,
            r.input() == Seq::<u8>::empty(),
            r.output() == Seq::<u8>::empty(),
    {
        Aheui::new()
    }
}

impl Aheui {
    /// The level at which texts are compiled.
    pub closed spec fn level(&self) -> Opt {
        self.level
    }

    /// The greatest number of steps of one run.
    pub closed spec fn budget(&self) -> u64 {
        self.budget
    }

    /// The input that every run reads from its beginning.
    pub closed spec fn input(&self) -> Seq<u8> {
        self.input@
    }

    /// What the runs have written and nobody has taken yet.
    pub closed spec fn output(&self) -> Seq<u8> {
        self.output@
    }

    /// A toolchain that compiles at level 1, runs without input and allows
    /// the greatest number of steps.
    pub fn new() -> (r: Aheui)
        ensures
            r.level() == Opt::O1,
            r.budget() == u64::MAX,
            r.input() == Seq::<u8>::empty(),
            r.output() == Seq::<u8>::empty(),
    {
        Aheui { level: Opt::O1, budget: u64::MAX, input: Vec::new(), output: Vec::new() }
    }

    /// Sets the level at which texts are compiled.
    pub fn set_level(&mut self, level: Opt)
        ensures
            final(self).level() == level,
            final(self).budget() == old(self).budget(),
            final(self).input() == old(self).input(),
            final(self).output() == old(self).output(),
    {
        self.level = level;
    }

    /// Sets the greatest number of steps of one run.
    pub fn set_budget(&mut self, budget: u64)
        ensures
            final(self).budget() == budget,
            final(self).level() == old(self).level(),
            final(self).input() == old(self).input(),
            final(self).output() == old(self).output(),
    {
        self.budget = budget;
    }

    /// Sets the input that every run reads.
    pub fn set_input(&mut self, input: Vec<u8>)
        ensures
            final(self).input() == input@,
            final(self).level() == old(self).level(),
            final(self).budget() == old(self).budget(),
            final(self).output() == old(self).output(),
    {
        self.input = input;
    }

    /// Hands over what the runs have written, and forgets it.
    pub fn take_output(&mut self) -> (r: Vec<u8>)
        ensures
            r@ == old(self).output(),
            final(self).output() == Seq::<u8>::empty(),
            final(self).level() == old(self).level(),
            final(self).budget() == old(self).budget(),
            final(self).input() == old(self).input(),
    {
        let mut r: Vec<u8> = Vec::new();
        r.append(&mut self.output);
        r
    }

    /// Compiles a text given as bytes. Fails when the bytes are no UTF-8
    /// text, or when the grid is too large to index.
    pub fn compile_bytes(&mut self, code: &[u8]) -> (r: Result<Object, CompileError>)
        ensures
            *final(self) == *old(self),
            match r {
                Ok(o) => compile_text(code@, old(self).level()) == Ok::<ProgramView, CompileError>(o@)
                    && o.wf(),
                Err(e) => compile_text(code@, old(self).level()) == Err::<ProgramView, CompileError>(e),
            },
    {
        let cps = match decode_text(code) {
            Err(e) => {
                return Err(e);
            },
            Ok(cps) => cps,
        };
        let raw = match decode_grid(cps.as_slice()) {
            Err(e) => {
                return Err(e);
            },
            Ok(p) => p,
        };
        Ok(Object { program: optimize(&raw, self.level) })
    }

    /// Compiles a text. The only failure is a grid too large to index.
    pub fn compile(&mut self, code: &str) -> (r: Result<Object, CompileError>)
        ensures
            *final(self) == *old(self),
            match r {
                Ok(o) => compile_chars(code_points(code@), old(self).level()) == Ok::<
                    ProgramView,
                    CompileError,
                >(o@) && o.wf(),
                Err(e) => compile_chars(code_points(code@), old(self).level()) == Err::<
                    ProgramView,
                    CompileError,
                >(e),
            },
    {
        proof {
            lemma_decode_str(code@);
        }
        self.compile_bytes(code.as_bytes())
    }

    /// Reads a program from assembly text.
    pub fn compile_asm(&mut self, text: &str) -> (r: Result<Object, CompileError>)
        ensures
            *final(self) == *old(self),
            match r {
                Ok(o) => parse(vstd::utf8::encode_utf8(text@)) == Ok::<ProgramView, CompileError>(
                    o@,
                ) && o.wf(),
                Err(e) => parse(vstd::utf8::encode_utf8(text@)) == Err::<ProgramView, CompileError>(
                    e,
                ),
            },
    {
        match parse_assembly(text.as_bytes()) {
            Ok(program) => Ok(Object { program }),
            Err(e) => Err(e),
        }
    }

    /// Reads a program from its binary form.
    pub fn load_bytecode(&mut self, bytecode: &[u8]) -> (r: Result<Object, CompileError>)
        ensures
            *final(self) == *old(self),
            match r {
                Ok(o) => decode(bytecode@) == Ok::<ProgramView, CompileError>(o@) && o.wf(),
                Err(e) => decode(bytecode@) == Err::<ProgramView, CompileError>(e),
            },
    {
        match decode_bytecode(bytecode) {
            Ok(program) => Ok(Object { program }),
            Err(e) => Err(e),
        }
    }

    /// Runs a program on the input, for no more steps than the budget
    /// allows, and gives its halt value. What the run wrote is added to the
    /// output, also when the run fails or is cut off.
    pub fn run(&mut self, object: &Object) -> (r: Result<BigInt, RunError>)
        requires
            object.wf(),
        ensures
            final(self).level() == old(self).level(),
            final(self).budget() == old(self).budget(),
            final(self).input() == old(self).input(),
            ({
                let end = run_steps(
                    object@,
                    MachineView::init(object@, old(self).input()),
                    old(self).budget() as nat,
                );
                &&& final(self).output() == old(self).output() + end.machine.output
                &&& match r {
                    Ok(v) => end.status == StatusView::Halted(int_of(v)),
                    Err(RunError::Failed(f, at, origin)) => end.status == StatusView::Failed(f)
                        && at == end.machine.pc && at < object@.instrs.len() && origin
                        == object@.instrs[at as int].origin,
                    Err(RunError::OutOfSteps) => end.status is Running,
                }
            }),
    {
        let input = slice_to_vec(self.input.as_slice());
        let mut machine = Machine::new(object.program.duplicate(), input);
        let status = machine.run(self.budget);
        let mut written = slice_to_vec(machine.output().as_slice());
        self.output.append(&mut written);
        match status {
            Status::Halted(v) => Ok(v),
            Status::Failed(f) => Err(RunError::Failed(f, machine.pc(), machine.origin())),
            Status::Running => Err(RunError::OutOfSteps),
        }
    }

    /// Renders a program as assembly text. With `commented`, each line
    /// ends with the grid position and character that its instruction came
    /// from. This never fails.
    pub fn make_asm(&mut self, object: &Object, commented: bool) -> (r: Result<String, EmitError>)
        ensures
            *final(self) == *old(self),
            r is Ok,
            vstd::utf8::encode_utf8(r->Ok_0@) == asm_text(object@, commented),
    {
        proof {
            lemma_text_valid(object@, commented);
        }
        match string_of(emit_assembly(&object.program, commented)) {
            Some(s) => Ok(s),
            None => Err(EmitError::NotText),
        }
    }

    /// Renders a program in its binary form. This never fails.
    pub fn make_bytecode(&mut self, object: &Object) -> (r: Result<Vec<u8>, EmitError>)
        ensures
            *final(self) == *old(self),
            r is Ok,
            r->Ok_0@ == encode(object@),
    {
        Ok(emit_bytecode(&object.program))
    }
}

} // verus!
