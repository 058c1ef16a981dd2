//! The executable machine: a fixed-size byte tape, a data pointer, and two
//! in-memory byte channels, together with the execution engines for both
//! program forms.
//!
//! Every engine takes an explicit fuel budget, spent once per loop iteration
//! and once per scan move, and its result is pinned exactly to the
//! fuel-indexed specification interpreters of [`crate::sem`]: `Ok` carries
//! the fuel left over, `Err(OutOfFuel)` answers the interpreter's `Cut`, and
//! the other errors answer its `Fail`.

use vstd::prelude::*;
use crate::ast::{BFCommand, BFProgram, BFPCommand, BFPProgram, MachineDelta, OCmd, opt_view,
    raw_cmd_wf, opt_cmd_wf, delta_wf, delta_no_zero_off, pairs_view};
use crate::sem::{MState, RunError, Step, rexec, orun, scan_step, dlookup, has_key, offsets_ok,
    apply_tape, pending_ok, apply_pending, apply_mul, lemma_skip_step, lemma_has_key_iff,
    lemma_dlookup_absent, lemma_dlookup_push, lemma_orun_append, lemma_orun_fuel_bound,
    lemma_rexec_fuel_bound, lemma_scan_fuel_bound};

verus! {

/// Appending entry `i` of a distinct-offset adjustment list to the prefix
/// before it changes lookups at exactly that entry's offset.
proof fn lemma_prefix_step(pm: Seq<(int, int)>, i: int)
    requires
        delta_wf(pm),
        0 <= i < pm.len(),
    ensures
        pm.take(i + 1) == pm.take(i).push(pm[i]),
        dlookup(pm.take(i), pm[i].0) == 0,
        forall|k2: int| #[trigger] dlookup(pm.take(i + 1), k2) == if k2 == pm[i].0 {
            pm[i].1
        } else {
            dlookup(pm.take(i), k2)
        },
{
    assert(pm.take(i + 1) =~= pm.take(i).push(pm[i]));
    lemma_has_key_iff(pm.take(i), pm[i].0);
    if has_key(pm.take(i), pm[i].0) {
        let w = choose|t: int| 0 <= t < pm.take(i).len() && (#[trigger] pm.take(i)[t]).0 == pm[i].0;
        assert(pm[w].0 == pm[i].0);
        assert(false);
    }
    lemma_dlookup_absent(pm.take(i), pm[i].0);
    assert forall|k2: int| true implies #[trigger] dlookup(pm.take(i + 1), k2) == (if k2 == pm[i].0 {
        pm[i].1
    } else {
        dlookup(pm.take(i), k2)
    }) by {
        lemma_dlookup_push(pm.take(i), pm[i], k2);
        if k2 != pm[i].0 && !has_key(pm.take(i), k2) {
            lemma_dlookup_absent(pm.take(i), k2);
        }
    }
}

/// A machine: tape, pointer, and the two byte channels of one run.
pub struct Machine {
    /// The byte tape, allocated once and never resized.
    pub memory: Vec<u8>,
    /// The data pointer: always a valid tape index.
    pub data_ptr: usize,
    /// The input channel: `input[input_pos..]` is still waiting to be read.
    pub input: Vec<u8>,
    /// How much of `input` has been consumed.
    pub input_pos: usize,
    /// The output channel: everything written so far.
    pub output: Vec<u8>,
}

impl Machine {
    /// The machine's internal invariant: nonempty tape, pointer on the tape,
    /// input cursor within the input.
    pub open spec fn inv(&self) -> bool {
        &&& self.memory@.len() >= 1
        &&& (self.data_ptr as int) < self.memory@.len()
        &&& self.input_pos <= self.input@.len()
    }

    /// The machine's mathematical state.
    pub open spec fn mst(&self) -> MState {
        MState {
            tape: self.memory@,
            ptr: self.data_ptr as int,
            inp: self.input@.skip(self.input_pos as int),
            out: self.output@,
        }
    }

    /// A fresh machine: `mem_size` zeroed cells, pointer at zero, empty
    /// channels.  The tape must have at least one cell for the pointer to
    /// address.
    pub fn new(mem_size: usize) -> (m: Machine)
        requires
            mem_size >= 1,
        ensures
            m.inv(),
            m.mst().tape.len() == mem_size,
            forall|i: int| 0 <= i < mem_size ==> m.mst().tape[i] == 0u8,
            m.mst().ptr == 0,
            m.mst().inp == Seq::<u8>::empty(),
            m.mst().out == Seq::<u8>::empty(),
    {
        let mut memory: Vec<u8> = Vec::new();
        let mut i: usize = 0;
        while i < mem_size
            invariant
                i <= mem_size,
                memory@.len() == i,
                forall|t: int| 0 <= t < i ==> memory@[t] == 0u8,
            decreases mem_size - i,
        {
            memory.push(0);
            i += 1;
        }
        let m = Machine { memory, data_ptr: 0, input: Vec::new(), input_pos: 0, output: Vec::new() };
        proof {
            assert(m.mst().inp =~= Seq::<u8>::empty());
        }
        m
    }

    /// Append bytes to the waiting part of the input channel.
    pub fn queue_input(&mut self, bytes: Vec<u8>)
        requires
            old(self).inv(),
        ensures
            final(self).inv(),
            final(self).mst() == (MState { inp: old(self).mst().inp + bytes@, ..old(self).mst() }),
    {
        let mut b = bytes;
        let ghost pos = self.input_pos as int;
        let ghost before = self.input@;
        self.input.append(&mut b);
        proof {
            assert(self.input@.skip(pos) =~= before.skip(pos) + bytes@);
        }
    }

    /// The tape index `offset` cells away from the pointer, when that is on
    /// the tape.
    fn addr(&self, offset: i128) -> (r: Option<usize>)
        requires
            self.inv(),
        ensures
            (r matches Some(a)) <==> 0 <= self.data_ptr + offset < self.memory@.len(),
            r matches Some(a) ==> a as int == self.data_ptr + offset,
    {
        let len = self.memory.len();
        let p = self.data_ptr as i128;
        if offset >= -(len as i128) && offset <= len as i128 {
            let a = p + offset;
            if a >= 0 && a < len as i128 {
                Some(a as usize)
            } else {
                None
            }
        } else {
            None
        }
    }

    /// Set the current cell to zero.
    pub fn run_bfp_zero_cell(&mut self)
        requires
            old(self).inv(),
        ensures
            final(self).inv(),
            final(self).mst() == (MState {
                tape: old(self).mst().tape.update(old(self).mst().ptr, 0u8),
                ..old(self).mst()
            }),
    {
        let p = self.data_ptr;
        self.memory[p] = 0;
    }

    /// Move the pointer by `offset`; an addressing fault leaves the machine
    /// unchanged.
    pub fn run_bfp_shift(&mut self, offset: i128) -> (r: Result<(), RunError>)
        requires
            old(self).inv(),
        ensures
            final(self).inv(),
            ({
                let s = old(self).mst();
                if 0 <= s.ptr + offset < s.tape.len() {
                    r == Ok::<(), RunError>(()) && final(self).mst() == (MState {
                        ptr: s.ptr + offset,
                        ..s
                    })
                } else {
                    r == Err::<(), RunError>(RunError::OutOfBounds) && final(self).mst() == s
                }
            }),
    {
        match self.addr(offset) {
            Some(a) => {
                proof {
                    assert(0 <= old(self).data_ptr + offset < old(self).memory@.len());
                    assert(a as int == old(self).data_ptr + offset);
                }
                self.data_ptr = a;
                proof {
                    assert(self.mst() =~= MState { ptr: old(self).mst().ptr + offset, ..old(self).mst() });
                }
                Ok(())
            }
            None => Err(RunError::OutOfBounds),
        }
    }

    /// Consume one byte from the input channel into the current cell; an
    /// exhausted channel is a reported failure that changes nothing.
    pub fn run_bfp_read(&mut self) -> (r: Result<(), RunError>)
        requires
            old(self).inv(),
        ensures
            final(self).inv(),
            ({
                let s = old(self).mst();
                if s.inp.len() == 0 {
                    r == Err::<(), RunError>(RunError::EndOfInput) && final(self).mst() == s
                } else {
                    r == Ok::<(), RunError>(()) && final(self).mst() == (MState {
                        tape: s.tape.update(s.ptr, s.inp[0]),
                        inp: s.inp.drop_first(),
                        ..s
                    })
                }
            }),
    {
        if self.input_pos < self.input.len() {
            let b = self.input[self.input_pos];
            let p = self.data_ptr;
            self.memory[p] = b;
            self.input_pos = self.input_pos + 1;
            proof {
                let s = old(self).mst();
                lemma_skip_step(old(self).input@, old(self).input_pos as int);
                assert(self.mst().inp =~= s.inp.drop_first());
            }
            Ok(())
        } else {
            Err(RunError::EndOfInput)
        }
    }

    /// Apply an update batch: add each stored adjustment to its cell modulo
    /// 256, then move the pointer by the batch's net offset.  If any adjusted
    /// cell or the final pointer position is off the tape, nothing changes
    /// and the fault is reported.
    pub fn run_bfp_update(&mut self, delta: &MachineDelta) -> (r: Result<(), RunError>)
        requires
            old(self).inv(),
            delta_wf(delta.mem_view()),
        ensures
            final(self).inv(),
            ({
                let s = old(self).mst();
                let pm = delta.mem_view();
                let dp = delta.data_ptr as int;
                if pending_ok(pm, dp, s) {
                    r == Ok::<(), RunError>(()) && final(self).mst() == apply_pending(pm, dp, s)
                } else {
                    r == Err::<(), RunError>(RunError::OutOfBounds) && final(self).mst() == s
                }
            }),
    {
        let ghost s = self.mst();
        let ghost pm = delta.mem_view();
        let n = delta.memory.len();
        // First pass: validate every adjusted cell, so that a fault leaves
        // the tape untouched.
        let mut i: usize = 0;
        while i < n
            invariant
                self.inv(),
                *self == *old(self),
                s == old(self).mst(),
                pm == delta.mem_view(),
                delta_wf(pm),
                i <= n,
                n == delta.memory@.len(),
                forall|t: int| 0 <= t < i ==> 0 <= s.ptr + (#[trigger] pm[t]).0 < s.tape.len(),
            decreases n - i,
        {
            let (off, _v) = delta.memory[i];
            proof {
                assert(pm[i as int] == (off as int, _v as int));
            }
            if self.addr(off).is_none() {
                proof {
                    assert(!(0 <= s.ptr + pm[i as int].0 < s.tape.len()));
                }
                return Err(RunError::OutOfBounds);
            }
            i += 1;
        }
        // Validate the final pointer position.
        let new_ptr = match self.addr(delta.data_ptr) {
            Some(a) => a,
            None => {
                return Err(RunError::OutOfBounds);
            }
        };
        // Second pass: apply the adjustments; distinct offsets make the
        // order immaterial.
        let ghost tape0 = self.memory@;
        let mut i: usize = 0;
        while i < n
            invariant
                self.inv(),
                s == old(self).mst(),
                pm == delta.mem_view(),
                delta_wf(pm),
                i <= n,
                n == delta.memory@.len(),
                tape0 == s.tape,
                offsets_ok(pm, s.ptr, s.tape.len() as int),
                self.data_ptr == old(self).data_ptr,
                self.input@ == old(self).input@,
                self.input_pos == old(self).input_pos,
                self.output@ == old(self).output@,
                self.memory@ == apply_tape(tape0, s.ptr, pm.take(i as int)),
            decreases n - i,
        {
            let (off, v) = delta.memory[i];
            proof {
                assert(pm[i as int] == (off as int, v as int));
            }
            let a = match self.addr(off) {
                Some(a) => a,
                None => {
                    proof {
                        assert(false);
                    }
                    0
                }
            };
            let cur = self.memory[a];
            let nv = (((cur as u16) + (v as u16)) % 256) as u8;
            self.memory[a] = nv;
            proof {
                let key = off as int;
                lemma_prefix_step(pm, i as int);
                assert forall|j: int| 0 <= j < tape0.len() implies self.memory@[j]
                    == apply_tape(tape0, s.ptr, pm.take(i as int + 1))[j] by {
                    if j == a as int {
                        assert(dlookup(pm.take(i as int + 1), key) == v as int);
                        assert(cur as int == (tape0[j] + 0) % 256);
                    } else {
                        assert(dlookup(pm.take(i as int + 1), j - s.ptr)
                            == dlookup(pm.take(i as int), j - s.ptr));
                    }
                }
                assert(self.memory@ =~= apply_tape(tape0, s.ptr, pm.take(i as int + 1)));
            }
            i += 1;
        }
        proof {
            assert(pm.take(n as int) =~= pm);
        }
        self.data_ptr = new_ptr;
        proof {
            assert(self.mst() =~= apply_pending(pm, delta.data_ptr as int, s));
        }
        Ok(())
    }

    /// Multiply-accumulate: with factor the current cell's value, add
    /// adjustment × factor to each stored cell modulo 256, then clear the
    /// current cell.  A zero factor is a no-op; an off-tape target cell is a
    /// reported fault that changes nothing.
    pub fn run_bfp_multiply(&mut self, memory: &Vec<(i128, u8)>) -> (r: Result<(), RunError>)
        requires
            old(self).inv(),
            delta_wf(pairs_view(memory@)),
            delta_no_zero_off(pairs_view(memory@)),
        ensures
            final(self).inv(),
            ({
                let s = old(self).mst();
                let pm = pairs_view(memory@);
                if s.tape[s.ptr] == 0 {
                    r == Ok::<(), RunError>(()) && final(self).mst() == s
                } else if offsets_ok(pm, s.ptr, s.tape.len() as int) {
                    r == Ok::<(), RunError>(()) && final(self).mst() == apply_mul(pm, s)
                } else {
                    r == Err::<(), RunError>(RunError::OutOfBounds) && final(self).mst() == s
                }
            }),
    {
        let ghost s = self.mst();
        let ghost pm = pairs_view(memory@);
        let p = self.data_ptr;
        let factor = self.memory[p];
        if factor == 0 {
            return Ok(());
        }
        let n = memory.len();
        // First pass: validate every target cell.
        let mut i: usize = 0;
        while i < n
            invariant
                self.inv(),
                *self == *old(self),
                s == old(self).mst(),
                pm == pairs_view(memory@),
                delta_wf(pm),
                i <= n,
                n == memory@.len(),
                factor == s.tape[s.ptr],
                factor > 0,
                forall|t: int| 0 <= t < i ==> 0 <= s.ptr + (#[trigger] pm[t]).0 < s.tape.len(),
            decreases n - i,
        {
            let (off, _v) = memory[i];
            proof {
                assert(pm[i as int] == (off as int, _v as int));
            }
            if self.addr(off).is_none() {
                proof {
                    assert(!(0 <= s.ptr + pm[i as int].0 < s.tape.len()));
                }
                return Err(RunError::OutOfBounds);
            }
            i += 1;
        }
        // Second pass: apply the scaled adjustments; the driving cell is not
        // among the targets, so the factor stays fixed throughout.
        let ghost tape0 = self.memory@;
        let mut i: usize = 0;
        while i < n
            invariant
                self.inv(),
                s == old(self).mst(),
                pm == pairs_view(memory@),
                delta_wf(pm),
                delta_no_zero_off(pm),
                i <= n,
                n == memory@.len(),
                tape0 == s.tape,
                p == self.data_ptr,
                factor == s.tape[s.ptr],
                factor > 0,
                offsets_ok(pm, s.ptr, s.tape.len() as int),
                self.data_ptr == old(self).data_ptr,
                self.input@ == old(self).input@,
                self.input_pos == old(self).input_pos,
                self.output@ == old(self).output@,
                self.memory@.len() == tape0.len(),
                forall|j: int| 0 <= j < tape0.len() ==> #[trigger] self.memory@[j]
                    == ((tape0[j] + dlookup(pm.take(i as int), j - s.ptr) * (factor as int)) % 256) as u8,
            decreases n - i,
        {
            let (off, v) = memory[i];
            proof {
                assert(pm[i as int] == (off as int, v as int));
            }
            let a = match self.addr(off) {
                Some(a) => a,
                None => {
                    proof {
                        assert(false);
                    }
                    0
                }
            };
            let cur = self.memory[a];
            proof {
                assert((v as u32) * (factor as u32) <= 255 * 255) by (nonlinear_arith)
                    requires v <= 255 && factor <= 255;
            }
            let nv = (((cur as u32) + (v as u32) * (factor as u32)) % 256) as u8;
            self.memory[a] = nv;
            proof {
                let key = off as int;
                lemma_prefix_step(pm, i as int);
                assert forall|j: int| 0 <= j < tape0.len() implies self.memory@[j]
                    == ((tape0[j] + dlookup(pm.take(i as int + 1), j - s.ptr) * (factor as int)) % 256) as u8 by {
                    if j == a as int {
                        assert(dlookup(pm.take(i as int + 1), key) == v as int);
                        assert(dlookup(pm.take(i as int), key) == 0);
                        assert(cur as int == (tape0[j] + 0 * (factor as int)) % 256);
                        assert(nv as int == (cur as int + (v as int) * (factor as int)) % 256);
                    } else {
                        assert(dlookup(pm.take(i as int + 1), j - s.ptr)
                            == dlookup(pm.take(i as int), j - s.ptr));
                    }
                }
            }
            i += 1;
        }
        // Clear the driving cell.
        self.memory[p] = 0;
        proof {
            assert(pm.take(n as int) =~= pm);
            assert(dlookup(pm, 0) == 0) by {
                lemma_has_key_iff(pm, 0);
                if has_key(pm, 0) {
                    let w = choose|t: int| 0 <= t < pm.len() && (#[trigger] pm[t]).0 == 0;
                    assert(false);
                }
                lemma_dlookup_absent(pm, 0);
            }
            assert(self.mst().tape =~= apply_mul(pm, s).tape);
            assert(self.mst() =~= apply_mul(pm, s));
        }
        Ok(())
    }

    /// Multiply-accumulate with a single target cell.
    pub fn run_bfp_multiply_single(&mut self, offset: i128, delta: u8) -> (r: Result<(), RunError>)
        requires
            old(self).inv(),
            offset != 0,
        ensures
            final(self).inv(),
            ({
                let s = old(self).mst();
                let pm = seq![(offset as int, delta as int)];
                if s.tape[s.ptr] == 0 {
                    r == Ok::<(), RunError>(()) && final(self).mst() == s
                } else if offsets_ok(pm, s.ptr, s.tape.len() as int) {
                    r == Ok::<(), RunError>(()) && final(self).mst() == apply_mul(pm, s)
                } else {
                    r == Err::<(), RunError>(RunError::OutOfBounds) && final(self).mst() == s
                }
            }),
    {
        let ghost s = self.mst();
        let ghost pm: Seq<(int, int)> = seq![(offset as int, delta as int)];
        let p = self.data_ptr;
        let factor = self.memory[p];
        if factor == 0 {
            return Ok(());
        }
        let a = match self.addr(offset) {
            Some(a) => a,
            None => {
                proof {
                    assert(pm[0].0 == offset as int);
                    assert(!(0 <= s.ptr + pm[0].0 < s.tape.len()));
                }
                return Err(RunError::OutOfBounds);
            }
        };
        let cur = self.memory[a];
        proof {
            assert((delta as u32) * (factor as u32) <= 255 * 255) by (nonlinear_arith)
                requires delta <= 255 && factor <= 255;
        }
        let nv = (((cur as u32) + (delta as u32) * (factor as u32)) % 256) as u8;
        self.memory[a] = nv;
        self.memory[p] = 0;
        proof {
            assert(pm.drop_first() =~= Seq::<(int, int)>::empty());
            assert forall|k2: int| true implies #[trigger] dlookup(pm, k2)
                == if k2 == offset as int { delta as int } else { 0 } by {
                assert(dlookup(Seq::<(int, int)>::empty(), k2) == 0);
            }
            assert(self.mst().tape =~= apply_mul(pm, s).tape);
            assert(self.mst() =~= apply_mul(pm, s));
        }
        Ok(())
    }

    /// Scan for a zero cell: move the pointer by `step` until the addressed
    /// cell is zero, spending one unit of fuel per move.
    pub fn run_bfp_scanzero(&mut self, step: i128, fuel: u64) -> (r: Result<u64, RunError>)
        requires
            old(self).inv(),
        ensures
            final(self).inv(),
            ({
                match scan_step(old(self).mst(), step as int, fuel as nat) {
                    Step::Done { st, fuel: f2 } => r matches Ok(fr) && fr as nat == f2
                        && final(self).mst() == st,
                    Step::Cut { st } => r == Err::<u64, RunError>(RunError::OutOfFuel)
                        && final(self).mst() == st,
                    Step::Fail { err, st } => r == Err::<u64, RunError>(err)
                        && final(self).mst() == st,
                }
            }),
    {
        let ghost s0 = self.mst();
        let mut f = fuel;
        loop
            invariant
                self.inv(),
                f <= fuel,
                s0 == old(self).mst(),
                scan_step(s0, step as int, fuel as nat) == scan_step(self.mst(), step as int, f as nat),
            decreases f,
        {
            let p = self.data_ptr;
            if self.memory[p] == 0 {
                return Ok(f);
            }
            if f == 0 {
                return Err(RunError::OutOfFuel);
            }
            match self.addr(step) {
                Some(a) => {
                    self.data_ptr = a;
                    f = f - 1;
                }
                None => {
                    return Err(RunError::OutOfBounds);
                }
            }
        }
    }

    /// Run one raw block: the direct per-instruction interpreter, used as
    /// the oracle the optimized engine is measured against.
    pub fn run_block(&mut self, program: &BFProgram, j: usize, fuel: u64) -> (r: Result<u64, RunError>)
        requires
            old(self).inv(),
            program.wf(),
            j < program@.len(),
        ensures
            final(self).inv(),
            ({
                match rexec(program@, program@[j as int], old(self).mst(), fuel as nat) {
                    Step::Done { st, fuel: f2 } => r matches Ok(fr) && fr as nat == f2
                        && final(self).mst() == st,
                    Step::Cut { st } => r == Err::<u64, RunError>(RunError::OutOfFuel)
                        && final(self).mst() == st,
                    Step::Fail { err, st } => r == Err::<u64, RunError>(err)
                        && final(self).mst() == st,
                }
            }),
        decreases fuel,
    {
        let ghost blocks = program@;
        let ghost s0 = self.mst();
        let cmds: &Vec<BFCommand> = &program.blocks[j];
        let ghost bv = blocks[j as int];
        proof {
            assert(bv == cmds@);
        }
        let n = cmds.len();
        let mut f = fuel;
        let mut pc: usize = 0;
        proof {
            assert(bv.skip(0) =~= bv);
        }
        while pc < n
            invariant
                self.inv(),
                program.wf(),
                j < program@.len(),
                blocks == program@,
                bv == cmds@,
                bv == blocks[j as int],
                n == cmds@.len(),
                pc <= n,
                f <= fuel,
                s0 == old(self).mst(),
                rexec(blocks, bv, s0, fuel as nat) == rexec(blocks, bv.skip(pc as int), self.mst(), f as nat),
            decreases n - pc,
        {
            proof {
                lemma_skip_step(bv, pc as int);
            }
            match cmds[pc] {
                BFCommand::IncDataPtr => {
                    if self.data_ptr < self.memory.len() - 1 {
                        self.data_ptr = self.data_ptr + 1;
                    } else {
                        return Err(RunError::OutOfBounds);
                    }
                }
                BFCommand::DecDataPtr => {
                    if self.data_ptr >= 1 {
                        self.data_ptr = self.data_ptr - 1;
                    } else {
                        return Err(RunError::OutOfBounds);
                    }
                }
                BFCommand::Inc => {
                    let p = self.data_ptr;
                    let cur = self.memory[p];
                    let nv = (((cur as u16) + 1) % 256) as u8;
                    self.memory[p] = nv;
                }
                BFCommand::Dec => {
                    let p = self.data_ptr;
                    let cur = self.memory[p];
                    let nv = (((cur as u16) + 255) % 256) as u8;
                    self.memory[p] = nv;
                }
                BFCommand::Read => {
                    match self.run_bfp_read() {
                        Ok(()) => {}
                        Err(e) => {
                            return Err(e);
                        }
                    }
                }
                BFCommand::Write => {
                    self.run_bfp_write();
                }
                BFCommand::Loop(k) => {
                    proof {
                        assert(raw_cmd_wf(bv[pc as int], j as int));
                    }
                    let ghost suffix = bv.skip(pc as int);
                    let ghost s_enter = self.mst();
                    let ghost f_enter = f;
                    while self.memory[self.data_ptr] != 0
                        invariant
                            self.inv(),
                            program.wf(),
                            j < program@.len(),
                            blocks == program@,
                            k < j,
                            f <= fuel,
                            s0 == old(self).mst(),
                            bv == blocks[j as int],
                            0 < suffix.len(),
                            suffix[0] == BFCommand::Loop(k),
                            rexec(blocks, bv, s0, fuel as nat)
                                == rexec(blocks, suffix, self.mst(), f as nat),
                        decreases f,
                    {
                        if f == 0 {
                            return Err(RunError::OutOfFuel);
                        }
                        let f1 = f - 1;
                        let ghost pre = self.mst();
                        match self.run_block(program, k, f1) {
                            Ok(f2) => {
                                proof {
                                    lemma_rexec_fuel_bound(blocks, blocks[k as int], pre, f1 as nat);
                                }
                                f = f2;
                            }
                            Err(e) => {
                                return Err(e);
                            }
                        }
                    }
                    proof {
                        assert(rexec(blocks, suffix, self.mst(), f as nat)
                            == rexec(blocks, suffix.drop_first(), self.mst(), f as nat));
                    }
                }
            }
            pc += 1;
        }
        proof {
            assert(bv.skip(n as int).len() == 0);
        }
        Ok(f)
    }

    /// Run a raw program from its root block.
    pub fn run(&mut self, program: &BFProgram, fuel: u64) -> (r: Result<u64, RunError>)
        requires
            old(self).inv(),
            program.wf(),
        ensures
            final(self).inv(),
            ({
                match rexec(program@, program@[program.root()], old(self).mst(), fuel as nat) {
                    Step::Done { st, fuel: f2 } => r matches Ok(fr) && fr as nat == f2
                        && final(self).mst() == st,
                    Step::Cut { st } => r == Err::<u64, RunError>(RunError::OutOfFuel)
                        && final(self).mst() == st,
                    Step::Fail { err, st } => r == Err::<u64, RunError>(err)
                        && final(self).mst() == st,
                }
            }),
    {
        let j = program.blocks.len() - 1;
        self.run_block(program, j, fuel)
    }

    /// Run one optimized block to completion, a fault, or fuel exhaustion.
    #[verifier::rlimit(60)]
    pub fn run_opt_block(&mut self, program: &BFPProgram, j: usize, fuel: u64) -> (r: Result<u64, RunError>)
        requires
            old(self).inv(),
            program.wf(),
            j < program@.len(),
        ensures
            final(self).inv(),
            ({
                match orun(program@, program@[j as int], old(self).mst(), fuel as nat) {
                    Step::Done { st, fuel: f2 } => r matches Ok(fr) && fr as nat == f2
                        && final(self).mst() == st,
                    Step::Cut { st } => r == Err::<u64, RunError>(RunError::OutOfFuel)
                        && final(self).mst() == st,
                    Step::Fail { err, st } => r == Err::<u64, RunError>(err)
                        && final(self).mst() == st,
                }
            }),
        decreases fuel, 1int,
    {
        let ghost oblocks = program@;
        let ghost s0 = self.mst();
        let cmds: &Vec<BFPCommand> = &program.blocks[j];
        let ghost bv = oblocks[j as int];
        proof {
            assert(bv == cmds@.map_values(|c: BFPCommand| opt_view(c)));
        }
        let n = cmds.len();
        let mut f = fuel;
        let mut pc: usize = 0;
        proof {
            assert(bv.skip(0) =~= bv);
        }
        while pc < n
            invariant
                self.inv(),
                program.wf(),
                j < program@.len(),
                oblocks == program@,
                bv == cmds@.map_values(|c: BFPCommand| opt_view(c)),
                bv == oblocks[j as int],
                n == cmds@.len(),
                pc <= n,
                f <= fuel,
                s0 == old(self).mst(),
                orun(oblocks, bv, s0, fuel as nat) == orun(oblocks, bv.skip(pc as int), self.mst(), f as nat),
            decreases n - pc,
        {
            proof {
                lemma_skip_step(bv, pc as int);
                assert(bv[pc as int] == opt_view(cmds@[pc as int]));
                assert(opt_cmd_wf(bv[pc as int], j as int));
            }
            match &cmds[pc] {
                BFPCommand::Update(d) => {
                    match self.run_bfp_update(d) {
                        Ok(()) => {}
                        Err(e) => {
                            return Err(e);
                        }
                    }
                }
                BFPCommand::Multiply(m) => {
                    match self.run_bfp_multiply(m) {
                        Ok(()) => {}
                        Err(e) => {
                            return Err(e);
                        }
                    }
                }
                BFPCommand::MultiplySingle(off, delta) => {
                    match self.run_bfp_multiply_single(*off, *delta) {
                        Ok(()) => {}
                        Err(e) => {
                            return Err(e);
                        }
                    }
                }
                BFPCommand::Shift(dp) => {
                    match self.run_bfp_shift(*dp) {
                        Ok(()) => {}
                        Err(e) => {
                            return Err(e);
                        }
                    }
                }
                BFPCommand::ZeroCell => {
                    self.run_bfp_zero_cell();
                }
                BFPCommand::ScanZero(dp) => {
                    let ghost pre = self.mst();
                    match self.run_bfp_scanzero(*dp, f) {
                        Ok(f2) => {
                            proof {
                                lemma_scan_fuel_bound(pre, *dp as int, f as nat);
                            }
                            f = f2;
                        }
                        Err(e) => {
                            return Err(e);
                        }
                    }
                }
                BFPCommand::Read => {
                    match self.run_bfp_read() {
                        Ok(()) => {}
                        Err(e) => {
                            return Err(e);
                        }
                    }
                }
                BFPCommand::Write => {
                    self.run_bfp_write();
                }
                BFPCommand::Loop(k) => {
                    let ghost suffix = bv.skip(pc as int);
                    let k = *k;
                    let ghost pre = self.mst();
                    let ghost lsing: Seq<OCmd> = seq![OCmd::Loop { k: k as int }];
                    let r = self.run_bfp_loop(program, k, f);
                    proof {
                        assert(lsing[0] == suffix[0]);
                        assert(suffix =~= lsing + suffix.drop_first());
                        lemma_orun_append(oblocks, lsing, suffix.drop_first(), pre, f as nat);
                    }
                    match r {
                        Ok(f2) => {
                            proof {
                                lemma_orun_fuel_bound(oblocks, lsing, pre, f as nat);
                            }
                            f = f2;
                        }
                        Err(e) => {
                            return Err(e);
                        }
                    }
                }
            }
            pc += 1;
        }
        proof {
            assert(bv.skip(n as int).len() == 0);
        }
        Ok(f)
    }

    /// Run the body block `k` as a loop: re-run it while the current cell is
    /// nonzero, spending one unit of fuel per iteration.
    pub fn run_bfp_loop(&mut self, program: &BFPProgram, k: usize, fuel: u64) -> (r: Result<u64, RunError>)
        requires
            old(self).inv(),
            program.wf(),
            k < program@.len(),
        ensures
            final(self).inv(),
            ({
                match orun(program@, seq![OCmd::Loop { k: k as int }], old(self).mst(), fuel as nat) {
                    Step::Done { st, fuel: f2 } => r matches Ok(fr) && fr as nat == f2
                        && final(self).mst() == st,
                    Step::Cut { st } => r == Err::<u64, RunError>(RunError::OutOfFuel)
                        && final(self).mst() == st,
                    Step::Fail { err, st } => r == Err::<u64, RunError>(err)
                        && final(self).mst() == st,
                }
            }),
        decreases fuel, 0int,
    {
        let ghost lcmd: Seq<OCmd> = seq![OCmd::Loop { k: k as int }];
        let ghost s0 = self.mst();
        let mut f = fuel;
        while self.memory[self.data_ptr] != 0
            invariant
                self.inv(),
                program.wf(),
                k < program@.len(),
                f <= fuel,
                s0 == old(self).mst(),
                lcmd == seq![OCmd::Loop { k: k as int }],
                orun(program@, lcmd, s0, fuel as nat) == orun(program@, lcmd, self.mst(), f as nat),
            decreases f,
        {
            if f == 0 {
                return Err(RunError::OutOfFuel);
            }
            let f1 = f - 1;
            let ghost pre = self.mst();
            match self.run_opt_block(program, k, f1) {
                Ok(f2) => {
                    proof {
                        lemma_orun_fuel_bound(program@, program@[k as int], pre, f1 as nat);
                    }
                    f = f2;
                }
                Err(e) => {
                    return Err(e);
                }
            }
        }
        proof {
            assert(lcmd.drop_first().len() == 0);
            assert(orun(program@, lcmd, self.mst(), f as nat)
                == orun(program@, lcmd.drop_first(), self.mst(), f as nat));
        }
        Ok(f)
    }

    /// Run an optimized program from its root block.
    pub fn run_optimized(&mut self, program: &BFPProgram, fuel: u64) -> (r: Result<u64, RunError>)
        requires
            old(self).inv(),
            program.wf(),
        ensures
            final(self).inv(),
            ({
                match orun(program@, program@[program.root()], old(self).mst(), fuel as nat) {
                    Step::Done { st, fuel: f2 } => r matches Ok(fr) && fr as nat == f2
                        && final(self).mst() == st,
                    Step::Cut { st } => r == Err::<u64, RunError>(RunError::OutOfFuel)
                        && final(self).mst() == st,
                    Step::Fail { err, st } => r == Err::<u64, RunError>(err)
                        && final(self).mst() == st,
                }
            }),
    {
        let j = program.blocks.len() - 1;
        self.run_opt_block(program, j, fuel)
    }

    /// Emit the current cell to the output channel.
    pub fn run_bfp_write(&mut self)
        requires
            old(self).inv(),
        ensures
            final(self).inv(),
            final(self).mst() == (MState {
                out: old(self).mst().out.push(old(self).mst().tape[old(self).mst().ptr]),
                ..old(self).mst()
            }),
    {
        let p = self.data_ptr;
        let b = self.memory[p];
        self.output.push(b);
    }
}

} // verus!
