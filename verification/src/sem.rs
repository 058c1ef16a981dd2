//! Machine states and the fuel-indexed semantics of both program forms.
//!
//! A machine state is a byte tape, a data pointer, the bytes still waiting
//! on the input channel, and the bytes already written to the output
//! channel.  The interpreters [`rexec`] (raw form) and [`orun`] (optimized
//! form) are total: they thread a fuel value that is spent once per loop
//! iteration, and answer `Cut` when it runs out, so that non-terminating
//! programs still have a well-defined meaning at every finite depth.

use vstd::prelude::*;
use crate::ast::{BFCommand, OCmd};

verus! {

/// Why a run stopped before the end of the program.
#[derive(Clone, Copy, PartialEq, Eq, Structural, Debug)]
pub enum RunError {
    /// The pointer was moved, or a cell was addressed, outside the tape.
    OutOfBounds,
    /// A read instruction found the input channel exhausted.
    EndOfInput,
    /// The caller's step budget ran out before the program finished.
    OutOfFuel,
}

/// The mathematical state of a machine.
pub ghost struct MState {
    /// The byte tape.
    pub tape: Seq<u8>,
    /// The data pointer: an index into the tape.
    pub ptr: int,
    /// Bytes still waiting on the input channel.
    pub inp: Seq<u8>,
    /// Bytes already written to the output channel.
    pub out: Seq<u8>,
}

/// Outcome of running a program fragment with a given amount of fuel.
pub ghost enum Step {
    /// The fragment ran to completion; `fuel` is what is left of the budget.
    Done { st: MState, fuel: nat },
    /// The fuel ran out first.
    Cut { st: MState },
    /// The run stopped at an addressing fault or an exhausted input.
    Fail { err: RunError, st: MState },
}

/// The pointer addresses a valid cell of a nonempty tape.
pub open spec fn st_valid(s: MState) -> bool {
    &&& s.tape.len() >= 1
    &&& 0 <= s.ptr < s.tape.len()
}

/// The net adjustment stored for offset `k`, or zero when none is stored.
pub open spec fn dlookup(pm: Seq<(int, int)>, k: int) -> int
    decreases pm.len(),
{
    if pm.len() == 0 {
        0
    } else if pm[0].0 == k {
        pm[0].1
    } else {
        dlookup(pm.drop_first(), k)
    }
}

/// Every stored offset addresses a valid cell from pointer `ptr`.
pub open spec fn offsets_ok(pm: Seq<(int, int)>, ptr: int, len: int) -> bool {
    forall|i: int| 0 <= i < pm.len() ==> 0 <= ptr + (#[trigger] pm[i]).0 < len
}

/// The tape after adding each stored adjustment to its cell, modulo 256.
pub open spec fn apply_tape(tape: Seq<u8>, ptr: int, pm: Seq<(int, int)>) -> Seq<u8> {
    Seq::new(tape.len(), |i: int| ((tape[i] + dlookup(pm, i - ptr)) % 256) as u8)
}

/// An update batch is applicable: every adjusted cell and the final pointer
/// position are on the tape.
pub open spec fn pending_ok(pm: Seq<(int, int)>, pd: int, s: MState) -> bool {
    &&& offsets_ok(pm, s.ptr, s.tape.len() as int)
    &&& 0 <= s.ptr + pd < s.tape.len()
}

/// The state after applying an update batch.
pub open spec fn apply_pending(pm: Seq<(int, int)>, pd: int, s: MState) -> MState {
    MState { tape: apply_tape(s.tape, s.ptr, pm), ptr: s.ptr + pd, ..s }
}

/// The state after a multiply-accumulate with a nonzero current cell:
/// each stored cell gains adjustment × factor modulo 256, and the current
/// (driving) cell is cleared.
pub open spec fn apply_mul(pm: Seq<(int, int)>, s: MState) -> MState {
    let factor = s.tape[s.ptr] as int;
    MState {
        tape: Seq::new(
            s.tape.len(),
            |i: int|
                if i == s.ptr {
                    0u8
                } else {
                    ((s.tape[i] + dlookup(pm, i - s.ptr) * factor) % 256) as u8
                },
        ),
        ..s
    }
}

/// Fuel-indexed interpreter for a sequence of raw instructions.
///
/// `blocks` is the arena the loop instructions refer into; one unit of fuel
/// is spent each time a loop body is entered.
pub open spec fn rexec(blocks: Seq<Seq<BFCommand>>, cmds: Seq<BFCommand>, s: MState, fuel: nat) -> Step
    decreases fuel, cmds.len(),
{
    if cmds.len() == 0 {
        Step::Done { st: s, fuel }
    } else {
        let rest = cmds.drop_first();
        match cmds[0] {
            BFCommand::IncDataPtr => {
                if s.ptr + 1 < s.tape.len() {
                    rexec(blocks, rest, MState { ptr: s.ptr + 1, ..s }, fuel)
                } else {
                    Step::Fail { err: RunError::OutOfBounds, st: s }
                }
            }
            BFCommand::DecDataPtr => {
                if s.ptr >= 1 {
                    rexec(blocks, rest, MState { ptr: s.ptr - 1, ..s }, fuel)
                } else {
                    Step::Fail { err: RunError::OutOfBounds, st: s }
                }
            }
            BFCommand::Inc => {
                let v = ((s.tape[s.ptr] + 1) % 256) as u8;
                rexec(blocks, rest, MState { tape: s.tape.update(s.ptr, v), ..s }, fuel)
            }
            BFCommand::Dec => {
                let v = ((s.tape[s.ptr] + 255) % 256) as u8;
                rexec(blocks, rest, MState { tape: s.tape.update(s.ptr, v), ..s }, fuel)
            }
            BFCommand::Read => {
                if s.inp.len() == 0 {
                    Step::Fail { err: RunError::EndOfInput, st: s }
                } else {
                    let s2 = MState {
                        tape: s.tape.update(s.ptr, s.inp[0]),
                        inp: s.inp.drop_first(),
                        ..s
                    };
                    rexec(blocks, rest, s2, fuel)
                }
            }
            BFCommand::Write => {
                rexec(blocks, rest, MState { out: s.out.push(s.tape[s.ptr]), ..s }, fuel)
            }
            BFCommand::Loop(k) => {
                if s.tape[s.ptr] == 0 {
                    rexec(blocks, rest, s, fuel)
                } else if fuel == 0 {
                    Step::Cut { st: s }
                } else if k >= blocks.len() {
                    Step::Fail { err: RunError::OutOfBounds, st: s }
                } else {
                    match rexec(blocks, blocks[k as int], s, (fuel - 1) as nat) {
                        Step::Done { st: s2, fuel: f2 } => {
                            if f2 < fuel {
                                rexec(blocks, cmds, s2, f2)
                            } else {
                                Step::Cut { st: s2 }
                            }
                        }
                        r => r,
                    }
                }
            }
        }
    }
}

/// Pointer scan: move by `dp` until the addressed cell is zero, spending one
/// unit of fuel per move.
pub open spec fn scan_step(s: MState, dp: int, fuel: nat) -> Step
    decreases fuel,
{
    if s.tape[s.ptr] == 0 {
        Step::Done { st: s, fuel }
    } else if fuel == 0 {
        Step::Cut { st: s }
    } else if 0 <= s.ptr + dp < s.tape.len() {
        scan_step(MState { ptr: s.ptr + dp, ..s }, dp, (fuel - 1) as nat)
    } else {
        Step::Fail { err: RunError::OutOfBounds, st: s }
    }
}

/// Fuel-indexed interpreter for a sequence of optimized instructions.
///
/// Fuel is spent once per loop-body entry and once per scan move, exactly as
/// the raw interpreter spends it on the loops those instructions came from.
pub open spec fn orun(oblocks: Seq<Seq<OCmd>>, cmds: Seq<OCmd>, s: MState, fuel: nat) -> Step
    decreases fuel, cmds.len(),
{
    if cmds.len() == 0 {
        Step::Done { st: s, fuel }
    } else {
        let rest = cmds.drop_first();
        match cmds[0] {
            OCmd::Update { mem, dp } => {
                if pending_ok(mem, dp, s) {
                    orun(oblocks, rest, apply_pending(mem, dp, s), fuel)
                } else {
                    Step::Fail { err: RunError::OutOfBounds, st: s }
                }
            }
            OCmd::Multiply { mem } => {
                if s.tape[s.ptr] == 0 {
                    orun(oblocks, rest, s, fuel)
                } else if offsets_ok(mem, s.ptr, s.tape.len() as int) {
                    orun(oblocks, rest, apply_mul(mem, s), fuel)
                } else {
                    Step::Fail { err: RunError::OutOfBounds, st: s }
                }
            }
            OCmd::MulSingle { off, delta } => {
                if s.tape[s.ptr] == 0 {
                    orun(oblocks, rest, s, fuel)
                } else if offsets_ok(seq![(off, delta)], s.ptr, s.tape.len() as int) {
                    orun(oblocks, rest, apply_mul(seq![(off, delta)], s), fuel)
                } else {
                    Step::Fail { err: RunError::OutOfBounds, st: s }
                }
            }
            OCmd::Shift { dp } => {
                if 0 <= s.ptr + dp < s.tape.len() {
                    orun(oblocks, rest, MState { ptr: s.ptr + dp, ..s }, fuel)
                } else {
                    Step::Fail { err: RunError::OutOfBounds, st: s }
                }
            }
            OCmd::Zero => {
                orun(oblocks, rest, MState { tape: s.tape.update(s.ptr, 0u8), ..s }, fuel)
            }
            OCmd::Scan { dp } => {
                match scan_step(s, dp, fuel) {
                    Step::Done { st: s2, fuel: f2 } => {
                        if f2 <= fuel {
                            orun(oblocks, rest, s2, f2)
                        } else {
                            Step::Cut { st: s2 }
                        }
                    }
                    r => r,
                }
            }
            OCmd::Loop { k } => {
                if s.tape[s.ptr] == 0 {
                    orun(oblocks, rest, s, fuel)
                } else if fuel == 0 {
                    Step::Cut { st: s }
                } else if !(0 <= k < oblocks.len()) {
                    Step::Fail { err: RunError::OutOfBounds, st: s }
                } else {
                    match orun(oblocks, oblocks[k], s, (fuel - 1) as nat) {
                        Step::Done { st: s2, fuel: f2 } => {
                            if f2 < fuel {
                                orun(oblocks, cmds, s2, f2)
                            } else {
                                Step::Cut { st: s2 }
                            }
                        }
                        r => r,
                    }
                }
            }
            OCmd::Read => {
                if s.inp.len() == 0 {
                    Step::Fail { err: RunError::EndOfInput, st: s }
                } else {
                    let s2 = MState {
                        tape: s.tape.update(s.ptr, s.inp[0]),
                        inp: s.inp.drop_first(),
                        ..s
                    };
                    orun(oblocks, rest, s2, fuel)
                }
            }
            OCmd::Write => {
                orun(oblocks, rest, MState { out: s.out.push(s.tape[s.ptr]), ..s }, fuel)
            }
        }
    }
}

/// Some entry of the adjustment list has offset `k`.
pub open spec fn has_key(pm: Seq<(int, int)>, k: int) -> bool
    decreases pm.len(),
{
    if pm.len() == 0 {
        false
    } else if pm[0].0 == k {
        true
    } else {
        has_key(pm.drop_first(), k)
    }
}

pub proof fn lemma_has_key_iff(pm: Seq<(int, int)>, k: int)
    ensures
        has_key(pm, k) <==> exists|i: int| 0 <= i < pm.len() && (#[trigger] pm[i]).0 == k,
    decreases pm.len(),
{
    if pm.len() == 0 {
    } else if pm[0].0 == k {
        assert(pm[0].0 == k);
    } else {
        lemma_has_key_iff(pm.drop_first(), k);
        if has_key(pm, k) {
            let w = choose|i: int| 0 <= i < pm.drop_first().len() && (#[trigger] pm.drop_first()[i]).0 == k;
            assert(pm[w + 1].0 == k);
        }
        if exists|i: int| 0 <= i < pm.len() && (#[trigger] pm[i]).0 == k {
            let w = choose|i: int| 0 <= i < pm.len() && (#[trigger] pm[i]).0 == k;
            assert(pm.drop_first()[w - 1].0 == k);
        }
    }
}

/// Offsets that are not stored look up to a zero adjustment.
pub proof fn lemma_dlookup_absent(pm: Seq<(int, int)>, k: int)
    requires
        !has_key(pm, k),
    ensures
        dlookup(pm, k) == 0,
    decreases pm.len(),
{
    if pm.len() > 0 {
        lemma_dlookup_absent(pm.drop_first(), k);
    }
}

/// How a lookup changes when one entry is appended.
pub proof fn lemma_dlookup_push(pm: Seq<(int, int)>, p: (int, int), k: int)
    ensures
        dlookup(pm.push(p), k) == if has_key(pm, k) {
            dlookup(pm, k)
        } else if p.0 == k {
            p.1
        } else {
            0
        },
    decreases pm.len(),
{
    if pm.len() == 0 {
        assert(pm.push(p)[0] == p);
        assert(pm.push(p).drop_first() =~= Seq::<(int, int)>::empty());
        assert(dlookup(Seq::<(int, int)>::empty(), k) == 0);
        assert(dlookup(pm.push(p), k) == if p.0 == k { p.1 } else { 0 });
    } else {
        assert(pm.push(p)[0] == pm[0]);
        assert(pm.push(p).drop_first() =~= pm.drop_first().push(p));
        lemma_dlookup_push(pm.drop_first(), p, k);
    }
}

/// Stepping one instruction forward through a suffix of a sequence.
pub proof fn lemma_skip_step<T>(s: Seq<T>, i: int)
    requires
        0 <= i < s.len(),
    ensures
        s.skip(i).len() == s.len() - i,
        s.skip(i)[0] == s[i],
        s.skip(i).drop_first() == s.skip(i + 1),
{
    assert(s.skip(i).drop_first() =~= s.skip(i + 1));
}

/// Running a concatenation is running the first part, then the second.
pub proof fn lemma_orun_append(oblocks: Seq<Seq<OCmd>>, a: Seq<OCmd>, b: Seq<OCmd>, s: MState, fuel: nat)
    ensures
        orun(oblocks, a + b, s, fuel) == (match orun(oblocks, a, s, fuel) {
            Step::Done { st, fuel: f2 } => orun(oblocks, b, st, f2),
            Step::Cut { st } => Step::Cut { st },
            Step::Fail { err, st } => Step::Fail { err, st },
        }),
    decreases fuel, a.len(),
{
    if a.len() == 0 {
        assert(a + b =~= b);
    } else {
        let rest = a.drop_first();
        assert((a + b)[0] == a[0]);
        assert((a + b).drop_first() =~= rest + b);
        match a[0] {
            OCmd::Update { mem, dp } => {
                if pending_ok(mem, dp, s) {
                    lemma_orun_append(oblocks, rest, b, apply_pending(mem, dp, s), fuel);
                }
            }
            OCmd::Multiply { mem } => {
                if s.tape[s.ptr] == 0 {
                    lemma_orun_append(oblocks, rest, b, s, fuel);
                } else if offsets_ok(mem, s.ptr, s.tape.len() as int) {
                    lemma_orun_append(oblocks, rest, b, apply_mul(mem, s), fuel);
                }
            }
            OCmd::MulSingle { off, delta } => {
                if s.tape[s.ptr] == 0 {
                    lemma_orun_append(oblocks, rest, b, s, fuel);
                } else if offsets_ok(seq![(off, delta)], s.ptr, s.tape.len() as int) {
                    lemma_orun_append(oblocks, rest, b, apply_mul(seq![(off, delta)], s), fuel);
                }
            }
            OCmd::Shift { dp } => {
                if 0 <= s.ptr + dp < s.tape.len() {
                    lemma_orun_append(oblocks, rest, b, MState { ptr: s.ptr + dp, ..s }, fuel);
                }
            }
            OCmd::Zero => {
                lemma_orun_append(oblocks, rest, b, MState { tape: s.tape.update(s.ptr, 0u8), ..s }, fuel);
            }
            OCmd::Scan { dp } => {
                match scan_step(s, dp, fuel) {
                    Step::Done { st: s2, fuel: f2 } => {
                        if f2 <= fuel {
                            lemma_orun_append(oblocks, rest, b, s2, f2);
                        }
                    }
                    _ => {}
                }
            }
            OCmd::Loop { k } => {
                if s.tape[s.ptr] == 0 {
                    lemma_orun_append(oblocks, rest, b, s, fuel);
                } else if fuel == 0 {
                } else if !(0 <= k < oblocks.len()) {
                } else {
                    match orun(oblocks, oblocks[k], s, (fuel - 1) as nat) {
                        Step::Done { st: s2, fuel: f2 } => {
                            if f2 < fuel {
                                lemma_orun_append(oblocks, a, b, s2, f2);
                            }
                        }
                        _ => {}
                    }
                }
            }
            OCmd::Read => {
                if s.inp.len() > 0 {
                    let s2 = MState {
                        tape: s.tape.update(s.ptr, s.inp[0]),
                        inp: s.inp.drop_first(),
                        ..s
                    };
                    lemma_orun_append(oblocks, rest, b, s2, fuel);
                }
            }
            OCmd::Write => {
                lemma_orun_append(oblocks, rest, b, MState { out: s.out.push(s.tape[s.ptr]), ..s }, fuel);
            }
        }
    }
}

/// Running never leaves more fuel than it was given.
pub proof fn lemma_rexec_fuel_bound(blocks: Seq<Seq<BFCommand>>, cmds: Seq<BFCommand>, s: MState, fuel: nat)
    ensures
        rexec(blocks, cmds, s, fuel) matches Step::Done { st, fuel: f2 } ==> f2 <= fuel,
    decreases fuel, cmds.len(),
{
    if cmds.len() == 0 {
    } else {
        let rest = cmds.drop_first();
        match cmds[0] {
            BFCommand::IncDataPtr => {
                if s.ptr + 1 < s.tape.len() {
                    lemma_rexec_fuel_bound(blocks, rest, MState { ptr: s.ptr + 1, ..s }, fuel);
                }
            }
            BFCommand::DecDataPtr => {
                if s.ptr >= 1 {
                    lemma_rexec_fuel_bound(blocks, rest, MState { ptr: s.ptr - 1, ..s }, fuel);
                }
            }
            BFCommand::Inc => {
                let v = ((s.tape[s.ptr] + 1) % 256) as u8;
                lemma_rexec_fuel_bound(blocks, rest, MState { tape: s.tape.update(s.ptr, v), ..s }, fuel);
            }
            BFCommand::Dec => {
                let v = ((s.tape[s.ptr] + 255) % 256) as u8;
                lemma_rexec_fuel_bound(blocks, rest, MState { tape: s.tape.update(s.ptr, v), ..s }, fuel);
            }
            BFCommand::Read => {
                if s.inp.len() > 0 {
                    let s2 = MState {
                        tape: s.tape.update(s.ptr, s.inp[0]),
                        inp: s.inp.drop_first(),
                        ..s
                    };
                    lemma_rexec_fuel_bound(blocks, rest, s2, fuel);
                }
            }
            BFCommand::Write => {
                lemma_rexec_fuel_bound(blocks, rest, MState { out: s.out.push(s.tape[s.ptr]), ..s }, fuel);
            }
            BFCommand::Loop(k) => {
                if s.tape[s.ptr] == 0 {
                    lemma_rexec_fuel_bound(blocks, rest, s, fuel);
                } else if fuel == 0 {
                } else if k >= blocks.len() {
                } else {
                    lemma_rexec_fuel_bound(blocks, blocks[k as int], s, (fuel - 1) as nat);
                    match rexec(blocks, blocks[k as int], s, (fuel - 1) as nat) {
                        Step::Done { st: s2, fuel: f2 } => {
                            if f2 < fuel {
                                lemma_rexec_fuel_bound(blocks, cmds, s2, f2);
                            }
                        }
                        _ => {}
                    }
                }
            }
        }
    }
}

/// Wraparound: incrementing a cell holding 255 yields 0, and decrementing a
/// cell holding 0 yields 255.
pub proof fn wraparound(blocks: Seq<Seq<BFCommand>>, s: MState, fuel: nat)
    requires
        st_valid(s),
    ensures
        s.tape[s.ptr] == 255 ==> rexec(blocks, seq![BFCommand::Inc], s, fuel)
            == (Step::Done { st: MState { tape: s.tape.update(s.ptr, 0u8), ..s }, fuel }),
        s.tape[s.ptr] == 0 ==> rexec(blocks, seq![BFCommand::Dec], s, fuel)
            == (Step::Done { st: MState { tape: s.tape.update(s.ptr, 255u8), ..s }, fuel }),
{
    let ci: Seq<BFCommand> = seq![BFCommand::Inc];
    let cd: Seq<BFCommand> = seq![BFCommand::Dec];
    assert(ci[0] == BFCommand::Inc && ci.drop_first().len() == 0);
    assert(cd[0] == BFCommand::Dec && cd.drop_first().len() == 0);
    if s.tape[s.ptr] == 255 {
        let v = ((s.tape[s.ptr] + 1) % 256) as u8;
        assert(v == 0u8);
        assert(rexec(blocks, ci.drop_first(), MState { tape: s.tape.update(s.ptr, v), ..s }, fuel)
            == (Step::Done { st: MState { tape: s.tape.update(s.ptr, v), ..s }, fuel }));
    }
    if s.tape[s.ptr] == 0 {
        let v = ((s.tape[s.ptr] + 255) % 256) as u8;
        assert(v == 255u8);
        assert(rexec(blocks, cd.drop_first(), MState { tape: s.tape.update(s.ptr, v), ..s }, fuel)
            == (Step::Done { st: MState { tape: s.tape.update(s.ptr, v), ..s }, fuel }));
    }
}

/// A clear loop empties its cell: the loop whose whole body decrements the
/// current cell ends with that cell at zero, whatever value it held, in as
/// many iterations as that value.
pub proof fn clear_loop_clears(s: MState, fuel: nat)
    requires
        st_valid(s),
        fuel >= s.tape[s.ptr],
    ensures
        ({
            let blocks = seq![seq![BFCommand::Dec], seq![BFCommand::Loop(0)]];
            rexec(blocks, blocks[1], s, fuel) == (Step::Done {
                st: MState { tape: s.tape.update(s.ptr, 0u8), ..s },
                fuel: (fuel - s.tape[s.ptr]) as nat,
            })
        }),
    decreases s.tape[s.ptr],
{
    let blocks = seq![seq![BFCommand::Dec], seq![BFCommand::Loop(0)]];
    let cmds = blocks[1];
    let v = s.tape[s.ptr] as int;
    assert(cmds[0] == BFCommand::Loop(0usize) && cmds.drop_first().len() == 0);
    assert(blocks[0][0] == BFCommand::Dec && blocks[0].drop_first().len() == 0);
    if v == 0 {
        assert(s.tape.update(s.ptr, 0u8) =~= s.tape);
        assert(rexec(blocks, cmds.drop_first(), s, fuel) == (Step::Done { st: s, fuel }));
    } else {
        let w = ((s.tape[s.ptr] + 255) % 256) as u8;
        assert(w as int == v - 1);
        let s2 = MState { tape: s.tape.update(s.ptr, w), ..s };
        assert(rexec(blocks, blocks[0].drop_first(), s2, (fuel - 1) as nat)
            == (Step::Done { st: s2, fuel: (fuel - 1) as nat }));
        assert(rexec(blocks, blocks[0], s, (fuel - 1) as nat)
            == (Step::Done { st: s2, fuel: (fuel - 1) as nat }));
        assert(st_valid(s2));
        assert(s2.tape[s2.ptr] == w);
        clear_loop_clears(s2, (fuel - 1) as nat);
        assert(s2.tape.update(s.ptr, 0u8) =~= s.tape.update(s.ptr, 0u8));
    }
}

/// A completed raw run keeps the pointer on the tape and the tape length
/// fixed.
pub proof fn lemma_rexec_valid(blocks: Seq<Seq<BFCommand>>, cmds: Seq<BFCommand>, s: MState, fuel: nat)
    requires
        st_valid(s),
    ensures
        rexec(blocks, cmds, s, fuel) matches Step::Done { st, fuel: f2 }
            ==> st_valid(st) && st.tape.len() == s.tape.len(),
    decreases fuel, cmds.len(),
{
    if cmds.len() == 0 {
    } else {
        let rest = cmds.drop_first();
        match cmds[0] {
            BFCommand::IncDataPtr => {
                if s.ptr + 1 < s.tape.len() {
                    lemma_rexec_valid(blocks, rest, MState { ptr: s.ptr + 1, ..s }, fuel);
                }
            }
            BFCommand::DecDataPtr => {
                if s.ptr >= 1 {
                    lemma_rexec_valid(blocks, rest, MState { ptr: s.ptr - 1, ..s }, fuel);
                }
            }
            BFCommand::Inc => {
                let v = ((s.tape[s.ptr] + 1) % 256) as u8;
                lemma_rexec_valid(blocks, rest, MState { tape: s.tape.update(s.ptr, v), ..s }, fuel);
            }
            BFCommand::Dec => {
                let v = ((s.tape[s.ptr] + 255) % 256) as u8;
                lemma_rexec_valid(blocks, rest, MState { tape: s.tape.update(s.ptr, v), ..s }, fuel);
            }
            BFCommand::Read => {
                if s.inp.len() > 0 {
                    let s2 = MState {
                        tape: s.tape.update(s.ptr, s.inp[0]),
                        inp: s.inp.drop_first(),
                        ..s
                    };
                    lemma_rexec_valid(blocks, rest, s2, fuel);
                }
            }
            BFCommand::Write => {
                lemma_rexec_valid(blocks, rest, MState { out: s.out.push(s.tape[s.ptr]), ..s }, fuel);
            }
            BFCommand::Loop(k) => {
                if s.tape[s.ptr] == 0 {
                    lemma_rexec_valid(blocks, rest, s, fuel);
                } else if fuel == 0 {
                } else if k >= blocks.len() {
                } else {
                    lemma_rexec_valid(blocks, blocks[k as int], s, (fuel - 1) as nat);
                    match rexec(blocks, blocks[k as int], s, (fuel - 1) as nat) {
                        Step::Done { st: s2, fuel: f2 } => {
                            if f2 < fuel {
                                lemma_rexec_valid(blocks, cmds, s2, f2);
                            }
                        }
                        _ => {}
                    }
                }
            }
        }
    }
}

/// A scan never leaves more fuel than it was given.
pub proof fn lemma_scan_fuel_bound(s: MState, dp: int, fuel: nat)
    ensures
        scan_step(s, dp, fuel) matches Step::Done { st, fuel: f2 } ==> f2 <= fuel,
    decreases fuel,
{
    if s.tape[s.ptr] == 0 {
    } else if fuel == 0 {
    } else if 0 <= s.ptr + dp < s.tape.len() {
        lemma_scan_fuel_bound(MState { ptr: s.ptr + dp, ..s }, dp, (fuel - 1) as nat);
    }
}

/// Running the optimized form never leaves more fuel than it was given.
pub proof fn lemma_orun_fuel_bound(oblocks: Seq<Seq<OCmd>>, cmds: Seq<OCmd>, s: MState, fuel: nat)
    ensures
        orun(oblocks, cmds, s, fuel) matches Step::Done { st, fuel: f2 } ==> f2 <= fuel,
    decreases fuel, cmds.len(),
{
    if cmds.len() == 0 {
    } else {
        let rest = cmds.drop_first();
        match cmds[0] {
            OCmd::Update { mem, dp } => {
                if pending_ok(mem, dp, s) {
                    lemma_orun_fuel_bound(oblocks, rest, apply_pending(mem, dp, s), fuel);
                }
            }
            OCmd::Multiply { mem } => {
                if s.tape[s.ptr] == 0 {
                    lemma_orun_fuel_bound(oblocks, rest, s, fuel);
                } else if offsets_ok(mem, s.ptr, s.tape.len() as int) {
                    lemma_orun_fuel_bound(oblocks, rest, apply_mul(mem, s), fuel);
                }
            }
            OCmd::MulSingle { off, delta } => {
                if s.tape[s.ptr] == 0 {
                    lemma_orun_fuel_bound(oblocks, rest, s, fuel);
                } else if offsets_ok(seq![(off, delta)], s.ptr, s.tape.len() as int) {
                    lemma_orun_fuel_bound(oblocks, rest, apply_mul(seq![(off, delta)], s), fuel);
                }
            }
            OCmd::Shift { dp } => {
                if 0 <= s.ptr + dp < s.tape.len() {
                    lemma_orun_fuel_bound(oblocks, rest, MState { ptr: s.ptr + dp, ..s }, fuel);
                }
            }
            OCmd::Zero => {
                lemma_orun_fuel_bound(oblocks, rest, MState { tape: s.tape.update(s.ptr, 0u8), ..s }, fuel);
            }
            OCmd::Scan { dp } => {
                lemma_scan_fuel_bound(s, dp, fuel);
                match scan_step(s, dp, fuel) {
                    Step::Done { st: s2, fuel: f2 } => {
                        if f2 <= fuel {
                            lemma_orun_fuel_bound(oblocks, rest, s2, f2);
                        }
                    }
                    _ => {}
                }
            }
            OCmd::Loop { k } => {
                if s.tape[s.ptr] == 0 {
                    lemma_orun_fuel_bound(oblocks, rest, s, fuel);
                } else if fuel == 0 {
                } else if !(0 <= k < oblocks.len()) {
                } else {
                    match orun(oblocks, oblocks[k], s, (fuel - 1) as nat) {
                        Step::Done { st: s2, fuel: f2 } => {
                            if f2 < fuel {
                                lemma_orun_fuel_bound(oblocks, cmds, s2, f2);
                            }
                        }
                        _ => {}
                    }
                }
            }
            OCmd::Read => {
                if s.inp.len() > 0 {
                    let s2 = MState {
                        tape: s.tape.update(s.ptr, s.inp[0]),
                        inp: s.inp.drop_first(),
                        ..s
                    };
                    lemma_orun_fuel_bound(oblocks, rest, s2, fuel);
                }
            }
            OCmd::Write => {
                lemma_orun_fuel_bound(oblocks, rest, MState { out: s.out.push(s.tape[s.ptr]), ..s }, fuel);
            }
        }
    }
}

} // verus!
