//! Correctness of the peephole optimizer.
//!
//! The central theorem, [`optimizer_preserves_behavior`], says that whenever
//! a raw program runs to completion within some fuel, the compiled program
//! run on the same initial machine completes too — within the same fuel —
//! and reaches exactly the same final state: tape, pointer, remaining
//! input, and output.  Faulting and non-terminating raw runs are out of its
//! scope: the optimized form may then do less work than the raw form.

use vstd::prelude::*;
use crate::ast::{BFCommand, OCmd, raw_cmd_wf, raw_block_wf, raw_arena_wf, delta_wf,
    opt_cmd_wf, opt_block_wf};
use crate::sem::{MState, Step, rexec, orun, scan_step, dlookup, has_key, offsets_ok,
    apply_tape, pending_ok, apply_pending, apply_mul, st_valid, lemma_has_key_iff,
    lemma_dlookup_absent, lemma_orun_append, lemma_orun_fuel_bound, lemma_scan_fuel_bound,
    lemma_rexec_valid};
use crate::compile::{bump, strip_zero, flush, classify, compile_cmds, compile_block,
    compile_arena, lemma_bump, lemma_strip_zero};
use vstd::arithmetic::div_mod::lemma_add_mod_noop;

verus! {

/// Adding a reduced residue first makes no difference modulo 256.
proof fn lemma_mod_add_left(a: int, b: int)
    ensures
        ((a % 256) + b) % 256 == (a + b) % 256,
{
    lemma_add_mod_noop(a, b, 256);
    lemma_add_mod_noop(a % 256, b, 256);
}

/// An empty pending batch changes nothing.
proof fn lemma_apply_empty(s: MState)
    ensures
        apply_pending(Seq::empty(), 0, s) == s,
{
    assert forall|k: int| true implies #[trigger] dlookup(Seq::<(int, int)>::empty(), k) == 0 by {}
    assert(apply_tape(s.tape, s.ptr, Seq::empty()) =~= s.tape);
    assert(apply_pending(Seq::empty(), 0, s) =~= s);
}

/// Extra fuel carries through a scan unchanged.
proof fn lemma_scan_offset(s: MState, dp: int, fuel: nat, d: nat)
    ensures
        scan_step(s, dp, fuel) matches Step::Done { st, fuel: f2 }
            ==> scan_step(s, dp, fuel + d) == (Step::Done { st, fuel: (f2 + d) as nat }),
    decreases fuel,
{
    if s.tape[s.ptr] == 0 {
    } else if fuel == 0 {
    } else if 0 <= s.ptr + dp < s.tape.len() {
        lemma_scan_offset(MState { ptr: s.ptr + dp, ..s }, dp, (fuel - 1) as nat, d);
    }
}

/// Extra fuel carries through a completed optimized run unchanged.
proof fn lemma_orun_offset(oblocks: Seq<Seq<OCmd>>, cmds: Seq<OCmd>, s: MState, fuel: nat, d: nat)
    ensures
        orun(oblocks, cmds, s, fuel) matches Step::Done { st, fuel: f2 }
            ==> orun(oblocks, cmds, s, fuel + d) == (Step::Done { st, fuel: (f2 + d) as nat }),
    decreases fuel, cmds.len(),
{
    if cmds.len() == 0 {
    } else {
        let rest = cmds.drop_first();
        match cmds[0] {
            OCmd::Update { mem, dp } => {
                if pending_ok(mem, dp, s) {
                    lemma_orun_offset(oblocks, rest, apply_pending(mem, dp, s), fuel, d);
                }
            }
            OCmd::Multiply { mem } => {
                if s.tape[s.ptr] == 0 {
                    lemma_orun_offset(oblocks, rest, s, fuel, d);
                } else if offsets_ok(mem, s.ptr, s.tape.len() as int) {
                    lemma_orun_offset(oblocks, rest, apply_mul(mem, s), fuel, d);
                }
            }
            OCmd::MulSingle { off, delta } => {
                if s.tape[s.ptr] == 0 {
                    lemma_orun_offset(oblocks, rest, s, fuel, d);
                } else if offsets_ok(seq![(off, delta)], s.ptr, s.tape.len() as int) {
                    lemma_orun_offset(oblocks, rest, apply_mul(seq![(off, delta)], s), fuel, d);
                }
            }
            OCmd::Shift { dp } => {
                if 0 <= s.ptr + dp < s.tape.len() {
                    lemma_orun_offset(oblocks, rest, MState { ptr: s.ptr + dp, ..s }, fuel, d);
                }
            }
            OCmd::Zero => {
                lemma_orun_offset(oblocks, rest, MState { tape: s.tape.update(s.ptr, 0u8), ..s }, fuel, d);
            }
            OCmd::Scan { dp } => {
                lemma_scan_fuel_bound(s, dp, fuel);
                lemma_scan_offset(s, dp, fuel, d);
                match scan_step(s, dp, fuel) {
                    Step::Done { st: s2, fuel: f2 } => {
                        if f2 <= fuel {
                            lemma_orun_offset(oblocks, rest, s2, f2, d);
                        }
                    }
                    _ => {}
                }
            }
            OCmd::Loop { k } => {
                if s.tape[s.ptr] == 0 {
                    lemma_orun_offset(oblocks, rest, s, fuel, d);
                } else if fuel == 0 {
                } else if !(0 <= k < oblocks.len()) {
                } else {
                    lemma_orun_fuel_bound(oblocks, oblocks[k], s, (fuel - 1) as nat);
                    lemma_orun_offset(oblocks, oblocks[k], s, (fuel - 1) as nat, d);
                    match orun(oblocks, oblocks[k], s, (fuel - 1) as nat) {
                        Step::Done { st: s2, fuel: f2 } => {
                            if f2 < fuel {
                                lemma_orun_offset(oblocks, cmds, s2, f2, d);
                            }
                        }
                        _ => {}
                    }
                }
            }
            OCmd::Read => {
                if s.inp.len() > 0 {
                    let s2 = MState {
                        tape: s.tape.update(s.ptr, s.inp[0]),
                        inp: s.inp.drop_first(),
                        ..s
                    };
                    lemma_orun_offset(oblocks, rest, s2, fuel, d);
                }
            }
            OCmd::Write => {
                lemma_orun_offset(oblocks, rest, MState { out: s.out.push(s.tape[s.ptr]), ..s }, fuel, d);
            }
        }
    }
}

/// Flushing the pending batch runs to its applied state, for free.
proof fn lemma_flush(oblocks: Seq<Seq<OCmd>>, pm: Seq<(int, int)>, pd: int, s: MState, fuel: nat)
    requires
        pending_ok(pm, pd, s),
        st_valid(s),
    ensures
        orun(oblocks, flush(pm, pd), s, fuel) == (Step::Done { st: apply_pending(pm, pd, s), fuel }),
{
    if pm.len() == 0 && pd == 0 {
        assert(pm =~= Seq::<(int, int)>::empty());
        lemma_apply_empty(s);
        assert(flush(pm, pd).len() == 0);
        assert(orun(oblocks, flush(pm, pd), s, fuel) == (Step::Done { st: s, fuel }));
        assert(apply_pending(pm, pd, s) == s);
    } else if pm.len() == 0 {
        let f = flush(pm, pd);
        assert(f[0] == (OCmd::Shift { dp: pd }));
        assert(f.drop_first().len() == 0);
        assert forall|k: int| true implies #[trigger] dlookup(pm, k) == 0 by {}
        assert(apply_tape(s.tape, s.ptr, pm) =~= s.tape);
        assert(apply_pending(pm, pd, s) =~= MState { ptr: s.ptr + pd, ..s });
        assert(orun(oblocks, f.drop_first(), MState { ptr: s.ptr + pd, ..s }, fuel)
            == (Step::Done { st: MState { ptr: s.ptr + pd, ..s }, fuel }));
        assert(orun(oblocks, f, s, fuel) == (Step::Done { st: MState { ptr: s.ptr + pd, ..s }, fuel }));
    } else {
        let f = flush(pm, pd);
        assert(f[0] == (OCmd::Update { mem: pm, dp: pd }));
        assert(f.drop_first().len() == 0);
        assert(orun(oblocks, f.drop_first(), apply_pending(pm, pd, s), fuel)
            == (Step::Done { st: apply_pending(pm, pd, s), fuel }));
        assert(orun(oblocks, f, s, fuel) == (Step::Done { st: apply_pending(pm, pd, s), fuel }));
    }
}

/// Recording a cell adjustment in the pending batch matches performing it
/// on the applied state.
proof fn lemma_step_adjust(pm: Seq<(int, int)>, pd: int, s0: MState, amt: int)
    requires
        delta_wf(pm),
        pending_ok(pm, pd, s0),
        st_valid(s0),
        1 <= amt < 256,
    ensures
        delta_wf(bump(pm, pd, amt)),
        pending_ok(bump(pm, pd, amt), pd, s0),
        apply_pending(bump(pm, pd, amt), pd, s0) == ({
            let s1 = apply_pending(pm, pd, s0);
            MState {
                tape: s1.tape.update(s1.ptr, (((s1.tape[s1.ptr] + amt) % 256) as u8)),
                ..s1
            }
        }),
{
    lemma_bump(pm, pd, amt);
    let pm2 = bump(pm, pd, amt);
    let s1 = apply_pending(pm, pd, s0);
    assert(offsets_ok(pm2, s0.ptr, s0.tape.len() as int)) by {
        assert forall|i: int| 0 <= i < pm2.len() implies 0 <= s0.ptr + (#[trigger] pm2[i]).0
            < s0.tape.len() by {
            let k2 = pm2[i].0;
            assert(has_key(pm2, k2)) by {
                lemma_has_key_iff(pm2, k2);
            }
            if has_key(pm, k2) {
                lemma_has_key_iff(pm, k2);
                let w = choose|t: int| 0 <= t < pm.len() && (#[trigger] pm[t]).0 == k2;
            }
        }
    }
    let goal = MState {
        tape: s1.tape.update(s1.ptr, (((s1.tape[s1.ptr] + amt) % 256) as u8)),
        ..s1
    };
    assert forall|i: int| 0 <= i < s0.tape.len() implies apply_tape(s0.tape, s0.ptr, pm2)[i]
        == goal.tape[i] by {
        if i == s0.ptr + pd {
            assert(dlookup(pm2, pd) == (dlookup(pm, pd) + amt) % 256);
            lemma_mod_add_left(dlookup(pm, pd) + amt, s0.tape[i] as int);
            lemma_mod_add_left(s0.tape[i] + dlookup(pm, pd), amt);
        } else {
            assert(dlookup(pm2, i - s0.ptr) == dlookup(pm, i - s0.ptr));
        }
    }
    assert(apply_tape(s0.tape, s0.ptr, pm2) =~= goal.tape);
    assert(apply_pending(pm2, pd, s0) =~= goal);
}

/// The stripped batch still addresses only valid cells.
proof fn lemma_strip_offsets(mem: Seq<(int, int)>, ptr: int, len: int)
    requires
        delta_wf(mem),
        offsets_ok(mem, ptr, len),
    ensures
        offsets_ok(strip_zero(mem), ptr, len),
{
    lemma_strip_zero(mem);
    let sm = strip_zero(mem);
    assert forall|i: int| 0 <= i < sm.len() implies 0 <= ptr + (#[trigger] sm[i]).0 < len by {
        let k2 = sm[i].0;
        assert(has_key(sm, k2)) by {
            lemma_has_key_iff(sm, k2);
        }
        assert(has_key(mem, k2));
        lemma_has_key_iff(mem, k2);
        let w = choose|t: int| 0 <= t < mem.len() && (#[trigger] mem[t]).0 == k2;
    }
}

/// One iteration of a generic optimized loop absorbs one iteration of the
/// raw loop it came from.
proof fn lemma_loop_generic(
    ob: Seq<Seq<OCmd>>,
    cb: Seq<OCmd>,
    kk: int,
    lc: Seq<OCmd>,
    s1: MState,
    sb: MState,
    fuel: nat,
    fb: nat,
    fbp: nat,
    st: MState,
    fo: nat,
)
    requires
        lc.len() >= 1,
        lc[0] == (OCmd::Loop { k: kk }),
        0 <= kk < ob.len(),
        ob[kk] == cb,
        s1.tape[s1.ptr] != 0,
        fuel >= 1,
        orun(ob, cb, s1, (fuel - 1) as nat) == (Step::Done { st: sb, fuel: fbp }),
        orun(ob, lc, sb, fb) == (Step::Done { st, fuel: fo }),
        fb <= fbp,
    ensures
        orun(ob, lc, s1, fuel) == (Step::Done { st, fuel: (fo + (fbp - fb)) as nat }),
{
    lemma_orun_fuel_bound(ob, cb, s1, (fuel - 1) as nat);
    let d = (fbp - fb) as nat;
    lemma_orun_offset(ob, lc, sb, fb, d);
    assert(orun(ob, lc, sb, fbp) == (Step::Done { st, fuel: (fo + d) as nat }));
}

/// The main induction: a completed raw run of a block tail, from the state
/// with the pending batch applied, is matched by the compiled tail run from
/// the unapplied state, with at least as much fuel left over.
proof fn lemma_compile_equiv(
    blocks: Seq<Seq<BFCommand>>,
    j: nat,
    cmds: Seq<BFCommand>,
    pm: Seq<(int, int)>,
    pd: int,
    s0: MState,
    fuel: nat,
)
    requires
        raw_arena_wf(blocks),
        j <= blocks.len(),
        raw_block_wf(cmds, j as int),
        delta_wf(pm),
        pending_ok(pm, pd, s0),
        st_valid(s0),
    ensures
        rexec(blocks, cmds, apply_pending(pm, pd, s0), fuel) matches Step::Done { st, fuel: fr }
            ==> (orun(compile_arena(blocks), compile_cmds(blocks, j, cmds, pm, pd), s0, fuel)
                matches Step::Done { st: st2, fuel: fo } && st2 == st && fo >= fr),
    decreases fuel, j, cmds.len(),
{
    let ob = compile_arena(blocks);
    let s1 = apply_pending(pm, pd, s0);
    let cc = compile_cmds(blocks, j, cmds, pm, pd);
    let rr = rexec(blocks, cmds, s1, fuel);
    assert(st_valid(s1));
    if cmds.len() == 0 {
        lemma_flush(ob, pm, pd, s0, fuel);
    } else if rr is Done {
        let strr = rr->Done_st;
        let frr = rr->Done_fuel;
        let rest = cmds.drop_first();
        assert(raw_block_wf(rest, j as int)) by {
            assert forall|i: int| 0 <= i < rest.len() implies raw_cmd_wf(#[trigger] rest[i], j as int) by {
                assert(rest[i] == cmds[i + 1]);
                assert(raw_cmd_wf(cmds[i + 1], j as int));
            }
        }
        match cmds[0] {
            BFCommand::IncDataPtr => {
                if s1.ptr + 1 < s1.tape.len() {
                    assert(apply_pending(pm, pd + 1, s0) =~= MState { ptr: s1.ptr + 1, ..s1 });
                    lemma_compile_equiv(blocks, j, rest, pm, pd + 1, s0, fuel);
                }
            }
            BFCommand::DecDataPtr => {
                if s1.ptr >= 1 {
                    assert(apply_pending(pm, pd - 1, s0) =~= MState { ptr: s1.ptr - 1, ..s1 });
                    lemma_compile_equiv(blocks, j, rest, pm, pd - 1, s0, fuel);
                }
            }
            BFCommand::Inc => {
                lemma_step_adjust(pm, pd, s0, 1);
                lemma_compile_equiv(blocks, j, rest, bump(pm, pd, 1), pd, s0, fuel);
            }
            BFCommand::Dec => {
                lemma_step_adjust(pm, pd, s0, 255);
                lemma_compile_equiv(blocks, j, rest, bump(pm, pd, 255), pd, s0, fuel);
            }
            BFCommand::Read => {
                if s1.inp.len() > 0 {
                    let s2 = MState {
                        tape: s1.tape.update(s1.ptr, s1.inp[0]),
                        inp: s1.inp.drop_first(),
                        ..s1
                    };
                    let cc2 = compile_cmds(blocks, j, rest, Seq::empty(), 0);
                    let mid = seq![OCmd::Read] + cc2;
                    assert(cc =~= flush(pm, pd) + mid);
                    lemma_flush(ob, pm, pd, s0, fuel);
                    lemma_orun_append(ob, flush(pm, pd), mid, s0, fuel);
                    assert(mid[0] == OCmd::Read);
                    assert(mid.drop_first() =~= cc2);
                    lemma_apply_empty(s2);
                    lemma_compile_equiv(blocks, j, rest, Seq::empty(), 0, s2, fuel);
                }
            }
            BFCommand::Write => {
                let s2 = MState { out: s1.out.push(s1.tape[s1.ptr]), ..s1 };
                let cc2 = compile_cmds(blocks, j, rest, Seq::empty(), 0);
                let mid = seq![OCmd::Write] + cc2;
                assert(cc =~= flush(pm, pd) + mid);
                lemma_flush(ob, pm, pd, s0, fuel);
                lemma_orun_append(ob, flush(pm, pd), mid, s0, fuel);
                assert(mid[0] == OCmd::Write);
                assert(mid.drop_first() =~= cc2);
                lemma_apply_empty(s2);
                lemma_compile_equiv(blocks, j, rest, Seq::empty(), 0, s2, fuel);
            }
            BFCommand::Loop(k) => {
                assert(raw_cmd_wf(cmds[0], j as int));
                let kk = k as int;
                let cb = compile_block(blocks, k as nat);
                let item = classify(cb, kk);
                let cc2 = compile_cmds(blocks, j, rest, Seq::empty(), 0);
                let lc = seq![item] + cc2;
                assert(cc =~= flush(pm, pd) + lc);
                lemma_flush(ob, pm, pd, s0, fuel);
                lemma_orun_append(ob, flush(pm, pd), lc, s0, fuel);
                assert(lc[0] == item);
                assert(lc.drop_first() =~= cc2);
                assert(ob[kk] == cb);
                crate::compile::lemma_compile_wf(blocks, k as nat, blocks[kk], Seq::empty(), 0);
                assert(opt_block_wf(cb, kk));
                // the compiled tail from an empty pending batch is the same
                // loop-headed sequence the re-entry runs
                assert(compile_cmds(blocks, j, cmds, Seq::empty(), 0) =~= lc) by {
                    assert(flush(Seq::empty(), 0).len() == 0);
                    assert((flush(Seq::<(int, int)>::empty(), 0) + seq![item]) + cc2 =~= lc);
                }
                let v = s1.tape[s1.ptr] as int;
                if v == 0 {
                    // the loop is skipped; every classified form is a no-op
                    lemma_apply_empty(s1);
                    lemma_compile_equiv(blocks, j, rest, Seq::empty(), 0, s1, fuel);
                    if cb.len() == 1 {
                        match cb[0] {
                            OCmd::Update { mem, dp } => {
                                if dp == 0 && dlookup(mem, 0) == 255 {
                                    let sm = strip_zero(mem);
                                    if sm.len() == 0 {
                                        assert(item == OCmd::Zero);
                                        assert(s1.tape.update(s1.ptr, 0u8) =~= s1.tape);
                                    }
                                } else {
                                    assert(item == (OCmd::Loop { k: kk }));
                                }
                            }
                            _ => {}
                        }
                    } else {
                        assert(item == (OCmd::Loop { k: kk }));
                    }
                    assert(orun(ob, lc, s1, fuel) == orun(ob, cc2, s1, fuel));
                } else if fuel == 0 {
                    // the raw run was cut; nothing to show
                } else {
                    let body = rexec(blocks, blocks[kk], s1, (fuel - 1) as nat);
                    if body is Done {
                        let sb = body->Done_st;
                        let fb = body->Done_fuel;
                        if fb < fuel {
                            // raw: one iteration, then re-entry from sb
                            lemma_rexec_valid(blocks, blocks[kk], s1, (fuel - 1) as nat);
                            assert(raw_block_wf(blocks[kk], kk));
                            lemma_apply_empty(s1);
                            lemma_compile_equiv(blocks, k as nat, blocks[kk], Seq::empty(), 0, s1,
                                (fuel - 1) as nat);
                            let bo = orun(ob, cb, s1, (fuel - 1) as nat);
                            let sbp = bo->Done_st;
                            let fbp = bo->Done_fuel;
                            assert(sbp == sb && fbp >= fb);
                            lemma_apply_empty(sb);
                            lemma_compile_equiv(blocks, j, cmds, Seq::empty(), 0, sb, fb);
                            let ro = orun(ob, lc, sb, fb);
                            let st = ro->Done_st;
                            let fo = ro->Done_fuel;
                            assert(rexec(blocks, cmds, sb, fb) == rr);
                            assert(st == strr && fo >= frr);
                            // opt: one step of the classified form from s1
                            lemma_loop_step(ob, blocks, kk, cb, item, lc, cc2, s1, sb, fuel, fb,
                                fbp, st, fo);
                        }
                    }
                }
            }
        }
    }
}

/// From a nonzero driving cell, one step of a classified loop form from
/// `s1` reaches what the re-entry from `sb` reaches.
proof fn lemma_loop_step(
    ob: Seq<Seq<OCmd>>,
    blocks: Seq<Seq<BFCommand>>,
    kk: int,
    cb: Seq<OCmd>,
    item: OCmd,
    lc: Seq<OCmd>,
    cc2: Seq<OCmd>,
    s1: MState,
    sb: MState,
    fuel: nat,
    fb: nat,
    fbp: nat,
    st: MState,
    fo: nat,
)
    requires
        ob == compile_arena(blocks),
        0 <= kk < blocks.len(),
        item == classify(cb, kk),
        cb == compile_block(blocks, kk as nat),
        opt_block_wf(cb, kk),
        lc == seq![item] + cc2,
        st_valid(s1),
        s1.tape[s1.ptr] != 0,
        fuel >= 1,
        fb < fuel,
        orun(ob, cb, s1, (fuel - 1) as nat) == (Step::Done { st: sb, fuel: fbp }),
        orun(ob, lc, sb, fb) == (Step::Done { st, fuel: fo }),
        fb <= fbp,
    ensures
        orun(ob, lc, s1, fuel) matches Step::Done { st: st2, fuel: fo2 } && st2 == st && fo2 >= fo,
{
    let len = s1.tape.len() as int;
    let ptr = s1.ptr;
    let v = s1.tape[ptr] as int;
    assert(lc[0] == item);
    assert(lc.drop_first() =~= cc2);
    if cb.len() == 1 && cb[0] is Update && cb[0]->Update_dp == 0
        && dlookup(cb[0]->Update_mem, 0) == 255 {
        let mem = cb[0]->Update_mem;
        assert(opt_cmd_wf(cb[0], kk));
        assert(delta_wf(mem));
        let sm = strip_zero(mem);
        lemma_strip_zero(mem);
        // the body run is one applied batch
        assert(cb.drop_first().len() == 0);
        assert(pending_ok(mem, 0, s1) && sb == apply_pending(mem, 0, s1) && fbp == fuel - 1) by {
            if pending_ok(mem, 0, s1) {
                assert(orun(ob, cb.drop_first(), apply_pending(mem, 0, s1), (fuel - 1) as nat)
                    == (Step::Done { st: apply_pending(mem, 0, s1), fuel: (fuel - 1) as nat }));
            } else {
                assert(orun(ob, cb, s1, (fuel - 1) as nat) == (Step::Fail {
                    err: crate::sem::RunError::OutOfBounds,
                    st: s1,
                }));
            }
        }
        lemma_strip_offsets(mem, ptr, len);
        assert(sb.ptr == ptr && sb.tape.len() == len);
        assert(sb.tape[ptr] as int == (v + 255) % 256) by {
            assert(sb.tape[ptr] == apply_tape(s1.tape, ptr, mem)[ptr]);
        }
        assert((v + 255) % 256 == v - 1);
        // cells away from the driving cell advance by one batch
        assert forall|i: int| 0 <= i < len && i != ptr implies sb.tape[i] as int
            == (s1.tape[i] + dlookup(sm, i - ptr)) % 256 by {
            assert(sb.tape[i] == apply_tape(s1.tape, ptr, mem)[i]);
            assert(dlookup(sm, i - ptr) == dlookup(mem, i - ptr));
        }
        if sm.len() == 0 {
            assert(item == OCmd::Zero);
            // with no other targets, the batch only decrements the driving cell
            assert forall|i: int| 0 <= i < len && i != ptr implies sb.tape[i] == s1.tape[i] by {
                lemma_dlookup_absent(sm, i - ptr);
            }
            let a0 = MState { tape: s1.tape.update(ptr, 0u8), ..s1 };
            let b0 = MState { tape: sb.tape.update(ptr, 0u8), ..sb };
            assert(a0.tape =~= b0.tape);
            assert(a0 == b0);
            if v == 1 {
                assert(sb.tape[ptr] == 0);
                assert(b0.tape =~= sb.tape);
                assert(b0 == sb);
                assert(orun(ob, lc, sb, fb) == orun(ob, cc2, b0, fb));
            } else {
                assert(sb.tape[ptr] != 0);
                assert(orun(ob, lc, sb, fb) == orun(ob, cc2, b0, fb));
            }
            lemma_orun_offset(ob, cc2, b0, fb, (fuel - fb) as nat);
            assert(orun(ob, lc, s1, fuel) == orun(ob, cc2, a0, fuel));
        } else {
            let pmx: Seq<(int, int)> = if sm.len() == 1 {
                seq![(sm[0].0, sm[0].1)]
            } else {
                sm
            };
            if sm.len() == 1 {
                assert(item == (OCmd::MulSingle { off: sm[0].0, delta: sm[0].1 }));
                assert(pmx =~= sm);
            } else {
                assert(item == (OCmd::Multiply { mem: sm }));
            }
            assert(pmx == sm);
            assert(offsets_ok(pmx, ptr, len));
            assert(offsets_ok(pmx, sb.ptr, sb.tape.len() as int));
            let a = apply_mul(pmx, s1);
            if v == 1 {
                assert(sb.tape[ptr] == 0);
                // factor one: the batch itself is the whole multiply
                assert forall|i: int| 0 <= i < len implies a.tape[i] == sb.tape[i] by {
                    if i != ptr {
                        assert(a.tape[i] as int
                            == (s1.tape[i] + dlookup(pmx, i - ptr) * v) % 256);
                        assert(dlookup(pmx, i - ptr) * 1 == dlookup(pmx, i - ptr));
                    }
                }
                assert(a.tape =~= sb.tape);
                assert(a == sb);
                assert(orun(ob, lc, sb, fb) == orun(ob, cc2, sb, fb));
                lemma_orun_offset(ob, cc2, sb, fb, (fuel - fb) as nat);
                assert(orun(ob, lc, s1, fuel) == orun(ob, cc2, a, fuel));
            } else {
                assert(sb.tape[ptr] as int == v - 1 && v - 1 >= 1);
                let b = apply_mul(pmx, sb);
                assert(orun(ob, lc, sb, fb) == orun(ob, cc2, b, fb));
                // one batch plus factor v−1 equals factor v
                assert forall|i: int| 0 <= i < len implies a.tape[i] == b.tape[i] by {
                    if i != ptr {
                        let m = dlookup(pmx, i - ptr);
                        assert(sb.tape[i] as int == (s1.tape[i] + m) % 256);
                        assert(b.tape[i] as int == ((s1.tape[i] + m) % 256 + m * (v - 1)) % 256);
                        lemma_mod_add_left(s1.tape[i] + m, m * (v - 1));
                        assert(m + m * (v - 1) == m * v) by (nonlinear_arith);
                        assert(a.tape[i] as int == (s1.tape[i] + m * v) % 256);
                    }
                }
                assert(a.tape =~= b.tape);
                assert(a == b);
                lemma_orun_offset(ob, cc2, b, fb, (fuel - fb) as nat);
                assert(orun(ob, lc, s1, fuel) == orun(ob, cc2, a, fuel));
            }
        }
    } else if cb.len() == 1 && cb[0] is Shift {
        let dpv = cb[0]->Shift_dp;
        assert(item == (OCmd::Scan { dp: dpv }));
        assert(cb.drop_first().len() == 0);
        assert(0 <= ptr + dpv < len && sb == (MState { ptr: ptr + dpv, ..s1 }) && fbp == fuel - 1) by {
            if 0 <= ptr + dpv < len {
                assert(orun(ob, cb.drop_first(), MState { ptr: ptr + dpv, ..s1 }, (fuel - 1) as nat)
                    == (Step::Done { st: MState { ptr: ptr + dpv, ..s1 }, fuel: (fuel - 1) as nat }));
            } else {
                assert(orun(ob, cb, s1, (fuel - 1) as nat) == (Step::Fail {
                    err: crate::sem::RunError::OutOfBounds,
                    st: s1,
                }));
            }
        }
        // the re-entry begins with the same scan from sb
        let sc = scan_step(sb, dpv, fb);
        if sc is Done {
            let sm2 = sc->Done_st;
            let fm = sc->Done_fuel;
            if fm <= fb {
                assert(orun(ob, lc, sb, fb) == orun(ob, cc2, sm2, fm));
                let d = (fuel - 1 - fb) as nat;
                lemma_scan_offset(sb, dpv, fb, d);
                assert(scan_step(sb, dpv, (fuel - 1) as nat) == (Step::Done {
                    st: sm2,
                    fuel: (fm + d) as nat,
                }));
                assert(scan_step(s1, dpv, fuel) == (Step::Done { st: sm2, fuel: (fm + d) as nat }));
                lemma_orun_offset(ob, cc2, sm2, fm, d);
            } else {
                assert(orun(ob, lc, sb, fb) == (Step::Cut { st: sm2 }));
                assert(false);
            }
        } else {
            assert(orun(ob, lc, sb, fb) == sc);
            assert(false);
        }
    } else {
        assert(item == (OCmd::Loop { k: kk })) by {
            if cb.len() == 1 {
                match cb[0] {
                    OCmd::Update { mem, dp } => {}
                    OCmd::Shift { dp } => {
                        assert(false);
                    }
                    _ => {}
                }
            }
        }
        lemma_loop_generic(ob, cb, kk, lc, s1, sb, fuel, fb, fbp, st, fo);
    }
}

/// Optimizer equivalence: a raw program that runs to completion within some
/// fuel is matched by its optimized form on the same initial machine state —
/// same final tape, same final pointer, same remaining input, and the same
/// output byte sequence — without needing more fuel.
pub proof fn optimizer_preserves_behavior(blocks: Seq<Seq<BFCommand>>, s: MState, fuel: nat)
    requires
        raw_arena_wf(blocks),
        st_valid(s),
    ensures
        rexec(blocks, blocks[blocks.len() - 1], s, fuel) matches Step::Done { st, fuel: fr }
            ==> (orun(compile_arena(blocks), compile_arena(blocks)[blocks.len() - 1], s, fuel)
                matches Step::Done { st: st2, fuel: fo } && st2 == st && fo >= fr),
{
    let j = (blocks.len() - 1) as nat;
    lemma_apply_empty(s);
    lemma_compile_equiv(blocks, j, blocks[j as int], Seq::empty(), 0, s, fuel);
    assert(compile_arena(blocks)[blocks.len() - 1] == compile_block(blocks, j));
}

} // verus!
