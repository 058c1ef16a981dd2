//! The peephole optimizing compiler.
//!
//! One bottom-up pass turns a raw arena into an optimized arena with the
//! same block indices.  Within a block, straight-line runs of pointer moves
//! and cell adjustments are coalesced into a pending batch (`bump`), flushed
//! as an `Update` or `Shift` at every read, write, loop boundary, or block
//! end (`flush`).  A compiled loop body is then classified (`classify`):
//! a single batch with no net pointer move whose driving-cell delta is
//! exactly minus one becomes a clear or a multiply-accumulate, a single
//! pointer shift becomes a scan, and anything else stays a loop.

use vstd::prelude::*;
use crate::ast::{BFCommand, BFProgram, BFPCommand, BFPProgram, MachineDelta, OCmd, opt_view,
    raw_cmd_wf, raw_block_wf, raw_arena_wf, opt_cmd_wf, opt_block_wf, opt_arena_wf,
    delta_wf, delta_no_zero_off, pairs_view};
use crate::sem::{dlookup, has_key, lemma_has_key_iff, lemma_dlookup_absent, lemma_skip_step};

verus! {

/// Record one more adjustment of `a` (a residue modulo 256) at offset `k`:
/// an entry that reaches a zero net adjustment is dropped.
pub open spec fn bump(pm: Seq<(int, int)>, k: int, a: int) -> Seq<(int, int)>
    decreases pm.len(),
{
    if pm.len() == 0 {
        seq![(k, a)]
    } else if pm[0].0 == k {
        let v2 = (pm[0].1 + a) % 256;
        if v2 == 0 {
            pm.drop_first()
        } else {
            seq![(k, v2)] + pm.drop_first()
        }
    } else {
        seq![pm[0]] + bump(pm.drop_first(), k, a)
    }
}

/// Drop every entry at offset zero (a multiply loop's driving cell).
pub open spec fn strip_zero(pm: Seq<(int, int)>) -> Seq<(int, int)>
    decreases pm.len(),
{
    if pm.len() == 0 {
        pm
    } else if pm[0].0 == 0 {
        strip_zero(pm.drop_first())
    } else {
        seq![pm[0]] + strip_zero(pm.drop_first())
    }
}

/// Flush the pending batch: nothing, a bare pointer shift, or a full update.
pub open spec fn flush(pm: Seq<(int, int)>, pd: int) -> Seq<OCmd> {
    if pm.len() == 0 && pd == 0 {
        Seq::empty()
    } else if pm.len() == 0 {
        seq![OCmd::Shift { dp: pd }]
    } else {
        seq![OCmd::Update { mem: pm, dp: pd }]
    }
}

/// Classify a compiled loop body.
///
/// A single update batch with no net pointer move whose driving-cell delta
/// is exactly minus one (255 modulo 256) is a closed-form loop: with the
/// driving entry dropped, no remaining target is a cell clear, one is a
/// single multiply-accumulate, more are a general multiply-accumulate.  A
/// single bare shift is a scan for zero.  Everything else stays a loop over
/// body block `k`.
pub open spec fn classify(body: Seq<OCmd>, k: int) -> OCmd {
    if body.len() == 1 {
        match body[0] {
            OCmd::Update { mem, dp } => {
                if dp == 0 && dlookup(mem, 0) == 255 {
                    let rest = strip_zero(mem);
                    if rest.len() == 0 {
                        OCmd::Zero
                    } else if rest.len() == 1 {
                        OCmd::MulSingle { off: rest[0].0, delta: rest[0].1 }
                    } else {
                        OCmd::Multiply { mem: rest }
                    }
                } else {
                    OCmd::Loop { k }
                }
            }
            OCmd::Shift { dp } => OCmd::Scan { dp },
            _ => OCmd::Loop { k },
        }
    } else {
        OCmd::Loop { k }
    }
}

/// Compile the tail of a block, given the pending batch accumulated so far.
pub open spec fn compile_cmds(
    blocks: Seq<Seq<BFCommand>>,
    j: nat,
    cmds: Seq<BFCommand>,
    pm: Seq<(int, int)>,
    pd: int,
) -> Seq<OCmd>
    decreases j, cmds.len(), 0nat,
{
    if cmds.len() == 0 {
        flush(pm, pd)
    } else {
        let rest = cmds.drop_first();
        match cmds[0] {
            BFCommand::IncDataPtr => compile_cmds(blocks, j, rest, pm, pd + 1),
            BFCommand::DecDataPtr => compile_cmds(blocks, j, rest, pm, pd - 1),
            BFCommand::Inc => compile_cmds(blocks, j, rest, bump(pm, pd, 1), pd),
            BFCommand::Dec => compile_cmds(blocks, j, rest, bump(pm, pd, 255), pd),
            BFCommand::Read => flush(pm, pd) + seq![OCmd::Read]
                + compile_cmds(blocks, j, rest, Seq::empty(), 0),
            BFCommand::Write => flush(pm, pd) + seq![OCmd::Write]
                + compile_cmds(blocks, j, rest, Seq::empty(), 0),
            BFCommand::Loop(k) => {
                if k < j {
                    flush(pm, pd) + seq![classify(compile_block(blocks, k as nat), k as int)]
                        + compile_cmds(blocks, j, rest, Seq::empty(), 0)
                } else {
                    flush(pm, pd) + seq![OCmd::Loop { k: k as int }]
                        + compile_cmds(blocks, j, rest, Seq::empty(), 0)
                }
            }
        }
    }
}

/// Compile one block from an empty pending batch.
pub open spec fn compile_block(blocks: Seq<Seq<BFCommand>>, j: nat) -> Seq<OCmd>
    decreases j, blocks[j as int].len(), 1nat,
{
    compile_cmds(blocks, j, blocks[j as int], Seq::empty(), 0)
}

/// Compile a whole arena, block by block, keeping the indices.
pub open spec fn compile_arena(blocks: Seq<Seq<BFCommand>>) -> Seq<Seq<OCmd>> {
    Seq::new(blocks.len(), |j: int| compile_block(blocks, j as nat))
}

/// The mathematical form of a compiled block under construction.
pub open spec fn opt_block_view(b: Seq<BFPCommand>) -> Seq<OCmd> {
    b.map_values(|c: BFPCommand| opt_view(c))
}

/// The lookup at the offset of entry `i` finds entry `i`, when no earlier
/// entry shares that offset.
proof fn lemma_dlookup_at(pm: Seq<(int, int)>, i: int)
    requires
        0 <= i < pm.len(),
        forall|t: int| 0 <= t < i ==> (#[trigger] pm[t]).0 != pm[i].0,
    ensures
        dlookup(pm, pm[i].0) == pm[i].1,
    decreases i,
{
    if i > 0 {
        let dr = pm.drop_first();
        assert(forall|t: int| 0 <= t < dr.len() ==> dr[t] == pm[t + 1]);
        lemma_dlookup_at(dr, i - 1);
    }
}

/// `bump` at the offset of entry `i` updates or removes exactly that entry.
proof fn lemma_bump_found(pm: Seq<(int, int)>, i: int, a: int)
    requires
        0 <= i < pm.len(),
        forall|t: int| 0 <= t < i ==> (#[trigger] pm[t]).0 != pm[i].0,
    ensures
        bump(pm, pm[i].0, a) == if (pm[i].1 + a) % 256 == 0 {
            pm.remove(i)
        } else {
            pm.update(i, (pm[i].0, (pm[i].1 + a) % 256))
        },
    decreases i,
{
    let k = pm[i].0;
    let v2 = (pm[i].1 + a) % 256;
    if i == 0 {
        if v2 == 0 {
            assert(pm.remove(0) =~= pm.drop_first());
        } else {
            assert(pm.update(0, (k, v2)) =~= seq![(k, v2)] + pm.drop_first());
        }
    } else {
        let dr = pm.drop_first();
        assert(forall|t: int| 0 <= t < dr.len() ==> dr[t] == pm[t + 1]);
        lemma_bump_found(dr, i - 1, a);
        if v2 == 0 {
            assert(pm.remove(i) =~= seq![pm[0]] + dr.remove(i - 1));
        } else {
            assert(pm.update(i, (k, v2)) =~= seq![pm[0]] + dr.update(i - 1, (k, v2)));
        }
    }
}

/// `bump` at a fresh offset appends one entry.
proof fn lemma_bump_absent(pm: Seq<(int, int)>, k: int, a: int)
    requires
        !has_key(pm, k),
        a % 256 == a,
    ensures
        bump(pm, k, a) == pm.push((k, a)),
    decreases pm.len(),
{
    if pm.len() == 0 {
        assert(bump(pm, k, a) =~= pm.push((k, a)));
    } else {
        lemma_bump_absent(pm.drop_first(), k, a);
        assert(seq![pm[0]] + pm.drop_first().push((k, a)) =~= pm.push((k, a)));
    }
}

/// `strip_zero` over one appended entry.
proof fn lemma_strip_push(pm: Seq<(int, int)>, p: (int, int))
    ensures
        strip_zero(pm.push(p)) == strip_zero(pm) + if p.0 == 0 {
            Seq::<(int, int)>::empty()
        } else {
            seq![p]
        },
    decreases pm.len(),
{
    let tail: Seq<(int, int)> = if p.0 == 0 { Seq::empty() } else { seq![p] };
    if pm.len() == 0 {
        assert(pm.push(p)[0] == p);
        assert(pm.push(p).drop_first() =~= Seq::<(int, int)>::empty());
        assert(strip_zero(Seq::<(int, int)>::empty()) == Seq::<(int, int)>::empty());
        assert(strip_zero(pm.push(p)) =~= strip_zero(pm) + tail);
    } else {
        assert(pm.push(p)[0] == pm[0]);
        assert(pm.push(p).drop_first() =~= pm.drop_first().push(p));
        lemma_strip_push(pm.drop_first(), p);
        if pm[0].0 != 0 {
            assert(seq![pm[0]] + (strip_zero(pm.drop_first()) + tail)
                =~= (seq![pm[0]] + strip_zero(pm.drop_first())) + tail);
        }
    }
}

/// Record one ±1 adjustment (as a residue `amt`) at offset `key` in the
/// pending batch.
fn bump_exec(mem: &mut Vec<(i128, u8)>, key: i128, amt: u8)
    requires
        amt >= 1,
    ensures
        pairs_view(final(mem)@) == bump(pairs_view(old(mem)@), key as int, amt as int),
{
    let ghost pm = pairs_view(mem@);
    let n = mem.len();
    let mut i: usize = 0;
    while i < n
        invariant
            i <= n,
            n == mem@.len(),
            *mem == *old(mem),
            pm == pairs_view(mem@),
            amt >= 1,
            forall|t: int| 0 <= t < i ==> (#[trigger] pm[t]).0 != key as int,
        decreases n - i,
    {
        let (k0, v0) = mem[i];
        proof {
            assert(pm[i as int] == (k0 as int, v0 as int));
        }
        if k0 == key {
            let v2 = (((v0 as u16) + (amt as u16)) % 256) as u8;
            proof {
                lemma_bump_found(pm, i as int, amt as int);
            }
            if v2 == 0 {
                mem.remove(i);
                proof {
                    assert(pairs_view(mem@) =~= pm.remove(i as int));
                }
            } else {
                mem[i] = (key, v2);
                proof {
                    assert(pairs_view(mem@) =~= pm.update(i as int, (key as int, v2 as int)));
                }
            }
            return;
        }
        i += 1;
    }
    mem.push((key, amt));
    proof {
        lemma_has_key_iff(pm, key as int);
        lemma_bump_absent(pm, key as int, amt as int);
        assert(pairs_view(mem@) =~= pm.push((key as int, amt as int)));
    }
}

/// The net adjustment stored for `key`, or zero when none is stored.
fn delta_lookup(mem: &Vec<(i128, u8)>, key: i128) -> (r: u8)
    ensures
        r as int == dlookup(pairs_view(mem@), key as int),
{
    let ghost pm = pairs_view(mem@);
    let n = mem.len();
    let mut i: usize = 0;
    while i < n
        invariant
            i <= n,
            n == mem@.len(),
            pm == pairs_view(mem@),
            forall|t: int| 0 <= t < i ==> (#[trigger] pm[t]).0 != key as int,
        decreases n - i,
    {
        let (k0, v0) = mem[i];
        proof {
            assert(pm[i as int] == (k0 as int, v0 as int));
        }
        if k0 == key {
            proof {
                lemma_dlookup_at(pm, i as int);
            }
            return v0;
        }
        i += 1;
    }
    proof {
        lemma_has_key_iff(pm, key as int);
        lemma_dlookup_absent(pm, key as int);
    }
    0
}

/// A copy of the batch without the entry at offset zero.
fn strip_zero_exec(mem: &Vec<(i128, u8)>) -> (r: Vec<(i128, u8)>)
    ensures
        pairs_view(r@) == strip_zero(pairs_view(mem@)),
{
    let ghost pm = pairs_view(mem@);
    let n = mem.len();
    let mut r: Vec<(i128, u8)> = Vec::new();
    let mut i: usize = 0;
    while i < n
        invariant
            i <= n,
            n == mem@.len(),
            pm == pairs_view(mem@),
            pairs_view(r@) == strip_zero(pm.take(i as int)),
        decreases n - i,
    {
        let (k0, v0) = mem[i];
        proof {
            assert(pm[i as int] == (k0 as int, v0 as int));
            assert(pm.take(i as int + 1) =~= pm.take(i as int).push(pm[i as int]));
            lemma_strip_push(pm.take(i as int), pm[i as int]);
        }
        if k0 != 0 {
            r.push((k0, v0));
            proof {
                assert(pairs_view(r@) =~= strip_zero(pm.take(i as int))
                    + seq![(k0 as int, v0 as int)]);
            }
        } else {
            proof {
                assert(strip_zero(pm.take(i as int + 1)) =~= strip_zero(pm.take(i as int)));
            }
        }
        i += 1;
    }
    proof {
        assert(pm.take(n as int) =~= pm);
    }
    r
}

/// Flush the pending batch onto the output block.
fn flush_exec(out: &mut Vec<BFPCommand>, mem: Vec<(i128, u8)>, pd: i128)
    ensures
        opt_block_view(final(out)@) == opt_block_view(old(out)@)
            + flush(pairs_view(mem@), pd as int),
{
    let ghost pm = pairs_view(mem@);
    if mem.len() == 0 && pd == 0 {
        proof {
            assert(opt_block_view(out@) =~= opt_block_view(out@) + flush(pm, pd as int));
        }
    } else if mem.len() == 0 {
        out.push(BFPCommand::Shift(pd));
        proof {
            assert(opt_block_view(out@) =~= opt_block_view(old(out)@) + flush(pm, pd as int));
        }
    } else {
        out.push(BFPCommand::Update(MachineDelta { memory: mem, data_ptr: pd }));
        proof {
            assert(opt_block_view(out@) =~= opt_block_view(old(out)@) + flush(pm, pd as int));
        }
    }
}

/// What `bump` does: it keeps offsets distinct and residues nonzero, adds
/// no offset but `k`, and changes lookups at exactly offset `k`.
pub proof fn lemma_bump(pm: Seq<(int, int)>, k: int, a: int)
    requires
        delta_wf(pm),
        1 <= a < 256,
    ensures
        delta_wf(bump(pm, k, a)),
        forall|k2: int| #[trigger] has_key(bump(pm, k, a), k2) ==> has_key(pm, k2) || k2 == k,
        forall|k2: int| #[trigger] dlookup(bump(pm, k, a), k2) == if k2 == k {
            (dlookup(pm, k) + a) % 256
        } else {
            dlookup(pm, k2)
        },
    decreases pm.len(),
{
    let r = bump(pm, k, a);
    if pm.len() == 0 {
        assert(r == seq![(k, a)]);
        assert(r[0] == (k, a));
        assert(r.drop_first() =~= Seq::<(int, int)>::empty());
        assert forall|k2: int| true implies #[trigger] dlookup(r, k2) == (if k2 == k {
            (dlookup(pm, k) + a) % 256
        } else {
            dlookup(pm, k2)
        }) by {
            assert(dlookup(Seq::<(int, int)>::empty(), k2) == 0);
        }
        assert forall|k2: int| #[trigger] has_key(r, k2) implies has_key(pm, k2) || k2 == k by {
            assert(has_key(r, k2) == (r[0].0 == k2 || has_key(r.drop_first(), k2)));
        }
    } else {
        let dr = pm.drop_first();
        assert(delta_wf(dr)) by {
            assert(forall|i: int| 0 <= i < dr.len() ==> dr[i] == pm[i + 1]);
        }
        lemma_has_key_iff(pm, k);
        lemma_has_key_iff(dr, k);
        if pm[0].0 == k {
            // the offset already has an entry, at the front
            assert(!has_key(dr, k)) by {
                if has_key(dr, k) {
                    let w = choose|i: int| 0 <= i < dr.len() && (#[trigger] dr[i]).0 == k;
                    assert(pm[w + 1].0 == pm[0].0);
                    assert(false);
                }
            }
            lemma_dlookup_absent(dr, k);
            let v2 = (pm[0].1 + a) % 256;
            if v2 == 0 {
                assert(r == dr);
                assert forall|k2: int| true implies #[trigger] dlookup(r, k2) == (if k2 == k {
                    (dlookup(pm, k) + a) % 256
                } else {
                    dlookup(pm, k2)
                }) by {
                    assert(dlookup(pm, k2) == if pm[0].0 == k2 { pm[0].1 } else { dlookup(dr, k2) });
                }
                assert forall|k2: int| #[trigger] has_key(r, k2) implies has_key(pm, k2) || k2 == k by {
                    assert(has_key(pm, k2) == (pm[0].0 == k2 || has_key(dr, k2)));
                }
            } else {
                assert(r == seq![(k, v2)] + dr);
                assert(r[0] == (k, v2));
                assert(r.drop_first() =~= dr);
                assert(delta_wf(r)) by {
                    assert(forall|i: int| 1 <= i < r.len() ==> r[i] == pm[i]);
                    assert forall|i: int, t: int| 0 <= i < t < r.len() implies (#[trigger] r[i]).0
                        != (#[trigger] r[t]).0 by {
                        if i == 0 {
                            assert(r[t] == pm[t]);
                        }
                    }
                }
                assert forall|k2: int| true implies #[trigger] dlookup(r, k2) == (if k2 == k {
                    (dlookup(pm, k) + a) % 256
                } else {
                    dlookup(pm, k2)
                }) by {
                    assert(dlookup(r, k2) == if r[0].0 == k2 { r[0].1 } else { dlookup(dr, k2) });
                    assert(dlookup(pm, k2) == if pm[0].0 == k2 { pm[0].1 } else { dlookup(dr, k2) });
                }
                assert forall|k2: int| #[trigger] has_key(r, k2) implies has_key(pm, k2) || k2 == k by {
                    assert(has_key(r, k2) == (r[0].0 == k2 || has_key(dr, k2)));
                    assert(has_key(pm, k2) == (pm[0].0 == k2 || has_key(dr, k2)));
                }
            }
        } else {
            lemma_bump(dr, k, a);
            let br = bump(dr, k, a);
            assert(r == seq![pm[0]] + br);
            assert(r[0] == pm[0]);
            assert(r.drop_first() =~= br);
            assert(!has_key(dr, pm[0].0)) by {
                lemma_has_key_iff(dr, pm[0].0);
                if has_key(dr, pm[0].0) {
                    let w = choose|i: int| 0 <= i < dr.len() && (#[trigger] dr[i]).0 == pm[0].0;
                    assert(pm[w + 1].0 == pm[0].0);
                    assert(false);
                }
            }
            assert(delta_wf(r)) by {
                assert forall|i: int, t: int| 0 <= i < t < r.len() implies (#[trigger] r[i]).0
                    != (#[trigger] r[t]).0 by {
                    if i == 0 {
                        let key2 = br[t - 1].0;
                        assert(has_key(br, key2)) by {
                            lemma_has_key_iff(br, key2);
                        }
                        assert(has_key(dr, key2) || key2 == k);
                        if has_key(dr, key2) {
                            lemma_has_key_iff(dr, key2);
                            let w = choose|i2: int| 0 <= i2 < dr.len() && (#[trigger] dr[i2]).0 == key2;
                        }
                    }
                }
                assert(forall|i: int| 0 <= i < r.len() ==> 1 <= (#[trigger] r[i]).1 < 256);
            }
            assert forall|k2: int| #[trigger] has_key(r, k2) implies has_key(pm, k2) || k2 == k by {
                if has_key(r, k2) && r[0].0 != k2 {
                    assert(has_key(br, k2));
                }
                assert(has_key(r, k2) == (r[0].0 == k2 || has_key(br, k2)));
                assert(has_key(pm, k2) == (pm[0].0 == k2 || has_key(dr, k2)));
            }
            assert forall|k2: int| true implies #[trigger] dlookup(r, k2) == (if k2 == k {
                (dlookup(pm, k) + a) % 256
            } else {
                dlookup(pm, k2)
            }) by {
                assert(dlookup(r, k2) == if r[0].0 == k2 { r[0].1 } else { dlookup(br, k2) });
                assert(dlookup(pm, k2) == if pm[0].0 == k2 { pm[0].1 } else { dlookup(dr, k2) });
            }
        }
    }
}

/// What `strip_zero` does: it keeps offsets distinct and residues nonzero,
/// leaves no zero offset, and changes lookups only at offset zero.
pub proof fn lemma_strip_zero(pm: Seq<(int, int)>)
    requires
        delta_wf(pm),
    ensures
        delta_wf(strip_zero(pm)),
        delta_no_zero_off(strip_zero(pm)),
        forall|k: int| k != 0 ==> #[trigger] dlookup(strip_zero(pm), k) == dlookup(pm, k),
        forall|k: int| #[trigger] has_key(strip_zero(pm), k) ==> has_key(pm, k),
    decreases pm.len(),
{
    let r = strip_zero(pm);
    if pm.len() == 0 {
    } else {
        let dr = pm.drop_first();
        assert(delta_wf(dr)) by {
            assert(forall|i: int| 0 <= i < dr.len() ==> dr[i] == pm[i + 1]);
        }
        lemma_strip_zero(dr);
        let sr = strip_zero(dr);
        if pm[0].0 == 0 {
            assert forall|k: int| k != 0 implies #[trigger] dlookup(r, k) == dlookup(pm, k) by {
                assert(dlookup(pm, k) == if pm[0].0 == k { pm[0].1 } else { dlookup(dr, k) });
            }
            assert forall|k: int| #[trigger] has_key(r, k) implies has_key(pm, k) by {
                if has_key(sr, k) {
                    assert(has_key(dr, k));
                }
            }
        } else {
            assert(r == seq![pm[0]] + sr);
            assert(r[0] == pm[0]);
            assert(r.drop_first() =~= sr);
            assert(!has_key(dr, pm[0].0)) by {
                lemma_has_key_iff(dr, pm[0].0);
                if has_key(dr, pm[0].0) {
                    let w = choose|i: int| 0 <= i < dr.len() && (#[trigger] dr[i]).0 == pm[0].0;
                    assert(pm[w + 1].0 == pm[0].0);
                    assert(false);
                }
            }
            assert(delta_wf(r)) by {
                assert forall|i: int, t: int| 0 <= i < t < r.len() implies (#[trigger] r[i]).0
                    != (#[trigger] r[t]).0 by {
                    if i == 0 {
                        let key2 = sr[t - 1].0;
                        assert(has_key(sr, key2)) by {
                            lemma_has_key_iff(sr, key2);
                        }
                        assert(has_key(dr, key2));
                    }
                }
                assert(forall|i: int| 0 <= i < r.len() ==> 1 <= (#[trigger] r[i]).1 < 256);
            }
            assert(delta_no_zero_off(r)) by {
                assert(forall|i: int| 1 <= i < r.len() ==> r[i] == sr[i - 1]);
            }
            assert forall|k: int| #[trigger] has_key(r, k) implies has_key(pm, k) by {
                if has_key(r, k) && r[0].0 != k {
                    assert(has_key(sr, k));
                    assert(has_key(dr, k));
                }
                assert(has_key(r, k) == (r[0].0 == k || has_key(sr, k)));
                assert(has_key(pm, k) == (pm[0].0 == k || has_key(dr, k)));
            }
            assert forall|k: int| k != 0 implies #[trigger] dlookup(r, k) == dlookup(pm, k) by {
                assert(dlookup(r, k) == if r[0].0 == k { r[0].1 } else { dlookup(sr, k) });
                assert(dlookup(pm, k) == if pm[0].0 == k { pm[0].1 } else { dlookup(dr, k) });
            }
        }
    }
}

/// The spec compilation of a well-formed block is itself well-formed.
pub proof fn lemma_compile_wf(blocks: Seq<Seq<BFCommand>>, j: nat, cmds: Seq<BFCommand>, pm: Seq<(int, int)>, pd: int)
    requires
        raw_arena_wf(blocks),
        j <= blocks.len(),
        raw_block_wf(cmds, j as int),
        delta_wf(pm),
    ensures
        opt_block_wf(compile_cmds(blocks, j, cmds, pm, pd), j as int),
    decreases j, cmds.len(),
{
    let cc = compile_cmds(blocks, j, cmds, pm, pd);
    if cmds.len() == 0 {
        assert forall|i: int| 0 <= i < cc.len() implies opt_cmd_wf(#[trigger] cc[i], j as int) by {
            assert(cc[0] == flush(pm, pd)[0]);
        }
    } else {
        let rest = cmds.drop_first();
        assert(raw_block_wf(rest, j as int)) by {
            assert forall|i: int| 0 <= i < rest.len() implies raw_cmd_wf(#[trigger] rest[i], j as int) by {
                assert(rest[i] == cmds[i + 1]);
                assert(raw_cmd_wf(cmds[i + 1], j as int));
            }
        }
        match cmds[0] {
            BFCommand::IncDataPtr => {
                lemma_compile_wf(blocks, j, rest, pm, pd + 1);
            }
            BFCommand::DecDataPtr => {
                lemma_compile_wf(blocks, j, rest, pm, pd - 1);
            }
            BFCommand::Inc => {
                lemma_bump(pm, pd, 1);
                lemma_compile_wf(blocks, j, rest, bump(pm, pd, 1), pd);
            }
            BFCommand::Dec => {
                lemma_bump(pm, pd, 255);
                lemma_compile_wf(blocks, j, rest, bump(pm, pd, 255), pd);
            }
            BFCommand::Read => {
                lemma_compile_wf(blocks, j, rest, Seq::empty(), 0);
                let a = flush(pm, pd) + seq![OCmd::Read];
                let b = compile_cmds(blocks, j, rest, Seq::empty(), 0);
                assert forall|i: int| 0 <= i < cc.len() implies opt_cmd_wf(#[trigger] cc[i], j as int) by {
                    if i < a.len() {
                        assert(cc[i] == a[i]);
                        if i < flush(pm, pd).len() {
                            assert(a[i] == flush(pm, pd)[i]);
                        }
                    } else {
                        assert(cc[i] == b[i - a.len()]);
                    }
                }
            }
            BFCommand::Write => {
                lemma_compile_wf(blocks, j, rest, Seq::empty(), 0);
                let a = flush(pm, pd) + seq![OCmd::Write];
                let b = compile_cmds(blocks, j, rest, Seq::empty(), 0);
                assert forall|i: int| 0 <= i < cc.len() implies opt_cmd_wf(#[trigger] cc[i], j as int) by {
                    if i < a.len() {
                        assert(cc[i] == a[i]);
                        if i < flush(pm, pd).len() {
                            assert(a[i] == flush(pm, pd)[i]);
                        }
                    } else {
                        assert(cc[i] == b[i - a.len()]);
                    }
                }
            }
            BFCommand::Loop(k) => {
                assert(raw_cmd_wf(cmds[0], j as int));
                let kk = k as int;
                lemma_compile_wf(blocks, k as nat, blocks[kk], Seq::empty(), 0);
                let cb = compile_block(blocks, k as nat);
                assert(opt_block_wf(cb, kk));
                let item = classify(cb, kk);
                assert(opt_cmd_wf(item, j as int)) by {
                    if cb.len() == 1 {
                        assert(opt_cmd_wf(cb[0], kk));
                        match cb[0] {
                            OCmd::Update { mem, dp } => {
                                if dp == 0 && dlookup(mem, 0) == 255 {
                                    lemma_strip_zero(mem);
                                }
                            }
                            _ => {}
                        }
                    }
                }
                lemma_compile_wf(blocks, j, rest, Seq::empty(), 0);
                let a = flush(pm, pd) + seq![item];
                let b = compile_cmds(blocks, j, rest, Seq::empty(), 0);
                assert forall|i: int| 0 <= i < cc.len() implies opt_cmd_wf(#[trigger] cc[i], j as int) by {
                    if i < a.len() {
                        assert(cc[i] == a[i]);
                        if i < flush(pm, pd).len() {
                            assert(a[i] == flush(pm, pd)[i]);
                        }
                    } else {
                        assert(cc[i] == b[i - a.len()]);
                    }
                }
            }
        }
    }
}

impl BFPProgram {
    /// Compile a raw program into its optimized form, block by block.
    ///
    /// The result is exactly [`compile_arena`] of the input, well-formed,
    /// and indexed like the input, so the root stays the last block.
    pub fn compile(program: &BFProgram) -> (r: BFPProgram)
        requires
            program.wf(),
        ensures
            r@ == compile_arena(program@),
            r.wf(),
            r@.len() == program@.len(),
    {
        let ghost blocks = program@;
        let nb = program.blocks.len();
        let mut oblocks: Vec<Vec<BFPCommand>> = Vec::new();
        let mut j: usize = 0;
        while j < nb
            invariant
                program.wf(),
                blocks == program@,
                nb == blocks.len(),
                j <= nb,
                oblocks@.len() == j,
                forall|t: int| 0 <= t < j ==> opt_block_view(#[trigger] oblocks@[t]@)
                    == compile_block(blocks, t as nat),
                forall|t: int| 0 <= t < j ==> opt_block_wf(
                    opt_block_view(#[trigger] oblocks@[t]@), t),
            decreases nb - j,
        {
            let cmds: &Vec<BFCommand> = &program.blocks[j];
            let ghost bv = blocks[j as int];
            proof {
                assert(bv == cmds@);
                assert(raw_block_wf(bv, j as int));
            }
            let nc = cmds.len();
            let mut out: Vec<BFPCommand> = Vec::new();
            let mut mem: Vec<(i128, u8)> = Vec::new();
            let mut pd: i128 = 0;
            let mut pc: usize = 0;
            proof {
                assert(bv.skip(0) =~= bv);
                assert(pairs_view(mem@) =~= Seq::<(int, int)>::empty());
                assert(opt_block_view(out@) =~= Seq::<OCmd>::empty());
                assert(Seq::<OCmd>::empty()
                    + compile_cmds(blocks, j as nat, bv, Seq::empty(), 0)
                    =~= compile_cmds(blocks, j as nat, bv, Seq::empty(), 0));
            }
            while pc < nc
                invariant
                    program.wf(),
                    blocks == program@,
                    nb == blocks.len(),
                    j < nb,
                    bv == blocks[j as int],
                    bv == cmds@,
                    nc == cmds@.len(),
                    pc <= nc,
                    oblocks@.len() == j,
                    forall|t: int| 0 <= t < j ==> opt_block_view(#[trigger] oblocks@[t]@)
                        == compile_block(blocks, t as nat),
                    forall|t: int| 0 <= t < j ==> opt_block_wf(
                        opt_block_view(#[trigger] oblocks@[t]@), t),
                    delta_wf(pairs_view(mem@)),
                    -(pc as int) <= pd as int <= pc as int,
                    opt_block_view(out@) + compile_cmds(blocks, j as nat, bv.skip(pc as int),
                        pairs_view(mem@), pd as int) == compile_block(blocks, j as nat),
                    opt_block_wf(opt_block_view(out@), j as int),
                decreases nc - pc,
            {
                let ghost pm = pairs_view(mem@);
                let ghost emitted = opt_block_view(out@);
                proof {
                    lemma_skip_step(bv, pc as int);
                    assert(raw_cmd_wf(bv[pc as int], j as int));
                }
                match cmds[pc] {
                    BFCommand::IncDataPtr => {
                        pd = pd + 1;
                    }
                    BFCommand::DecDataPtr => {
                        pd = pd - 1;
                    }
                    BFCommand::Inc => {
                        bump_exec(&mut mem, pd, 1);
                        proof {
                            lemma_bump(pm, pd as int, 1);
                        }
                    }
                    BFCommand::Dec => {
                        bump_exec(&mut mem, pd, 255);
                        proof {
                            lemma_bump(pm, pd as int, 255);
                        }
                    }
                    BFCommand::Read => {
                        let m = mem;
                        mem = Vec::new();
                        let ghost pd0 = pd as int;
                        flush_exec(&mut out, m, pd);
                        pd = 0;
                        out.push(BFPCommand::Read);
                        proof {
                            assert(pairs_view(mem@) =~= Seq::<(int, int)>::empty());
                            assert(opt_block_view(out@) =~= (emitted + flush(pm, pd0))
                                + seq![OCmd::Read]);
                            assert((emitted + flush(pm, pd0)) + seq![OCmd::Read]
                                + compile_cmds(blocks, j as nat, bv.skip(pc as int + 1),
                                    Seq::empty(), 0)
                                =~= emitted + (flush(pm, pd0) + seq![OCmd::Read]
                                    + compile_cmds(blocks, j as nat, bv.skip(pc as int + 1),
                                        Seq::empty(), 0)));
                        }
                    }
                    BFCommand::Write => {
                        let m = mem;
                        mem = Vec::new();
                        let ghost pd0 = pd as int;
                        flush_exec(&mut out, m, pd);
                        pd = 0;
                        out.push(BFPCommand::Write);
                        proof {
                            assert(pairs_view(mem@) =~= Seq::<(int, int)>::empty());
                            assert(opt_block_view(out@) =~= (emitted + flush(pm, pd0))
                                + seq![OCmd::Write]);
                            assert((emitted + flush(pm, pd0)) + seq![OCmd::Write]
                                + compile_cmds(blocks, j as nat, bv.skip(pc as int + 1),
                                    Seq::empty(), 0)
                                =~= emitted + (flush(pm, pd0) + seq![OCmd::Write]
                                    + compile_cmds(blocks, j as nat, bv.skip(pc as int + 1),
                                        Seq::empty(), 0)));
                        }
                    }
                    BFCommand::Loop(k) => {
                        let m = mem;
                        mem = Vec::new();
                        let ghost pd0 = pd as int;
                        flush_exec(&mut out, m, pd);
                        pd = 0;
                        proof {
                            assert(pairs_view(mem@) =~= Seq::<(int, int)>::empty());
                        }
                        let ghost cb = compile_block(blocks, k as nat);
                        let ghost item = classify(cb, k as int);
                        proof {
                            assert(opt_block_view(oblocks@[k as int]@) == cb);
                            assert(opt_block_wf(cb, k as int));
                        }
                        let body: &Vec<BFPCommand> = &oblocks[k];
                        proof {
                            assert(body@ == oblocks@[k as int]@);
                            assert(cb.len() == body@.len());
                            if body@.len() > 0 {
                                assert(cb[0] == opt_view(body@[0]));
                                assert(opt_cmd_wf(cb[0], k as int));
                            }
                        }
                        if body.len() == 1 {
                            match &body[0] {
                                BFPCommand::Update(d) => {
                                    if d.data_ptr == 0 && delta_lookup(&d.memory, 0) == 255 {
                                        proof {
                                            lemma_strip_zero(d.mem_view());
                                        }
                                        let rest = strip_zero_exec(&d.memory);
                                        if rest.len() == 0 {
                                            out.push(BFPCommand::ZeroCell);
                                        } else if rest.len() == 1 {
                                            let (off, dl) = rest[0];
                                            proof {
                                                assert(pairs_view(rest@)[0]
                                                    == (off as int, dl as int));
                                            }
                                            out.push(BFPCommand::MultiplySingle(off, dl));
                                        } else {
                                            out.push(BFPCommand::Multiply(rest));
                                        }
                                    } else {
                                        out.push(BFPCommand::Loop(k));
                                    }
                                }
                                BFPCommand::Shift(dp) => {
                                    out.push(BFPCommand::ScanZero(*dp));
                                }
                                _ => {
                                    out.push(BFPCommand::Loop(k));
                                }
                            }
                        } else {
                            out.push(BFPCommand::Loop(k));
                        }
                        proof {
                            assert(opt_block_view(out@) =~= (emitted + flush(pm, pd0))
                                + seq![item]);
                            assert((emitted + flush(pm, pd0)) + seq![item]
                                + compile_cmds(blocks, j as nat, bv.skip(pc as int + 1),
                                    Seq::empty(), 0)
                                =~= emitted + (flush(pm, pd0) + seq![item]
                                    + compile_cmds(blocks, j as nat, bv.skip(pc as int + 1),
                                        Seq::empty(), 0)));
                        }
                    }
                }
                pc += 1;
            }
            let m = mem;
            flush_exec(&mut out, m, pd);
            proof {
                assert(bv.skip(nc as int).len() == 0);
            }
            oblocks.push(out);
            j += 1;
        }
        let r = BFPProgram { blocks: oblocks };
        proof {
            assert forall|t: int| 0 <= t < nb implies r@[t] == compile_arena(blocks)[t] by {
                assert(r@[t] == opt_block_view(oblocks@[t]@));
            }
            assert(r@ =~= compile_arena(blocks));
            assert forall|t: int| 0 <= t < nb implies opt_block_wf(#[trigger] r@[t], t) by {
                assert(r@[t] == opt_block_view(oblocks@[t]@));
            }
        }
        r
    }
}

} // verus!
