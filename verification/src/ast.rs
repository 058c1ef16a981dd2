//! Program representations.
//!
//! Both the raw and the optimized instruction trees are stored as arenas:
//! a program is a vector of blocks, a block is a vector of instructions,
//! and a loop instruction names the arena index of its body block.  Every
//! loop reference points at a strictly smaller index, and the root block
//! is the last one; this keeps the structure acyclic and gives recursive
//! definitions over programs an immediate termination measure.

use vstd::prelude::*;

verus! {

/// One raw instruction of the source language.
#[derive(Clone, Copy)]
pub enum BFCommand {
    /// `>`: move the data pointer one cell to the right.
    IncDataPtr,
    /// `<`: move the data pointer one cell to the left.
    DecDataPtr,
    /// `+`: add one to the current cell, modulo 256.
    Inc,
    /// `-`: subtract one from the current cell, modulo 256.
    Dec,
    /// `,`: consume one byte from the input channel into the current cell.
    Read,
    /// `.`: emit the current cell to the output channel.
    Write,
    /// `[` … `]`: run the named body block while the current cell is nonzero.
    Loop(usize),
}

/// A raw program: an arena of instruction blocks whose last block is the root.
pub struct BFProgram {
    pub blocks: Vec<Vec<BFCommand>>,
}

impl View for BFProgram {
    type V = Seq<Seq<BFCommand>>;

    open spec fn view(&self) -> Seq<Seq<BFCommand>> {
        self.blocks@.map_values(|b: Vec<BFCommand>| b@)
    }
}

/// A raw command may only name a body block with a smaller arena index.
pub open spec fn raw_cmd_wf(c: BFCommand, j: int) -> bool {
    match c {
        BFCommand::Loop(k) => k < j,
        _ => true,
    }
}

pub open spec fn raw_block_wf(b: Seq<BFCommand>, j: int) -> bool {
    forall|i: int| 0 <= i < b.len() ==> raw_cmd_wf(#[trigger] b[i], j)
}

/// A well-formed raw arena: nonempty, and every loop points strictly down.
pub open spec fn raw_arena_wf(blocks: Seq<Seq<BFCommand>>) -> bool {
    &&& blocks.len() >= 1
    &&& forall|j: int| 0 <= j < blocks.len() ==> raw_block_wf(#[trigger] blocks[j], j)
}

impl BFProgram {
    pub open spec fn wf(&self) -> bool {
        raw_arena_wf(self@)
    }

    /// Index of the root block: always the last block of the arena.
    pub open spec fn root(&self) -> int {
        self@.len() - 1
    }

    /// The empty program: a single empty root block.
    pub fn new() -> (r: BFProgram)
        ensures
            r.wf(),
            r@.len() == 1,
            r@[0] == Seq::<BFCommand>::empty(),
    {
        let mut blocks: Vec<Vec<BFCommand>> = Vec::new();
        blocks.push(Vec::new());
        BFProgram { blocks }
    }
}

/// A batch of coalesced cell adjustments plus one net pointer move.
///
/// `memory` maps a cell offset (relative to the pointer at the start of the
/// batch) to a net adjustment, stored as a residue modulo 256; offsets are
/// pairwise distinct and a zero net adjustment is never stored.  Offsets are
/// kept as `i128` so that accumulating them can never overflow, whatever the
/// program length.
pub struct MachineDelta {
    pub memory: Vec<(i128, u8)>,
    pub data_ptr: i128,
}

/// A list of (offset, residue) pairs as its mathematical form.
pub open spec fn pairs_view(s: Seq<(i128, u8)>) -> Seq<(int, int)> {
    s.map_values(|p: (i128, u8)| (p.0 as int, p.1 as int))
}

impl MachineDelta {
    /// The adjustment list as a sequence of (offset, residue) pairs.
    pub open spec fn mem_view(&self) -> Seq<(int, int)> {
        pairs_view(self.memory@)
    }

    pub fn new() -> (r: MachineDelta)
        ensures
            r.mem_view() == Seq::<(int, int)>::empty(),
            r.data_ptr == 0,
    {
        MachineDelta { memory: Vec::new(), data_ptr: 0 }
    }

    pub fn is_empty(&self) -> (b: bool)
        ensures
            b == (self.memory@.len() == 0 && self.data_ptr == 0),
    {
        self.memory.len() == 0 && self.data_ptr == 0
    }
}

/// One optimized instruction.
pub enum BFPCommand {
    /// Apply a batch of cell adjustments, then move the pointer.
    Update(MachineDelta),
    /// Multiply-accumulate: add delta × current cell to each offset cell,
    /// then clear the current cell (no-op when the current cell is zero).
    Multiply(Vec<(i128, u8)>),
    /// Multiply-accumulate with a single target cell.
    MultiplySingle(i128, u8),
    /// Move the pointer by a fixed offset.
    Shift(i128),
    /// Set the current cell to zero.
    ZeroCell,
    /// Run the named body block while the current cell is nonzero.
    Loop(usize),
    /// Move the pointer by the step until the addressed cell is zero.
    ScanZero(i128),
    /// Consume one byte from the input channel into the current cell.
    Read,
    /// Emit the current cell to the output channel.
    Write,
}

/// The mathematical form of one optimized instruction.
pub ghost enum OCmd {
    Update { mem: Seq<(int, int)>, dp: int },
    Multiply { mem: Seq<(int, int)> },
    MulSingle { off: int, delta: int },
    Shift { dp: int },
    Zero,
    Loop { k: int },
    Scan { dp: int },
    Read,
    Write,
}

/// The mathematical form of an optimized command.
pub open spec fn opt_view(c: BFPCommand) -> OCmd {
    match c {
        BFPCommand::Update(d) => OCmd::Update { mem: d.mem_view(), dp: d.data_ptr as int },
        BFPCommand::Multiply(m) => OCmd::Multiply { mem: pairs_view(m@) },
        BFPCommand::MultiplySingle(off, delta) => OCmd::MulSingle {
            off: off as int,
            delta: delta as int,
        },
        BFPCommand::Shift(dp) => OCmd::Shift { dp: dp as int },
        BFPCommand::ZeroCell => OCmd::Zero,
        BFPCommand::Loop(k) => OCmd::Loop { k: k as int },
        BFPCommand::ScanZero(dp) => OCmd::Scan { dp: dp as int },
        BFPCommand::Read => OCmd::Read,
        BFPCommand::Write => OCmd::Write,
    }
}

/// An optimized program: an arena of blocks indexed like its raw source,
/// with the root at the last index.
pub struct BFPProgram {
    pub blocks: Vec<Vec<BFPCommand>>,
}

impl View for BFPProgram {
    type V = Seq<Seq<OCmd>>;

    open spec fn view(&self) -> Seq<Seq<OCmd>> {
        self.blocks@.map_values(|b: Vec<BFPCommand>| b@.map_values(|c: BFPCommand| opt_view(c)))
    }
}

/// Pairwise-distinct offsets, every stored residue in 1 ..= 255.
pub open spec fn delta_wf(pm: Seq<(int, int)>) -> bool {
    &&& forall|i: int, j: int| 0 <= i < j < pm.len() ==> (#[trigger] pm[i]).0 != (#[trigger] pm[j]).0
    &&& forall|i: int| 0 <= i < pm.len() ==> 1 <= (#[trigger] pm[i]).1 < 256
}

/// No stored offset is zero (the driving cell of a multiply loop).
pub open spec fn delta_no_zero_off(pm: Seq<(int, int)>) -> bool {
    forall|i: int| 0 <= i < pm.len() ==> (#[trigger] pm[i]).0 != 0
}

pub open spec fn opt_cmd_wf(c: OCmd, j: int) -> bool {
    match c {
        OCmd::Update { mem, dp } => delta_wf(mem),
        OCmd::Multiply { mem } => delta_wf(mem) && delta_no_zero_off(mem) && mem.len() >= 2,
        OCmd::MulSingle { off, delta } => off != 0 && 1 <= delta < 256,
        OCmd::Loop { k } => 0 <= k < j,
        _ => true,
    }
}

pub open spec fn opt_block_wf(b: Seq<OCmd>, j: int) -> bool {
    forall|i: int| 0 <= i < b.len() ==> opt_cmd_wf(#[trigger] b[i], j)
}

pub open spec fn opt_arena_wf(blocks: Seq<Seq<OCmd>>) -> bool {
    &&& blocks.len() >= 1
    &&& forall|j: int| 0 <= j < blocks.len() ==> opt_block_wf(#[trigger] blocks[j], j)
}

impl BFPProgram {
    pub open spec fn wf(&self) -> bool {
        opt_arena_wf(self@)
    }

    /// Index of the root block: always the last block of the arena.
    pub open spec fn root(&self) -> int {
        self@.len() - 1
    }

    /// The empty optimized program: a single empty root block.
    pub fn new() -> (r: BFPProgram)
        ensures
            r.wf(),
            r@.len() == 1,
            r@[0] == Seq::<OCmd>::empty(),
    {
        let mut blocks: Vec<Vec<BFPCommand>> = Vec::new();
        blocks.push(Vec::new());
        BFPProgram { blocks }
    }
}

} // verus!
