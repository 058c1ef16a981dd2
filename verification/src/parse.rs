//! The recursive-descent parser, phrased over an explicit stack.
//!
//! A stack of in-progress blocks starts with one empty root.  Each
//! recognized character appends an instruction to the top block; `[` pushes
//! a new empty block, `]` pops the top block into the arena and appends a
//! loop reference to it.  Unrecognized characters are comments.  A `]` with
//! no block open, or a block still open at the end, is a structural parse
//! failure reported as a distinct error, and nothing is ever executed for
//! such source.

use vstd::prelude::*;
use crate::ast::{BFCommand, BFProgram, raw_block_wf, raw_cmd_wf};

verus! {

/// A structural parse failure: execution must never follow one.
#[derive(Clone, Copy, PartialEq, Eq, Structural, Debug)]
pub enum ParseError {
    /// A `]` was seen while only the root block was open.
    UnmatchedCloseBracket,
    /// A `[` was still open when the source ended.
    UnmatchedOpenBracket,
}

/// The parser's intermediate state: the blocks still open, innermost last,
/// and the arena of blocks already closed.
pub ghost struct ParseState {
    pub stack: Seq<Seq<BFCommand>>,
    pub arena: Seq<Seq<BFCommand>>,
}

/// Consume one character.
pub open spec fn parse_char(st: ParseState, c: char) -> Result<ParseState, ParseError> {
    let top = st.stack.last();
    let t = st.stack.len() - 1;
    if c == '>' {
        Ok(ParseState { stack: st.stack.update(t, top.push(BFCommand::IncDataPtr)), ..st })
    } else if c == '<' {
        Ok(ParseState { stack: st.stack.update(t, top.push(BFCommand::DecDataPtr)), ..st })
    } else if c == '+' {
        Ok(ParseState { stack: st.stack.update(t, top.push(BFCommand::Inc)), ..st })
    } else if c == '-' {
        Ok(ParseState { stack: st.stack.update(t, top.push(BFCommand::Dec)), ..st })
    } else if c == '.' {
        Ok(ParseState { stack: st.stack.update(t, top.push(BFCommand::Write)), ..st })
    } else if c == ',' {
        Ok(ParseState { stack: st.stack.update(t, top.push(BFCommand::Read)), ..st })
    } else if c == '[' {
        Ok(ParseState { stack: st.stack.push(Seq::empty()), ..st })
    } else if c == ']' {
        if st.stack.len() == 1 {
            Err(ParseError::UnmatchedCloseBracket)
        } else {
            let idx = st.arena.len() as int;
            Ok(ParseState {
                stack: st.stack.drop_last().update(t - 1,
                    st.stack[t - 1].push(BFCommand::Loop(idx as usize))),
                arena: st.arena.push(top),
            })
        }
    } else {
        Ok(st)
    }
}

/// Consume a whole character sequence.
pub open spec fn parse_iter(cs: Seq<char>, st: ParseState) -> Result<ParseState, ParseError>
    decreases cs.len(),
{
    if cs.len() == 0 {
        Ok(st)
    } else {
        match parse_char(st, cs[0]) {
            Ok(st2) => parse_iter(cs.drop_first(), st2),
            Err(e) => Err(e),
        }
    }
}

/// The initial parser state: one empty root block open, nothing closed.
pub open spec fn parse_init() -> ParseState {
    ParseState { stack: seq![Seq::<BFCommand>::empty()], arena: Seq::empty() }
}

/// What parsing a source text yields: the arena of a raw program whose root
/// is its last block, or the structural error.
pub open spec fn parse_spec(cs: Seq<char>) -> Result<Seq<Seq<BFCommand>>, ParseError> {
    match parse_iter(cs, parse_init()) {
        Ok(st) => {
            if st.stack.len() == 1 {
                Ok(st.arena.push(st.stack[0]))
            } else {
                Err(ParseError::UnmatchedOpenBracket)
            }
        }
        Err(e) => Err(e),
    }
}

/// Every closed block refers only to blocks closed before it, and every
/// open block refers only to blocks already closed.
pub open spec fn parse_state_wf(st: ParseState) -> bool {
    &&& st.stack.len() >= 1
    &&& forall|b: int| 0 <= b < st.arena.len() ==> raw_block_wf(#[trigger] st.arena[b], b)
    &&& forall|b: int| 0 <= b < st.stack.len() ==> raw_block_wf(#[trigger] st.stack[b],
        st.arena.len() as int)
}

impl BFProgram {
    /// Parse source text into a raw program.
    ///
    /// Exactly the well-bracketed sources parse; a `]` with no open `[`
    /// yields [`ParseError::UnmatchedCloseBracket`], a `[` never closed
    /// yields [`ParseError::UnmatchedOpenBracket`].
    pub fn parse(code: &str) -> (r: Result<BFProgram, ParseError>)
        ensures
            match r {
                Ok(p) => parse_spec(code@) == Ok::<Seq<Seq<BFCommand>>, ParseError>(p@) && p.wf(),
                Err(e) => parse_spec(code@) == Err::<Seq<Seq<BFCommand>>, ParseError>(e),
            },
    {
        let n = code.unicode_len();
        let mut stack: Vec<Vec<BFCommand>> = Vec::new();
        stack.push(Vec::new());
        let mut arena: Vec<Vec<BFCommand>> = Vec::new();
        let mut i: usize = 0;
        proof {
            assert(code@.skip(0) =~= code@);
            assert(stack@.map_values(|b: Vec<BFCommand>| b@) =~= parse_init().stack);
            assert(arena@.map_values(|b: Vec<BFCommand>| b@) =~= parse_init().arena);
        }
        while i < n
            invariant
                i <= n,
                n == code@.len(),
                stack@.len() >= 1,
                parse_state_wf(ParseState {
                    stack: stack@.map_values(|b: Vec<BFCommand>| b@),
                    arena: arena@.map_values(|b: Vec<BFCommand>| b@),
                }),
                parse_iter(code@, parse_init()) == parse_iter(code@.skip(i as int), ParseState {
                    stack: stack@.map_values(|b: Vec<BFCommand>| b@),
                    arena: arena@.map_values(|b: Vec<BFCommand>| b@),
                }),
            decreases n - i,
        {
            let ghost stv = stack@.map_values(|b: Vec<BFCommand>| b@);
            let ghost arv = arena@.map_values(|b: Vec<BFCommand>| b@);
            let ghost st = ParseState { stack: stv, arena: arv };
            proof {
                crate::sem::lemma_skip_step(code@, i as int);
            }
            let c = code.get_char(i);
            match c {
                '>' => {
                    push_top(&mut stack, BFCommand::IncDataPtr);
                }
                '<' => {
                    push_top(&mut stack, BFCommand::DecDataPtr);
                }
                '+' => {
                    push_top(&mut stack, BFCommand::Inc);
                }
                '-' => {
                    push_top(&mut stack, BFCommand::Dec);
                }
                '.' => {
                    push_top(&mut stack, BFCommand::Write);
                }
                ',' => {
                    push_top(&mut stack, BFCommand::Read);
                }
                '[' => {
                    stack.push(Vec::new());
                    proof {
                        assert(stack@.map_values(|b: Vec<BFCommand>| b@)
                            =~= stv.push(Seq::empty()));
                    }
                }
                ']' => {
                    if stack.len() == 1 {
                        return Err(ParseError::UnmatchedCloseBracket);
                    }
                    let body = match stack.pop() {
                        Some(b) => b,
                        None => {
                            proof {
                                assert(false);
                            }
                            Vec::new()
                        }
                    };
                    let idx = arena.len();
                    arena.push(body);
                    push_top(&mut stack, BFCommand::Loop(idx));
                    proof {
                        let t = stv.len() - 1;
                        assert(stack@.map_values(|b: Vec<BFCommand>| b@)
                            =~= stv.drop_last().update(t - 1,
                                stv[t - 1].push(BFCommand::Loop(idx))));
                        assert(arena@.map_values(|b: Vec<BFCommand>| b@)
                            =~= arv.push(stv.last()));
                    }
                }
                _ => {}
            }
            i += 1;
        }
        let ghost fin = ParseState {
            stack: stack@.map_values(|b: Vec<BFCommand>| b@),
            arena: arena@.map_values(|b: Vec<BFCommand>| b@),
        };
        proof {
            assert(code@.skip(n as int).len() == 0);
            assert(parse_iter(code@, parse_init()) == Ok::<ParseState, ParseError>(fin));
        }
        if stack.len() == 1 {
            let root = match stack.pop() {
                Some(b) => b,
                None => {
                    proof {
                        assert(false);
                    }
                    Vec::new()
                }
            };
            arena.push(root);
            let p = BFProgram { blocks: arena };
            proof {
                assert(root@ == fin.stack[0]);
                assert(p@ =~= fin.arena.push(fin.stack[0]));
                assert(raw_block_wf(fin.stack[0], fin.arena.len() as int));
                assert forall|b: int| 0 <= b < p@.len() implies raw_block_wf(#[trigger] p@[b], b) by {
                    if b < fin.arena.len() {
                        assert(p@[b] == fin.arena[b]);
                    }
                }
            }
            Ok(p)
        } else {
            Err(ParseError::UnmatchedOpenBracket)
        }
    }
}

/// Well-bracketed source, starting from `d` loops already open: every `]`
/// closes an open `[`, and nothing stays open at the end.
pub open spec fn balanced_from(cs: Seq<char>, d: int) -> bool
    decreases cs.len(),
{
    if cs.len() == 0 {
        d == 0
    } else if cs[0] == '[' {
        balanced_from(cs.drop_first(), d + 1)
    } else if cs[0] == ']' {
        d > 0 && balanced_from(cs.drop_first(), d - 1)
    } else {
        balanced_from(cs.drop_first(), d)
    }
}

/// Parsing from a state with the given number of open loops succeeds
/// exactly on source that closes them all.
proof fn lemma_parse_balanced(cs: Seq<char>, st: ParseState)
    requires
        st.stack.len() >= 1,
    ensures
        (match parse_iter(cs, st) {
            Ok(fin) => fin.stack.len() == 1,
            Err(_) => false,
        }) <==> balanced_from(cs, st.stack.len() - 1),
    decreases cs.len(),
{
    if cs.len() == 0 {
    } else {
        let c = cs[0];
        let rest = cs.drop_first();
        if c == ']' {
            if st.stack.len() == 1 {
            } else {
                let st2 = parse_char(st, c)->Ok_0;
                assert(st2.stack.len() == st.stack.len() - 1);
                lemma_parse_balanced(rest, st2);
            }
        } else if c == '[' {
            let st2 = parse_char(st, c)->Ok_0;
            assert(st2.stack.len() == st.stack.len() + 1);
            lemma_parse_balanced(rest, st2);
        } else {
            let st2 = parse_char(st, c)->Ok_0;
            assert(st2.stack.len() == st.stack.len());
            lemma_parse_balanced(rest, st2);
        }
    }
}

/// Structurally unbalanced source is rejected, before anything could run:
/// parsing fails exactly when the source is not well-bracketed.
pub proof fn unbalanced_brackets_rejected(cs: Seq<char>)
    ensures
        (parse_spec(cs) matches Err(e)) <==> !balanced_from(cs, 0),
{
    lemma_parse_balanced(cs, parse_init());
}

/// The characters that are instructions; everything else is a comment.
pub open spec fn is_instr_char(c: char) -> bool {
    c == '>' || c == '<' || c == '+' || c == '-' || c == '.' || c == ',' || c == '[' || c == ']'
}

/// How many non-comment characters a source text holds.
pub open spec fn instr_char_count(cs: Seq<char>) -> int
    decreases cs.len(),
{
    if cs.len() == 0 {
        0
    } else {
        (if is_instr_char(cs[0]) {
            1int
        } else {
            0int
        }) + instr_char_count(cs.drop_first())
    }
}

/// How many source characters one parsed instruction stands for: one for a
/// simple instruction, the two brackets plus the body for a loop.
pub open spec fn cmd_weight(blocks: Seq<Seq<BFCommand>>, j: nat, c: BFCommand) -> int
    decreases j, 0nat, 0nat,
{
    match c {
        BFCommand::Loop(k) => {
            if k < j {
                2 + cmds_weight(blocks, k as nat, blocks[k as int])
            } else {
                2
            }
        }
        _ => 1,
    }
}

/// The source characters a parsed instruction sequence stands for.
pub open spec fn cmds_weight(blocks: Seq<Seq<BFCommand>>, j: nat, cmds: Seq<BFCommand>) -> int
    decreases j, cmds.len(), 1nat,
{
    if cmds.len() == 0 {
        0
    } else {
        cmd_weight(blocks, j, cmds[0]) + cmds_weight(blocks, j, cmds.drop_first())
    }
}

/// A block's weight reads only the arena below `j`: it is unmoved by growing
/// the arena or loosening the bound.
proof fn lemma_weight_exts(
    arena: Seq<Seq<BFCommand>>,
    arena2: Seq<Seq<BFCommand>>,
    j: nat,
    j2: nat,
    cmds: Seq<BFCommand>,
)
    requires
        raw_block_wf(cmds, j as int),
        j <= j2,
        j <= arena.len(),
        j <= arena2.len(),
        forall|k: int| 0 <= k < j ==> arena[k] == arena2[k],
        forall|k: int| 0 <= k < j ==> raw_block_wf(#[trigger] arena[k], k),
    ensures
        cmds_weight(arena, j, cmds) == cmds_weight(arena2, j2, cmds),
    decreases j, cmds.len(),
{
    if cmds.len() == 0 {
    } else {
        let rest = cmds.drop_first();
        assert(raw_cmd_wf(cmds[0], j as int));
        assert(raw_block_wf(rest, j as int)) by {
            assert forall|i: int| 0 <= i < rest.len() implies raw_cmd_wf(#[trigger] rest[i], j as int) by {
                assert(rest[i] == cmds[i + 1]);
                assert(raw_cmd_wf(cmds[i + 1], j as int));
            }
        }
        assert(cmds_weight(arena, j, cmds) == cmd_weight(arena, j, cmds[0])
            + cmds_weight(arena, j, rest));
        assert(cmds_weight(arena2, j2, cmds) == cmd_weight(arena2, j2, cmds[0])
            + cmds_weight(arena2, j2, rest));
        match cmds[0] {
            BFCommand::Loop(k) => {
                lemma_weight_exts(arena, arena2, k as nat, k as nat, arena[k as int]);
                assert(cmd_weight(arena, j, cmds[0]) == 2 + cmds_weight(arena, k as nat, arena[k as int]));
                assert(cmd_weight(arena2, j2, cmds[0]) == 2 + cmds_weight(arena2, k as nat, arena2[k as int]));
            }
            _ => {}
        }
        lemma_weight_exts(arena, arena2, j, j2, rest);
    }
}

/// Appending one instruction adds its weight.
proof fn lemma_weight_snoc(arena: Seq<Seq<BFCommand>>, j: nat, cmds: Seq<BFCommand>, c: BFCommand)
    ensures
        cmds_weight(arena, j, cmds.push(c)) == cmds_weight(arena, j, cmds) + cmd_weight(arena, j, c),
    decreases cmds.len(),
{
    if cmds.len() == 0 {
        assert(cmds.push(c)[0] == c);
        assert(cmds.push(c).drop_first() =~= Seq::<BFCommand>::empty());
        assert(cmds_weight(arena, j, Seq::<BFCommand>::empty()) == 0);
        assert(cmds_weight(arena, j, cmds.push(c)) == cmd_weight(arena, j, c)
            + cmds_weight(arena, j, Seq::<BFCommand>::empty()));
    } else {
        assert(cmds.push(c)[0] == cmds[0]);
        assert(cmds.push(c).drop_first() =~= cmds.drop_first().push(c));
        lemma_weight_snoc(arena, j, cmds.drop_first(), c);
        assert(cmds_weight(arena, j, cmds.push(c)) == cmd_weight(arena, j, cmds[0])
            + cmds_weight(arena, j, cmds.drop_first().push(c)));
        assert(cmds_weight(arena, j, cmds) == cmd_weight(arena, j, cmds[0])
            + cmds_weight(arena, j, cmds.drop_first()));
    }
}

/// The weights of the open blocks, each read against the closed arena.
pub open spec fn stack_weight(arena: Seq<Seq<BFCommand>>, stack: Seq<Seq<BFCommand>>) -> int
    decreases stack.len(),
{
    if stack.len() == 0 {
        0
    } else {
        cmds_weight(arena, arena.len() as nat, stack[0]) + stack_weight(arena, stack.drop_first())
    }
}

/// Changing one open block changes the total by its weight difference.
proof fn lemma_stack_weight_update(arena: Seq<Seq<BFCommand>>, stack: Seq<Seq<BFCommand>>, i: int, b: Seq<BFCommand>)
    requires
        0 <= i < stack.len(),
    ensures
        stack_weight(arena, stack.update(i, b)) == stack_weight(arena, stack)
            - cmds_weight(arena, arena.len() as nat, stack[i])
            + cmds_weight(arena, arena.len() as nat, b),
    decreases i,
{
    if i == 0 {
        assert(stack.update(0, b)[0] == b);
        assert(stack.update(0, b).drop_first() =~= stack.drop_first());
        assert(stack_weight(arena, stack.update(0, b))
            == cmds_weight(arena, arena.len() as nat, b)
                + stack_weight(arena, stack.drop_first()));
    } else {
        assert(stack.update(i, b)[0] == stack[0]);
        assert(stack.update(i, b).drop_first() =~= stack.drop_first().update(i - 1, b));
        lemma_stack_weight_update(arena, stack.drop_first(), i - 1, b);
        assert(stack_weight(arena, stack.update(i, b))
            == cmds_weight(arena, arena.len() as nat, stack[0])
                + stack_weight(arena, stack.drop_first().update(i - 1, b)));
    }
}

/// A pushed open block adds its weight at the end.
proof fn lemma_stack_weight_push(arena: Seq<Seq<BFCommand>>, stack: Seq<Seq<BFCommand>>, b: Seq<BFCommand>)
    ensures
        stack_weight(arena, stack.push(b)) == stack_weight(arena, stack)
            + cmds_weight(arena, arena.len() as nat, b),
    decreases stack.len(),
{
    if stack.len() == 0 {
        assert(stack.push(b)[0] == b);
        assert(stack.push(b).drop_first() =~= Seq::<Seq<BFCommand>>::empty());
        assert(stack_weight(arena, Seq::<Seq<BFCommand>>::empty()) == 0);
        assert(stack_weight(arena, stack.push(b))
            == cmds_weight(arena, arena.len() as nat, b)
                + stack_weight(arena, Seq::<Seq<BFCommand>>::empty()));
    } else {
        assert(stack.push(b)[0] == stack[0]);
        assert(stack.push(b).drop_first() =~= stack.drop_first().push(b));
        lemma_stack_weight_push(arena, stack.drop_first(), b);
        assert(stack_weight(arena, stack.push(b))
            == cmds_weight(arena, arena.len() as nat, stack[0])
                + stack_weight(arena, stack.drop_first().push(b)));
    }
}

/// Dropping the last open block removes its weight.
proof fn lemma_stack_weight_snoc(arena: Seq<Seq<BFCommand>>, stack: Seq<Seq<BFCommand>>)
    requires
        stack.len() >= 1,
    ensures
        stack_weight(arena, stack) == stack_weight(arena, stack.drop_last())
            + cmds_weight(arena, arena.len() as nat, stack.last()),
{
    assert(stack =~= stack.drop_last().push(stack.last()));
    lemma_stack_weight_push(arena, stack.drop_last(), stack.last());
}

/// The total weight of the open blocks depends only on the closed arena.
proof fn lemma_stack_weight_exts(arena: Seq<Seq<BFCommand>>, arena2: Seq<Seq<BFCommand>>, stack: Seq<Seq<BFCommand>>)
    requires
        arena.len() <= arena2.len(),
        forall|k: int| 0 <= k < arena.len() ==> arena[k] == arena2[k],
        forall|k: int| 0 <= k < arena.len() ==> raw_block_wf(#[trigger] arena[k], k),
        forall|b: int| 0 <= b < stack.len() ==> raw_block_wf(#[trigger] stack[b], arena.len() as int),
    ensures
        stack_weight(arena, stack) == stack_weight(arena2, stack),
    decreases stack.len(),
{
    if stack.len() > 0 {
        lemma_weight_exts(arena, arena2, arena.len() as nat, arena2.len() as nat, stack[0]);
        assert forall|b: int| 0 <= b < stack.drop_first().len() implies raw_block_wf(
            #[trigger] stack.drop_first()[b], arena.len() as int) by {
            assert(stack.drop_first()[b] == stack[b + 1]);
        }
        lemma_stack_weight_exts(arena, arena2, stack.drop_first());
    }
}

/// Parsing keeps its state well-formed.
proof fn lemma_parse_char_wf(st: ParseState, c: char)
    requires
        parse_state_wf(st),
    ensures
        parse_char(st, c) matches Ok(st2) ==> parse_state_wf(st2),
{
}

/// Through a whole parse, the weights of the open blocks plus one character
/// for each loop still open grow by exactly the non-comment characters read.
proof fn lemma_parse_weight(cs: Seq<char>, st: ParseState)
    requires
        parse_state_wf(st),
        st.arena.len() + cs.len() <= usize::MAX,
    ensures
        parse_iter(cs, st) matches Ok(fin) ==> parse_state_wf(fin)
            && stack_weight(fin.arena, fin.stack) + fin.stack.len()
                == stack_weight(st.arena, st.stack) + st.stack.len() + instr_char_count(cs),
    decreases cs.len(),
{
    if cs.len() == 0 {
    } else {
        let c = cs[0];
        let rest = cs.drop_first();
        let t = st.stack.len() - 1;
        let top = st.stack.last();
        let alen = st.arena.len() as nat;
        lemma_parse_char_wf(st, c);
        match parse_char(st, c) {
            Ok(st2) => {
                lemma_parse_weight(rest, st2);
                if c == '[' {
                    lemma_stack_weight_push(st.arena, st.stack, Seq::empty());
                    assert(cmds_weight(st.arena, alen, Seq::<BFCommand>::empty()) == 0);
                    assert(stack_weight(st2.arena, st2.stack) + st2.stack.len()
                        == stack_weight(st.arena, st.stack) + st.stack.len() + 1);
                } else if c == ']' {
                    // close the top block into the arena and weigh the new loop
                    assert(st.arena.len() < usize::MAX);
                    assert((st.arena.len() as usize) as nat == st.arena.len());
                    let arena2 = st.arena.push(top);
                    let parent = st.stack[t - 1].push(BFCommand::Loop(st.arena.len() as usize));
                    assert(st2.stack == st.stack.drop_last().update(t - 1, parent));
                    assert(st2.arena == arena2);
                    // the old stack, re-weighed against the grown arena
                    lemma_stack_weight_exts(st.arena, arena2, st.stack);
                    lemma_stack_weight_snoc(arena2, st.stack);
                    assert(st.stack.drop_last().update(t - 1, parent)
                        =~= st.stack.update(t - 1, parent).drop_last());
                    lemma_stack_weight_snoc(arena2, st.stack.update(t - 1, parent));
                    assert(st.stack.update(t - 1, parent).last() == top);
                    assert(st.stack.update(t - 1, parent).drop_last()
                        =~= st.stack.drop_last().update(t - 1, parent));
                    lemma_stack_weight_update(arena2, st.stack, t - 1, parent);
                    lemma_weight_snoc(arena2, arena2.len() as nat, st.stack[t - 1],
                        BFCommand::Loop(st.arena.len() as usize));
                    // the new loop weighs two brackets plus its body
                    assert(cmd_weight(arena2, arena2.len() as nat,
                        BFCommand::Loop(st.arena.len() as usize))
                        == 2 + cmds_weight(arena2, alen, top)) by {
                        assert(arena2[alen as int] == top);
                    }
                    lemma_weight_exts(st.arena, arena2, alen, alen, top);
                    // the popped body weighs the same under either bound
                    assert forall|k: int| 0 <= k < alen implies raw_block_wf(#[trigger] arena2[k], k) by {
                        assert(arena2[k] == st.arena[k]);
                    }
                    lemma_weight_exts(arena2, arena2, alen, (alen + 1) as nat, top);
                    assert(arena2.len() as nat == alen + 1);
                    assert(stack_weight(st2.arena, st2.stack) + st2.stack.len()
                        == stack_weight(st.arena, st.stack) + st.stack.len() + 1);
                } else if c == '>' || c == '<' || c == '+' || c == '-' || c == '.' || c == ',' {
                    let cmd = st2.stack[t][st2.stack[t].len() - 1];
                    assert(st2.stack == st.stack.update(t, top.push(cmd)));
                    lemma_stack_weight_update(st.arena, st.stack, t, top.push(cmd));
                    lemma_weight_snoc(st.arena, alen, top, cmd);
                    assert(cmd_weight(st.arena, alen, cmd) == 1);
                    assert(stack_weight(st2.arena, st2.stack) + st2.stack.len()
                        == stack_weight(st.arena, st.stack) + st.stack.len() + 1);
                } else {
                    assert(st2 == st);
                    assert(!is_instr_char(c));
                }
            }
            Err(_) => {}
        }
    }
}

/// Parser round-trip, counting: for well-bracketed source, the parsed tree
/// accounts for exactly the non-comment characters — each simple instruction
/// for its character, each loop for its two brackets and its body.
pub proof fn parser_counts_characters(cs: Seq<char>)
    requires
        cs.len() <= usize::MAX,
    ensures
        parse_spec(cs) matches Ok(blocks) ==> cmds_weight(blocks,
            (blocks.len() - 1) as nat, blocks[blocks.len() - 1]) == instr_char_count(cs),
{
    let init = parse_init();
    assert(parse_state_wf(init));
    lemma_parse_weight(cs, init);
    assert(stack_weight(init.arena, init.stack) == 0) by {
        assert(init.stack[0] =~= Seq::<BFCommand>::empty());
        assert(cmds_weight(init.arena, init.arena.len() as nat, init.stack[0]) == 0);
        assert(init.stack.drop_first().len() == 0);
        assert(stack_weight(init.arena, init.stack.drop_first()) == 0);
        assert(stack_weight(init.arena, init.stack)
            == cmds_weight(init.arena, init.arena.len() as nat, init.stack[0])
                + stack_weight(init.arena, init.stack.drop_first()));
    }
    match parse_iter(cs, init) {
        Ok(fin) => {
            if fin.stack.len() == 1 {
                let root = fin.stack[0];
                let alen = fin.arena.len() as nat;
                let blocks = fin.arena.push(root);
                assert(stack_weight(fin.arena, fin.stack)
                    == cmds_weight(fin.arena, alen, root)) by {
                    assert(fin.stack.drop_first().len() == 0);
                    assert(stack_weight(fin.arena, fin.stack.drop_first()) == 0);
                    assert(stack_weight(fin.arena, fin.stack)
                        == cmds_weight(fin.arena, alen, fin.stack[0])
                            + stack_weight(fin.arena, fin.stack.drop_first()));
                }
                lemma_weight_exts(fin.arena, blocks, alen, alen, root);
            }
        }
        Err(_) => {}
    }
}

pub open spec fn spec_max(a: int, b: int) -> int {
    if a >= b {
        a
    } else {
        b
    }
}

/// Nesting depth of one parsed instruction: zero for a simple one, one more
/// than its body's depth for a loop.
pub open spec fn cmd_depth(blocks: Seq<Seq<BFCommand>>, j: nat, c: BFCommand) -> int
    decreases j, 0nat, 0nat,
{
    match c {
        BFCommand::Loop(k) => {
            if k < j {
                1 + cmds_depth(blocks, k as nat, blocks[k as int])
            } else {
                1
            }
        }
        _ => 0,
    }
}

/// Nesting depth of a parsed instruction sequence.
pub open spec fn cmds_depth(blocks: Seq<Seq<BFCommand>>, j: nat, cmds: Seq<BFCommand>) -> int
    decreases j, cmds.len(), 1nat,
{
    if cmds.len() == 0 {
        0
    } else {
        spec_max(cmd_depth(blocks, j, cmds[0]), cmds_depth(blocks, j, cmds.drop_first()))
    }
}

/// The highest bracket-nesting depth a source text reaches, read with `cur`
/// loops already open.
pub open spec fn src_depth(cs: Seq<char>, cur: int) -> int
    decreases cs.len(),
{
    if cs.len() == 0 {
        cur
    } else {
        let nxt = if cs[0] == '[' {
            cur + 1
        } else if cs[0] == ']' {
            cur - 1
        } else {
            cur
        };
        spec_max(cur, src_depth(cs.drop_first(), nxt))
    }
}

proof fn lemma_src_depth_lower(cs: Seq<char>, cur: int)
    ensures
        src_depth(cs, cur) >= cur,
    decreases cs.len(),
{
    if cs.len() > 0 {
        let nxt = if cs[0] == '[' {
            cur + 1
        } else if cs[0] == ']' {
            cur - 1
        } else {
            cur
        };
        lemma_src_depth_lower(cs.drop_first(), nxt);
    }
}

/// Depths are never negative.
proof fn lemma_depth_nonneg(blocks: Seq<Seq<BFCommand>>, j: nat, cmds: Seq<BFCommand>)
    ensures
        cmds_depth(blocks, j, cmds) >= 0,
    decreases j, cmds.len(),
{
    if cmds.len() > 0 {
        lemma_depth_nonneg(blocks, j, cmds.drop_first());
    }
}

/// A block's depth reads only the arena below `j`.
proof fn lemma_depth_exts(
    arena: Seq<Seq<BFCommand>>,
    arena2: Seq<Seq<BFCommand>>,
    j: nat,
    j2: nat,
    cmds: Seq<BFCommand>,
)
    requires
        raw_block_wf(cmds, j as int),
        j <= j2,
        j <= arena.len(),
        j <= arena2.len(),
        forall|k: int| 0 <= k < j ==> arena[k] == arena2[k],
        forall|k: int| 0 <= k < j ==> raw_block_wf(#[trigger] arena[k], k),
    ensures
        cmds_depth(arena, j, cmds) == cmds_depth(arena2, j2, cmds),
    decreases j, cmds.len(),
{
    if cmds.len() == 0 {
    } else {
        let rest = cmds.drop_first();
        assert(raw_cmd_wf(cmds[0], j as int));
        assert(raw_block_wf(rest, j as int)) by {
            assert forall|i: int| 0 <= i < rest.len() implies raw_cmd_wf(#[trigger] rest[i], j as int) by {
                assert(rest[i] == cmds[i + 1]);
                assert(raw_cmd_wf(cmds[i + 1], j as int));
            }
        }
        assert(cmds_depth(arena, j, cmds) == spec_max(cmd_depth(arena, j, cmds[0]),
            cmds_depth(arena, j, rest)));
        assert(cmds_depth(arena2, j2, cmds) == spec_max(cmd_depth(arena2, j2, cmds[0]),
            cmds_depth(arena2, j2, rest)));
        match cmds[0] {
            BFCommand::Loop(k) => {
                lemma_depth_exts(arena, arena2, k as nat, k as nat, arena[k as int]);
                assert(cmd_depth(arena, j, cmds[0]) == 1 + cmds_depth(arena, k as nat, arena[k as int]));
                assert(cmd_depth(arena2, j2, cmds[0]) == 1 + cmds_depth(arena2, k as nat, arena2[k as int]));
            }
            _ => {}
        }
        lemma_depth_exts(arena, arena2, j, j2, rest);
    }
}

/// Appending one instruction takes the maximum with its depth.
proof fn lemma_depth_snoc(arena: Seq<Seq<BFCommand>>, j: nat, cmds: Seq<BFCommand>, c: BFCommand)
    ensures
        cmds_depth(arena, j, cmds.push(c)) == spec_max(cmds_depth(arena, j, cmds),
            cmd_depth(arena, j, c)),
    decreases cmds.len(),
{
    if cmds.len() == 0 {
        assert(cmds.push(c)[0] == c);
        assert(cmds.push(c).drop_first() =~= Seq::<BFCommand>::empty());
        assert(cmds_depth(arena, j, Seq::<BFCommand>::empty()) == 0);
        assert(cmds_depth(arena, j, cmds.push(c)) == spec_max(cmd_depth(arena, j, c),
            cmds_depth(arena, j, Seq::<BFCommand>::empty())));
        lemma_depth_nonneg(arena, j, cmds);
        match c {
            BFCommand::Loop(k) => {
                if k < j {
                    lemma_depth_nonneg(arena, k as nat, arena[k as int]);
                }
            }
            _ => {}
        }
    } else {
        assert(cmds.push(c)[0] == cmds[0]);
        assert(cmds.push(c).drop_first() =~= cmds.drop_first().push(c));
        lemma_depth_snoc(arena, j, cmds.drop_first(), c);
        assert(cmds_depth(arena, j, cmds.push(c)) == spec_max(cmd_depth(arena, j, cmds[0]),
            cmds_depth(arena, j, cmds.drop_first().push(c))));
        assert(cmds_depth(arena, j, cmds) == spec_max(cmd_depth(arena, j, cmds[0]),
            cmds_depth(arena, j, cmds.drop_first())));
    }
}

/// The deepest point of the open blocks: each block's own depth plus how
/// many loops enclose it, taken over the blocks from index `i` on.
pub open spec fn open_depth(arena: Seq<Seq<BFCommand>>, stack: Seq<Seq<BFCommand>>, i: int) -> int
    decreases stack.len() - i,
{
    if i < 0 || i >= stack.len() {
        0
    } else {
        spec_max(cmds_depth(arena, arena.len() as nat, stack[i]) + i, open_depth(arena, stack, i + 1))
    }
}

/// The open depth depends only on the closed arena.
proof fn lemma_open_depth_exts(arena: Seq<Seq<BFCommand>>, arena2: Seq<Seq<BFCommand>>, stack: Seq<Seq<BFCommand>>, i: int)
    requires
        arena.len() <= arena2.len(),
        forall|k: int| 0 <= k < arena.len() ==> arena[k] == arena2[k],
        forall|k: int| 0 <= k < arena.len() ==> raw_block_wf(#[trigger] arena[k], k),
        forall|b: int| 0 <= b < stack.len() ==> raw_block_wf(#[trigger] stack[b], arena.len() as int),
    ensures
        open_depth(arena, stack, i) == open_depth(arena2, stack, i),
    decreases stack.len() - i,
{
    if 0 <= i < stack.len() {
        lemma_depth_exts(arena, arena2, arena.len() as nat, arena2.len() as nat, stack[i]);
        lemma_open_depth_exts(arena, arena2, stack, i + 1);
    }
}

/// Pushing an open block takes the maximum with its depth at its level.
proof fn lemma_open_depth_push(arena: Seq<Seq<BFCommand>>, stack: Seq<Seq<BFCommand>>, b: Seq<BFCommand>, i: int)
    requires
        0 <= i <= stack.len(),
    ensures
        open_depth(arena, stack.push(b), i) == spec_max(open_depth(arena, stack, i),
            cmds_depth(arena, arena.len() as nat, b) + stack.len()),
    decreases stack.len() - i,
{
    if i == stack.len() {
        assert(stack.push(b)[i] == b);
        assert(open_depth(arena, stack.push(b), i + 1) == 0);
        assert(open_depth(arena, stack, i) == 0);
        lemma_depth_nonneg(arena, arena.len() as nat, b);
    } else {
        assert(stack.push(b)[i] == stack[i]);
        lemma_open_depth_push(arena, stack, b, i + 1);
    }
}

/// Replacing an open block whose depth grows to a maximum folds that
/// maximum into the total at the block's level.
proof fn lemma_open_depth_update(
    arena: Seq<Seq<BFCommand>>,
    stack: Seq<Seq<BFCommand>>,
    p: int,
    b: Seq<BFCommand>,
    x: int,
    i: int,
)
    requires
        0 <= i <= p < stack.len(),
        cmds_depth(arena, arena.len() as nat, b)
            == spec_max(cmds_depth(arena, arena.len() as nat, stack[p]), x),
        x >= 0,
    ensures
        open_depth(arena, stack.update(p, b), i) == spec_max(open_depth(arena, stack, i), x + p),
    decreases stack.len() - i,
{
    if i == p {
        assert(stack.update(p, b)[i] == b);
        assert forall|q: int| p < q < stack.len() implies stack.update(p, b)[q] == stack[q] by {}
        assert(open_depth(arena, stack.update(p, b), p + 1) == open_depth(arena, stack, p + 1)) by {
            lemma_open_depth_frame(arena, stack, p, b, p + 1);
        }
    } else {
        assert(stack.update(p, b)[i] == stack[i]);
        lemma_open_depth_update(arena, stack, p, b, x, i + 1);
    }
}

/// Blocks before the replaced one do not see the change.
proof fn lemma_open_depth_frame(arena: Seq<Seq<BFCommand>>, stack: Seq<Seq<BFCommand>>, p: int, b: Seq<BFCommand>, i: int)
    requires
        0 <= p < stack.len(),
        p < i,
    ensures
        open_depth(arena, stack.update(p, b), i) == open_depth(arena, stack, i),
    decreases stack.len() - i,
{
    if 0 <= i < stack.len() {
        assert(stack.update(p, b)[i] == stack[i]);
        lemma_open_depth_frame(arena, stack, p, b, i + 1);
    }
}

/// The open depth dominates each block's own contribution.
proof fn lemma_open_depth_elem(arena: Seq<Seq<BFCommand>>, stack: Seq<Seq<BFCommand>>, b: int, i: int)
    requires
        0 <= i <= b < stack.len(),
    ensures
        open_depth(arena, stack, i) >= cmds_depth(arena, arena.len() as nat, stack[b]) + b,
    decreases b - i,
{
    if i < b {
        lemma_open_depth_elem(arena, stack, b, i + 1);
    }
}

/// Through a whole parse, the deepest open point grows to the source's
/// deepest bracket nesting.
proof fn lemma_parse_depth(cs: Seq<char>, st: ParseState)
    requires
        parse_state_wf(st),
        st.arena.len() + cs.len() <= usize::MAX,
    ensures
        parse_iter(cs, st) matches Ok(fin) ==> open_depth(fin.arena, fin.stack, 0)
            == spec_max(open_depth(st.arena, st.stack, 0), src_depth(cs, st.stack.len() - 1)),
    decreases cs.len(),
{
    let t = st.stack.len() - 1;
    let top = st.stack.last();
    let alen = st.arena.len() as nat;
    if cs.len() == 0 {
        // the top block sits at level t, so the open depth is at least t
        lemma_open_depth_snoc_lower(st.arena, st.stack);
    } else {
        let c = cs[0];
        let rest = cs.drop_first();
        lemma_parse_char_wf(st, c);
        match parse_char(st, c) {
            Ok(st2) => {
                lemma_parse_depth(rest, st2);
                lemma_src_depth_lower(rest, if c == '[' {
                    t + 1
                } else if c == ']' {
                    t - 1
                } else {
                    t
                });
                lemma_open_depth_snoc_lower(st.arena, st.stack);
                if c == '[' {
                    lemma_open_depth_push(st.arena, st.stack, Seq::empty(), 0);
                    assert(cmds_depth(st.arena, alen, Seq::<BFCommand>::empty()) == 0);
                } else if c == ']' {
                    assert(st.arena.len() < usize::MAX);
                    assert((st.arena.len() as usize) as nat == st.arena.len());
                    let arena2 = st.arena.push(top);
                    let lcmd = BFCommand::Loop(st.arena.len() as usize);
                    let parent = st.stack[t - 1].push(lcmd);
                    assert(st2.stack == st.stack.drop_last().update(t - 1, parent));
                    assert(st2.arena == arena2);
                    lemma_open_depth_exts(st.arena, arena2, st.stack, 0);
                    assert forall|k: int| 0 <= k < alen implies raw_block_wf(#[trigger] arena2[k], k) by {
                        assert(arena2[k] == st.arena[k]);
                    }
                    // the new loop is one deeper than the closed body
                    let dtop = cmds_depth(arena2, alen, top);
                    assert(arena2[alen as int] == top);
                    assert(cmd_depth(arena2, arena2.len() as nat, lcmd) == 1 + dtop);
                    lemma_depth_snoc(arena2, arena2.len() as nat, st.stack[t - 1], lcmd);
                    lemma_depth_exts(st.arena, arena2, alen, alen, top);
                    lemma_depth_exts(arena2, arena2, alen, (alen + 1) as nat, top);
                    lemma_depth_exts(st.arena, arena2, alen, (alen + 1) as nat, st.stack[t - 1]);
                    lemma_depth_nonneg(arena2, alen, top);
                    // folding the closed block into its parent keeps the
                    // deepest open point
                    assert(st.stack.drop_last().update(t - 1, parent)
                        =~= st.stack.update(t - 1, parent).drop_last());
                    lemma_open_depth_update(arena2, st.stack, t - 1, parent, 1 + dtop, 0);
                    lemma_open_depth_drop_last(arena2, st.stack.update(t - 1, parent));
                    assert(st.stack.update(t - 1, parent).last() == top);
                    lemma_depth_exts(st.arena, arena2, alen, (alen + 1) as nat, top);
                    lemma_open_depth_snoc_lower2(arena2, st.stack.update(t - 1, parent));
                    // both the old and the folded stack reach at least the
                    // closed body's depth at its level
                    lemma_open_depth_drop_last(arena2, st.stack);
                    assert(st2.stack[t - 1] == parent);
                    lemma_open_depth_elem(arena2, st2.stack, t - 1, 0);
                    assert(open_depth(arena2, st2.stack, 0) >= dtop + t);
                    assert(open_depth(arena2, st.stack, 0) >= dtop + t);
                    assert(open_depth(arena2, st2.stack, 0) == open_depth(arena2, st.stack, 0));
                } else if c == '>' || c == '<' || c == '+' || c == '-' || c == '.' || c == ',' {
                    let cmd = st2.stack[t][st2.stack[t].len() - 1];
                    assert(st2.stack == st.stack.update(t, top.push(cmd)));
                    lemma_depth_snoc(st.arena, alen, top, cmd);
                    assert(cmd_depth(st.arena, alen, cmd) == 0);
                    lemma_depth_nonneg(st.arena, alen, top);
                    assert(cmds_depth(st.arena, alen, top.push(cmd))
                        == spec_max(cmds_depth(st.arena, alen, top), 0));
                    lemma_open_depth_update(st.arena, st.stack, t, top.push(cmd), 0, 0);
                } else {
                    assert(st2 == st);
                }
            }
            Err(_) => {}
        }
    }
}

/// The open depth is at least the level of the innermost block.
proof fn lemma_open_depth_snoc_lower(arena: Seq<Seq<BFCommand>>, stack: Seq<Seq<BFCommand>>)
    requires
        stack.len() >= 1,
    ensures
        open_depth(arena, stack, 0) >= stack.len() - 1,
        open_depth(arena, stack, 0) >= 0,
{
    lemma_open_depth_snoc_lower2(arena, stack);
}

/// The open depth decomposes over the innermost block.
proof fn lemma_open_depth_drop_last(arena: Seq<Seq<BFCommand>>, stack: Seq<Seq<BFCommand>>)
    requires
        stack.len() >= 1,
    ensures
        open_depth(arena, stack, 0) == spec_max(open_depth(arena, stack.drop_last(), 0),
            cmds_depth(arena, arena.len() as nat, stack.last()) + (stack.len() - 1)),
{
    assert(stack =~= stack.drop_last().push(stack.last()));
    lemma_open_depth_push(arena, stack.drop_last(), stack.last(), 0);
}

proof fn lemma_open_depth_snoc_lower2(arena: Seq<Seq<BFCommand>>, stack: Seq<Seq<BFCommand>>)
    requires
        stack.len() >= 1,
    ensures
        open_depth(arena, stack, 0) >= stack.len() - 1,
        open_depth(arena, stack, 0) >= 0,
{
    lemma_open_depth_drop_last(arena, stack);
    lemma_depth_nonneg(arena, arena.len() as nat, stack.last());
}

/// Parser round-trip, nesting: for well-bracketed source, the parsed tree
/// is exactly as deep as the source's deepest bracket nesting.
pub proof fn parser_matches_nesting_depth(cs: Seq<char>)
    requires
        cs.len() <= usize::MAX,
    ensures
        parse_spec(cs) matches Ok(blocks) ==> cmds_depth(blocks,
            (blocks.len() - 1) as nat, blocks[blocks.len() - 1]) == src_depth(cs, 0),
{
    let init = parse_init();
    assert(parse_state_wf(init));
    lemma_parse_weight(cs, init);
    lemma_parse_depth(cs, init);
    assert(open_depth(init.arena, init.stack, 0) == 0) by {
        assert(init.stack[0] =~= Seq::<BFCommand>::empty());
        assert(cmds_depth(init.arena, init.arena.len() as nat, init.stack[0]) == 0);
        assert(open_depth(init.arena, init.stack, 1) == 0);
    }
    lemma_src_depth_lower(cs, 0);
    match parse_iter(cs, init) {
        Ok(fin) => {
            if fin.stack.len() == 1 {
                let root = fin.stack[0];
                let alen = fin.arena.len() as nat;
                let blocks = fin.arena.push(root);
                assert(open_depth(fin.arena, fin.stack, 0)
                    == spec_max(cmds_depth(fin.arena, alen, root) + 0,
                        open_depth(fin.arena, fin.stack, 1)));
                assert(open_depth(fin.arena, fin.stack, 1) == 0);
                lemma_depth_nonneg(fin.arena, alen, root);
                lemma_depth_exts(fin.arena, blocks, alen, alen, root);
            }
        }
        Err(_) => {}
    }
}

/// Append one instruction to the innermost open block.
fn push_top(stack: &mut Vec<Vec<BFCommand>>, c: BFCommand)
    requires
        old(stack)@.len() >= 1,
    ensures
        final(stack)@.map_values(|b: Vec<BFCommand>| b@)
            == old(stack)@.map_values(|b: Vec<BFCommand>| b@).update(
                old(stack)@.len() - 1,
                old(stack)@.map_values(|b: Vec<BFCommand>| b@).last().push(c)),
{
    let ghost before = stack@.map_values(|b: Vec<BFCommand>| b@);
    let mut top = match stack.pop() {
        Some(b) => b,
        None => {
            proof {
                assert(false);
            }
            Vec::new()
        }
    };
    top.push(c);
    stack.push(top);
    proof {
        assert(stack@.map_values(|b: Vec<BFCommand>| b@)
            =~= before.update(before.len() - 1, before.last().push(c)));
    }
}

} // verus!
