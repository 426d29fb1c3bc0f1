//! Control-flow-graph construction over a table of decoded instructions.
//!
//! A basic block is discovered by decoding forward from its start until a
//! control-transfer instruction; successor blocks reachable by fall-through
//! or taken branches are discovered recursively, stopping at blocks already
//! visited (cycle safety) and at addresses outside mapped executable memory
//! or without a decoded instruction (an edge to nowhere, never a fatal
//! error). A function's contiguous extent is the maximal run of
//! back-to-back blocks from its start; the first gap ends the extent even
//! when more blocks exist beyond it, so later functions' bytes are never
//! claimed.
//!
//! Decoded instructions enter as data: the table maps each instruction
//! start to its byte length and control flow, the shape in which a
//! disassembler's output arrives.

use vstd::prelude::*;

use std::collections::HashMap;

use crate::module::{Module, Permissions};
use crate::Error;

verus! {

use vstd::set_lib::lemma_len_subset;

broadcast use vstd::std_specs::hash::group_hash_axioms;

/// How an instruction transfers control.
#[derive(Debug, PartialEq, Eq, Structural, Clone, Copy)]
pub enum FlowKind {
    /// no control transfer: execution continues at the next instruction
    Sequential,
    /// unconditional jump, with its target when the target is direct
    Jump(Option<u64>),
    /// conditional jump to a direct target, falling through otherwise
    CondJump(u64),
    /// call: the block ends and execution resumes past the call
    Call,
    /// near or far return
    Return,
}

/// One decoded instruction: its byte length and its control flow.
#[derive(Debug, PartialEq, Eq, Structural, Clone, Copy)]
pub struct Insn {
    pub length: u8,
    pub flow: FlowKind,
}

/// Decoded instructions by their start address.
pub struct InsnTable {
    map: HashMap<u64, Insn>,
}

impl InsnTable {
    /// The table's content.
    pub closed spec fn insns(self) -> Map<u64, Insn> {
        self.map@
    }

    /// Every entry has a positive length and ends within the address type.
    pub closed spec fn wf(self) -> bool {
        forall|va: u64|
            #[trigger] self.map@.dom().contains(va) ==> self.map@[va].length >= 1 && va
                + self.map@[va].length <= u64::MAX
    }

    pub fn new() -> (r: InsnTable)
        ensures
            r.wf(),
            r.insns() == Map::<u64, Insn>::empty(),
    {
        InsnTable { map: HashMap::new() }
    }

    /// Record the instruction at `va`. An instruction of zero length or one
    /// overflowing the address type is rejected and the table is unchanged.
    pub fn insert(&mut self, va: u64, insn: Insn) -> (r: bool)
        requires
            old(self).wf(),
        ensures
            final(self).wf(),
            r == (insn.length >= 1 && va + insn.length <= u64::MAX),
            r ==> final(self).insns() == old(self).insns().insert(va, insn),
            !r ==> final(self).insns() == old(self).insns(),
    {
        if insn.length >= 1 && va <= u64::MAX - insn.length as u64 {
            self.map.insert(va, insn);
            true
        } else {
            false
        }
    }

    /// The instruction at `va`, if one was recorded.
    pub fn get(&self, va: u64) -> (r: Option<Insn>)
        ensures
            match r {
                Some(insn) => self.insns().contains_key(va) && self.insns()[va] == insn,
                None => !self.insns().contains_key(va),
            },
    {
        match self.map.get(&va) {
            Some(insn) => Some(*insn),
            None => None,
        }
    }

    /// Whether an instruction was recorded at `va`.
    pub fn contains(&self, va: u64) -> (r: bool)
        ensures
            r == self.insns().contains_key(va),
    {
        self.map.contains_key(&va)
    }
}

/// A maximal straight-line run of instructions inside one function.
#[derive(Debug, PartialEq, Eq, Structural, Clone, Copy)]
pub struct BasicBlock {
    pub addr: u64,
    pub length: u64,
}

/// A function's control flow graph: its basic blocks by start address.
pub struct Cfg {
    pub basic_blocks: HashMap<u64, BasicBlock>,
}

/// A basic block can start at `va`: the address probes executable and an
/// instruction is decoded there whose extent stays in the address type.
pub open spec fn spec_block_exists(m: Module, t: Map<u64, Insn>, va: u64) -> bool {
    &&& m.spec_probe(va, Permissions { r: false, w: false, x: true })
    &&& t.contains_key(va)
    &&& t[va].length >= 1
    &&& va + t[va].length <= u64::MAX
}

/// Walk forward from `cur` to the end of the block: `(one past the last
/// byte, raw successor addresses)`.
pub open spec fn spec_block_walk(m: Module, t: Map<u64, Insn>, cur: u64) -> (int, Seq<u64>)
    decreases u64::MAX - cur,
{
    if !spec_block_exists(m, t, cur) {
        (cur as int, Seq::empty())
    } else {
        let insn = t[cur];
        let next = (cur + insn.length) as u64;
        match insn.flow {
            FlowKind::Sequential => {
                if spec_block_exists(m, t, next) {
                    spec_block_walk(m, t, next)
                } else {
                    (next as int, Seq::empty())
                }
            },
            FlowKind::Jump(target) => (
                next as int,
                match target {
                    Some(tgt) => seq![tgt],
                    None => Seq::empty(),
                },
            ),
            FlowKind::CondJump(tgt) => (next as int, seq![next, tgt]),
            FlowKind::Call => (next as int, seq![next]),
            FlowKind::Return => (next as int, Seq::empty()),
        }
    }
}

/// One past the last byte of the block starting at `va`.
pub open spec fn spec_block_end(m: Module, t: Map<u64, Insn>, va: u64) -> int {
    spec_block_walk(m, t, va).0
}

/// The raw successor addresses of the block starting at `va`.
pub open spec fn spec_block_succs(m: Module, t: Map<u64, Insn>, va: u64) -> Seq<u64> {
    spec_block_walk(m, t, va).1
}

/// There is a control-flow edge from the block at `a` to a block at `b`.
pub open spec fn spec_edge(m: Module, t: Map<u64, Insn>, a: u64, b: u64) -> bool {
    &&& spec_block_exists(m, t, a)
    &&& spec_block_succs(m, t, a).contains(b)
    &&& spec_block_exists(m, t, b)
}

/// `p` is a chain of blocks linked by control-flow edges.
pub open spec fn spec_is_path(m: Module, t: Map<u64, Insn>, p: Seq<u64>) -> bool {
    &&& p.len() >= 1
    &&& forall|i: int| 0 <= i < p.len() ==> spec_block_exists(m, t, #[trigger] p[i])
    &&& forall|i: int|
        0 <= i < p.len() - 1 ==> spec_block_succs(m, t, #[trigger] p[i]).contains(p[i + 1])
}

/// The block starts reachable from `start` along control-flow edges.
pub open spec fn spec_reachable(m: Module, t: Map<u64, Insn>, start: u64) -> Set<u64> {
    Set::new(
        |va: u64|
            exists|p: Seq<u64>|
                #[trigger] spec_is_path(m, t, p) && p[0] == start && p.last() == va,
    )
}

/// A block start reachable in one step beyond a reachable block is itself
/// reachable.
proof fn lemma_reachable_step(m: Module, t: Map<u64, Insn>, start: u64, a: u64, b: u64)
    requires
        spec_reachable(m, t, start).contains(a),
        spec_edge(m, t, a, b),
    ensures
        spec_reachable(m, t, start).contains(b),
{
    let p = choose|p: Seq<u64>| #[trigger] spec_is_path(m, t, p) && p[0] == start && p.last() == a;
    let q = p.push(b);
    assert forall|i: int| 0 <= i < q.len() implies spec_block_exists(m, t, #[trigger] q[i]) by {
        if i < p.len() {
            assert(q[i] == p[i]);
        }
    }
    assert forall|i: int|
        0 <= i < q.len() - 1 implies spec_block_succs(m, t, #[trigger] q[i]).contains(
        q[i + 1],
    ) by {
        if i < p.len() - 1 {
            assert(q[i] == p[i] && q[i + 1] == p[i + 1]);
        } else {
            assert(q[i] == p.last() && q[i + 1] == b);
        }
    }
    assert(spec_is_path(m, t, q) && q[0] == start && q.last() == b);
}

/// `start` itself is reachable whenever a block starts there.
proof fn lemma_reachable_start(m: Module, t: Map<u64, Insn>, start: u64)
    requires
        spec_block_exists(m, t, start),
    ensures
        spec_reachable(m, t, start).contains(start),
{
    let p: Seq<u64> = seq![start];
    assert(spec_is_path(m, t, p) && p[0] == start && p.last() == start);
}

/// Every element of a path from `start` lies in any edge-closed set that
/// holds `start`.
proof fn lemma_path_in_closed(m: Module, t: Map<u64, Insn>, start: u64, s: Set<u64>, p: Seq<u64>)
    requires
        spec_is_path(m, t, p),
        p[0] == start,
        s.contains(start),
        forall|a: u64, b: u64| s.contains(a) && #[trigger] spec_edge(m, t, a, b) ==> s.contains(b),
    ensures
        s.contains(p.last()),
    decreases p.len(),
{
    if p.len() == 1 {
    } else {
        let q = p.drop_last();
        assert forall|i: int| 0 <= i < q.len() implies spec_block_exists(m, t, #[trigger] q[i]) by {
            assert(q[i] == p[i]);
        }
        assert forall|i: int|
            0 <= i < q.len() - 1 implies spec_block_succs(m, t, #[trigger] q[i]).contains(
            q[i + 1],
        ) by {
            assert(q[i] == p[i] && q[i + 1] == p[i + 1]);
        }
        lemma_path_in_closed(m, t, start, s, q);
        assert(spec_block_succs(m, t, p[p.len() - 2]).contains(p[p.len() - 1]));
        assert(spec_edge(m, t, q.last(), p.last()));
    }
}

/// The reachable set is the least edge-closed set holding `start`.
proof fn lemma_reachable_in_closed(m: Module, t: Map<u64, Insn>, start: u64, s: Set<u64>)
    requires
        s.contains(start),
        forall|a: u64, b: u64| s.contains(a) && #[trigger] spec_edge(m, t, a, b) ==> s.contains(b),
    ensures
        spec_reachable(m, t, start).subset_of(s),
{
    assert forall|va: u64| spec_reachable(m, t, start).contains(va) implies s.contains(va) by {
        let p = choose|p: Seq<u64>|
            #[trigger] spec_is_path(m, t, p) && p[0] == start && p.last() == va;
        lemma_path_in_closed(m, t, start, s, p);
    }
}

/// Walk forward from `start` to its block's end, collecting the raw
/// successors.
fn walk_block(m: &Module, insns: &InsnTable, start: u64) -> (r: (u64, Vec<u64>))
    requires
        m.wf(),
        insns.wf(),
        spec_block_exists(*m, insns.insns(), start),
    ensures
        r.0 as int == spec_block_end(*m, insns.insns(), start),
        r.1@ == spec_block_succs(*m, insns.insns(), start),
        r.0 > start,
{
    let ghost t = insns.insns();
    let mut cur = start;
    loop
        invariant
            m.wf(),
            insns.wf(),
            t == insns.insns(),
            spec_block_exists(*m, t, cur),
            cur >= start,
            spec_block_walk(*m, t, start) == spec_block_walk(*m, t, cur),
        decreases u64::MAX - cur,
    {
        let insn = match insns.get(cur) {
            Some(insn) => insn,
            None => {
                proof {
                    assert(false);
                }
                return (cur, Vec::new());
            },
        };
        let next = cur + insn.length as u64;
        match insn.flow {
            FlowKind::Sequential => {
                let continues = m.probe_va(next, Permissions::execute()) && insns.contains(next);
                if continues {
                    cur = next;
                } else {
                    return (next, Vec::new());
                }
            },
            FlowKind::Jump(target) => {
                let mut succs: Vec<u64> = Vec::new();
                match target {
                    Some(tgt) => {
                        succs.push(tgt);
                        proof {
                            assert(succs@ =~= seq![tgt]);
                        }
                    },
                    None => {},
                }
                return (next, succs);
            },
            FlowKind::CondJump(tgt) => {
                let mut succs: Vec<u64> = Vec::new();
                succs.push(next);
                succs.push(tgt);
                proof {
                    assert(succs@ =~= seq![next, tgt]);
                }
                return (next, succs);
            },
            FlowKind::Call => {
                let mut succs: Vec<u64> = Vec::new();
                succs.push(next);
                proof {
                    assert(succs@ =~= seq![next]);
                }
                return (next, succs);
            },
            FlowKind::Return => {
                return (next, Vec::new());
            },
        }
    }
}

/// Extending a sequence keeps everything it already held.
proof fn lemma_push_keeps<A>(s: Seq<A>, x: A, y: A)
    requires
        s.contains(y),
    ensures
        s.push(x).contains(y),
{
    let j = choose|j: int| 0 <= j < s.len() && s[j] == y;
    assert(s.push(x)[j] == y);
}

/// Popping the last element leaves every other element in place.
proof fn lemma_pop_keeps<A>(s: Seq<A>, y: A)
    requires
        s.len() > 0,
        s.contains(y),
    ensures
        y == s.last() || s.subrange(0, s.len() - 1).contains(y),
{
    let j = choose|j: int| 0 <= j < s.len() && s[j] == y;
    if j < s.len() - 1 {
        assert(s.subrange(0, s.len() - 1)[j] == y);
    }
}

/// Build the control flow graph of the function starting at `va`.
///
/// Fails exactly when no block can start at `va`. On success the graph
/// holds one block per reachable block start, each recording its address
/// and measured length.
#[verifier::rlimit(100)]
pub fn build_cfg(m: &Module, insns: &InsnTable, va: u64) -> (r: Result<Cfg, Error>)
    requires
        m.wf(),
        insns.wf(),
    ensures
        match r {
            Ok(cfg) => {
                &&& spec_block_exists(*m, insns.insns(), va)
                &&& cfg.basic_blocks@.dom() =~= spec_reachable(*m, insns.insns(), va)
                &&& forall|k: u64|
                    #[trigger] cfg.basic_blocks@.dom().contains(k) ==> cfg.basic_blocks@[k]
                        == (BasicBlock {
                        addr: k,
                        length: (spec_block_end(*m, insns.insns(), k) - k) as u64,
                    })
            },
            Err(e) => e == Error::AddressNotMapped && !spec_block_exists(
                *m,
                insns.insns(),
                va,
            ),
        },
{
    let ghost t = insns.insns();
    if !(m.probe_va(va, Permissions::execute()) && insns.contains(va)) {
        return Err(Error::AddressNotMapped);
    }
    proof {
        assert(spec_block_exists(*m, t, va));
        lemma_reachable_start(*m, t, va);
    }
    let mut blocks: HashMap<u64, BasicBlock> = HashMap::new();
    let mut work: Vec<u64> = Vec::new();
    work.push(va);
    proof {
        assert(work@[0] == va);
        assert(work@.contains(va));
    }
    while work.len() > 0
        invariant
            m.wf(),
            insns.wf(),
            t == insns.insns(),
            spec_block_exists(*m, t, va),
            forall|j: int|
                0 <= j < work@.len() ==> spec_block_exists(*m, t, #[trigger] work@[j])
                    && spec_reachable(*m, t, va).contains(work@[j]),
            forall|k: u64|
                #[trigger] blocks@.dom().contains(k) ==> spec_block_exists(*m, t, k)
                    && spec_reachable(*m, t, va).contains(k) && blocks@[k] == (BasicBlock {
                    addr: k,
                    length: (spec_block_end(*m, t, k) - k) as u64,
                }),
            forall|k: u64, b: u64|
                blocks@.dom().contains(k) && #[trigger] spec_edge(*m, t, k, b)
                    ==> blocks@.dom().contains(b) || work@.contains(b),
            blocks@.dom().contains(va) || work@.contains(va),
            blocks@.dom().subset_of(t.dom()),
        decreases t.dom().len() - blocks@.dom().len(), work@.len(),
    {
        proof {
            lemma_len_subset(blocks@.dom(), t.dom());
        }
        let ghost old_work = work@;
        let cur = match work.pop() {
            Some(c) => c,
            None => {
                proof {
                    assert(false);
                }
                return Err(Error::AddressNotMapped);
            },
        };
        if blocks.contains_key(&cur) {
            proof {
                assert forall|k: u64, b: u64|
                    blocks@.dom().contains(k) && #[trigger] spec_edge(*m, t, k, b) implies blocks@.dom().contains(
                    b,
                ) || work@.contains(b) by {
                    if !blocks@.dom().contains(b) {
                        lemma_pop_keeps(old_work, b);
                    }
                }
                if !blocks@.dom().contains(va) {
                    lemma_pop_keeps(old_work, va);
                }
            }
            continue ;
        }
        let ghost old_blocks = blocks@;
        let (end, succs) = walk_block(m, insns, cur);
        blocks.insert(cur, BasicBlock { addr: cur, length: end - cur });
        proof {
            assert(blocks@.dom() =~= old_blocks.dom().insert(cur));
            lemma_len_subset(old_blocks.dom(), t.dom());
            assert(blocks@.dom().len() == old_blocks.dom().len() + 1);
            assert forall|k: u64, b: u64|
                blocks@.dom().contains(k) && k != cur && #[trigger] spec_edge(*m, t, k, b) implies blocks@.dom().contains(
                b,
            ) || work@.contains(b) by {
                assert(old_blocks.dom().contains(k));
                if !old_blocks.dom().contains(b) {
                    lemma_pop_keeps(old_work, b);
                }
            }
            if !blocks@.dom().contains(va) {
                lemma_pop_keeps(old_work, va);
            }
        }
        let ghost entry_work = work@;
        let mut si: usize = 0;
        while si < succs.len()
            invariant
                m.wf(),
                insns.wf(),
                t == insns.insns(),
                spec_block_exists(*m, t, va),
                spec_block_exists(*m, t, cur),
                spec_reachable(*m, t, va).contains(cur),
                succs@ == spec_block_succs(*m, t, cur),
                si <= succs@.len(),
                forall|x: u64| entry_work.contains(x) ==> #[trigger] work@.contains(x),
                forall|j: int|
                    0 <= j < work@.len() ==> spec_block_exists(*m, t, #[trigger] work@[j])
                        && spec_reachable(*m, t, va).contains(work@[j]),
                forall|k: u64|
                    #[trigger] blocks@.dom().contains(k) ==> spec_block_exists(*m, t, k)
                        && spec_reachable(*m, t, va).contains(k) && blocks@[k] == (BasicBlock {
                        addr: k,
                        length: (spec_block_end(*m, t, k) - k) as u64,
                    }),
                forall|k: u64, b: u64|
                    blocks@.dom().contains(k) && k != cur && #[trigger] spec_edge(*m, t, k, b)
                        ==> blocks@.dom().contains(b) || entry_work.contains(b),
                forall|j: int|
                    0 <= j < si && spec_block_exists(*m, t, #[trigger] succs@[j])
                        ==> work@.contains(succs@[j]),
                blocks@.dom().contains(va) || entry_work.contains(va),
                blocks@.dom().contains(cur),
                blocks@.dom() == old_blocks.dom().insert(cur),
                blocks@.dom().subset_of(t.dom()),
            decreases succs@.len() - si,
        {
            let s = succs[si];
            if m.probe_va(s, Permissions::execute()) && insns.contains(s) {
                proof {
                    assert(spec_block_exists(*m, t, s));
                    assert(spec_block_succs(*m, t, cur)[si as int] == s);
                    assert(spec_block_succs(*m, t, cur).contains(s));
                    assert(spec_edge(*m, t, cur, s));
                    lemma_reachable_step(*m, t, va, cur, s);
                }
                let ghost before = work@;
                work.push(s);
                proof {
                    assert(work@[before.len() as int] == s);
                    assert forall|x: u64| before.contains(x) implies #[trigger] work@.contains(
                        x,
                    ) by {
                        lemma_push_keeps(before, s, x);
                    }
                }
            }
            si += 1;
        }
        proof {
            // every edge out of the finished set now lands back in it or in
            // the worklist
            assert forall|k: u64, b: u64|
                blocks@.dom().contains(k) && #[trigger] spec_edge(*m, t, k, b) implies blocks@.dom().contains(
                b,
            ) || work@.contains(b) by {
                if k == cur {
                    let j = choose|j: int|
                        0 <= j < spec_block_succs(*m, t, cur).len() && spec_block_succs(
                            *m,
                            t,
                            cur,
                        )[j] == b;
                    assert(spec_block_exists(*m, t, b));
                    assert(work@.contains(succs@[j]));
                } else {
                    if !blocks@.dom().contains(b) {
                        if entry_work.contains(b) {
                            if !blocks@.dom().contains(b) {
                                lemma_pop_keeps(old_work, b);
                            }
                        }
                        assert(entry_work.contains(b) || blocks@.dom().contains(b) || b == cur)
                            by {
                            assert(old_blocks.dom().contains(k));
                            assert(old_blocks.dom().contains(b) || old_work.contains(b));
                            if old_work.contains(b) {
                                lemma_pop_keeps(old_work, b);
                            }
                        }
                    }
                }
            }
            if !blocks@.dom().contains(va) {
                lemma_pop_keeps(old_work, va);
            }
            lemma_len_subset(blocks@.dom(), t.dom());
            assert(blocks@.dom().len() == old_blocks.dom().len() + 1);
        }
    }
    proof {
        lemma_reachable_in_closed(*m, t, va, blocks@.dom());
        assert(blocks@.dom() =~= spec_reachable(*m, t, va));
    }
    Ok(Cfg { basic_blocks: blocks })
}

/// One past the end of the maximal run of back-to-back blocks from `at`:
/// chase blocks while each starts exactly where the previous one ended.
pub open spec fn spec_extent_end(blocks: Map<u64, BasicBlock>, at: u64) -> int
    decreases u64::MAX - at,
{
    if blocks.contains_key(at) && blocks[at].length >= 1 && at + blocks[at].length <= u64::MAX {
        spec_extent_end(blocks, (at + blocks[at].length) as u64)
    } else {
        at as int
    }
}

impl Cfg {
    /// The block recorded at `va`, if any.
    pub fn get_block(&self, va: u64) -> (r: Option<BasicBlock>)
        ensures
            match r {
                Some(bb) => self.basic_blocks@.contains_key(va) && self.basic_blocks@[va] == bb,
                None => !self.basic_blocks@.contains_key(va),
            },
    {
        match self.basic_blocks.get(&va) {
            Some(bb) => Some(*bb),
            None => None,
        }
    }

    /// One past the last address of the function's contiguous extent from
    /// `start`: the first gap between blocks ends the extent, even when
    /// more blocks lie beyond it.
    pub fn contiguous_extent_end(&self, start: u64) -> (r: u64)
        ensures
            r as int == spec_extent_end(self.basic_blocks@, start),
    {
        let mut end = start;
        loop
            invariant
                spec_extent_end(self.basic_blocks@, start) == spec_extent_end(
                    self.basic_blocks@,
                    end,
                ),
            decreases u64::MAX - end,
        {
            match self.basic_blocks.get(&end) {
                Some(bb) => {
                    if bb.length >= 1 && end <= u64::MAX - bb.length {
                        end = end + bb.length;
                    } else {
                        return end;
                    }
                },
                None => {
                    return end;
                },
            }
        }
    }
}

} // verus!
