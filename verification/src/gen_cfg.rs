//! AST of the control-flow graph in text format, and its conversion into
//! node-and-adjacency form. Function and block names are kept as raw bytes
//! of the ASCII source text.

use vstd::prelude::*;

verus! {

/// Control-flow graph of a single function, as parsed from text.
#[derive(Debug)]
pub struct CFG {
    /// Name of the function.
    pub id: Vec<u8>,
    /// Basic blocks of the function.
    pub block_entries: Vec<BlockEntry>,
}

/// Basic block of the text format.
#[derive(Debug)]
pub struct BlockEntry {
    /// Identifier of the basic block.
    pub id: usize,
    /// The name of the called function when this is a call block.
    pub calls: Option<Vec<u8>>,
    /// Identifiers of the successor blocks.
    pub successors: Vec<usize>,
}

/// A node of the converted graph: an ordinary block under its identifier,
/// or a call block under the name of its callee.
#[derive(Debug)]
pub enum TextNode {
    Literal(usize),
    Var(Vec<u8>),
}

/// Mathematical model of a basic block of the text format.
pub struct SpecBlockEntry {
    pub id: usize,
    pub calls: Option<Seq<u8>>,
    pub successors: Seq<usize>,
}

/// Mathematical model of a parsed function of the text format.
pub struct SpecCfg {
    pub id: Seq<u8>,
    pub block_entries: Seq<SpecBlockEntry>,
}

/// The model of a block entry.
pub open spec fn abs_block(b: BlockEntry) -> SpecBlockEntry {
    SpecBlockEntry {
        id: b.id,
        calls: match b.calls {
            Some(n) => Some(n@),
            None => None,
        },
        successors: b.successors@,
    }
}

/// The model of a sequence of block entries.
pub open spec fn abs_blocks(v: Seq<BlockEntry>) -> Seq<SpecBlockEntry> {
    v.map(|i: int, b: BlockEntry| abs_block(b))
}

/// The model of a parsed function.
pub open spec fn abs_cfg(c: CFG) -> SpecCfg {
    SpecCfg { id: c.id@, block_entries: abs_blocks(c.block_entries@) }
}

/// The model of a sequence of parsed functions.
pub open spec fn abs_cfgs(v: Seq<CFG>) -> Seq<SpecCfg> {
    v.map(|i: int, c: CFG| abs_cfg(c))
}

/// Whether some block entry carries the given identifier.
pub open spec fn has_block_id(entries: Seq<BlockEntry>, id: usize) -> bool {
    exists|t: int| 0 <= t < entries.len() && entries[t].id == id
}

/// Whether a node stands for a block entry: a call block becomes a `Var`
/// carrying the callee's name, any other block a `Literal` carrying its
/// own identifier.
pub open spec fn text_node_matches(n: TextNode, b: BlockEntry) -> bool {
    match b.calls {
        Some(name) => n is Var && n->Var_0@ == name@,
        None => n == TextNode::Literal(b.id),
    }
}

impl CFG {
    /// Converts the block entries into one node per entry plus adjacency
    /// lists: the edge targets of node `i` are the nodes whose block
    /// identifiers are listed as its successors. `None` when two entries
    /// share a block identifier or a successor identifier has no entry.
    pub fn new(&self) -> (r: Option<(Vec<TextNode>, Vec<Vec<usize>>)>)
        ensures
            match r {
                Some((nodes, succs)) => {
                    &&& nodes@.len() == self.block_entries@.len()
                    &&& succs@.len() == self.block_entries@.len()
                    &&& forall|i: int, j: int|
                        0 <= i < self.block_entries@.len() && 0 <= j
                            < self.block_entries@.len() && i != j ==> (
                        #[trigger] self.block_entries@[i]).id != (
                        #[trigger] self.block_entries@[j]).id
                    &&& forall|i: int|
                        0 <= i < nodes@.len() ==> text_node_matches(
                            #[trigger] nodes@[i],
                            self.block_entries@[i],
                        )
                    &&& forall|i: int|
                        0 <= i < succs@.len() ==> (#[trigger] succs@[i])@.len()
                            == self.block_entries@[i].successors@.len()
                    &&& forall|i: int, j: int|
                        0 <= i < succs@.len() && 0 <= j < succs@[i]@.len() ==> (
                        #[trigger] succs@[i]@[j]) < self.block_entries@.len()
                            && self.block_entries@[succs@[i]@[j] as int].id
                            == self.block_entries@[i].successors@[j]
                },
                None => (exists|i: int, j: int|
                    0 <= i < self.block_entries@.len() && 0 <= j < self.block_entries@.len() && i
                        != j && (#[trigger] self.block_entries@[i]).id == (
                    #[trigger] self.block_entries@[j]).id) || (exists|i: int, j: int|
                    0 <= i < self.block_entries@.len() && 0 <= j
                        < self.block_entries@[i].successors@.len() && !has_block_id(
                        self.block_entries@,
                        #[trigger] self.block_entries@[i].successors@[j],
                    )),
            },
    {
        let n = self.block_entries.len();
        // reject duplicate block identifiers
        let mut i: usize = 0;
        while i < n
            invariant
                n == self.block_entries@.len(),
                i <= n,
                forall|a: int, b: int|
                    0 <= a < i && 0 <= b < n && a != b ==> (#[trigger] self.block_entries@[a]).id
                        != (#[trigger] self.block_entries@[b]).id,
            decreases n - i,
        {
            let mut j: usize = 0;
            while j < n
                invariant
                    n == self.block_entries@.len(),
                    i < n,
                    j <= n,
                    forall|b: int|
                        0 <= b < j && b != i ==> (#[trigger] self.block_entries@[b]).id
                            != self.block_entries@[i as int].id,
                decreases n - j,
            {
                if j != i && self.block_entries[j].id == self.block_entries[i].id {
                    return None;
                }
                j = j + 1;
            }
            i = i + 1;
        }
        let mut nodes: Vec<TextNode> = Vec::new();
        let mut i: usize = 0;
        while i < n
            invariant
                n == self.block_entries@.len(),
                i <= n,
                nodes@.len() == i,
                forall|ii: int|
                    0 <= ii < i ==> text_node_matches(
                        #[trigger] nodes@[ii],
                        self.block_entries@[ii],
                    ),
            decreases n - i,
        {
            let entry = &self.block_entries[i];
            match &entry.calls {
                Some(name) => {
                    let mut copy: Vec<u8> = Vec::new();
                    copy.extend_from_slice(name.as_slice());
                    proof {
                        assert(copy@ =~= name@);
                    }
                    nodes.push(TextNode::Var(copy));
                },
                None => {
                    nodes.push(TextNode::Literal(entry.id));
                },
            }
            i = i + 1;
        }
        let mut succs: Vec<Vec<usize>> = Vec::new();
        let mut i: usize = 0;
        while i < n
            invariant
                n == self.block_entries@.len(),
                i <= n,
                succs@.len() == i,
                forall|ii: int|
                    0 <= ii < i ==> (#[trigger] succs@[ii])@.len()
                        == self.block_entries@[ii].successors@.len(),
                forall|ii: int, j: int|
                    0 <= ii < i && 0 <= j < succs@[ii]@.len() ==> (#[trigger] succs@[ii]@[j]) < n
                        && self.block_entries@[succs@[ii]@[j] as int].id
                        == self.block_entries@[ii].successors@[j],
            decreases n - i,
        {
            let succ_len = self.block_entries[i].successors.len();
            let mut row: Vec<usize> = Vec::new();
            let mut j: usize = 0;
            while j < succ_len
                invariant
                    n == self.block_entries@.len(),
                    i < n,
                    succ_len == self.block_entries@[i as int].successors@.len(),
                    j <= succ_len,
                    row@.len() == j,
                    forall|jj: int|
                        0 <= jj < j ==> (#[trigger] row@[jj]) < n
                            && self.block_entries@[row@[jj] as int].id
                            == self.block_entries@[i as int].successors@[jj],
                decreases succ_len - j,
            {
                let target = self.block_entries[i].successors[j];
                match self.find_block(target) {
                    Some(t) => {
                        row.push(t);
                    },
                    None => {
                        return None;
                    },
                }
                j = j + 1;
            }
            succs.push(row);
            i = i + 1;
        }
        Some((nodes, succs))
    }

    /// Index of the block entry with the given identifier.
    fn find_block(&self, id: usize) -> (r: Option<usize>)
        ensures
            match r {
                Some(t) => t < self.block_entries@.len() && self.block_entries@[t as int].id == id,
                None => !has_block_id(self.block_entries@, id),
            },
    {
        let mut t: usize = 0;
        while t < self.block_entries.len()
            invariant
                t <= self.block_entries@.len(),
                forall|tt: int| 0 <= tt < t ==> (#[trigger] self.block_entries@[tt]).id != id,
            decreases self.block_entries@.len() - t,
        {
            if self.block_entries[t].id == id {
                return Some(t);
            }
            t = t + 1;
        }
        None
    }
}

} // verus!
