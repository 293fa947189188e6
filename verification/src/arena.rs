use vstd::prelude::*;

use crate::error::{ArenaError, ExprError};
use crate::expr::VarTerm;
use crate::strutil::{char_str, push_char, spec_u32_str, u32_str};
use std::collections::VecDeque;
use vstd::string::StringExecFns;

verus! {

// ---------------------------------------------------------------------------
// Signs and constant folding
// ---------------------------------------------------------------------------
/// The five admissible sign decorations.
pub open spec fn valid_sign(s: Seq<char>) -> bool {
    ||| s == Seq::<char>::empty()
    ||| s == seq!['-']
    ||| s == seq!['~']
    ||| s == seq!['-', '~']
    ||| s == seq!['~', '-']
}

/// The five operator symbols a node can carry.
pub open spec fn is_op5(c: char) -> bool {
    c == '+' || c == '.' || c == '^' || c == '&' || c == '|'
}

/// The three bitwise operator symbols.
pub open spec fn is_bw_op(c: char) -> bool {
    c == '^' || c == '&' || c == '|'
}

/// Two's-complement negation of a 32-bit word.
pub open spec fn spec_neg32(c: u32) -> u32 {
    vstd::wrapping::u32_specs::wrapping_sub(0u32, c)
}

/// The numeric effect of a sign decoration on a 32-bit word.
pub open spec fn spec_compute_sign(c: u32, sign: Seq<char>) -> u32 {
    if sign == seq!['-'] {
        spec_neg32(c)
    } else if sign == seq!['~'] {
        !c
    } else if sign == seq!['~', '-'] {
        !spec_neg32(c)
    } else if sign == seq!['-', '~'] {
        spec_neg32(!c)
    } else {
        c
    }
}

/// Applies a sign decoration to a 32-bit constant.
pub fn compute_sign(cst: u32, sign: String) -> (r: u32)
    requires
        valid_sign(sign@),
    ensures
        r == spec_compute_sign(cst, sign@),
{
    let s = sign.as_str();
    let n = s.unicode_len();
    if n == 0 {
        proof {
            assert(sign@ =~= Seq::<char>::empty());
        }
        cst
    } else if n == 1 {
        let c0 = s.get_char(0);
        proof {
            if c0 == '-' {
                assert(sign@ =~= seq!['-']);
            } else if c0 == '~' {
                assert(sign@ =~= seq!['~']);
            }
        }
        if c0 == '-' {
            0u32.wrapping_sub(cst)
        } else if c0 == '~' {
            !cst
        } else {
            proof {
                assert(false);
            }
            cst
        }
    } else {
        let c0 = s.get_char(0);
        proof {
            if c0 == '~' {
                assert(sign@ =~= seq!['~', '-']);
            } else {
                assert(sign@ =~= seq!['-', '~']);
            }
        }
        if c0 == '~' {
            !(0u32.wrapping_sub(cst))
        } else {
            0u32.wrapping_sub(!cst)
        }
    }
}

/// 32-bit wrap-around combination of two constants under an operator.
pub open spec fn spec_compute_op(op: char, c1: u32, c2: u32) -> u32 {
    if op == '+' {
        vstd::wrapping::u32_specs::wrapping_add(c1, c2)
    } else if op == '.' {
        vstd::wrapping::u32_specs::wrapping_mul(c1, c2)
    } else if op == '^' {
        c1 ^ c2
    } else if op == '|' {
        c1 | c2
    } else if op == '&' {
        c1 & c2
    } else {
        c1
    }
}

/// Combines two folded constants under a node's operator.
pub fn compute_op(op: char, cst1: u32, cst2: u32) -> (r: u32)
    requires
        is_op5(op),
    ensures
        r == spec_compute_op(op, cst1, cst2),
{
    match op {
        '+' => cst1.wrapping_add(cst2),
        '.' => cst1.wrapping_mul(cst2),
        '^' => cst1 ^ cst2,
        '|' => cst1 | cst2,
        '&' => cst1 & cst2,
        _ => {
            proof {
                assert(false);
            }
            cst1
        },
    }
}

// ---------------------------------------------------------------------------
// The mathematical model of the arena
// ---------------------------------------------------------------------------
/// The classification a node carries.
pub enum TagV {
    MBA,
    MBATerm,
    Bitwise,
    Other,
}

/// Abstract form of a node slot.
#[verifier::ext_equal]
pub struct NodeV {
    pub idx: int,
    pub sign: Seq<char>,
    pub op: char,
    pub tag: TagV,
    pub ch: Seq<int>,
    pub cst: Option<u32>,
    pub par: Option<int>,
}

/// Abstract form of a leaf slot.
#[verifier::ext_equal]
pub struct LeafV {
    pub idx: int,
    pub var: char,
    pub sign: Seq<char>,
    pub par: Option<int>,
}

/// Abstract form of one slot.
#[verifier::ext_equal]
pub enum ElemV {
    Node(NodeV),
    Leaf(LeafV),
    Free,
}

/// Abstract form of the whole arena.
#[verifier::ext_equal]
pub struct ArenaV {
    pub root: int,
    pub elems: Seq<ElemV>,
}

pub open spec fn opt_i(o: Option<usize>) -> Option<int> {
    match o {
        Some(x) => Some(x as int),
        None => None,
    }
}

// ---------------------------------------------------------------------------
// Concrete types
// ---------------------------------------------------------------------------
/// The expression payload of a node: its operator together with its
/// classification, and the children indices.
pub enum EExpr {
    MBA(MBA),
    MBATerm(MBATerm),
    Bitwise(Bitwise),
    Other(Other),
}

/// An `+`-node whose children are all bitwise expressions or MBA terms.
pub struct MBA {
    ch: Vec<usize>,
}

/// A `.`-node holding one bitwise child beside its folded constant.
pub struct MBATerm {
    bitw: usize,
}

/// A `^`, `&` or `|` node whose children are variables or bitwise nodes.
pub struct Bitwise {
    ch: Vec<usize>,
    op: char,
}

/// A node of any operator that meets none of the special shapes.
pub struct Other {
    ch: Vec<usize>,
    op: char,
}

impl EExpr {
    /// The operator this expression carries.
    pub closed spec fn spec_op(&self) -> char {
        match self {
            EExpr::MBA(_) => '+',
            EExpr::MBATerm(_) => '.',
            EExpr::Bitwise(e) => e.op,
            EExpr::Other(e) => e.op,
        }
    }

    /// The classification this expression carries.
    pub closed spec fn spec_tag(&self) -> TagV {
        match self {
            EExpr::MBA(_) => TagV::MBA,
            EExpr::MBATerm(_) => TagV::MBATerm,
            EExpr::Bitwise(_) => TagV::Bitwise,
            EExpr::Other(_) => TagV::Other,
        }
    }

    /// The children indices, in storage order.
    pub closed spec fn spec_ch(&self) -> Seq<int> {
        match self {
            EExpr::MBA(e) => e.ch@.map_values(|x: usize| x as int),
            EExpr::MBATerm(e) => seq![e.bitw as int],
            EExpr::Bitwise(e) => e.ch@.map_values(|x: usize| x as int),
            EExpr::Other(e) => e.ch@.map_values(|x: usize| x as int),
        }
    }
}

/// An interior slot: sign, operator with classification, folded constant,
/// children and parent link.
pub struct Node {
    pub idx: usize,
    sign: String,
    expr: EExpr,
    cst: Option<u32>,
    par: Option<usize>,
}

impl View for Node {
    type V = NodeV;

    closed spec fn view(&self) -> NodeV {
        NodeV {
            idx: self.idx as int,
            sign: self.sign@,
            op: self.expr.spec_op(),
            tag: self.expr.spec_tag(),
            ch: self.expr.spec_ch(),
            cst: self.cst,
            par: opt_i(self.par),
        }
    }
}

/// A leaf slot: one variable occurrence and its parent link.
pub struct Leaf {
    pub idx: usize,
    pub val: VarTerm,
    par: Option<usize>,
}

impl View for Leaf {
    type V = LeafV;

    closed spec fn view(&self) -> LeafV {
        LeafV {
            idx: self.idx as int,
            var: self.val.val,
            sign: self.val.sign@,
            par: opt_i(self.par),
        }
    }
}

/// One slot of the arena.
pub enum Elem {
    Node(Node),
    Leaf(Leaf),
    Free,
}

impl View for Elem {
    type V = ElemV;

    closed spec fn view(&self) -> ElemV {
        match self {
            Elem::Node(n) => ElemV::Node(n@),
            Elem::Leaf(l) => ElemV::Leaf(l@),
            Elem::Free => ElemV::Free,
        }
    }
}

impl Default for Elem {
    fn default() -> (r: Self)
        ensures
            r@ is Free,
    {
        Elem::Free
    }
}

/// The arena: an append-only store of slots with a recorded root and a
/// free list of recycled indices.
pub struct Arena {
    pub root_node: usize,
    elems: Vec<Elem>,
    free_slots: Vec<usize>,
}

impl View for Arena {
    type V = ArenaV;

    closed spec fn view(&self) -> ArenaV {
        ArenaV {
            root: self.root_node as int,
            elems: Seq::new(self.elems@.len(), |i: int| self.elems@[i]@),
        }
    }
}

// ---------------------------------------------------------------------------
// Well-formedness
// ---------------------------------------------------------------------------
pub open spec fn elem_par(e: ElemV) -> Option<int> {
    match e {
        ElemV::Node(n) => n.par,
        ElemV::Leaf(l) => l.par,
        ElemV::Free => None,
    }
}

/// The structural invariant of one slot: indices recorded correctly, signs
/// from the sign alphabet, children distinct later non-free slots whose
/// parent link points back here.
pub open spec fn wf_elem(av: ArenaV, i: int) -> bool {
    match av.elems[i] {
        ElemV::Node(n) => {
            &&& n.idx == i
            &&& valid_sign(n.sign)
            &&& is_op5(n.op)
            &&& forall|k: int| 0 <= k < n.ch.len() ==> i < #[trigger] n.ch[k] < av.elems.len()
            &&& forall|k: int| 0 <= k < n.ch.len() ==> !(av.elems[#[trigger] n.ch[k]] is Free)
            &&& forall|k: int|
                0 <= k < n.ch.len() ==> elem_par(av.elems[#[trigger] n.ch[k]]) == Some(i)
            &&& forall|k1: int, k2: int|
                0 <= k1 < k2 < n.ch.len() ==> #[trigger] n.ch[k1] != #[trigger] n.ch[k2]
        },
        ElemV::Leaf(l) => l.idx == i && valid_sign(l.sign),
        ElemV::Free => true,
    }
}

/// The arena invariant: every slot is well formed.
pub open spec fn wf_arena(av: ArenaV) -> bool {
    forall|i: int| 0 <= i < av.elems.len() ==> wf_elem(av, i)
}

// ---------------------------------------------------------------------------
// Classification predicates over the model
// ---------------------------------------------------------------------------
/// A child acceptable inside a bitwise expression: a variable leaf or a
/// bitwise node without folded constant.
pub open spec fn spec_child_bw(av: ArenaV, c: int) -> bool {
    match av.elems[c] {
        ElemV::Node(n) => n.tag is Bitwise && n.cst is None,
        ElemV::Leaf(_) => true,
        ElemV::Free => false,
    }
}

/// A child acceptable inside an MBA sum: a leaf, a bitwise node without
/// constant, or an MBA term with its constant present.
pub open spec fn spec_child_mba(av: ArenaV, c: int) -> bool {
    match av.elems[c] {
        ElemV::Node(n) => (n.tag is Bitwise && n.cst is None) || (n.tag is MBATerm
            && n.cst is Some),
        ElemV::Leaf(_) => true,
        ElemV::Free => false,
    }
}

pub open spec fn spec_ch_bitwise(av: ArenaV, ch: Seq<int>) -> bool {
    forall|k: int| 0 <= k < ch.len() ==> spec_child_bw(av, #[trigger] ch[k])
}

pub open spec fn spec_ch_mba(av: ArenaV, ch: Seq<int>) -> bool {
    forall|k: int| 0 <= k < ch.len() ==> spec_child_mba(av, #[trigger] ch[k])
}

/// What `is_mba` decides for an operator and a children list.
pub open spec fn spec_is_mba(av: ArenaV, op: char, ch: Seq<int>) -> bool {
    op == '+' && spec_ch_mba(av, ch)
}

/// What `is_bitwise` decides for an operator and a children list.
pub open spec fn spec_is_bitwise(av: ArenaV, op: char, ch: Seq<int>) -> bool {
    is_bw_op(op) && spec_ch_bitwise(av, ch)
}

/// What `is_mba_term` decides for an operator and a children list.
pub open spec fn spec_is_mba_term(av: ArenaV, op: char, ch: Seq<int>) -> bool {
    op == '.' && ch.len() == 1 && spec_ch_bitwise(av, ch)
}

/// Consistency of the stored classifications with the structure: what each
/// tag promises of the node's operator and children holds.
pub open spec fn tag_ok(av: ArenaV, i: int) -> bool {
    match av.elems[i] {
        ElemV::Node(n) => {
            &&& (n.tag is MBA ==> spec_is_mba(av, n.op, n.ch))
            &&& (n.tag is Bitwise ==> spec_is_bitwise(av, n.op, n.ch))
            &&& (n.tag is MBATerm ==> n.op == '.' && n.ch.len() == 1 && spec_ch_bitwise(av, n.ch))
        },
        _ => true,
    }
}

pub open spec fn tags_ok(av: ArenaV) -> bool {
    forall|i: int| 0 <= i < av.elems.len() ==> tag_ok(av, i)
}

/// An index that no node lists among its children.
pub open spec fn unattached(av: ArenaV, x: int) -> bool {
    forall|i: int, k: int|
        0 <= i < av.elems.len() && av.elems[i] is Node && 0 <= k < av.elems[i]->Node_0.ch.len()
            ==> #[trigger] av.elems[i]->Node_0.ch[k] != x
}

// ---------------------------------------------------------------------------
// Classification code
// ---------------------------------------------------------------------------
/// An MBA term carries the `.` classification and a folded constant.
pub fn node_is_mba_term(expr: &EExpr, cst: Option<u32>) -> (b: bool)
    ensures
        b == (expr.spec_tag() is MBATerm && cst is Some),
{
    matches!(expr, EExpr::MBATerm(_)) && !cst.is_none()
}

/// A bitwise node carries the bitwise classification and no constant.
pub fn node_is_bitwise(expr: &EExpr, cst: Option<u32>) -> (b: bool)
    ensures
        b == (expr.spec_tag() is Bitwise && cst is None),
{
    matches!(expr, EExpr::Bitwise(_)) && cst.is_none()
}

} // verus!
use vstd::prelude::*;

verus! {

// ---------------------------------------------------------------------------
// Model-level operations
// ---------------------------------------------------------------------------
pub open spec fn av_update(av: ArenaV, i: int, e: ElemV) -> ArenaV {
    ArenaV { root: av.root, elems: av.elems.update(i, e) }
}

/// Appending a fresh node, classified `Other`, with no children.
pub open spec fn spec_new_node(av: ArenaV, sign: Seq<char>, op: char) -> ArenaV {
    ArenaV {
        root: av.root,
        elems: av.elems.push(
            ElemV::Node(
                NodeV {
                    idx: av.elems.len() as int,
                    sign: sign,
                    op: op,
                    tag: TagV::Other,
                    ch: Seq::empty(),
                    cst: None,
                    par: None,
                },
            ),
        ),
    }
}

/// Appending a fresh leaf.
pub open spec fn spec_new_leaf(av: ArenaV, var: char, sign: Seq<char>) -> ArenaV {
    ArenaV {
        root: av.root,
        elems: av.elems.push(
            ElemV::Leaf(LeafV { idx: av.elems.len() as int, var: var, sign: sign, par: None }),
        ),
    }
}

/// Setting the parent link of a slot.
pub open spec fn spec_set_par(av: ArenaV, i: int, p: int) -> ArenaV {
    match av.elems[i] {
        ElemV::Node(n) => av_update(av, i, ElemV::Node(NodeV { par: Some(p), ..n })),
        ElemV::Leaf(l) => av_update(av, i, ElemV::Leaf(LeafV { par: Some(p), ..l })),
        ElemV::Free => av,
    }
}

pub open spec fn spec_set_pars(av: ArenaV, chs: Seq<int>, p: int) -> ArenaV
    decreases chs.len(),
{
    if chs.len() == 0 {
        av
    } else {
        spec_set_pars(spec_set_par(av, chs[0], p), chs.drop_first(), p)
    }
}

/// The constants a node steals from incoming children that share its
/// operator, each with the child's sign applied, in child order.
pub open spec fn spec_steal_vals(av: ArenaV, op: char, chs: Seq<int>) -> Seq<u32>
    decreases chs.len(),
{
    if chs.len() == 0 {
        Seq::empty()
    } else {
        let head = match av.elems[chs[0]] {
            ElemV::Node(n) => if n.op == op && n.cst is Some {
                seq![spec_compute_sign(n.cst->0, n.sign)]
            } else {
                Seq::empty()
            },
            _ => Seq::empty(),
        };
        head + spec_steal_vals(av, op, chs.drop_first())
    }
}

/// The arena after those same children have had their constant taken.
pub open spec fn spec_clear_csts(av: ArenaV, op: char, chs: Seq<int>) -> ArenaV
    decreases chs.len(),
{
    if chs.len() == 0 {
        av
    } else {
        let av1 = match av.elems[chs[0]] {
            ElemV::Node(n) => if n.op == op && n.cst is Some {
                av_update(av, chs[0], ElemV::Node(NodeV { cst: None, ..n }))
            } else {
                av
            },
            _ => av,
        };
        spec_clear_csts(av1, op, chs.drop_first())
    }
}

/// Left fold of stolen constants into the node's accumulator.
pub open spec fn spec_fold_cst(op: char, init: Option<u32>, vals: Seq<u32>) -> Option<u32>
    decreases vals.len(),
{
    if vals.len() == 0 {
        init
    } else {
        let acc2 = match init {
            Some(a) => Some(spec_compute_op(op, a, vals[0])),
            None => Some(vals[0]),
        };
        spec_fold_cst(op, acc2, vals.drop_first())
    }
}

/// The classification a node takes once its children list is `newch`.
pub open spec fn spec_retag(av1: ArenaV, old_tag: TagV, op: char, newch: Seq<int>) -> TagV {
    match old_tag {
        TagV::MBA => if spec_is_mba(av1, '+', newch) {
            TagV::MBA
        } else {
            TagV::Other
        },
        TagV::MBATerm => TagV::Other,
        TagV::Bitwise => if spec_is_bitwise(av1, op, newch) {
            TagV::Bitwise
        } else {
            TagV::Other
        },
        TagV::Other => if op == '+' {
            if spec_is_mba(av1, '+', newch) {
                TagV::MBA
            } else {
                TagV::Other
            }
        } else if op == '.' {
            if spec_is_mba_term(av1, '.', newch) {
                TagV::MBATerm
            } else {
                TagV::Other
            }
        } else {
            if spec_is_bitwise(av1, op, newch) {
                TagV::Bitwise
            } else {
                TagV::Other
            }
        },
    }
}

/// Appending children to a node: steal compatible constants, extend the
/// children list, reclassify, and point the children at their new parent.
pub open spec fn spec_push_ch(av: ArenaV, idx: int, chs: Seq<int>) -> ArenaV {
    match av.elems[idx] {
        ElemV::Node(n) => {
            let vals = spec_steal_vals(av, n.op, chs);
            let cst2 = spec_fold_cst(n.op, n.cst, vals);
            let av1 = spec_clear_csts(av, n.op, chs);
            let newch = n.ch + chs;
            let tag2 = spec_retag(av1, n.tag, n.op, newch);
            let av2 = av_update(
                av1,
                idx,
                ElemV::Node(NodeV { ch: newch, cst: cst2, tag: tag2, ..n }),
            );
            spec_set_pars(av2, chs, idx)
        },
        _ => av,
    }
}

/// Folding one literal into a node's constant accumulator.
pub open spec fn spec_push_cst(av: ArenaV, idx: int, cst: u32) -> ArenaV {
    match av.elems[idx] {
        ElemV::Node(n) => {
            let cst2 = match n.cst {
                Some(o) => Some(spec_compute_op(n.op, o, cst)),
                None => Some(cst),
            };
            av_update(av, idx, ElemV::Node(NodeV { cst: cst2, ..n }))
        },
        _ => av,
    }
}

/// Taking the children out of a node; an MBA term keeps its single child.
pub open spec fn spec_take_ch(av: ArenaV, idx: int) -> (Seq<int>, ArenaV) {
    match av.elems[idx] {
        ElemV::Node(n) => {
            let tag2 = if n.tag is MBATerm {
                TagV::Other
            } else {
                n.tag
            };
            (n.ch, av_update(av, idx, ElemV::Node(NodeV { ch: Seq::empty(), tag: tag2, ..n })))
        },
        _ => (Seq::empty(), av),
    }
}

/// Merging: move all children of `from` into `to`, then free `from`.
pub open spec fn spec_move_ch(av: ArenaV, to: int, from: int) -> ArenaV {
    let tc = spec_take_ch(av, from);
    let av2 = spec_push_ch(tc.1, to, tc.0);
    let av3 = spec_set_pars(av2, tc.0, to);
    av_update(av3, from, ElemV::Free)
}

/// The number of terms a node holds: children plus folded constant.
pub open spec fn spec_num_terms(av: ArenaV, idx: int) -> int {
    match av.elems[idx] {
        ElemV::Node(n) => n.ch.len() + (if n.cst is Some {
            1int
        } else {
            0int
        }),
        _ => 0,
    }
}

pub open spec fn spec_get_ch(av: ArenaV, idx: int) -> Seq<int> {
    match av.elems[idx] {
        ElemV::Node(n) => n.ch,
        _ => Seq::empty(),
    }
}

// ---------------------------------------------------------------------------
// Small executable helpers
// ---------------------------------------------------------------------------
fn clone_idx_vec(v: &Vec<usize>) -> (r: Vec<usize>)
    ensures
        r@ == v@,
{
    let mut r: Vec<usize> = Vec::new();
    let mut i: usize = 0;
    while i < v.len()
        invariant
            i <= v@.len(),
            r@ == v@.subrange(0, i as int),
        decreases v@.len() - i,
    {
        r.push(v[i]);
        proof {
            assert(r@ =~= v@.subrange(0, i + 1));
        }
        i = i + 1;
    }
    proof {
        assert(r@ =~= v@);
    }
    r
}

impl EExpr {
    /// The operator this expression carries.
    fn op(&self) -> (c: char)
        ensures
            c == self.spec_op(),
    {
        match self {
            EExpr::MBA(_) => '+',
            EExpr::MBATerm(_) => '.',
            EExpr::Bitwise(e) => e.op,
            EExpr::Other(e) => e.op,
        }
    }

    /// A copy of the children list.
    fn ch(&self) -> (r: Vec<usize>)
        ensures
            r@.map_values(|x: usize| x as int) == self.spec_ch(),
    {
        match self {
            EExpr::MBA(e) => clone_idx_vec(&e.ch),
            EExpr::MBATerm(e) => {
                let mut v: Vec<usize> = Vec::new();
                v.push(e.bitw);
                proof {
                    assert(v@.map_values(|x: usize| x as int) =~= seq![e.bitw as int]);
                }
                v
            },
            EExpr::Bitwise(e) => clone_idx_vec(&e.ch),
            EExpr::Other(e) => clone_idx_vec(&e.ch),
        }
    }

    /// Takes the children out; an MBA term keeps its single child.
    fn take_ch(&mut self) -> (r: Vec<usize>)
        ensures
            r@.map_values(|x: usize| x as int) == old(self).spec_ch(),
            final(self).spec_op() == old(self).spec_op(),
            final(self).spec_tag() == (if old(self).spec_tag() is MBATerm {
                TagV::Other
            } else {
                old(self).spec_tag()
            }),
            final(self).spec_ch() == Seq::<int>::empty(),
    {
        match self {
            EExpr::MBA(e) => {
                let mut taken: Vec<usize> = Vec::new();
                std::mem::swap(&mut taken, &mut e.ch);
                proof {
                    assert(Seq::<usize>::empty().map_values(|x: usize| x as int)
                        =~= Seq::<int>::empty());
                }
                taken
            },
            EExpr::MBATerm(e) => {
                let mut v: Vec<usize> = Vec::new();
                v.push(e.bitw);
                proof {
                    assert(v@.map_values(|x: usize| x as int) =~= seq![e.bitw as int]);
                }
                *self = EExpr::Other(Other { ch: Vec::new(), op: '.' });
                proof {
                    assert(Seq::<usize>::empty().map_values(|x: usize| x as int)
                        =~= Seq::<int>::empty());
                }
                v
            },
            EExpr::Bitwise(e) => {
                let mut taken: Vec<usize> = Vec::new();
                std::mem::swap(&mut taken, &mut e.ch);
                proof {
                    assert(Seq::<usize>::empty().map_values(|x: usize| x as int)
                        =~= Seq::<int>::empty());
                }
                taken
            },
            EExpr::Other(e) => {
                let mut taken: Vec<usize> = Vec::new();
                std::mem::swap(&mut taken, &mut e.ch);
                proof {
                    assert(Seq::<usize>::empty().map_values(|x: usize| x as int)
                        =~= Seq::<int>::empty());
                }
                taken
            },
        }
    }

    /// Combines two constants under this expression's operator.
    fn compute(&self, cst1: u32, cst2: u32) -> (r: u32)
        requires
            is_op5(self.spec_op()),
        ensures
            r == spec_compute_op(self.spec_op(), cst1, cst2),
    {
        compute_op(self.op(), cst1, cst2)
    }
}

} // verus!

verus! {

impl Node {
    /// A fresh node: no children, no constant, classified `Other`.
    fn new(idx: usize, sign: String, op: char) -> (n: Node)
        ensures
            n@ == (NodeV {
                idx: idx as int,
                sign: sign@,
                op: op,
                tag: TagV::Other,
                ch: Seq::empty(),
                cst: None,
                par: None,
            }),
    {
        let n = Node { idx, sign, expr: EExpr::Other(Other { ch: Vec::new(), op }), cst: None, par: None };
        proof {
            assert(n@.ch =~= Seq::<int>::empty());
            assert(n@ =~= (NodeV {
                idx: idx as int,
                sign: n.sign@,
                op: op,
                tag: TagV::Other,
                ch: Seq::empty(),
                cst: None,
                par: None,
            }));
        }
        n
    }

    /// Folds one more literal into the node's constant accumulator.
    fn push_cst(&mut self, cst: u32)
        requires
            is_op5(old(self)@.op),
        ensures
            final(self)@ == (NodeV {
                cst: match old(self)@.cst {
                    Some(o) => Some(spec_compute_op(old(self)@.op, o, cst)),
                    None => Some(cst),
                },
                ..old(self)@
            }),
    {
        let old_cst = self.cst;
        match old_cst {
            Some(o) => {
                self.cst = Some(self.expr.compute(o, cst));
            },
            None => {
                self.cst = Some(cst);
            },
        }
        proof {
            assert(final(self)@ =~= (NodeV {
                cst: match old(self)@.cst {
                    Some(o) => Some(spec_compute_op(old(self)@.op, o, cst)),
                    None => Some(cst),
                },
                ..old(self)@
            }));
        }
    }

    /// The node's operator.
    fn op(&self) -> (c: char)
        ensures
            c == self@.op,
    {
        self.expr.op()
    }

    /// A copy of the node's sign.
    fn sign(&self) -> (s: String)
        ensures
            s@ == self@.sign,
    {
        self.sign.clone()
    }

    /// A copy of the node's children list.
    fn ch(&self) -> (r: Vec<usize>)
        ensures
            r@.map_values(|x: usize| x as int) == self@.ch,
    {
        self.expr.ch()
    }

    /// Whether a constant has been folded under this node.
    pub fn has_cst(&self) -> (b: bool)
        ensures
            b == (self@.cst is Some),
    {
        !self.cst.is_none()
    }
}

impl Arena {
    /// An empty arena.
    pub fn new() -> (a: Arena)
        ensures
            a@.elems =~= Seq::<ElemV>::empty(),
            a@.root == 0,
    {
        Arena { root_node: 0, elems: Vec::new(), free_slots: Vec::new() }
    }

    /// Creates a node slot and returns its index.
    pub fn node(&mut self, sign: String, op: char) -> (idx: usize)
        ensures
            final(self)@ == spec_new_node(old(self)@, sign@, op),
            idx as int == old(self)@.elems.len(),
    {
        let idx = self.elems.len();
        let node = Node::new(idx, sign, op);
        self.elems.push(Elem::Node(node));
        proof {
            assert(self@.elems =~= spec_new_node(old(self)@, sign@, op).elems);
            assert(self@ =~= spec_new_node(old(self)@, sign@, op));
        }
        idx
    }

    /// Creates a leaf slot and returns its index.
    pub fn leaf(&mut self, val: VarTerm) -> (idx: usize)
        ensures
            final(self)@ == spec_new_leaf(old(self)@, val.val, val.sign@),
            idx as int == old(self)@.elems.len(),
    {
        let idx = self.elems.len();
        let ghost var = val.val;
        let ghost sgn = val.sign@;
        let leaf = Leaf { idx, val, par: None };
        self.elems.push(Elem::Leaf(leaf));
        proof {
            assert(self@.elems =~= spec_new_leaf(old(self)@, var, sgn).elems);
            assert(self@ =~= spec_new_leaf(old(self)@, var, sgn));
        }
        idx
    }

    fn len(&self) -> (n: usize)
        ensures
            n as int == self@.elems.len(),
    {
        self.elems.len()
    }

    /// The slot at an index.
    pub fn get(&self, idx: usize) -> (e: &Elem)
        requires
            idx < self@.elems.len(),
        ensures
            e@ == self@.elems[idx as int],
    {
        &self.elems[idx]
    }

    /// The node at an index, or `NotANode`.
    pub fn get_node(&self, idx: usize) -> (r: Result<&Node, ArenaError>)
        requires
            idx < self@.elems.len(),
        ensures
            (match self@.elems[idx as int] {
                ElemV::Node(n) => r matches Ok(node) && node@ == n,
                _ => r matches Err(e) && e is NotANode,
            }),
    {
        let e = self.get(idx);
        match e {
            Elem::Node(n) => Ok(n),
            _ => Err(ArenaError::NotANode()),
        }
    }

    /// A copy of the children list of a node; empty for a leaf. A freed
    /// slot must never be dereferenced, so one is refused up front.
    pub fn get_ch(&self, idx: usize) -> (r: Vec<usize>)
        requires
            idx < self@.elems.len(),
            !(self@.elems[idx as int] is Free),
        ensures
            r@.map_values(|x: usize| x as int) == spec_get_ch(self@, idx as int),
    {
        match self.get(idx) {
            Elem::Node(n) => n.ch(),
            _ => {
                let v: Vec<usize> = Vec::new();
                proof {
                    assert(v@.map_values(|x: usize| x as int) =~= Seq::<int>::empty());
                }
                v
            },
        }
    }

    /// How many children a node has; zero for a leaf.
    pub fn get_ch_len(&self, idx: usize) -> (n: usize)
        requires
            idx < self@.elems.len(),
        ensures
            n as int == spec_get_ch(self@, idx as int).len(),
    {
        match self.get(idx) {
            Elem::Node(n) => {
                let v = n.ch();
                proof {
                    assert(v@.map_values(|x: usize| x as int).len() == v@.len());
                }
                v.len()
            },
            _ => 0,
        }
    }

    /// How many terms a node holds: children plus folded constant. A freed
    /// slot must never be dereferenced, so one is refused up front.
    pub fn get_num_terms(&self, idx: usize) -> (n: usize)
        requires
            idx < self@.elems.len(),
            wf_elem(self@, idx as int),
            !(self@.elems[idx as int] is Free),
        ensures
            n as int == spec_num_terms(self@, idx as int),
    {
        match self.get(idx) {
            Elem::Node(n) => {
                let v = n.ch();
                proof {
                    assert(v@.map_values(|x: usize| x as int).len() == v@.len());
                }
                proof {
                    assert(self@.elems[idx as int] is Node);
                    assert(self@.elems[idx as int]->Node_0 == n@);
                    lemma_ch_len_bound(self@, idx as int);
                    assert(v@.len() == n@.ch.len());
                    assert(v@.len() < self@.elems.len());
                    assert(self.elems.len() == self.elems@.len());
                    assert(self.elems@.len() <= usize::MAX);
                }
                if n.has_cst() {
                    v.len() + 1
                } else {
                    v.len()
                }
            },
            _ => 0,
        }
    }

    /// The operator and sign of a node, if the slot holds one.
    fn copy_op_sign(&self, idx: usize) -> (r: Option<(char, String)>)
        requires
            idx < self@.elems.len(),
        ensures
            (match self@.elems[idx as int] {
                ElemV::Node(n) => r matches Some(os) && os.0 == n.op && os.1@ == n.sign,
                _ => r is None,
            }),
    {
        match self.get(idx) {
            Elem::Node(n) => Some((n.op(), n.sign())),
            _ => None,
        }
    }

    /// Takes the folded constant out of a node.
    fn take_cst(&mut self, idx: usize) -> (r: Option<u32>)
        requires
            idx < old(self)@.elems.len(),
        ensures
            (match old(self)@.elems[idx as int] {
                ElemV::Node(n) => r == n.cst && final(self)@ == av_update(
                    old(self)@,
                    idx as int,
                    ElemV::Node(NodeV { cst: None, ..n }),
                ),
                _ => r is None && final(self)@ == old(self)@,
            }),
    {
        let e = &mut self.elems[idx];
        let r = match e {
            Elem::Node(n) => {
                let c = n.cst;
                n.cst = None;
                c
            },
            _ => None,
        };
        proof {
            match old(self)@.elems[idx as int] {
                ElemV::Node(n) => {
                    assert(self@ =~= av_update(
                        old(self)@,
                        idx as int,
                        ElemV::Node(NodeV { cst: None, ..n }),
                    ));
                },
                _ => {
                    assert(self@ =~= old(self)@);
                },
            }
        }
        r
    }

    /// Takes the children out of a node; `None` for a leaf or free slot.
    fn take_ch(&mut self, idx: usize) -> (r: Option<Vec<usize>>)
        requires
            idx < old(self)@.elems.len(),
        ensures
            (match old(self)@.elems[idx as int] {
                ElemV::Node(n) => {
                    &&& r matches Some(v) && v@.map_values(|x: usize| x as int) == n.ch
                    &&& (final(self)@, n.ch) == (
                        spec_take_ch(old(self)@, idx as int).1,
                        spec_take_ch(old(self)@, idx as int).0,
                    )
                },
                _ => r is None && final(self)@ == old(self)@,
            }),
    {
        let e = &mut self.elems[idx];
        let r = match e {
            Elem::Node(n) => Some(n.expr.take_ch()),
            _ => None,
        };
        proof {
            match old(self)@.elems[idx as int] {
                ElemV::Node(n) => {
                    let tag2 = if n.tag is MBATerm {
                        TagV::Other
                    } else {
                        n.tag
                    };
                    assert(self@ =~= av_update(
                        old(self)@,
                        idx as int,
                        ElemV::Node(NodeV { ch: Seq::empty(), tag: tag2, ..n }),
                    ));
                    assert(self@ =~= spec_take_ch(old(self)@, idx as int).1);
                },
                _ => {
                    assert(self@ =~= old(self)@);
                },
            }
        }
        r
    }

    /// Replaces a slot by `Free` and records it on the free list.
    fn remove_elem(&mut self, idx: usize) -> (r: Result<(), ArenaError>)
        requires
            idx < old(self)@.elems.len(),
        ensures
            r is Ok,
            final(self)@ == av_update(old(self)@, idx as int, ElemV::Free),
    {
        self.elems[idx] = Elem::Free;
        self.free_slots.push(idx);
        proof {
            assert(self@ =~= av_update(old(self)@, idx as int, ElemV::Free));
        }
        Ok(())
    }

    /// Points a slot's parent link at `par_id`.
    fn set_par(&mut self, idx: usize, par_id: usize)
        requires
            idx < old(self)@.elems.len(),
        ensures
            final(self)@ == spec_set_par(old(self)@, idx as int, par_id as int),
    {
        let e = &mut self.elems[idx];
        match e {
            Elem::Node(n) => {
                n.par = Some(par_id);
            },
            Elem::Leaf(l) => {
                l.par = Some(par_id);
            },
            Elem::Free => {},
        }
        proof {
            assert(self@ =~= spec_set_par(old(self)@, idx as int, par_id as int));
        }
    }

    /// Whether the slot holds a leaf; a free slot holds none.
    fn is_leaf(&self, idx: usize) -> (b: bool)
        requires
            idx < self@.elems.len(),
            !(self@.elems[idx as int] is Free),
        ensures
            b == (self@.elems[idx as int] is Leaf),
    {
        match self.get(idx) {
            Elem::Node(_) => false,
            _ => true,
        }
    }

    /// Whether the element is a bitwise expression: a bitwise-classified
    /// node without folded constant, or any leaf.
    pub fn is_bitwise(&self, idx: usize) -> (b: bool)
        requires
            idx < self@.elems.len(),
            !(self@.elems[idx as int] is Free),
        ensures
            b == spec_child_bw(self@, idx as int),
    {
        match self.get(idx) {
            Elem::Node(n) => node_is_bitwise(&n.expr, n.cst),
            _ => true,
        }
    }

    /// Whether the element is classified as an MBA sum.
    pub fn is_mba(&self, idx: usize) -> (b: bool)
        requires
            idx < self@.elems.len(),
            !(self@.elems[idx as int] is Free),
        ensures
            b == (self@.elems[idx as int] matches ElemV::Node(n) && n.tag is MBA),
    {
        match self.get(idx) {
            Elem::Node(n) => matches!(&n.expr, EExpr::MBA(_)),
            _ => false,
        }
    }
}

} // verus!

verus! {

/// A well-formed node has no more children than the arena has slots: its
/// children are distinct indices below the arena's length.
pub proof fn lemma_ch_len_bound(av: ArenaV, i: int)
    requires
        0 <= i < av.elems.len(),
        wf_elem(av, i),
        av.elems[i] is Node,
    ensures
        av.elems[i]->Node_0.ch.len() < av.elems.len(),
{
    let n = av.elems[i]->Node_0;
    assert(n.ch.no_duplicates()) by {
        assert forall|k1: int, k2: int|
            0 <= k1 < n.ch.len() && 0 <= k2 < n.ch.len() && k1 != k2 implies n.ch[k1]
            != n.ch[k2] by {
            if k1 < k2 {
                assert(n.ch[k1] != n.ch[k2]);
            } else {
                assert(n.ch[k2] != n.ch[k1]);
            }
        }
    }
    n.ch.unique_seq_to_set();
    let rng = vstd::set_lib::set_int_range(i + 1, av.elems.len() as int);
    vstd::set_lib::lemma_int_range(i + 1, av.elems.len() as int);
    assert(n.ch.to_set().subset_of(rng)) by {
        assert forall|x: int| n.ch.to_set().contains(x) implies rng.contains(x) by {
            assert(n.ch.contains(x));
            let k = choose|k: int| 0 <= k < n.ch.len() && n.ch[k] == x;
            assert(i < n.ch[k] < av.elems.len());
        }
    }
    vstd::set_lib::lemma_len_subset(n.ch.to_set(), rng);
}

} // verus!

verus! {

/// Every listed index points at a live slot of the arena.
pub open spec fn ch_live(av: ArenaV, ch: Seq<int>) -> bool {
    forall|k: int|
        0 <= k < ch.len() ==> 0 <= #[trigger] ch[k] < av.elems.len() && !(av.elems[ch[k]] is Free)
}

/// Whether every listed element is admissible inside a bitwise expression.
#[verifier::loop_isolation(false)]
fn ch_bitwise(arena: &Arena, ch: &Vec<usize>) -> (b: bool)
    requires
        ch_live(arena@, ch@.map_values(|x: usize| x as int)),
    ensures
        b == spec_ch_bitwise(arena@, ch@.map_values(|x: usize| x as int)),
{
    let ghost chi = ch@.map_values(|x: usize| x as int);
    let mut i: usize = 0;
    while i < ch.len()
        invariant
            i <= ch@.len(),
            forall|k: int| 0 <= k < i ==> spec_child_bw(arena@, #[trigger] chi[k]),
        decreases ch@.len() - i,
    {
        proof {
            assert(chi[i as int] == ch@[i as int] as int);
            assert(0 <= chi[i as int] < arena@.elems.len() && !(arena@.elems[chi[i as int]] is Free));
        }
        if !arena.is_bitwise(ch[i]) {
            proof {
                assert(!spec_child_bw(arena@, chi[i as int]));
            }
            return false;
        }
        i = i + 1;
    }
    true
}

/// Whether an operator and children list form an MBA sum.
#[verifier::loop_isolation(false)]
fn is_mba(arena: &Arena, op: char, ch: &Vec<usize>) -> (b: bool)
    requires
        ch_live(arena@, ch@.map_values(|x: usize| x as int)),
    ensures
        b == spec_is_mba(arena@, op, ch@.map_values(|x: usize| x as int)),
{
    if op != '+' {
        return false;
    }
    let ghost chi = ch@.map_values(|x: usize| x as int);
    let mut i: usize = 0;
    while i < ch.len()
        invariant
            i <= ch@.len(),
            forall|k: int| 0 <= k < i ==> spec_child_mba(arena@, #[trigger] chi[k]),
        decreases ch@.len() - i,
    {
        proof {
            assert(chi[i as int] == ch@[i as int] as int);
            assert(0 <= chi[i as int] < arena@.elems.len() && !(arena@.elems[chi[i as int]] is Free));
        }
        let ok = match arena.get(ch[i]) {
            Elem::Node(n) => node_is_bitwise(&n.expr, n.cst) || node_is_mba_term(&n.expr, n.cst),
            Elem::Leaf(_) => true,
            Elem::Free => {
                proof {
                    assert(false);
                }
                false
            },
        };
        if !ok {
            proof {
                assert(!spec_child_mba(arena@, chi[i as int]));
            }
            return false;
        }
        i = i + 1;
    }
    true
}

/// Whether an operator and children list form a bitwise expression.
fn is_bitwise(arena: &Arena, op: char, ch: &Vec<usize>) -> (b: bool)
    requires
        ch_live(arena@, ch@.map_values(|x: usize| x as int)),
    ensures
        b == spec_is_bitwise(arena@, op, ch@.map_values(|x: usize| x as int)),
{
    if !(op == '^' || op == '&' || op == '|') {
        return false;
    }
    ch_bitwise(arena, ch)
}

/// Whether an operator and children list form an MBA term.
fn is_mba_term(arena: &Arena, op: char, ch: &Vec<usize>) -> (b: bool)
    requires
        ch_live(arena@, ch@.map_values(|x: usize| x as int)),
    ensures
        b == spec_is_mba_term(arena@, op, ch@.map_values(|x: usize| x as int)),
{
    if op != '.' {
        return false;
    }
    if ch.len() != 1 {
        return false;
    }
    ch_bitwise(arena, ch)
}

/// What setting a parent pointer does to one slot.
pub open spec fn par_set(e: ElemV, p: int) -> ElemV {
    match e {
        ElemV::Node(n) => ElemV::Node(NodeV { par: Some(p), ..n }),
        ElemV::Leaf(l) => ElemV::Leaf(LeafV { par: Some(p), ..l }),
        ElemV::Free => ElemV::Free,
    }
}

/// What taking the constant does to one slot, when the operator matches.
pub open spec fn clear_one(e: ElemV, op: char) -> ElemV {
    match e {
        ElemV::Node(n) => if n.op == op && n.cst is Some {
            ElemV::Node(NodeV { cst: None, ..n })
        } else {
            e
        },
        _ => e,
    }
}

pub proof fn lemma_clear_csts_props(av: ArenaV, op: char, chs: Seq<int>)
    requires
        forall|k: int| 0 <= k < chs.len() ==> 0 <= #[trigger] chs[k] < av.elems.len(),
    ensures
        spec_clear_csts(av, op, chs).root == av.root,
        spec_clear_csts(av, op, chs).elems.len() == av.elems.len(),
        forall|j: int|
            0 <= j < av.elems.len() ==> #[trigger] spec_clear_csts(av, op, chs).elems[j] == (
            if chs.contains(j) {
                clear_one(av.elems[j], op)
            } else {
                av.elems[j]
            }),
    decreases chs.len(),
{
    if chs.len() == 0 {
    } else {
        let c = chs[0];
        let av1 = match av.elems[c] {
            ElemV::Node(n) => if n.op == op && n.cst is Some {
                av_update(av, c, ElemV::Node(NodeV { cst: None, ..n }))
            } else {
                av
            },
            _ => av,
        };
        assert(forall|k: int|
            0 <= k < chs.drop_first().len() ==> 0 <= #[trigger] chs.drop_first()[k]
                < av1.elems.len());
        lemma_clear_csts_props(av1, op, chs.drop_first());
        assert forall|j: int| 0 <= j < av.elems.len() implies #[trigger] spec_clear_csts(
            av,
            op,
            chs,
        ).elems[j] == (if chs.contains(j) {
            clear_one(av.elems[j], op)
        } else {
            av.elems[j]
        }) by {
            if chs.contains(j) {
                let k = choose|k: int| 0 <= k < chs.len() && chs[k] == j;
                if j == c {
                    if chs.drop_first().contains(j) {
                        assert(clear_one(av1.elems[j], op) == clear_one(av.elems[j], op));
                    }
                } else {
                    assert(chs.drop_first()[k - 1] == j);
                    assert(chs.drop_first().contains(j));
                    assert(av1.elems[j] == av.elems[j]);
                }
            } else {
                assert(!chs.drop_first().contains(j)) by {
                    if chs.drop_first().contains(j) {
                        let k = choose|k: int|
                            0 <= k < chs.drop_first().len() && chs.drop_first()[k] == j;
                        assert(chs[k + 1] == j);
                    }
                }
                assert(j != c);
            }
        }
    }
}

pub proof fn lemma_set_pars_props(av: ArenaV, chs: Seq<int>, p: int)
    requires
        forall|k: int| 0 <= k < chs.len() ==> 0 <= #[trigger] chs[k] < av.elems.len(),
    ensures
        spec_set_pars(av, chs, p).root == av.root,
        spec_set_pars(av, chs, p).elems.len() == av.elems.len(),
        forall|j: int|
            0 <= j < av.elems.len() ==> #[trigger] spec_set_pars(av, chs, p).elems[j] == (
            if chs.contains(j) {
                par_set(av.elems[j], p)
            } else {
                av.elems[j]
            }),
    decreases chs.len(),
{
    if chs.len() == 0 {
    } else {
        let c = chs[0];
        let av1 = spec_set_par(av, c, p);
        assert(forall|k: int|
            0 <= k < chs.drop_first().len() ==> 0 <= #[trigger] chs.drop_first()[k]
                < av1.elems.len());
        lemma_set_pars_props(av1, chs.drop_first(), p);
        assert forall|j: int| 0 <= j < av.elems.len() implies #[trigger] spec_set_pars(
            av,
            chs,
            p,
        ).elems[j] == (if chs.contains(j) {
            par_set(av.elems[j], p)
        } else {
            av.elems[j]
        }) by {
            if 0 <= c < av.elems.len() {
                assert(av1.elems[c] == par_set(av.elems[c], p));
            }
            if chs.contains(j) {
                let k = choose|k: int| 0 <= k < chs.len() && chs[k] == j;
                if j == c {
                    if chs.drop_first().contains(j) {
                        assert(par_set(av1.elems[j], p) == par_set(av.elems[j], p));
                    }
                } else {
                    assert(chs.drop_first()[k - 1] == j);
                    assert(chs.drop_first().contains(j));
                    assert(av1.elems[j] == av.elems[j]);
                }
            } else {
                assert(!chs.drop_first().contains(j)) by {
                    if chs.drop_first().contains(j) {
                        let k = choose|k: int|
                            0 <= k < chs.drop_first().len() && chs.drop_first()[k] == j;
                        assert(chs[k + 1] == j);
                    }
                }
                assert(j != c);
                assert(av1.elems[j] == av.elems[j]);
            }
        }
    }
}

} // verus!

verus! {

impl Arena {
    /// Folds one literal into the node at `idx`; a leaf cannot take one.
    fn push_cst(&mut self, idx: usize, cst: u32) -> (r: Result<(), ArenaError>)
        requires
            idx < old(self)@.elems.len(),
            !(old(self)@.elems[idx as int] is Free),
            old(self)@.elems[idx as int] matches ElemV::Node(n) ==> is_op5(n.op),
        ensures
            old(self)@.elems[idx as int] is Node ==> r is Ok && final(self)@ == spec_push_cst(
                old(self)@,
                idx as int,
                cst,
            ),
            old(self)@.elems[idx as int] is Leaf ==> (r matches Err(e) && e is ParentIsLeaf)
                && final(self)@ == old(self)@,
    {
        let e = &mut self.elems[idx];
        let r = match e {
            Elem::Node(n) => {
                n.push_cst(cst);
                Ok(())
            },
            Elem::Leaf(_) => Err(ArenaError::ParentIsLeaf()),
            Elem::Free => {
                proof {
                    assert(false);
                }
                Err(ArenaError::NotANode())
            },
        };
        proof {
            match old(self)@.elems[idx as int] {
                ElemV::Node(n) => {
                    assert(self@ =~= spec_push_cst(old(self)@, idx as int, cst));
                },
                _ => {
                    assert(self@ =~= old(self)@);
                },
            }
        }
        r
    }

    /// Appends the listed children to the node at `idx`: compatible
    /// constants are stolen and folded, the children list grows, the node
    /// is reclassified, and the children point at their new parent.
    #[verifier::loop_isolation(false)]
    #[verifier::rlimit(100)]
    #[verifier::spinoff_prover]
    fn push_ch(&mut self, idx: usize, idx_ch_vec: &Vec<usize>) -> (r: Result<(), ArenaError>)
        requires
            idx < old(self)@.elems.len(),
            !(old(self)@.elems[idx as int] is Free),
            old(self)@.elems[idx as int] matches ElemV::Node(n) ==> is_op5(n.op) && n.idx
                == idx as int && ch_live(old(self)@, n.ch),
            forall|k: int|
                0 <= k < idx_ch_vec@.len() ==> idx < #[trigger] idx_ch_vec@[k] < old(
                    self,
                )@.elems.len(),
            forall|k: int|
                0 <= k < idx_ch_vec@.len() ==> !(old(self)@.elems[#[trigger] idx_ch_vec@[k] as int] is Free),
            forall|k: int|
                0 <= k < idx_ch_vec@.len() ==> (old(
                    self,
                )@.elems[#[trigger] idx_ch_vec@[k] as int] matches ElemV::Node(n) ==> valid_sign(
                    n.sign,
                )),
            forall|k1: int, k2: int|
                0 <= k1 < k2 < idx_ch_vec@.len() ==> #[trigger] idx_ch_vec@[k1]
                    != #[trigger] idx_ch_vec@[k2],
        ensures
            old(self)@.elems[idx as int] is Node ==> r is Ok && final(self)@ == spec_push_ch(
                old(self)@,
                idx as int,
                idx_ch_vec@.map_values(|x: usize| x as int),
            ),
            old(self)@.elems[idx as int] is Leaf ==> (r matches Err(e) && e is ParentIsLeaf)
                && final(self)@ == old(self)@,
            final(self)@.elems.len() == old(self)@.elems.len(),
            final(self)@.root == old(self)@.root,
    {
        let ghost av0 = self@;
        let ghost chs = idx_ch_vec@.map_values(|x: usize| x as int);

        match self.get(idx) {
            Elem::Node(_) => {},
            Elem::Leaf(_) => {
                return Err(ArenaError::ParentIsLeaf());
            },
            Elem::Free => {
                proof {
                    assert(false);
                }
                return Err(ArenaError::NotANode());
            },
        }
        let ghost n0 = av0.elems[idx as int]->Node_0;

        let op = match self.get(idx) {
            Elem::Node(n) => n.op(),
            _ => {
                proof {
                    assert(false);
                }
                ' '
            },
        };

        // steal compatible constants from the incoming children
        let mut vals: Vec<u32> = Vec::new();
        let mut k: usize = 0;
        proof {
            assert(chs.skip(0) =~= chs);
        }
        while k < idx_ch_vec.len()
            invariant
                k <= chs.len(),
                spec_clear_csts(self@, op, chs.skip(k as int)) == spec_clear_csts(av0, op, chs),
                vals@ + spec_steal_vals(av0, op, chs.skip(k as int)) == spec_steal_vals(
                    av0,
                    op,
                    chs,
                ),
                forall|j: int| k <= j < chs.len() ==> self@.elems[#[trigger] chs[j]] == av0.elems[chs[j]],
                self@.elems[idx as int] == av0.elems[idx as int],
                self@.elems.len() == av0.elems.len(),
                self@.root == av0.root,
                forall|j: int|
                    0 <= j < av0.elems.len() ==> (#[trigger] self@.elems[j] == av0.elems[j] || (
                    av0.elems[j] matches ElemV::Node(m) && self@.elems[j] == ElemV::Node(
                        NodeV { cst: None, ..m },
                    ))),
            decreases chs.len() - k,
        {
            let c = idx_ch_vec[k];
            let ghost pre = self@;
            proof {
                assert(chs[k as int] == c as int);
                assert(pre.elems[c as int] == av0.elems[c as int]);
                assert(chs.skip(k as int).drop_first() =~= chs.skip(k as int + 1));
            }
            match self.copy_op_sign(c) {
                Some(os) => {
                    if op == os.0 {
                        match self.take_cst(c) {
                            Some(ch_cst) => {
                                vals.push(compute_sign(ch_cst, os.1));
                            },
                            None => {},
                        }
                    }
                },
                None => {},
            }
            proof {
                let s = chs.skip(k as int);
                assert(s[0] == c as int);
                match av0.elems[c as int] {
                    ElemV::Node(n) => {
                        if n.op == op && n.cst is Some {
                            assert(self@ =~= av_update(
                                pre,
                                c as int,
                                ElemV::Node(NodeV { cst: None, ..n }),
                            ));
                        } else {
                            assert(self@ == pre);
                        }
                    },
                    _ => {
                        assert(self@ == pre);
                    },
                }
            }
            k = k + 1;
        }
        proof {
            assert(chs.skip(chs.len() as int) =~= Seq::<int>::empty());
            assert(vals@ + Seq::<u32>::empty() =~= vals@);
            assert(self@ == spec_clear_csts(av0, op, chs));
            assert(vals@ == spec_steal_vals(av0, op, chs));
        }
        let ghost av1 = self@;

        // fold them into the node's accumulator
        let mut acc: Option<u32> = match self.get(idx) {
            Elem::Node(n) => n.cst,
            _ => {
                proof {
                    assert(false);
                }
                None
            },
        };
        proof {
            assert(vals@.skip(0) =~= vals@);
        }
        let mut t: usize = 0;
        while t < vals.len()
            invariant
                t <= vals@.len(),
                spec_fold_cst(op, acc, vals@.skip(t as int)) == spec_fold_cst(op, n0.cst, vals@),
            decreases vals@.len() - t,
        {
            proof {
                assert(vals@.skip(t as int)[0] == vals@[t as int]);
                assert(vals@.skip(t as int).drop_first() =~= vals@.skip(t as int + 1));
            }
            acc = Some(
                match acc {
                    Some(a) => compute_op(op, a, vals[t]),
                    None => vals[t],
                },
            );
            t = t + 1;
        }
        proof {
            assert(vals@.skip(vals@.len() as int) =~= Seq::<u32>::empty());
            assert(acc == spec_fold_cst(op, n0.cst, spec_steal_vals(av0, op, chs)));
        }

        // the combined children list
        let mut newch: Vec<usize> = match self.get(idx) {
            Elem::Node(n) => n.ch(),
            _ => {
                proof {
                    assert(false);
                }
                Vec::new()
            },
        };
        let mut k2: usize = 0;
        while k2 < idx_ch_vec.len()
            invariant
                k2 <= idx_ch_vec@.len(),
                newch@.map_values(|x: usize| x as int) == n0.ch + chs.take(k2 as int),
            decreases idx_ch_vec@.len() - k2,
        {
            proof {
                assert(chs[k2 as int] == idx_ch_vec@[k2 as int] as int);
                assert(chs.take(k2 as int + 1) =~= chs.take(k2 as int).push(chs[k2 as int]));
            }
            let ghost pre_newch = newch@;
            newch.push(idx_ch_vec[k2]);
            proof {
                assert(newch@ =~= pre_newch.push(idx_ch_vec@[k2 as int]));
                assert forall|j: int| 0 <= j < newch@.len() implies newch@.map_values(
                    |x: usize| x as int,
                )[j] == #[trigger] (n0.ch + chs.take(k2 as int + 1))[j] by {
                    assert(newch@.map_values(|x: usize| x as int)[j] == newch@[j] as int);
                    if j < pre_newch.len() {
                        assert(pre_newch.map_values(|x: usize| x as int)[j] == pre_newch[j] as int);
                    }
                }
                assert(newch@.map_values(|x: usize| x as int) =~= n0.ch + chs.take(k2 as int + 1));
            }
            k2 = k2 + 1;
        }
        proof {
            assert(chs.take(chs.len() as int) =~= chs);
            assert(newch@.map_values(|x: usize| x as int) == n0.ch + chs);
            assert(ch_live(av1, n0.ch + chs)) by {
                assert(forall|j: int|
                    0 <= j < n0.ch.len() ==> 0 <= #[trigger] n0.ch[j] < av1.elems.len() && !(
                    av1.elems[n0.ch[j]] is Free));
                assert(forall|j: int|
                    0 <= j < chs.len() ==> 0 <= #[trigger] chs[j] < av1.elems.len() && !(
                    av1.elems[chs[j]] is Free));
                assert(forall|j: int|
                    0 <= j < (n0.ch + chs).len() ==> 0 <= #[trigger] (n0.ch + chs)[j]
                        < av1.elems.len() && !(av1.elems[(n0.ch + chs)[j]] is Free));
            }
        }

        // reclassify
        let ghost newchi = n0.ch + chs;
        let new_expr: EExpr = match self.get(idx) {
            Elem::Node(n) => match &n.expr {
                EExpr::MBA(_) => {
                    if is_mba(self, '+', &newch) {
                        EExpr::MBA(MBA { ch: newch })
                    } else {
                        EExpr::Other(Other { ch: newch, op: '+' })
                    }
                },
                EExpr::MBATerm(_) => EExpr::Other(Other { ch: newch, op: '.' }),
                EExpr::Bitwise(e) => {
                    let bop = e.op;
                    if is_bitwise(self, bop, &newch) {
                        EExpr::Bitwise(Bitwise { ch: newch, op: bop })
                    } else {
                        EExpr::Other(Other { ch: newch, op: bop })
                    }
                },
                EExpr::Other(e) => {
                    let oop = e.op;
                    if oop == '+' {
                        if is_mba(self, '+', &newch) {
                            EExpr::MBA(MBA { ch: newch })
                        } else {
                            EExpr::Other(Other { ch: newch, op: oop })
                        }
                    } else if oop == '.' {
                        if is_mba_term(self, '.', &newch) {
                            let b0 = newch[0];
                            proof {
                                assert(newchi =~= seq![b0 as int]);
                            }
                            EExpr::MBATerm(MBATerm { bitw: b0 })
                        } else {
                            EExpr::Other(Other { ch: newch, op: oop })
                        }
                    } else {
                        if is_bitwise(self, oop, &newch) {
                            EExpr::Bitwise(Bitwise { ch: newch, op: oop })
                        } else {
                            EExpr::Other(Other { ch: newch, op: oop })
                        }
                    }
                },
            },
            _ => {
                proof {
                    assert(false);
                }
                EExpr::Other(Other { ch: newch, op: ' ' })
            },
        };
        proof {
            assert(new_expr.spec_op() == n0.op);
            assert(new_expr.spec_ch() == newchi);
            assert(new_expr.spec_tag() == spec_retag(av1, n0.tag, n0.op, newchi));
        }

        // rebuild the node in place
        let (sgn, par) = match self.get(idx) {
            Elem::Node(n) => (n.sign(), n.par),
            _ => {
                proof {
                    assert(false);
                }
                (String::new(), None)
            },
        };
        self.elems[idx] = Elem::Node(Node { idx, sign: sgn, expr: new_expr, cst: acc, par });
        proof {
            assert(self@ =~= av_update(
                av1,
                idx as int,
                ElemV::Node(
                    NodeV {
                        ch: newchi,
                        cst: spec_fold_cst(n0.op, n0.cst, spec_steal_vals(av0, n0.op, chs)),
                        tag: spec_retag(av1, n0.tag, n0.op, newchi),
                        ..n0
                    },
                ),
            ));
        }
        let ghost av2 = self@;

        // point the children at their new parent
        let mut k3: usize = 0;
        proof {
            assert(chs.skip(0) =~= chs);
        }
        while k3 < idx_ch_vec.len()
            invariant
                k3 <= chs.len(),
                self@.elems.len() == av0.elems.len(),
                self@.root == av0.root,
                spec_set_pars(self@, chs.skip(k3 as int), idx as int) == spec_set_pars(
                    av2,
                    chs,
                    idx as int,
                ),
            decreases chs.len() - k3,
        {
            let c = idx_ch_vec[k3];
            let ghost pre = self@;
            proof {
                assert(chs[k3 as int] == c as int);
                assert(chs.skip(k3 as int)[0] == c as int);
                assert(chs.skip(k3 as int).drop_first() =~= chs.skip(k3 as int + 1));
            }
            self.set_par(c, idx);
            k3 = k3 + 1;
        }
        proof {
            assert(chs.skip(chs.len() as int) =~= Seq::<int>::empty());
            assert(self@ == spec_set_pars(av2, chs, idx as int));
            assert(self@ == spec_push_ch(av0, idx as int, chs));
        }
        Ok(())
    }

    /// Moves every child of `idx_from` into `idx_to` and frees the source.
    #[verifier::loop_isolation(false)]
    fn move_ch(&mut self, idx_to: usize, idx_from: usize) -> (r: Result<(), ArenaError>)
        requires
            idx_to < old(self)@.elems.len(),
            idx_from < old(self)@.elems.len(),
            idx_to < idx_from,
            old(self)@.elems[idx_to as int] is Node,
            old(self)@.elems[idx_from as int] is Node,
            is_op5(old(self)@.elems[idx_to as int]->Node_0.op),
            old(self)@.elems[idx_to as int]->Node_0.idx == idx_to as int,
            forall|k: int|
                0 <= k < old(self)@.elems[idx_from as int]->Node_0.ch.len() ==> idx_from
                    < #[trigger] old(self)@.elems[idx_from as int]->Node_0.ch[k],
            ch_live(old(self)@, old(self)@.elems[idx_to as int]->Node_0.ch),
            forall|k: int|
                0 <= k < old(self)@.elems[idx_from as int]->Node_0.ch.len() ==> idx_to
                    < #[trigger] old(self)@.elems[idx_from as int]->Node_0.ch[k] < old(
                    self,
                )@.elems.len(),
            forall|k: int|
                0 <= k < old(self)@.elems[idx_from as int]->Node_0.ch.len() ==> !(old(
                    self,
                )@.elems[#[trigger] old(self)@.elems[idx_from as int]->Node_0.ch[k]] is Free),
            forall|k: int|
                0 <= k < old(self)@.elems[idx_from as int]->Node_0.ch.len() ==> (old(
                    self,
                )@.elems[#[trigger] old(self)@.elems[idx_from as int]->Node_0.ch[k]] matches ElemV::Node(
                    n,
                ) ==> valid_sign(n.sign)),
            forall|k1: int, k2: int|
                0 <= k1 < k2 < old(self)@.elems[idx_from as int]->Node_0.ch.len()
                    ==> #[trigger] old(self)@.elems[idx_from as int]->Node_0.ch[k1] != #[trigger] old(
                    self,
                )@.elems[idx_from as int]->Node_0.ch[k2],
        ensures
            r is Ok,
            final(self)@ == spec_move_ch(old(self)@, idx_to as int, idx_from as int),
    {
        let ghost av0 = self@;
        let from_ch: Vec<usize>;
        match self.take_ch(idx_from) {
            Some(ch) => {
                from_ch = ch;
            },
            None => {
                proof {
                    assert(false);
                }
                return Err(ArenaError::NotANode());
            },
        }
        let ghost chs = from_ch@.map_values(|x: usize| x as int);
        let ghost av1 = self@;
        proof {
            assert(av1 == spec_take_ch(av0, idx_from as int).1);
            assert(chs == spec_take_ch(av0, idx_from as int).0);
            assert(av1.elems[idx_to as int] == av0.elems[idx_to as int]);
            assert(forall|k: int|
                0 <= k < chs.len() ==> av1.elems[#[trigger] chs[k]] == av0.elems[chs[k]]);
            assert(ch_live(av1, av1.elems[idx_to as int]->Node_0.ch)) by {
                let tch = av0.elems[idx_to as int]->Node_0.ch;
                assert(forall|k: int|
                    0 <= k < tch.len() ==> 0 <= #[trigger] tch[k] < av1.elems.len() && !(
                    av1.elems[tch[k]] is Free));
            }
        }
        proof {
            assert(forall|k: int|
                0 <= k < from_ch@.len() ==> #[trigger] from_ch@[k] as int == chs[k]);
        }
        let pres = self.push_ch(idx_to, &from_ch);
        proof {
            assert(pres is Ok);
            assert(self@ == spec_push_ch(av1, idx_to as int, chs));
        }
        let ghost av2 = self@;

        // point the moved children at the target again, as the merge did
        let mut k: usize = 0;
        proof {
            assert(chs.skip(0) =~= chs);
        }
        while k < from_ch.len()
            invariant
                k <= chs.len(),
                self@.elems.len() == av0.elems.len(),
                spec_set_pars(self@, chs.skip(k as int), idx_to as int) == spec_set_pars(
                    av2,
                    chs,
                    idx_to as int,
                ),
            decreases chs.len() - k,
        {
            let c = from_ch[k];
            proof {
                assert(chs[k as int] == c as int);
                assert(chs.skip(k as int)[0] == c as int);
                assert(chs.skip(k as int).drop_first() =~= chs.skip(k as int + 1));
            }
            self.set_par(c, idx_to);
            k = k + 1;
        }
        proof {
            assert(chs.skip(chs.len() as int) =~= Seq::<int>::empty());
            assert(self@ == spec_set_pars(av2, chs, idx_to as int));
        }

        let rr = self.remove_elem(idx_from);
        proof {
            assert(rr is Ok);
            assert(self@ == spec_move_ch(av0, idx_to as int, idx_from as int));
        }
        Ok(())
    }
}

} // verus!

verus! {

/// Appending children preserves the arena invariants. The children must be
/// fresh: listed in no node, distinct, later than the target, live; the
/// target itself must be unattached.
pub proof fn lemma_push_ch_preserves(av: ArenaV, idx: int, chs: Seq<int>)
    requires
        wf_arena(av),
        tags_ok(av),
        0 <= idx < av.elems.len(),
        av.elems[idx] is Node,
        unattached(av, idx),
        forall|k: int| 0 <= k < chs.len() ==> idx < #[trigger] chs[k] < av.elems.len(),
        forall|k: int| 0 <= k < chs.len() ==> !(av.elems[#[trigger] chs[k]] is Free),
        forall|k: int| 0 <= k < chs.len() ==> unattached(av, #[trigger] chs[k]),
        forall|k1: int, k2: int|
            0 <= k1 < k2 < chs.len() ==> #[trigger] chs[k1] != #[trigger] chs[k2],
    ensures
        wf_arena(spec_push_ch(av, idx, chs)),
        tags_ok(spec_push_ch(av, idx, chs)),
        spec_push_ch(av, idx, chs).elems.len() == av.elems.len(),
        spec_push_ch(av, idx, chs).root == av.root,
        forall|j: int|
            0 <= j < av.elems.len() && j != idx && !chs.contains(j) ==> #[trigger] spec_push_ch(
                av,
                idx,
                chs,
            ).elems[j] == av.elems[j],
        forall|j: int|
            chs.contains(j) ==> #[trigger] spec_push_ch(av, idx, chs).elems[j] == par_set(
                clear_one(av.elems[j], av.elems[idx]->Node_0.op),
                idx,
            ),
        spec_push_ch(av, idx, chs).elems[idx] matches ElemV::Node(n2) && n2.ch == av.elems[
            idx
        ]->Node_0.ch + chs && n2.op == av.elems[idx]->Node_0.op && n2.sign == av.elems[
            idx
        ]->Node_0.sign && n2.par == av.elems[idx]->Node_0.par && n2.idx == idx,
        forall|x: int| unattached(av, x) && !chs.contains(x) ==> unattached(
            spec_push_ch(av, idx, chs),
            #[trigger] (x + 0),
        ),
{
    let n0 = av.elems[idx]->Node_0;
    assert(wf_elem(av, idx));
    assert(n0.idx == idx);
    let op = n0.op;
    let av1 = spec_clear_csts(av, op, chs);
    let newch = n0.ch + chs;
    let tag2 = spec_retag(av1, n0.tag, op, newch);
    let cst2 = spec_fold_cst(op, n0.cst, spec_steal_vals(av, op, chs));
    let n2 = NodeV { ch: newch, cst: cst2, tag: tag2, ..n0 };
    let av2 = av_update(av1, idx, ElemV::Node(n2));
    let r = spec_push_ch(av, idx, chs);
    lemma_clear_csts_props(av, op, chs);
    lemma_set_pars_props(av2, chs, idx);
    assert(r == spec_set_pars(av2, chs, idx));

    // chs cannot contain idx, and no child list of av meets chs
    assert forall|k: int| 0 <= k < chs.len() implies chs[k] != idx by {}

    // characterize every slot of the result
    assert forall|j: int| 0 <= j < av.elems.len() implies #[trigger] r.elems[j] == (if j == idx {
        ElemV::Node(n2)
    } else if chs.contains(j) {
        par_set(clear_one(av.elems[j], op), idx)
    } else {
        av.elems[j]
    }) by {
        if j == idx {
            assert(!chs.contains(j));
            assert(av1.elems[j] == av.elems[j]);
            assert(av2.elems[j] == ElemV::Node(n2));
        } else if chs.contains(j) {
            assert(av1.elems[j] == clear_one(av.elems[j], op));
            assert(av2.elems[j] == clear_one(av.elems[j], op));
        } else {
            assert(av1.elems[j] == av.elems[j]);
            assert(av2.elems[j] == av.elems[j]);
        }
    }

    // children of well-formed nodes lie within the arena
    assert forall|i: int, k: int|
        0 <= i < av.elems.len() && av.elems[i] is Node && 0 <= k
            < av.elems[i]->Node_0.ch.len() implies i < #[trigger] av.elems[i]->Node_0.ch[k]
        < av.elems.len() by {
        assert(wf_elem(av, i));
    }

    // a child listed by some node is never one of the fresh chs, nor idx
    assert forall|i: int, k: int|
        0 <= i < av.elems.len() && av.elems[i] is Node && 0 <= k
            < av.elems[i]->Node_0.ch.len() implies !chs.contains(
        #[trigger] av.elems[i]->Node_0.ch[k],
    ) && av.elems[i]->Node_0.ch[k] != idx by {
        let c = av.elems[i]->Node_0.ch[k];
        if chs.contains(c) {
            let m = choose|m: int| 0 <= m < chs.len() && chs[m] == c;
            assert(unattached(av, chs[m]));
            assert(av.elems[i]->Node_0.ch[k] != chs[m]);
        }
        assert(c != idx) by {
            if c == idx {
                assert(unattached(av, idx));
                assert(av.elems[i]->Node_0.ch[k] != idx);
            }
        }
    }

    // well-formedness of every slot of the result
    assert forall|j: int| 0 <= j < r.elems.len() implies wf_elem(r, j) by {
        assert(wf_elem(av, j));
        if j == idx {
            assert forall|k: int| 0 <= k < newch.len() implies idx < #[trigger] newch[k]
                < r.elems.len() && !(r.elems[newch[k]] is Free) && elem_par(r.elems[newch[k]])
                == Some(idx) by {
                let c = newch[k];
                if k < n0.ch.len() {
                    assert(c == n0.ch[k]);
                    assert(!chs.contains(c));
                    assert(c != idx);
                    assert(r.elems[c] == av.elems[c]);
                } else {
                    assert(c == chs[k - n0.ch.len()]);
                    assert(chs.contains(c));
                    assert(r.elems[c] == par_set(clear_one(av.elems[c], op), idx));
                }
            }
            assert forall|k1: int, k2: int| 0 <= k1 < k2 < newch.len() implies #[trigger] newch[k1]
                != #[trigger] newch[k2] by {
                if k1 < n0.ch.len() && k2 >= n0.ch.len() {
                    assert(newch[k1] == n0.ch[k1]);
                    assert(newch[k2] == chs[k2 - n0.ch.len()]);
                    assert(!chs.contains(n0.ch[k1]));
                }
            }
            assert(wf_elem(r, j));
        } else if chs.contains(j) {
            match av.elems[j] {
                ElemV::Node(m) => {
                    assert(r.elems[j] == ElemV::Node(
                        NodeV { par: Some(idx), ..clear_one(av.elems[j], op)->Node_0 },
                    ));
                    let mch = m.ch;
                    assert forall|k: int| 0 <= k < mch.len() implies j < #[trigger] mch[k]
                        < r.elems.len() && !(r.elems[mch[k]] is Free) && elem_par(r.elems[mch[k]])
                        == Some(j) by {
                        let c = mch[k];
                        assert(av.elems[j]->Node_0.ch[k] == c);
                        assert(!chs.contains(c));
                        assert(c != idx);
                        assert(r.elems[c] == av.elems[c]);
                    }
                    assert(wf_elem(r, j));
                },
                _ => {
                    assert(wf_elem(r, j));
                },
            }
        } else {
            match av.elems[j] {
                ElemV::Node(m) => {
                    assert forall|k: int| 0 <= k < m.ch.len() implies j < #[trigger] m.ch[k]
                        < r.elems.len() && !(r.elems[m.ch[k]] is Free) && elem_par(
                        r.elems[m.ch[k]],
                    ) == Some(j) by {
                        let c = m.ch[k];
                        assert(av.elems[j]->Node_0.ch[k] == c);
                        assert(!chs.contains(c));
                        assert(c != idx);
                        assert(r.elems[c] == av.elems[c]);
                    }
                    assert(wf_elem(r, j));
                },
                _ => {
                    assert(wf_elem(r, j));
                },
            }
        }
    }

    // classification stays consistent: the tag predicates read only the
    // variant, tag and constant of children, which the step left intact
    // wherever a node lists them
    assert forall|j: int| 0 <= j < r.elems.len() implies tag_ok(r, j) by {
        assert(tag_ok(av, j));
        if j == idx {
            match tag2 {
                TagV::MBA => {
                    assert(spec_is_mba(av1, '+', newch));
                    assert(op == '+') by {
                        match n0.tag {
                            TagV::MBA => {
                                assert(tag_ok(av, idx));
                            },
                            _ => {},
                        }
                    }
                    assert forall|k: int| 0 <= k < newch.len() implies spec_child_mba(
                        r,
                        #[trigger] newch[k],
                    ) by {
                        let c = newch[k];
                        assert(spec_child_mba(av1, c));
                        if k < n0.ch.len() {
                            assert(c == av.elems[idx]->Node_0.ch[k]);
                        } else {
                            assert(c == chs[k - n0.ch.len()]);
                        }
                        assert(0 <= c < av.elems.len());
                        if chs.contains(c) {
                            assert(r.elems[c] == par_set(av1.elems[c], idx));
                        } else {
                            assert(c != idx);
                            assert(r.elems[c] == av.elems[c]);
                            assert(av1.elems[c] == av.elems[c]);
                        }
                    }
                    assert(tag_ok(r, j));
                },
                TagV::Bitwise => {
                    assert(spec_is_bitwise(av1, op, newch));
                    assert forall|k: int| 0 <= k < newch.len() implies spec_child_bw(
                        r,
                        #[trigger] newch[k],
                    ) by {
                        let c = newch[k];
                        assert(spec_child_bw(av1, c));
                        if k < n0.ch.len() {
                            assert(c == av.elems[idx]->Node_0.ch[k]);
                        } else {
                            assert(c == chs[k - n0.ch.len()]);
                        }
                        assert(0 <= c < av.elems.len());
                        if chs.contains(c) {
                            assert(r.elems[c] == par_set(av1.elems[c], idx));
                        } else {
                            assert(c != idx);
                            assert(r.elems[c] == av.elems[c]);
                            assert(av1.elems[c] == av.elems[c]);
                        }
                    }
                    assert(tag_ok(r, j));
                },
                TagV::MBATerm => {
                    assert(spec_is_mba_term(av1, '.', newch));
                    assert forall|k: int| 0 <= k < newch.len() implies spec_child_bw(
                        r,
                        #[trigger] newch[k],
                    ) by {
                        let c = newch[k];
                        assert(spec_child_bw(av1, c));
                        if k < n0.ch.len() {
                            assert(c == av.elems[idx]->Node_0.ch[k]);
                        } else {
                            assert(c == chs[k - n0.ch.len()]);
                        }
                        assert(0 <= c < av.elems.len());
                        if chs.contains(c) {
                            assert(r.elems[c] == par_set(av1.elems[c], idx));
                        } else {
                            assert(c != idx);
                            assert(r.elems[c] == av.elems[c]);
                            assert(av1.elems[c] == av.elems[c]);
                        }
                    }
                    assert(op == '.');
                    assert(tag_ok(r, j));
                },
                TagV::Other => {
                    assert(tag_ok(r, j));
                },
            }
        } else if chs.contains(j) {
            match av.elems[j] {
                ElemV::Node(m) => {
                    assert(r.elems[j] matches ElemV::Node(m2) && m2.tag == m.tag && m2.ch == m.ch
                        && m2.op == m.op);
                    assert forall|k: int| 0 <= k < m.ch.len() implies #[trigger] r.elems[m.ch[k]]
                        == av.elems[m.ch[k]] by {
                        let c = m.ch[k];
                        assert(av.elems[j]->Node_0.ch[k] == c);
                        assert(j < c < av.elems.len());
                        assert(!chs.contains(c));
                        assert(c != idx);
                    }
                    assert(tag_ok(r, j));
                },
                _ => {},
            }
        } else {
            match av.elems[j] {
                ElemV::Node(m) => {
                    assert forall|k: int| 0 <= k < m.ch.len() implies #[trigger] r.elems[m.ch[k]]
                        == av.elems[m.ch[k]] by {
                        let c = m.ch[k];
                        assert(av.elems[j]->Node_0.ch[k] == c);
                        assert(j < c < av.elems.len());
                        assert(!chs.contains(c));
                        assert(c != idx);
                    }
                    assert(tag_ok(r, j));
                },
                _ => {},
            }
        }
    }

    // an index listed nowhere before, and not among the pushed children,
    // is still listed nowhere
    assert forall|x: int| unattached(av, x) && !chs.contains(x) implies unattached(
        r,
        #[trigger] (x + 0),
    ) by {
        assert forall|i: int, k: int|
            0 <= i < r.elems.len() && r.elems[i] is Node && 0 <= k
                < r.elems[i]->Node_0.ch.len() implies #[trigger] r.elems[i]->Node_0.ch[k]
            != x by {
            if i == idx {
                let c = r.elems[i]->Node_0.ch[k];
                if k < n0.ch.len() {
                    assert(c == n0.ch[k]);
                    assert(av.elems[idx]->Node_0.ch[k] != x);
                } else {
                    assert(c == chs[k - n0.ch.len()]);
                    assert(chs.contains(c));
                }
            } else if chs.contains(i) {
                match av.elems[i] {
                    ElemV::Node(m) => {
                        assert(r.elems[i]->Node_0.ch == m.ch);
                        assert(av.elems[i]->Node_0.ch[k] != x);
                    },
                    _ => {},
                }
            } else {
                assert(r.elems[i] == av.elems[i]);
                assert(av.elems[i]->Node_0.ch[k] != x);
            }
        }
    }
    assert(r.elems[idx] == ElemV::Node(n2));
    assert(n2.ch == newch);
}

} // verus!

verus! {

/// Appending a fresh node keeps every invariant; the new index is listed
/// nowhere.
pub proof fn lemma_new_node_preserves(av: ArenaV, sign: Seq<char>, op: char)
    requires
        wf_arena(av),
        tags_ok(av),
        valid_sign(sign),
        is_op5(op),
    ensures
        wf_arena(spec_new_node(av, sign, op)),
        tags_ok(spec_new_node(av, sign, op)),
        spec_new_node(av, sign, op).elems.len() == av.elems.len() + 1,
        spec_new_node(av, sign, op).root == av.root,
        forall|j: int|
            0 <= j < av.elems.len() ==> #[trigger] spec_new_node(av, sign, op).elems[j]
                == av.elems[j],
        forall|x: int| unattached(av, x) ==> unattached(spec_new_node(av, sign, op), #[trigger] (x + 0)),
        unattached(spec_new_node(av, sign, op), av.elems.len() as int),
{
    let r = spec_new_node(av, sign, op);
    assert forall|j: int| 0 <= j < r.elems.len() implies wf_elem(r, j) by {
        if j < av.elems.len() {
            assert(wf_elem(av, j));
            match av.elems[j] {
                ElemV::Node(m) => {
                    assert(forall|k: int|
                        0 <= k < m.ch.len() ==> #[trigger] r.elems[m.ch[k]] == av.elems[m.ch[k]]);
                },
                _ => {},
            }
        }
    }
    assert forall|j: int| 0 <= j < r.elems.len() implies tag_ok(r, j) by {
        if j < av.elems.len() {
            assert(tag_ok(av, j));
            match av.elems[j] {
                ElemV::Node(m) => {
                    assert(wf_elem(av, j));
                    assert(forall|k: int|
                        0 <= k < m.ch.len() ==> #[trigger] r.elems[m.ch[k]] == av.elems[m.ch[k]]);
                },
                _ => {},
            }
        }
    }
    assert forall|x: int| unattached(av, x) implies unattached(r, #[trigger] (x + 0)) by {
        assert forall|i: int, k: int|
            0 <= i < r.elems.len() && r.elems[i] is Node && 0 <= k
                < r.elems[i]->Node_0.ch.len() implies #[trigger] r.elems[i]->Node_0.ch[k]
            != x by {
            if i < av.elems.len() {
                assert(av.elems[i]->Node_0.ch[k] != x);
            }
        }
    }
    assert(unattached(r, av.elems.len() as int)) by {
        assert forall|i: int, k: int|
            0 <= i < r.elems.len() && r.elems[i] is Node && 0 <= k
                < r.elems[i]->Node_0.ch.len() implies #[trigger] r.elems[i]->Node_0.ch[k]
            != av.elems.len() as int by {
            if i < av.elems.len() {
                assert(wf_elem(av, i));
                assert(av.elems[i]->Node_0.ch[k] < av.elems.len());
            }
        }
    }
}

/// Appending a fresh leaf keeps every invariant; the new index is listed
/// nowhere.
pub proof fn lemma_new_leaf_preserves(av: ArenaV, var: char, sign: Seq<char>)
    requires
        wf_arena(av),
        tags_ok(av),
        valid_sign(sign),
    ensures
        wf_arena(spec_new_leaf(av, var, sign)),
        tags_ok(spec_new_leaf(av, var, sign)),
        spec_new_leaf(av, var, sign).elems.len() == av.elems.len() + 1,
        spec_new_leaf(av, var, sign).root == av.root,
        forall|j: int|
            0 <= j < av.elems.len() ==> #[trigger] spec_new_leaf(av, var, sign).elems[j]
                == av.elems[j],
        forall|x: int| unattached(av, x) ==> unattached(spec_new_leaf(av, var, sign), #[trigger] (x + 0)),
        unattached(spec_new_leaf(av, var, sign), av.elems.len() as int),
{
    let r = spec_new_leaf(av, var, sign);
    assert forall|j: int| 0 <= j < r.elems.len() implies wf_elem(r, j) by {
        if j < av.elems.len() {
            assert(wf_elem(av, j));
            match av.elems[j] {
                ElemV::Node(m) => {
                    assert(forall|k: int|
                        0 <= k < m.ch.len() ==> #[trigger] r.elems[m.ch[k]] == av.elems[m.ch[k]]);
                },
                _ => {},
            }
        }
    }
    assert forall|j: int| 0 <= j < r.elems.len() implies tag_ok(r, j) by {
        if j < av.elems.len() {
            assert(tag_ok(av, j));
            match av.elems[j] {
                ElemV::Node(m) => {
                    assert(wf_elem(av, j));
                    assert(forall|k: int|
                        0 <= k < m.ch.len() ==> #[trigger] r.elems[m.ch[k]] == av.elems[m.ch[k]]);
                },
                _ => {},
            }
        }
    }
    assert forall|x: int| unattached(av, x) implies unattached(r, #[trigger] (x + 0)) by {
        assert forall|i: int, k: int|
            0 <= i < r.elems.len() && r.elems[i] is Node && 0 <= k
                < r.elems[i]->Node_0.ch.len() implies #[trigger] r.elems[i]->Node_0.ch[k]
            != x by {
            if i < av.elems.len() {
                assert(av.elems[i]->Node_0.ch[k] != x);
            }
        }
    }
    assert(unattached(r, av.elems.len() as int)) by {
        assert forall|i: int, k: int|
            0 <= i < r.elems.len() && r.elems[i] is Node && 0 <= k
                < r.elems[i]->Node_0.ch.len() implies #[trigger] r.elems[i]->Node_0.ch[k]
            != av.elems.len() as int by {
            if i < av.elems.len() {
                assert(wf_elem(av, i));
                assert(av.elems[i]->Node_0.ch[k] < av.elems.len());
            }
        }
    }
}

/// Folding a literal into an unattached node keeps every invariant.
pub proof fn lemma_push_cst_preserves(av: ArenaV, idx: int, cst: u32)
    requires
        wf_arena(av),
        tags_ok(av),
        0 <= idx < av.elems.len(),
        unattached(av, idx),
    ensures
        wf_arena(spec_push_cst(av, idx, cst)),
        tags_ok(spec_push_cst(av, idx, cst)),
        spec_push_cst(av, idx, cst).elems.len() == av.elems.len(),
        spec_push_cst(av, idx, cst).root == av.root,
        forall|j: int|
            0 <= j < av.elems.len() && j != idx ==> #[trigger] spec_push_cst(av, idx, cst).elems[j]
                == av.elems[j],
        forall|x: int| unattached(av, x) ==> unattached(spec_push_cst(av, idx, cst), #[trigger] (x + 0)),
    decreases 0int,
{
    let r = spec_push_cst(av, idx, cst);
    assert forall|j: int| 0 <= j < r.elems.len() implies wf_elem(r, j) by {
        assert(wf_elem(av, j));
        match av.elems[j] {
            ElemV::Node(m) => {
                assert forall|k: int| 0 <= k < m.ch.len() implies #[trigger] r.elems[m.ch[k]]
                    == av.elems[m.ch[k]] by {
                    assert(av.elems[j]->Node_0.ch[k] == m.ch[k]);
                    assert(m.ch[k] != idx);
                }
            },
            _ => {},
        }
    }
    assert forall|j: int| 0 <= j < r.elems.len() implies tag_ok(r, j) by {
        assert(tag_ok(av, j));
        assert(wf_elem(av, j));
        match av.elems[j] {
            ElemV::Node(m) => {
                assert forall|k: int| 0 <= k < m.ch.len() implies #[trigger] r.elems[m.ch[k]]
                    == av.elems[m.ch[k]] by {
                    assert(av.elems[j]->Node_0.ch[k] == m.ch[k]);
                    assert(m.ch[k] != idx);
                }
                match av.elems[idx] {
                    ElemV::Node(n) => {
                        assert(r.elems[j] == (if j == idx {
                            ElemV::Node(
                                NodeV {
                                    cst: match n.cst {
                                        Some(o) => Some(spec_compute_op(n.op, o, cst)),
                                        None => Some(cst),
                                    },
                                    ..n
                                },
                            )
                        } else {
                            av.elems[j]
                        }));
                    },
                    _ => {},
                }
            },
            _ => {},
        }
    }
    assert forall|x: int| unattached(av, x) implies unattached(r, #[trigger] (x + 0)) by {
        assert forall|i: int, k: int|
            0 <= i < r.elems.len() && r.elems[i] is Node && 0 <= k
                < r.elems[i]->Node_0.ch.len() implies #[trigger] r.elems[i]->Node_0.ch[k]
            != x by {
            assert(r.elems[i]->Node_0.ch == av.elems[i]->Node_0.ch);
            assert(av.elems[i]->Node_0.ch[k] != x);
        }
    }
}

} // verus!

verus! {

/// Merging one unattached node into an earlier unattached node keeps every
/// invariant; the source becomes free, its children hang under the target.
#[verifier::rlimit(100)]
#[verifier::spinoff_prover]
pub proof fn lemma_move_ch_preserves(av: ArenaV, to: int, from: int)
    requires
        wf_arena(av),
        tags_ok(av),
        0 <= to < from < av.elems.len(),
        av.elems[to] is Node,
        av.elems[from] is Node,
        unattached(av, to),
        unattached(av, from),
    ensures
        wf_arena(spec_move_ch(av, to, from)),
        tags_ok(spec_move_ch(av, to, from)),
        spec_move_ch(av, to, from).elems.len() == av.elems.len(),
        spec_move_ch(av, to, from).root == av.root,
        spec_move_ch(av, to, from).elems[from] is Free,
        spec_move_ch(av, to, from).elems[to] matches ElemV::Node(n2) && n2.ch == av.elems[
            to
        ]->Node_0.ch + av.elems[from]->Node_0.ch && n2.op == av.elems[to]->Node_0.op && n2.sign
            == av.elems[to]->Node_0.sign && n2.par == av.elems[to]->Node_0.par && n2.idx == to,
        forall|j: int|
            0 <= j < av.elems.len() && j != to && j != from && !av.elems[
                from
            ]->Node_0.ch.contains(j) ==> #[trigger] spec_move_ch(av, to, from).elems[j]
                == av.elems[j],
        forall|x: int|
            unattached(av, x) && !av.elems[from]->Node_0.ch.contains(x) ==> unattached(
                spec_move_ch(av, to, from),
                #[trigger] (x + 0),
            ),
{
    let nf = av.elems[from]->Node_0;
    let chs = nf.ch;
    assert(wf_elem(av, from));
    assert(wf_elem(av, to));
    let tc = spec_take_ch(av, from);
    let av1 = tc.1;
    assert(tc.0 == chs);
    let tag2 = if nf.tag is MBATerm {
        TagV::Other
    } else {
        nf.tag
    };
    assert(av1 == av_update(av, from, ElemV::Node(NodeV { ch: Seq::empty(), tag: tag2, ..nf })));

    // the source's children are listed only by the source, so in av1 they
    // are listed nowhere
    assert forall|k: int| 0 <= k < chs.len() implies unattached(av1, #[trigger] chs[k]) by {
        let c = chs[k];
        assert(elem_par(av.elems[c]) == Some(from));
        assert forall|i: int, m: int|
            0 <= i < av1.elems.len() && av1.elems[i] is Node && 0 <= m
                < av1.elems[i]->Node_0.ch.len() implies #[trigger] av1.elems[i]->Node_0.ch[m]
            != c by {
            if i != from {
                assert(av1.elems[i] == av.elems[i]);
                if av.elems[i]->Node_0.ch[m] == c {
                    assert(wf_elem(av, i));
                    assert(elem_par(av.elems[c]) == Some(i));
                }
            }
        }
    }

    // av1 keeps the invariants
    assert forall|j: int| 0 <= j < av1.elems.len() implies wf_elem(av1, j) && tag_ok(av1, j) by {
        assert(wf_elem(av, j));
        assert(tag_ok(av, j));
        if j != from {
            assert(av1.elems[j] == av.elems[j]);
            match av.elems[j] {
                ElemV::Node(m) => {
                    assert forall|k: int| 0 <= k < m.ch.len() implies #[trigger] av1.elems[m.ch[k]]
                        == av.elems[m.ch[k]] by {
                        assert(av.elems[j]->Node_0.ch[k] == m.ch[k]);
                        assert(m.ch[k] != from) by {
                            if m.ch[k] == from {
                                assert(unattached(av, from));
                                assert(av.elems[j]->Node_0.ch[k] != from);
                            }
                        }
                    }
                },
                _ => {},
            }
        }
    }

    // unattachedness carries over to av1 for anything but the source's
    // children, which were attached anyway
    assert forall|x: int| unattached(av, x) implies unattached(av1, #[trigger] (x + 0)) by {
        assert forall|i: int, m: int|
            0 <= i < av1.elems.len() && av1.elems[i] is Node && 0 <= m
                < av1.elems[i]->Node_0.ch.len() implies #[trigger] av1.elems[i]->Node_0.ch[m]
            != x by {
            if i != from {
                assert(av1.elems[i] == av.elems[i]);
                assert(av.elems[i]->Node_0.ch[m] != x);
            }
        }
    }

    lemma_push_ch_preserves(av1, to, chs);
    let av2 = spec_push_ch(av1, to, chs);

    // re-pointing the children at the target changes nothing: they already
    // point there
    lemma_set_pars_props(av2, chs, to);
    let av3 = spec_set_pars(av2, chs, to);
    assert forall|j: int| 0 <= j < av2.elems.len() implies #[trigger] av3.elems[j]
        == av2.elems[j] by {
        if chs.contains(j) {
            assert(av2.elems[j] == par_set(clear_one(av1.elems[j], av1.elems[to]->Node_0.op), to));
            assert(par_set(av2.elems[j], to) == av2.elems[j]);
        }
    }
    assert(av3 =~= av2);

    let r = spec_move_ch(av, to, from);
    assert(r == av_update(av2, from, ElemV::Free));

    // the source was listed nowhere, and still is, so freeing it is sound
    assert(unattached(av2, from)) by {
        assert(!chs.contains(from)) by {
            if chs.contains(from) {
                let k = choose|k: int| 0 <= k < chs.len() && chs[k] == from;
                assert(from < chs[k]);
            }
        }
        assert(unattached(av1, from));
    }

    assert forall|j: int| 0 <= j < r.elems.len() implies wf_elem(r, j) && tag_ok(r, j) by {
        if j != from {
            assert(wf_elem(av2, j));
            assert(tag_ok(av2, j));
            assert(r.elems[j] == av2.elems[j]);
            match av2.elems[j] {
                ElemV::Node(m) => {
                    assert forall|k: int| 0 <= k < m.ch.len() implies #[trigger] r.elems[m.ch[k]]
                        == av2.elems[m.ch[k]] by {
                        assert(av2.elems[j]->Node_0.ch[k] == m.ch[k]);
                        assert(m.ch[k] != from) by {
                            if m.ch[k] == from {
                                assert(unattached(av2, from));
                                assert(av2.elems[j]->Node_0.ch[k] != from);
                            }
                        }
                    }
                },
                _ => {},
            }
        }
    }

    assert forall|x: int| unattached(av, x) && !chs.contains(x) implies unattached(
        r,
        #[trigger] (x + 0),
    ) by {
        assert(unattached(av1, x));
        assert(unattached(av2, x));
        assert forall|i: int, m: int|
            0 <= i < r.elems.len() && r.elems[i] is Node && 0 <= m
                < r.elems[i]->Node_0.ch.len() implies #[trigger] r.elems[i]->Node_0.ch[m]
            != x by {
            if i != from {
                assert(r.elems[i] == av2.elems[i]);
                assert(av2.elems[i]->Node_0.ch[m] != x);
            }
        }
    }
}

} // verus!

verus! {

// ---------------------------------------------------------------------------
// The builder, as a step function over RPN tokens consumed right to left
// ---------------------------------------------------------------------------
/// What kind of token an RPN element is.
pub enum TokK {
    Op(char),
    Sign(Seq<char>),
    Cst(u32),
    Var(char),
    Bad,
}

pub open spec fn is_digit_tok(t: Seq<char>) -> bool {
    t.len() > 0 && forall|k: int| 0 <= k < t.len() ==> 48 <= #[trigger] t[k] as u32 <= 57
}

/// The numeric value of a digit string.
pub open spec fn digits_val(t: Seq<char>) -> nat
    decreases t.len(),
{
    if t.len() == 0 {
        0
    } else {
        digits_val(t.drop_last()) * 10 + (t.last() as u32 - 48) as nat
    }
}

/// How the builder reads one token.
pub open spec fn classify_tok(t: Seq<char>) -> TokK {
    if t.len() == 1 && is_op5(t[0]) {
        TokK::Op(t[0])
    } else if t == seq!['~'] || t == seq!['-'] || t == seq!['-', '~'] || t == seq!['~', '-'] {
        TokK::Sign(t)
    } else if is_digit_tok(t) && digits_val(t) <= u32::MAX {
        TokK::Cst(digits_val(t) as u32)
    } else if t.len() == 1 {
        TokK::Var(t[0])
    } else {
        TokK::Bad
    }
}

/// The builder's working state.
#[verifier::ext_equal]
pub struct BState {
    pub av: ArenaV,
    pub prev_leaf: bool,
    pub curr: Option<int>,
    pub sign_stack: Seq<Seq<char>>,
    pub sign: Seq<char>,
    pub node_stack: Seq<int>,
}

/// The settle loop: nodes holding at least two terms are merged into the
/// node beneath them when operator and sign agree, pushed as a child
/// otherwise, until a node lacks terms or the stack bottoms out.
pub open spec fn spec_tns_loop(av: ArenaV, stack: Seq<int>) -> (ArenaV, Seq<int>)
    decreases stack.len(),
{
    if stack.len() == 0 {
        (av, stack)
    } else {
        let idx = stack.last();
        let rest = stack.drop_last();
        if spec_num_terms(av, idx) >= 2 && rest.len() > 0 {
            let par = rest.last();
            let pn = av.elems[par]->Node_0;
            let en = av.elems[idx]->Node_0;
            if pn.op == en.op && pn.sign == en.sign {
                spec_tns_loop(spec_move_ch(av, par, idx), rest)
            } else {
                spec_tns_loop(spec_push_ch(av, par, seq![idx]), rest)
            }
        } else {
            (av, stack)
        }
    }
}

/// Settling after the current node is put on the stack.
pub open spec fn spec_tns(av: ArenaV, curr: Option<int>, stack: Seq<int>) -> (ArenaV, Seq<int>) {
    match curr {
        Some(i) => spec_tns_loop(av, stack.push(i)),
        None => spec_tns_loop(av, stack),
    }
}

/// What one builder step produces: a next state, the finished root, or a
/// syntax error.
pub enum BStep {
    Cont(BState),
    Done(ArenaV, int),
    Fail,
}

/// The settle-and-pop sequence that follows two adjacent operands.
pub open spec fn spec_settle(st: BState) -> BState {
    if st.prev_leaf {
        let r = spec_tns(st.av, st.curr, st.node_stack);
        let av2 = r.0;
        let stack2 = r.1;
        if stack2.len() > 0 {
            BState {
                av: av2,
                curr: Some(stack2.last()),
                node_stack: stack2.drop_last(),
                sign: Seq::empty(),
                prev_leaf: true,
                ..st
            }
        } else {
            BState {
                av: av2,
                curr: None,
                node_stack: stack2,
                sign: Seq::empty(),
                prev_leaf: true,
                ..st
            }
        }
    } else {
        BState { sign: Seq::empty(), prev_leaf: true, ..st }
    }
}

/// One builder step on one token; `is_last` says the RPN is exhausted
/// after it.
pub open spec fn spec_build_step(st: BState, t: Seq<char>, is_last: bool) -> BStep {
    match classify_tok(t) {
        TokK::Op(op) => {
            let st0 = BState { prev_leaf: false, ..st };
            if st.curr matches Some(i) && st.av.elems[i]->Node_0.op == op && st.sign.len() == 0 {
                BStep::Cont(st0)
            } else {
                let sstack2 = if st.sign.len() > 0 {
                    st.sign_stack.push(st.sign)
                } else {
                    st.sign_stack
                };
                let r = spec_tns(st.av, st.curr, st.node_stack);
                let sgn = if sstack2.len() > 0 {
                    sstack2.last()
                } else {
                    Seq::empty()
                };
                let sstack3 = if sstack2.len() > 0 {
                    sstack2.drop_last()
                } else {
                    sstack2
                };
                let newidx = r.0.elems.len() as int;
                BStep::Cont(
                    BState {
                        av: spec_new_node(r.0, sgn, op),
                        prev_leaf: false,
                        curr: Some(newidx),
                        sign_stack: sstack3,
                        sign: Seq::empty(),
                        node_stack: r.1,
                    },
                )
            }
        },
        TokK::Sign(s) => {
            let sign2 = st.sign + s;
            if valid_sign(sign2) {
                BStep::Cont(BState { sign: sign2, ..st })
            } else {
                BStep::Fail
            }
        },
        TokK::Cst(v) => {
            let c2 = spec_compute_sign(v, st.sign);
            match st.curr {
                Some(i) => {
                    let av2 = spec_push_cst(st.av, i, c2);
                    BStep::Cont(spec_settle(BState { av: av2, sign: Seq::empty(), ..st }))
                },
                None => BStep::Fail,
            }
        },
        TokK::Var(c) => {
            let av2 = spec_new_leaf(st.av, c, st.sign);
            let idl = st.av.elems.len() as int;
            match st.curr {
                Some(i) => {
                    let av3 = spec_push_ch(av2, i, seq![idl]);
                    BStep::Cont(spec_settle(BState { av: av3, sign: Seq::empty(), ..st }))
                },
                None => {
                    if is_last {
                        BStep::Done(av2, idl)
                    } else {
                        BStep::Fail
                    }
                },
            }
        },
        TokK::Bad => BStep::Fail,
    }
}

/// The error kinds the builder reports.
pub enum BErr {
    Empty,
    Syntax,
}

/// Running the builder over the last `i` tokens of the stream, newest
/// first, and closing off the stack at the end.
pub open spec fn spec_build_run(st: BState, toks: Seq<Seq<char>>, i: int) -> Result<
    (ArenaV, int),
    BErr,
>
    decreases i,
{
    if i <= 0 {
        match st.curr {
            Some(r) => Ok((st.av, r)),
            None => {
                if st.node_stack.len() > 0 {
                    Ok((st.av, st.node_stack.last()))
                } else {
                    Err(BErr::Syntax)
                }
            },
        }
    } else {
        match spec_build_step(st, toks[i - 1], i == 1) {
            BStep::Cont(st2) => spec_build_run(st2, toks, i - 1),
            BStep::Done(av, r) => Ok((av, r)),
            BStep::Fail => Err(BErr::Syntax),
        }
    }
}

pub open spec fn b_init() -> BState {
    BState {
        av: ArenaV { root: 0, elems: Seq::empty() },
        prev_leaf: false,
        curr: None,
        sign_stack: Seq::empty(),
        sign: Seq::empty(),
        node_stack: Seq::empty(),
    }
}

/// What building an arena from an RPN stream yields: the slots and the
/// root index, or the error.
pub open spec fn spec_new_arena(toks: Seq<Seq<char>>) -> Result<(ArenaV, int), BErr> {
    if toks.len() == 0 {
        Err(BErr::Empty)
    } else {
        spec_build_run(b_init(), toks, toks.len() as int)
    }
}

/// The builder invariant carried between steps.
pub open spec fn inv_b(st: BState) -> bool {
    &&& wf_arena(st.av)
    &&& tags_ok(st.av)
    &&& valid_sign(st.sign)
    &&& forall|k: int| 0 <= k < st.sign_stack.len() ==> valid_sign(#[trigger] st.sign_stack[k])
    &&& (st.curr matches Some(i) ==> 0 <= i < st.av.elems.len() && st.av.elems[i] is Node
        && unattached(st.av, i) && is_op5(st.av.elems[i]->Node_0.op) && (forall|k: int|
        0 <= k < st.node_stack.len() ==> #[trigger] st.node_stack[k] < i))
    &&& forall|k: int|
        0 <= k < st.node_stack.len() ==> 0 <= #[trigger] st.node_stack[k] < st.av.elems.len()
            && st.av.elems[st.node_stack[k]] is Node && unattached(st.av, st.node_stack[k])
            && is_op5(st.av.elems[st.node_stack[k]]->Node_0.op)
    &&& forall|k1: int, k2: int|
        0 <= k1 < k2 < st.node_stack.len() ==> #[trigger] st.node_stack[k1] < #[trigger] st.node_stack[k2]
}

} // verus!

verus! {

pub open spec fn stack_int(s: Seq<usize>) -> Seq<int> {
    s.map_values(|x: usize| x as int)
}

/// The settle pass over the node stack, as the builder runs it after the
/// current node is parked there.
#[verifier::loop_isolation(false)]
#[verifier::rlimit(100)]
#[verifier::spinoff_prover]
fn take_node_stack(arena: &mut Arena, curr_node: &mut Option<usize>, node_stack: &mut VecDeque<
    usize,
>)
    requires
        wf_arena(old(arena)@),
        tags_ok(old(arena)@),
        (*old(curr_node) matches Some(i) ==> i < old(arena)@.elems.len() && old(arena)@.elems[
            i as int
        ] is Node && unattached(old(arena)@, i as int) && is_op5(
            old(arena)@.elems[i as int]->Node_0.op,
        ) && (forall|k: int|
            0 <= k < old(node_stack)@.len() ==> #[trigger] old(node_stack)@[k] < i)),
        forall|k: int|
            0 <= k < old(node_stack)@.len() ==> #[trigger] old(node_stack)@[k] < old(
                arena,
            )@.elems.len() && old(arena)@.elems[old(node_stack)@[k] as int] is Node && unattached(
                old(arena)@,
                old(node_stack)@[k] as int,
            ) && is_op5(old(arena)@.elems[old(node_stack)@[k] as int]->Node_0.op),
        forall|k1: int, k2: int|
            0 <= k1 < k2 < old(node_stack)@.len() ==> #[trigger] old(node_stack)@[k1]
                < #[trigger] old(node_stack)@[k2],
    ensures
        *final(curr_node) is None,
        (final(arena)@, stack_int(final(node_stack)@)) == spec_tns(
            old(arena)@,
            opt_i(*old(curr_node)),
            stack_int(old(node_stack)@),
        ),
        wf_arena(final(arena)@),
        tags_ok(final(arena)@),
        final(arena)@.elems.len() == old(arena)@.elems.len(),
        final(arena)@.root == old(arena)@.root,
        forall|k: int|
            0 <= k < final(node_stack)@.len() ==> #[trigger] final(node_stack)@[k]
                < final(arena)@.elems.len()
                && final(arena)@.elems[final(node_stack)@[k] as int] is Node
                && unattached(final(arena)@, final(node_stack)@[k] as int)
                && is_op5(final(arena)@.elems[final(node_stack)@[k] as int]->Node_0.op),
        forall|k1: int, k2: int|
            0 <= k1 < k2 < final(node_stack)@.len() ==> #[trigger] final(node_stack)@[k1]
                < #[trigger] final(node_stack)@[k2],
        forall|x: int|
            unattached(old(arena)@, x) && (forall|k: int|
                0 <= k < old(node_stack)@.len() ==> #[trigger] old(node_stack)@[k] as int != x) && (
            *old(curr_node) matches Some(i) ==> i as int != x) ==> unattached(
                final(arena)@,
                #[trigger] (x + 0),
            ),
{
    let ghost av_in = arena@;
    let c = *curr_node;
    *curr_node = None;
    match c {
        Some(i) => {
            node_stack.push_back(i);
            proof {
                assert(stack_int(node_stack@) =~= stack_int(old(node_stack)@).push(i as int));
            }
        },
        None => {},
    }
    let ghost stack0 = stack_int(node_stack@);
    proof {
        assert forall|k: int| 0 <= k < node_stack@.len() implies stack0.contains(
            #[trigger] node_stack@[k] as int,
        ) by {
            assert(stack0[k] == node_stack@[k] as int);
        }
    }

    let mut stop = false;
    while !stop
        invariant
            wf_arena(arena@),
            tags_ok(arena@),
            arena@.elems.len() == av_in.elems.len(),
            arena@.root == av_in.root,
            forall|k: int|
                0 <= k < node_stack@.len() ==> #[trigger] node_stack@[k] < arena@.elems.len()
                    && arena@.elems[node_stack@[k] as int] is Node && unattached(
                    arena@,
                    node_stack@[k] as int,
                ) && is_op5(arena@.elems[node_stack@[k] as int]->Node_0.op),
            forall|k1: int, k2: int|
                0 <= k1 < k2 < node_stack@.len() ==> #[trigger] node_stack@[k1]
                    < #[trigger] node_stack@[k2],
            !stop ==> spec_tns_loop(arena@, stack_int(node_stack@)) == spec_tns_loop(
                av_in,
                stack0,
            ),
            stop ==> (arena@, stack_int(node_stack@)) == spec_tns_loop(av_in, stack0),
            forall|x: int|
                unattached(av_in, x) && (forall|k: int|
                    0 <= k < stack0.len() ==> #[trigger] stack0[k] != x) ==> unattached(
                    arena@,
                    #[trigger] (x + 0),
                ),
            forall|k: int|
                0 <= k < node_stack@.len() ==> stack0.contains(#[trigger] node_stack@[k] as int),
        decreases node_stack@.len() + (if stop {
            0int
        } else {
            1int
        }),
    {
        let ghost av_c = arena@;
        let ghost sk_c = stack_int(node_stack@);
        if node_stack.len() == 0 {
            stop = true;
        } else {
            let idx = node_stack.pop_back().unwrap();
            proof {
                assert(sk_c.last() == idx as int);
                assert(stack_int(node_stack@) =~= sk_c.drop_last());
            }
            let has2 = arena.get_num_terms(idx) >= 2;
            if has2 && node_stack.len() > 0 {
                let par = node_stack[node_stack.len() - 1];
                proof {
                    assert(node_stack@[node_stack@.len() - 1] == par);
                    assert(sk_c.drop_last().last() == par as int);
                    assert(par < idx);
                }
                let pos = arena.copy_op_sign(par);
                let eos = arena.copy_op_sign(idx);
                let pos = match pos {
                    Some(v) => v,
                    None => {
                        proof {
                            assert(false);
                        }
                        return ;
                    },
                };
                let eos = match eos {
                    Some(v) => v,
                    None => {
                        proof {
                            assert(false);
                        }
                        return ;
                    },
                };
                let ghost pn = av_c.elems[par as int]->Node_0;
                let ghost en = av_c.elems[idx as int]->Node_0;
                if pos.0 == eos.0 && pos.1 == eos.1 {
                    proof {
                        assert(pn.op == en.op && pn.sign == en.sign);
                        assert(wf_elem(av_c, idx as int));
                        assert(wf_elem(av_c, par as int));
                        assert forall|k: int| 0 <= k < en.ch.len() implies (av_c.elems[#[trigger] en.ch[k]] matches ElemV::Node(n)
                            ==> valid_sign(n.sign)) by {
                            assert(av_c.elems[idx as int]->Node_0.ch[k] == en.ch[k]);
                            assert((idx as int) < en.ch[k] && en.ch[k] < av_c.elems.len());
                            assert(wf_elem(av_c, en.ch[k]));
                        }
                    }
                    let mres = arena.move_ch(par, idx);
                    proof {
                        assert(arena@ == spec_move_ch(av_c, par as int, idx as int));
                        lemma_move_ch_preserves(av_c, par as int, idx as int);
                        assert forall|k: int| 0 <= k < node_stack@.len() implies #[trigger] node_stack@[k]
                            < arena@.elems.len() && arena@.elems[node_stack@[k] as int] is Node
                            && unattached(arena@, node_stack@[k] as int) && is_op5(
                            arena@.elems[node_stack@[k] as int]->Node_0.op,
                        ) by {
                            let s = node_stack@[k] as int;
                            assert(sk_c.drop_last()[k] == s);
                            assert(unattached(av_c, s));
                            assert(!en.ch.contains(s)) by {
                                if en.ch.contains(s) {
                                    let m = choose|m: int| 0 <= m < en.ch.len() && en.ch[m] == s;
                                    assert(av_c.elems[idx as int]->Node_0.ch[m] != s);
                                }
                            }
                            if s != par as int {
                                assert(arena@.elems[s] == av_c.elems[s]);
                            }
                            assert(unattached(arena@, s + 0));
                        }
                    }
                } else {
                    let mut one: Vec<usize> = Vec::new();
                    one.push(idx);
                    proof {
                        assert(one@.map_values(|x: usize| x as int) =~= seq![idx as int]);
                        assert(wf_elem(av_c, par as int));
                        assert(wf_elem(av_c, idx as int));
                    }
                    let pres = arena.push_ch(par, &one);
                    proof {
                        assert(arena@ == spec_push_ch(av_c, par as int, seq![idx as int]));
                        lemma_push_ch_preserves(av_c, par as int, seq![idx as int]);
                        assert forall|k: int| 0 <= k < node_stack@.len() implies #[trigger] node_stack@[k]
                            < arena@.elems.len() && arena@.elems[node_stack@[k] as int] is Node
                            && unattached(arena@, node_stack@[k] as int) && is_op5(
                            arena@.elems[node_stack@[k] as int]->Node_0.op,
                        ) by {
                            let s = node_stack@[k] as int;
                            assert(sk_c.drop_last()[k] == s);
                            assert(unattached(av_c, s));
                            assert(!seq![idx as int].contains(s));
                            if s != par as int {
                                assert(arena@.elems[s] == av_c.elems[s]);
                            }
                            assert(unattached(arena@, s + 0));
                        }
                    }
                }
                proof {
                    assert(spec_tns_loop(arena@, stack_int(node_stack@)) == spec_tns_loop(
                        av_in,
                        stack0,
                    ));
                    assert forall|x: int|
                        unattached(av_in, x) && (forall|k: int|
                            0 <= k < stack0.len() ==> #[trigger] stack0[k] != x) implies unattached(
                        arena@,
                        #[trigger] (x + 0),
                    ) by {
                        assert(unattached(av_c, x + 0));
                        assert(stack0.contains(idx as int)) by {
                            assert(sk_c[sk_c.len() - 1] == idx as int);
                        }
                        assert(idx as int != x);
                        assert(!en.ch.contains(x)) by {
                            if en.ch.contains(x) {
                                let m = choose|m: int| 0 <= m < en.ch.len() && en.ch[m] == x;
                                assert(av_c.elems[idx as int]->Node_0.ch[m] != x);
                            }
                        }
                        assert(unattached(arena@, x + 0));
                    }
                }
            } else {
                node_stack.push_back(idx);
                proof {
                    assert(stack_int(node_stack@) =~= sk_c);
                }
                stop = true;
            }
        }
    }
}

} // verus!

verus! {

/// Reads a token as a decimal 32-bit constant, if it is one.
#[verifier::loop_isolation(false)]
fn parse_digits(t: &String) -> (r: Option<u32>)
    ensures
        (match r {
            Some(v) => is_digit_tok(t@) && digits_val(t@) <= u32::MAX && v == digits_val(t@),
            None => !(is_digit_tok(t@) && digits_val(t@) <= u32::MAX),
        }),
{
    let s = t.as_str();
    let n = s.unicode_len();
    if n == 0 {
        return None;
    }
    let mut acc: u32 = 0;
    let mut over = false;
    let mut i: usize = 0;
    proof {
        assert(t@.take(0) =~= Seq::<char>::empty());
    }
    while i < n
        invariant
            i <= n,
            forall|k: int| 0 <= k < i ==> 48 <= #[trigger] t@[k] as u32 <= 57,
            !over ==> acc == digits_val(t@.take(i as int)) && digits_val(t@.take(i as int))
                <= u32::MAX,
            over ==> digits_val(t@.take(i as int)) > u32::MAX,
        decreases n - i,
    {
        let c = s.get_char(i);
        let u = c as u32;
        if !(48 <= u && u <= 57) {
            return None;
        }
        let d = u - 48;
        proof {
            assert(t@.take(i as int + 1).drop_last() =~= t@.take(i as int));
            assert(t@.take(i as int + 1).last() == t@[i as int]);
            assert(digits_val(t@.take(i as int + 1)) == digits_val(t@.take(i as int)) * 10 + d);
        }
        if over {
        } else if acc > 429496729 || (acc == 429496729 && d > 5) {
            over = true;
        } else {
            acc = acc * 10 + d;
        }
        i = i + 1;
    }
    proof {
        assert(t@.take(n as int) =~= t@);
    }
    if over {
        None
    } else {
        Some(acc)
    }
}

/// Restates the builder invariant's stack facts at the machine level.
pub proof fn lemma_stack_bridge(st: BState, sk: Seq<usize>, curr: Option<usize>)
    requires
        inv_b(st),
        st.node_stack == stack_int(sk),
        st.curr == opt_i(curr),
    ensures
        forall|k: int|
            0 <= k < sk.len() ==> #[trigger] sk[k] < st.av.elems.len() && st.av.elems[sk[k] as int] is Node
                && unattached(st.av, sk[k] as int) && is_op5(st.av.elems[sk[k] as int]->Node_0.op),
        forall|k1: int, k2: int|
            0 <= k1 < k2 < sk.len() ==> #[trigger] sk[k1] < #[trigger] sk[k2],
        curr matches Some(i) ==> i < st.av.elems.len() && st.av.elems[i as int] is Node
            && unattached(st.av, i as int) && is_op5(st.av.elems[i as int]->Node_0.op) && (forall|
            k: int,
        |
            0 <= k < sk.len() ==> #[trigger] sk[k] < i),
{
    assert forall|k: int| 0 <= k < sk.len() implies #[trigger] sk[k] < st.av.elems.len()
        && st.av.elems[sk[k] as int] is Node && unattached(st.av, sk[k] as int) && is_op5(
        st.av.elems[sk[k] as int]->Node_0.op,
    ) by {
        assert(st.node_stack[k] == sk[k] as int);
    }
    assert forall|k1: int, k2: int| 0 <= k1 < k2 < sk.len() implies #[trigger] sk[k1]
        < #[trigger] sk[k2] by {
        assert(st.node_stack[k1] == sk[k1] as int);
        assert(st.node_stack[k2] == sk[k2] as int);
    }
    match curr {
        Some(i) => {
            assert forall|k: int| 0 <= k < sk.len() implies #[trigger] sk[k] < i by {
                assert(st.node_stack[k] == sk[k] as int);
            }
        },
        None => {},
    }
}

pub struct ArenaFactory;

impl ArenaFactory {
    /// Builds the arena for an RPN token stream, consuming it from the
    /// back, and records the root.
    pub fn new_arena(rpn: &mut VecDeque<String>) -> (r: Result<Arena, ExprError>)
        ensures
            (match spec_new_arena(old(rpn).deep_view()) {
                Ok(p) => {
                    &&& r matches Ok(a)
                    &&& a@.elems == p.0.elems
                    &&& a@.root == p.1
                    &&& wf_arena(a@)
                    &&& tags_ok(a@)
                    &&& 0 <= p.1 < a@.elems.len()
                    &&& !(a@.elems[p.1] is Free)
                },
                Err(k) => {
                    &&& r matches Err(e)
                    &&& (k is Empty ==> e is RPNEmpty)
                    &&& (k is Syntax ==> e is RPNSyntaxError)
                },
            }),
    {
        let mut arena = Arena::new();
        match ArenaFactory::build_expr(rpn, &mut arena) {
            Ok(root) => {
                let ghost pre = arena@;
                arena.root_node = root;
                proof {
                    assert(arena@.elems == pre.elems);
                    assert(arena@.root == root as int);
                    assert forall|i: int| 0 <= i < arena@.elems.len() implies wf_elem(arena@, i)
                        && tag_ok(arena@, i) by {
                        assert(wf_elem(pre, i));
                        assert(tag_ok(pre, i));
                        match pre.elems[i] {
                            ElemV::Node(n) => {
                                assert(forall|k: int|
                                    0 <= k < n.ch.len() ==> #[trigger] arena@.elems[n.ch[k]]
                                        == pre.elems[n.ch[k]]);
                            },
                            _ => {},
                        }
                    }
                }
                Ok(arena)
            },
            Err(e) => Err(e),
        }
    }

    /// The builder loop over the RPN stream.
    #[verifier::loop_isolation(false)]
    #[verifier::rlimit(100)]
    #[verifier::spinoff_prover]
    fn build_expr(rpn: &mut VecDeque<String>, arena: &mut Arena) -> (r: Result<usize, ExprError>)
        requires
            old(arena)@.elems.len() == 0,
            old(arena)@.root == 0,
        ensures
            (match spec_new_arena(old(rpn).deep_view()) {
                Ok(p) => {
                    &&& r matches Ok(root)
                    &&& final(arena)@.elems == p.0.elems
                    &&& root as int == p.1
                    &&& wf_arena(final(arena)@)
                    &&& tags_ok(final(arena)@)
                    &&& 0 <= p.1 < final(arena)@.elems.len()
                    &&& !(final(arena)@.elems[p.1] is Free)
                },
                Err(k) => {
                    &&& r matches Err(e)
                    &&& (k is Empty ==> e is RPNEmpty)
                    &&& (k is Syntax ==> e is RPNSyntaxError)
                },
            }),
    {
        let ghost toks = rpn.deep_view();
        if rpn.len() == 0 {
            return Err(ExprError::RPNEmpty());
        }

        let mut prev_leaf = false;
        let mut curr_node: Option<usize> = None;
        let mut sign_stack: Vec<String> = Vec::new();
        let mut sign: String = String::new();
        let mut node_stack: VecDeque<usize> = VecDeque::new();

        proof {
            let st = (BState {
                av: arena@,
                prev_leaf: false,
                curr: None,
                sign_stack: sign_stack.deep_view(),
                sign: sign@,
                node_stack: stack_int(node_stack@),
            });
            assert(st =~~= b_init());
            assert(toks.take(toks.len() as int) =~= toks);
        }

        while rpn.len() > 0
            invariant
                rpn@.len() <= toks.len(),
                rpn.deep_view() == toks.take(rpn@.len() as int),
                inv_b(
                    (BState {
                        av: arena@,
                        prev_leaf: prev_leaf,
                        curr: opt_i(curr_node),
                        sign_stack: sign_stack.deep_view(),
                        sign: sign@,
                        node_stack: stack_int(node_stack@),
                    }),
                ),
                spec_build_run(
                    (BState {
                        av: arena@,
                        prev_leaf: prev_leaf,
                        curr: opt_i(curr_node),
                        sign_stack: sign_stack.deep_view(),
                        sign: sign@,
                        node_stack: stack_int(node_stack@),
                    }),
                    toks,
                    rpn@.len() as int,
                ) == spec_build_run(b_init(), toks, toks.len() as int),
            decreases rpn@.len(),
        {
            let ghost st_in = (BState {
                av: arena@,
                prev_leaf: prev_leaf,
                curr: opt_i(curr_node),
                sign_stack: sign_stack.deep_view(),
                sign: sign@,
                node_stack: stack_int(node_stack@),
            });
            let ghost i0 = rpn@.len() as int;
            let ghost prev_rpn_dv = rpn.deep_view();
            let elem = rpn.pop_back().unwrap();
            proof {
                assert(prev_rpn_dv[i0 - 1] == elem@);
                assert(prev_rpn_dv == toks.take(i0));
                assert(toks.take(i0)[i0 - 1] == toks[i0 - 1]);
                assert(elem@ == toks[i0 - 1]);
                assert(rpn.deep_view() =~= toks.take(rpn@.len() as int));
            }
            let is_last = rpn.len() == 0;
            let ghost tk = classify_tok(elem@);

            let es = elem.as_str();
            let elen = es.unicode_len();
            let c0 = if elen >= 1 {
                es.get_char(0)
            } else {
                ' '
            };
            let c1 = if elen >= 2 {
                es.get_char(1)
            } else {
                ' '
            };

            if elen == 1 && (c0 == '+' || c0 == '.' || c0 == '^' || c0 == '&' || c0 == '|') {
                // a binary operator
                proof {
                    assert(elem@ =~= seq![c0]);
                    assert(tk == TokK::Op(c0));
                }
                prev_leaf = false;
                let coalesce = match curr_node {
                    Some(ci) => {
                        let os = arena.copy_op_sign(ci);
                        match os {
                            Some(p) => p.0 == c0 && sign.as_str().unicode_len() == 0,
                            None => {
                                proof {
                                    assert(false);
                                }
                                false
                            },
                        }
                    },
                    None => false,
                };
                if coalesce {
                    proof {
                        assert(sign@ =~= Seq::<char>::empty());
                        let st_out = (BState {
                            av: arena@,
                            prev_leaf: prev_leaf,
                            curr: opt_i(curr_node),
                            sign_stack: sign_stack.deep_view(),
                            sign: sign@,
                            node_stack: stack_int(node_stack@),
                        });
                        assert(st_out =~= (BState { prev_leaf: false, ..st_in }));
                        assert(spec_build_step(st_in, elem@, is_last) == BStep::Cont(st_out));
                    }
                } else {
                    let sign_empty = sign.as_str().unicode_len() == 0;
                    if !sign_empty {
                        let moved = sign;
                        sign = String::new();
                        sign_stack.push(moved);
                        proof {
                            assert(sign_stack.deep_view() =~= st_in.sign_stack.push(st_in.sign));
                        }
                    } else {
                        proof {
                            assert(sign@ =~= Seq::<char>::empty());
                        }
                    }
                    let ghost sstack2 = sign_stack.deep_view();
                    proof {
                        lemma_stack_bridge(
                            (BState {
                                av: arena@,
                                prev_leaf: prev_leaf,
                                curr: opt_i(curr_node),
                                sign_stack: sign_stack.deep_view(),
                                sign: sign@,
                                node_stack: stack_int(node_stack@),
                            }),
                            node_stack@,
                            curr_node,
                        );
                    }
                    take_node_stack(arena, &mut curr_node, &mut node_stack);
                    let sgn = match sign_stack.pop() {
                        Some(s) => s,
                        None => String::new(),
                    };
                    proof {
                        if sstack2.len() > 0 {
                            assert(sign_stack.deep_view() =~= sstack2.drop_last());
                            assert(sgn@ == sstack2.last());
                        } else {
                            assert(sign_stack.deep_view() =~= sstack2);
                            assert(sgn@ =~= Seq::<char>::empty());
                        }
                        assert(valid_sign(sgn@));
                        lemma_new_node_preserves(arena@, sgn@, c0);
                    }
                    let ghost av_tns = arena@;
                    let nid = arena.node(sgn, c0);
                    curr_node = Some(nid);
                    proof {
                        let st_out = (BState {
                            av: arena@,
                            prev_leaf: false,
                            curr: opt_i(curr_node),
                            sign_stack: sign_stack.deep_view(),
                            sign: sign@,
                            node_stack: stack_int(node_stack@),
                        });
                        assert(spec_build_step(st_in, elem@, is_last) matches BStep::Cont(c) && c
                            =~= st_out);
                        assert forall|k: int| 0 <= k < stack_int(node_stack@).len() implies #[trigger] stack_int(
                            node_stack@,
                        )[k] < nid as int by {
                            assert(stack_int(node_stack@)[k] < av_tns.elems.len());
                        }
                        assert(inv_b(st_out));
                    }
                }
            } else if (elen == 1 && (c0 == '-' || c0 == '~')) || (elen == 2 && ((c0 == '-' && c1
                == '~') || (c0 == '~' && c1 == '-'))) {
                // a sign marker
                proof {
                    if elen == 1 {
                        assert(elem@ =~= seq![c0]);
                    } else {
                        if c0 == '-' {
                            assert(elem@ =~= seq!['-', '~']);
                        } else {
                            assert(elem@ =~= seq!['~', '-']);
                        }
                    }
                    assert(tk matches TokK::Sign(s) && s == elem@);
                }
                let mut sign2 = sign;
                sign2.append(elem.as_str());
                let s2 = sign2.as_str();
                let s2len = s2.unicode_len();
                let valid = if s2len == 0 {
                    true
                } else if s2len == 1 {
                    let a = s2.get_char(0);
                    a == '-' || a == '~'
                } else if s2len == 2 {
                    let a = s2.get_char(0);
                    let b = s2.get_char(1);
                    (a == '-' && b == '~') || (a == '~' && b == '-')
                } else {
                    false
                };
                proof {
                    if s2len == 0 {
                        assert(sign2@ =~= Seq::<char>::empty());
                    } else if s2len == 1 && (s2@[0] == '-' || s2@[0] == '~') {
                        if s2@[0] == '-' {
                            assert(sign2@ =~= seq!['-']);
                        } else {
                            assert(sign2@ =~= seq!['~']);
                        }
                    } else if s2len == 2 {
                        if s2@[0] == '-' && s2@[1] == '~' {
                            assert(sign2@ =~= seq!['-', '~']);
                        } else if s2@[0] == '~' && s2@[1] == '-' {
                            assert(sign2@ =~= seq!['~', '-']);
                        }
                    }
                    assert(valid == valid_sign(sign2@));
                }
                if !valid {
                    proof {
                        assert(spec_build_step(st_in, elem@, is_last) is Fail);
                    }
                    return Err(ExprError::RPNSyntaxError());
                }
                sign = sign2;
                proof {
                    let st_out = (BState {
                        av: arena@,
                        prev_leaf: prev_leaf,
                        curr: opt_i(curr_node),
                        sign_stack: sign_stack.deep_view(),
                        sign: sign@,
                        node_stack: stack_int(node_stack@),
                    });
                    assert(spec_build_step(st_in, elem@, is_last) matches BStep::Cont(c) && c
                        =~= st_out);
                    assert(inv_b(st_out));
                }
            } else {
                // a constant or a variable
                let parsed = parse_digits(&elem);
                match parsed {
                    Some(vu) => {
                        proof {
                            assert(!(elem@.len() == 1 && is_op5(elem@[0]))) by {
                                if elem@.len() == 1 {
                                    assert(elem@[0] == c0);
                                }
                            }
                            assert(!(elem@ == seq!['~'] || elem@ == seq!['-'] || elem@ == seq![
                                '-',
                                '~',
                            ] || elem@ == seq!['~', '-']));
                            assert(tk == TokK::Cst(vu));
                        }
                        let cst = compute_sign(vu, sign);
                        sign = String::new();
                        match curr_node {
                            Some(ci) => {
                                proof {
                                    lemma_push_cst_preserves(arena@, ci as int, cst);
                                }
                                let pr = arena.push_cst(ci, cst);
                                proof {
                                    assert(pr is Ok);
                                }
                            },
                            None => {
                                proof {
                                    assert(spec_build_step(st_in, elem@, is_last) is Fail);
                                }
                                return Err(ExprError::RPNSyntaxError());
                            },
                        }
                        // settle after two adjacent operands
                        if prev_leaf {
                            proof {
                                lemma_stack_bridge(
                                    (BState {
                                        av: arena@,
                                        prev_leaf: prev_leaf,
                                        curr: opt_i(curr_node),
                                        sign_stack: sign_stack.deep_view(),
                                        sign: sign@,
                                        node_stack: stack_int(node_stack@),
                                    }),
                                    node_stack@,
                                    curr_node,
                                );
                            }
                            take_node_stack(arena, &mut curr_node, &mut node_stack);
                            let ghost sk_mid = stack_int(node_stack@);
                            curr_node = node_stack.pop_back();
                            proof {
                                if curr_node is Some {
                                    assert(stack_int(node_stack@) =~= sk_mid.drop_last());
                                }
                            }
                        }
                        prev_leaf = true;
                        proof {
                            let st_out = (BState {
                                av: arena@,
                                prev_leaf: prev_leaf,
                                curr: opt_i(curr_node),
                                sign_stack: sign_stack.deep_view(),
                                sign: sign@,
                                node_stack: stack_int(node_stack@),
                            });
                            assert(spec_build_step(st_in, elem@, is_last) matches BStep::Cont(c)
                                && c =~= st_out);
                            assert(inv_b(st_out));
                        }
                    },
                    None => {
                        if elen == 1 {
                            proof {
                                assert(elem@ =~= seq![c0]);
                                assert(tk == TokK::Var(c0));
                            }
                            let val = VarTerm { val: c0, sign: sign };
                            sign = String::new();
                            proof {
                                lemma_new_leaf_preserves(arena@, c0, val.sign@);
                            }
                            let id_l = arena.leaf(val);
                            match curr_node {
                                Some(ci) => {
                                    let mut one: Vec<usize> = Vec::new();
                                    one.push(id_l);
                                    proof {
                                        assert(one@.map_values(|x: usize| x as int) =~= seq![
                                            id_l as int,
                                        ]);
                                        assert(wf_elem(arena@, ci as int));
                                        lemma_push_ch_preserves(
                                            arena@,
                                            ci as int,
                                            seq![id_l as int],
                                        );
                                    }
                                    let pr = arena.push_ch(ci, &one);
                                    proof {
                                        assert(pr is Ok);
                                    }
                                },
                                None => {
                                    if is_last {
                                        proof {
                                            assert(spec_build_step(st_in, elem@, is_last)
                                                matches BStep::Done(av, r2) && av == arena@ && r2
                                                == id_l as int);
                                        }
                                        return Ok(id_l);
                                    }
                                    proof {
                                        assert(spec_build_step(st_in, elem@, is_last) is Fail);
                                    }
                                    return Err(ExprError::RPNSyntaxError());
                                },
                            }
                            if prev_leaf {
                                proof {
                                    lemma_stack_bridge(
                                        (BState {
                                            av: arena@,
                                            prev_leaf: prev_leaf,
                                            curr: opt_i(curr_node),
                                            sign_stack: sign_stack.deep_view(),
                                            sign: sign@,
                                            node_stack: stack_int(node_stack@),
                                        }),
                                        node_stack@,
                                        curr_node,
                                    );
                                }
                                take_node_stack(arena, &mut curr_node, &mut node_stack);
                                curr_node = node_stack.pop_back();
                            }
                            prev_leaf = true;
                            proof {
                                let st_out = (BState {
                                    av: arena@,
                                    prev_leaf: prev_leaf,
                                    curr: opt_i(curr_node),
                                    sign_stack: sign_stack.deep_view(),
                                    sign: sign@,
                                    node_stack: stack_int(node_stack@),
                                });
                                assert(spec_build_step(st_in, elem@, is_last) matches BStep::Cont(
                                    c,
                                ) && c =~= st_out);
                                assert(inv_b(st_out));
                            }
                        } else {
                            proof {
                                assert(tk is Bad);
                                assert(spec_build_step(st_in, elem@, is_last) is Fail);
                            }
                            return Err(ExprError::RPNSyntaxError());
                        }
                    },
                }
            }
        }

        let ghost st_end = (BState {
            av: arena@,
            prev_leaf: prev_leaf,
            curr: opt_i(curr_node),
            sign_stack: sign_stack.deep_view(),
            sign: sign@,
            node_stack: stack_int(node_stack@),
        });
        proof {
            assert(rpn@.len() == 0);
            assert(spec_build_run(st_end, toks, 0) == spec_build_run(
                b_init(),
                toks,
                toks.len() as int,
            ));
        }
        match curr_node {
            Some(ci) => {
                return Ok(ci);
            },
            None => {},
        }
        let ghost sk_end = stack_int(node_stack@);
        match node_stack.pop_back() {
            Some(b) => {
                proof {
                    assert(sk_end.last() == b as int);
                }
                Ok(b)
            },
            None => Err(ExprError::RPNSyntaxError()),
        }
    }
}

} // verus!

verus! {

// ---------------------------------------------------------------------------
// Pre-order traversal and the canonical serialization
// ---------------------------------------------------------------------------
/// The indices a pre-order walk visits from `i`, children last-stored
/// first; leaves are skipped when `only_node` holds.
pub open spec fn spec_preorder(av: ArenaV, i: int, only_node: bool) -> Seq<int>
    decreases av.elems.len() - i, 1int, 0int,
{
    if !(0 <= i < av.elems.len()) {
        Seq::empty()
    } else {
        match av.elems[i] {
            ElemV::Leaf(_) => if only_node {
                Seq::empty()
            } else {
                seq![i]
            },
            ElemV::Node(n) => seq![i] + spec_preorder_ch(av, n.ch, n.ch.len() as int, i, only_node),
            ElemV::Free => Seq::empty(),
        }
    }
}

pub open spec fn spec_preorder_ch(
    av: ArenaV,
    ch: Seq<int>,
    k: int,
    parent: int,
    only_node: bool,
) -> Seq<int>
    decreases av.elems.len() - parent, 0int, k,
{
    if k <= 0 || parent < 0 {
        Seq::empty()
    } else {
        (if parent < ch[k - 1] < av.elems.len() {
            spec_preorder(av, ch[k - 1], only_node)
        } else {
            Seq::empty()
        }) + spec_preorder_ch(av, ch, k - 1, parent, only_node)
    }
}

/// The opening text of a node: its sign and parenthesis when decorated,
/// its operator, then its folded constant.
pub open spec fn spec_pref(n: NodeV) -> Seq<char> {
    (if n.sign.len() > 0 {
        n.sign + seq!['('] + seq![n.op]
    } else {
        seq![n.op]
    }) + (match n.cst {
        Some(c) => crate::strutil::spec_u32_str(c),
        None => Seq::<char>::empty(),
    })
}

/// The closing text of a node.
pub open spec fn spec_suff(n: NodeV) -> Seq<char> {
    (if n.sign.len() > 0 {
        seq![')']
    } else {
        Seq::<char>::empty()
    }) + seq!['/']
}

impl Node {
    /// The opening and closing text of this node.
    fn pref_suff(&self) -> (r: (String, String))
        ensures
            r.0@ == spec_pref(self@),
            r.1@ == spec_suff(self@),
    {
        let mut p_str: String;
        let closed_par = self.sign.as_str().unicode_len() > 0;
        if closed_par {
            p_str = self.sign.clone();
            p_str.append("(");
            push_char(&mut p_str, self.expr.op());
        } else {
            p_str = char_str(self.expr.op());
        }
        match self.cst {
            Some(c) => {
                let cs = u32_str(c);
                p_str.append(cs.as_str());
            },
            None => {},
        }
        let mut s_str = String::new();
        if closed_par {
            push_char(&mut s_str, ')');
        }
        push_char(&mut s_str, '/');
        proof {
            reveal_strlit("(");
            assert(p_str@ =~= spec_pref(self@));
            assert(s_str@ =~= spec_suff(self@));
        }
        (p_str, s_str)
    }
}

impl Arena {
    /// The indices of a pre-order walk from `idx`; leaves are skipped when
    /// `only_node` holds.
    #[verifier::loop_isolation(false)]
    pub fn get_preorder(&self, idx: usize, only_node: bool) -> (r: Vec<usize>)
        requires
            wf_arena(self@),
            idx < self@.elems.len(),
        ensures
            r@.map_values(|x: usize| x as int) == spec_preorder(self@, idx as int, only_node),
        decreases self@.elems.len() - idx,
    {
        let mut r: Vec<usize> = Vec::new();
        match self.get(idx) {
            Elem::Leaf(_) => {
                if !only_node {
                    r.push(idx);
                    proof {
                        assert(r@.map_values(|x: usize| x as int) =~= seq![idx as int]);
                    }
                } else {
                    proof {
                        assert(r@.map_values(|x: usize| x as int) =~= Seq::<int>::empty());
                    }
                }
            },
            Elem::Node(n) => {
                r.push(idx);
                let ch = n.ch();
                let ghost chi = ch@.map_values(|x: usize| x as int);
                let ghost n0 = self@.elems[idx as int]->Node_0;
                proof {
                    assert(chi == n0.ch);
                    assert(wf_elem(self@, idx as int));
                    assert(r@.map_values(|x: usize| x as int) =~= seq![idx as int]);
                }
                let mut k: usize = ch.len();
                while k > 0
                    invariant
                        k <= ch@.len(),
                        r@.map_values(|x: usize| x as int) + spec_preorder_ch(
                            self@,
                            n0.ch,
                            k as int,
                            idx as int,
                            only_node,
                        ) == seq![idx as int] + spec_preorder_ch(
                            self@,
                            n0.ch,
                            n0.ch.len() as int,
                            idx as int,
                            only_node,
                        ),
                    decreases k,
                {
                    let c = ch[k - 1];
                    proof {
                        assert(chi[k - 1] == c as int);
                        assert((idx as int) < c as int && (c as int) < self@.elems.len());
                    }
                    let mut sub = self.get_preorder(c, only_node);
                    let ghost pre = r@.map_values(|x: usize| x as int);
                    let ghost subi = sub@.map_values(|x: usize| x as int);
                    r.append(&mut sub);
                    proof {
                        assert(r@.map_values(|x: usize| x as int) =~= pre + subi);
                    }
                    k = k - 1;
                }
                proof {
                    assert(spec_preorder_ch(self@, n0.ch, 0, idx as int, only_node)
                        =~= Seq::<int>::empty());
                    assert(r@.map_values(|x: usize| x as int) =~= seq![idx as int]
                        + spec_preorder_ch(
                        self@,
                        n0.ch,
                        n0.ch.len() as int,
                        idx as int,
                        only_node,
                    ));
                }
            },
            Elem::Free => {
                proof {
                    assert(r@.map_values(|x: usize| x as int) =~= Seq::<int>::empty());
                }
            },
        }
        r
    }

}


} // verus!

verus! {

// ---------------------------------------------------------------------------
// The .dot form of the arena
// ---------------------------------------------------------------------------
/// The label line of a node, with a pseudo-node for its folded constant.
pub open spec fn spec_node_label(n: NodeV) -> Seq<char> {
    crate::strutil::spec_nat_str(n.idx as nat) + " [label=<"@ + n.sign + seq![n.op] + ">]\n"@ + (
    match n.cst {
        Some(c) => seq!['"'] + crate::strutil::spec_nat_str(n.idx as nat) + "c\" [label=<"@
            + spec_u32_str(c) + ">]\n"@,
        None => Seq::<char>::empty(),
    })
}

/// The label line of a leaf.
pub open spec fn spec_leaf_label(l: LeafV) -> Seq<char> {
    crate::strutil::spec_nat_str(l.idx as nat) + " [label=<"@ + l.sign + seq!['\''] + seq![l.var]
        + seq!['\''] + ">]\n"@
}

/// One parent-to-child edge line.
pub open spec fn spec_edge(i: int, c: int) -> Seq<char> {
    crate::strutil::spec_nat_str(i as nat) + " -> "@ + crate::strutil::spec_nat_str(c as nat)
        + "\n"@
}

pub open spec fn spec_edge_list(i: int, ch: Seq<int>, k: int) -> Seq<char>
    decreases k,
{
    if k <= 0 {
        Seq::empty()
    } else {
        spec_edge_list(i, ch, k - 1) + spec_edge(i, ch[k - 1])
    }
}

/// The edge lines of a node, with the arrow to its constant pseudo-node.
pub open spec fn spec_node_edges(n: NodeV) -> Seq<char> {
    spec_edge_list(n.idx, n.ch, n.ch.len() as int) + (match n.cst {
        Some(_) => crate::strutil::spec_nat_str(n.idx as nat) + " -> \""@
            + crate::strutil::spec_nat_str(n.idx as nat) + "c\"\n"@,
        None => Seq::<char>::empty(),
    })
}

pub open spec fn spec_labels(av: ArenaV, k: int) -> Seq<char>
    decreases k,
{
    if k <= 0 {
        Seq::empty()
    } else {
        spec_labels(av, k - 1) + (match av.elems[k - 1] {
            ElemV::Node(n) => spec_node_label(n),
            ElemV::Leaf(l) => spec_leaf_label(l),
            ElemV::Free => Seq::<char>::empty(),
        })
    }
}

pub open spec fn spec_all_edges(av: ArenaV, k: int) -> Seq<char>
    decreases k,
{
    if k <= 0 {
        Seq::empty()
    } else {
        spec_all_edges(av, k - 1) + (match av.elems[k - 1] {
            ElemV::Node(n) => spec_node_edges(n),
            _ => Seq::<char>::empty(),
        })
    }
}

/// The whole graph text: one label line per slot, then one edge line per
/// parent-child pair. Freed slots contribute nothing.
pub open spec fn spec_graph_str(av: ArenaV) -> Seq<char> {
    "digraph {\n"@ + spec_labels(av, av.elems.len() as int) + spec_all_edges(
        av,
        av.elems.len() as int,
    ) + "}"@
}

impl Node {
    /// The label line of this node.
    fn graph_label_str(&self) -> (s: String)
        ensures
            s@ == spec_node_label(self@),
    {
        let mut s = crate::strutil::usize_str(self.idx);
        s.append(" [label=<");
        s.append(self.sign.as_str());
        push_char(&mut s, self.expr.op());
        s.append(">]\n");
        match self.cst {
            Some(c) => {
                push_char(&mut s, '"');
                let i2 = crate::strutil::usize_str(self.idx);
                s.append(i2.as_str());
                s.append("c\" [label=<");
                let cs = u32_str(c);
                s.append(cs.as_str());
                s.append(">]\n");
            },
            None => {},
        }
        proof {
            assert(s@ =~= spec_node_label(self@));
        }
        s
    }

    /// The edge lines of this node.
    #[verifier::loop_isolation(false)]
    fn graph_edge_str(&self) -> (s: String)
        ensures
            s@ == spec_node_edges(self@),
    {
        let ch = self.expr.ch();
        let ghost chi = ch@.map_values(|x: usize| x as int);
        let mut s = String::new();
        let mut k: usize = 0;
        while k < ch.len()
            invariant
                k <= ch@.len(),
                s@ == spec_edge_list(self@.idx, chi, k as int),
            decreases ch@.len() - k,
        {
            let i1 = crate::strutil::usize_str(self.idx);
            s.append(i1.as_str());
            s.append(" -> ");
            let c2 = crate::strutil::usize_str(ch[k]);
            s.append(c2.as_str());
            s.append("\n");
            proof {
                assert(chi[k as int] == ch@[k as int] as int);
                assert(s@ =~= spec_edge_list(self@.idx, chi, k as int + 1));
            }
            k = k + 1;
        }
        match self.cst {
            Some(_) => {
                let i1 = crate::strutil::usize_str(self.idx);
                s.append(i1.as_str());
                s.append(" -> \"");
                let i2 = crate::strutil::usize_str(self.idx);
                s.append(i2.as_str());
                s.append("c\"\n");
            },
            None => {},
        }
        proof {
            assert(s@ =~= spec_node_edges(self@));
        }
        s
    }
}

impl Leaf {
    /// The label line of this leaf.
    fn graph_label_str(&self) -> (s: String)
        ensures
            s@ == spec_leaf_label(self@),
    {
        let mut s = crate::strutil::usize_str(self.idx);
        s.append(" [label=<");
        s.append(self.val.sign.as_str());
        push_char(&mut s, '\'');
        push_char(&mut s, self.val.val);
        push_char(&mut s, '\'');
        s.append(">]\n");
        proof {
            assert(s@ =~= spec_leaf_label(self@));
        }
        s
    }
}

impl Arena {
    /// The .dot text of the arena: a `digraph` with one label line per
    /// slot and one edge line per parent-child pair.
    #[verifier::loop_isolation(false)]
    pub fn graph_str(&self) -> (s: String)
        ensures
            s@ == spec_graph_str(self@),
    {
        let mut s = String::from_str("digraph {\n");
        let n = self.elems.len();
        let mut k: usize = 0;
        while k < n
            invariant
                k <= n,
                n == self@.elems.len(),
                s@ == "digraph {\n"@ + spec_labels(self@, k as int),
            decreases n - k,
        {
            match self.get(k) {
                Elem::Node(nd) => {
                    let l = nd.graph_label_str();
                    s.append(l.as_str());
                },
                Elem::Leaf(l) => {
                    let ls = l.graph_label_str();
                    s.append(ls.as_str());
                },
                Elem::Free => {},
            }
            proof {
                assert(s@ =~= "digraph {\n"@ + spec_labels(self@, k as int + 1));
            }
            k = k + 1;
        }
        let mut k2: usize = 0;
        while k2 < n
            invariant
                k2 <= n,
                n == self@.elems.len(),
                s@ == "digraph {\n"@ + spec_labels(self@, n as int) + spec_all_edges(
                    self@,
                    k2 as int,
                ),
            decreases n - k2,
        {
            match self.get(k2) {
                Elem::Node(nd) => {
                    let e = nd.graph_edge_str();
                    s.append(e.as_str());
                },
                _ => {},
            }
            proof {
                assert(s@ =~= "digraph {\n"@ + spec_labels(self@, n as int) + spec_all_edges(
                    self@,
                    k2 as int + 1,
                ));
            }
            k2 = k2 + 1;
        }
        s.append("}");
        proof {
            assert(s@ =~= spec_graph_str(self@));
        }
        s
    }
}

} // verus!

verus! {

// ---------------------------------------------------------------------------
// Laws of the builder and of the classification
// ---------------------------------------------------------------------------
/// Law: the canonical serialization is deterministic and stable across
/// rebuilds. Two builds of the same RPN stream yield the same slots, the
/// same root, and the same serialization.
pub proof fn lemma_rebuild_stable(
    toks: Seq<Seq<char>>,
    av1: ArenaV,
    r1: int,
    av2: ArenaV,
    r2: int,
)
    requires
        spec_new_arena(toks) == Ok::<(ArenaV, int), BErr>((av1, r1)),
        spec_new_arena(toks) == Ok::<(ArenaV, int), BErr>((av2, r2)),
    ensures
        av1 == av2,
        r1 == r2,
        spec_elem_str(av1, r1) == spec_elem_str(av2, r2),
{
}

/// Law: every node's children are distinct arena indices, each pointing at
/// a non-free slot whose parent link names that node.
pub proof fn lemma_children_wellformed(av: ArenaV, i: int)
    requires
        wf_arena(av),
        0 <= i < av.elems.len(),
        av.elems[i] is Node,
    ensures
        forall|k: int|
            0 <= k < av.elems[i]->Node_0.ch.len() ==> 0 <= #[trigger] av.elems[i]->Node_0.ch[k]
                < av.elems.len(),
        forall|k: int|
            0 <= k < av.elems[i]->Node_0.ch.len() ==> !(av.elems[#[trigger] av.elems[
                i
            ]->Node_0.ch[k]] is Free),
        forall|k: int|
            0 <= k < av.elems[i]->Node_0.ch.len() ==> elem_par(
                av.elems[#[trigger] av.elems[i]->Node_0.ch[k]],
            ) == Some(i),
        forall|k1: int, k2: int|
            0 <= k1 < k2 < av.elems[i]->Node_0.ch.len() ==> #[trigger] av.elems[i]->Node_0.ch[k1]
                != #[trigger] av.elems[i]->Node_0.ch[k2],
{
    assert(wf_elem(av, i));
}

/// Law: an element is listed as a child by at most one node, and there
/// at most once: any two listings of the same index coincide. With the
/// parent link named by `lemma_children_wellformed`, a listed element
/// belongs to exactly one parent's child list.
pub proof fn lemma_child_single_parent(av: ArenaV, i1: int, k1: int, i2: int, k2: int)
    requires
        wf_arena(av),
        0 <= i1 < av.elems.len(),
        0 <= i2 < av.elems.len(),
        av.elems[i1] is Node,
        av.elems[i2] is Node,
        0 <= k1 < av.elems[i1]->Node_0.ch.len(),
        0 <= k2 < av.elems[i2]->Node_0.ch.len(),
        av.elems[i1]->Node_0.ch[k1] == av.elems[i2]->Node_0.ch[k2],
    ensures
        i1 == i2,
        k1 == k2,
{
    assert(wf_elem(av, i1));
    assert(wf_elem(av, i2));
    let x = av.elems[i1]->Node_0.ch[k1];
    assert(elem_par(av.elems[x]) == Some(i1));
    assert(elem_par(av.elems[x]) == Some(i2));
    if k1 < k2 {
        assert(av.elems[i1]->Node_0.ch[k1] != av.elems[i1]->Node_0.ch[k2]);
    } else if k2 < k1 {
        assert(av.elems[i1]->Node_0.ch[k2] != av.elems[i1]->Node_0.ch[k1]);
    }
}

/// Law: an extra `+` token arriving while a sum node is open only
/// coalesces: the builder state is unchanged. An n-ary sum and its binary
/// left-fold differ in RPN only by such operators, so they build the same
/// arena and serialize identically.
pub proof fn lemma_fold_assoc(st: BState, is_last: bool)
    requires
        st.prev_leaf == false,
        st.curr matches Some(i) && 0 <= i < st.av.elems.len() && st.av.elems[i] is Node
            && st.av.elems[i]->Node_0.op == '+',
        st.sign.len() == 0,
    ensures
        spec_build_step(st, seq!['+'], is_last) == BStep::Cont(st),
{
    assert(classify_tok(seq!['+']) == TokK::Op('+'));
    assert((BState { prev_leaf: false, ..st }) =~~= st);
}

/// The builder state after consuming the tokens from position `i - 1`
/// down to position `j`, where no step ends or fails the run.
pub open spec fn spec_build_to(st: BState, toks: Seq<Seq<char>>, i: int, j: int) -> Option<BState>
    decreases i - j,
{
    if i <= j {
        Some(st)
    } else {
        match spec_build_step(st, toks[i - 1], i == 1) {
            BStep::Cont(st2) => spec_build_to(st2, toks, i - 1, j),
            _ => None,
        }
    }
}

/// A partial run composes across an intermediate point.
pub proof fn lemma_build_to_trans(st: BState, toks: Seq<Seq<char>>, i: int, j: int, j2: int)
    requires
        j2 <= j <= i,
        spec_build_to(st, toks, i, j) is Some,
    ensures
        spec_build_to(st, toks, i, j2) == spec_build_to(
            spec_build_to(st, toks, i, j)->Some_0,
            toks,
            j,
            j2,
        ),
    decreases i - j,
{
    if i > j {
        match spec_build_step(st, toks[i - 1], i == 1) {
            BStep::Cont(st2) => {
                lemma_build_to_trans(st2, toks, i - 1, j, j2);
            },
            _ => {},
        }
    }
}

/// A run splits at any point it passes through.
pub proof fn lemma_build_split(st: BState, toks: Seq<Seq<char>>, i: int, j: int)
    requires
        0 <= j <= i,
        spec_build_to(st, toks, i, j) is Some,
    ensures
        spec_build_run(st, toks, i) == spec_build_run(spec_build_to(st, toks, i, j)->Some_0, toks, j),
    decreases i - j,
{
    if i > j {
        match spec_build_step(st, toks[i - 1], i == 1) {
            BStep::Cont(st2) => {
                lemma_build_split(st2, toks, i - 1, j);
            },
            _ => {},
        }
    }
}

/// A run over the first `j` tokens reads nothing above them.
pub proof fn lemma_run_same_low(st: BState, t1: Seq<Seq<char>>, t2: Seq<Seq<char>>, j: int)
    requires
        forall|k: int| 0 <= k < j ==> t1[k] == t2[k],
    ensures
        spec_build_run(st, t1, j) == spec_build_run(st, t2, j),
    decreases j,
{
    if j > 0 {
        match spec_build_step(st, t1[j - 1], j == 1) {
            BStep::Cont(st2) => {
                lemma_run_same_low(st2, t1, t2, j - 1);
            },
            _ => {},
        }
    }
}

/// Above an inserted token the two runs take the same steps, one
/// position apart.
pub proof fn lemma_build_to_shift(
    st: BState,
    t1: Seq<Seq<char>>,
    t2: Seq<Seq<char>>,
    m: int,
    i: int,
)
    requires
        t2 == t1.take(m) + seq![seq!['+']] + t1.skip(m),
        1 <= m <= i <= t1.len(),
    ensures
        spec_build_to(st, t2, i + 1, m + 1) == spec_build_to(st, t1, i, m),
    decreases i - m,
{
    if i > m {
        assert(t2[i] == t1[i - 1]);
        match spec_build_step(st, t1[i - 1], false) {
            BStep::Cont(st2) => {
                lemma_build_to_shift(st2, t1, t2, m, i - 1);
            },
            _ => {},
        }
    }
}

/// Law: folding is associative-equivalent, stream-wide. Where the build
/// of an RPN stream passes through a state holding an open sum with no
/// pending sign and no just-settled leaf, the same stream with one more
/// `+` token inserted at that point builds the very same arena and
/// root, and so serializes identically. An n-ary sum and the RPN of its
/// binary left-fold differ exactly by such tokens, each arriving while
/// the sum it belongs to is the open node.
pub proof fn lemma_fold_assoc_stream(toks: Seq<Seq<char>>, m: int, st: BState)
    requires
        1 <= m <= toks.len(),
        spec_build_to(b_init(), toks, toks.len() as int, m) == Some(st),
        st.prev_leaf == false,
        st.curr matches Some(i) && 0 <= i < st.av.elems.len() && st.av.elems[i] is Node
            && st.av.elems[i]->Node_0.op == '+',
        st.sign.len() == 0,
    ensures
        spec_new_arena(toks.take(m) + seq![seq!['+']] + toks.skip(m)) == spec_new_arena(toks),
{
    let t2 = toks.take(m) + seq![seq!['+']] + toks.skip(m);
    assert(t2.len() == toks.len() + 1);
    // above the insertion both runs take the same steps, one apart
    lemma_build_to_shift(b_init(), toks, t2, m, toks.len() as int);
    assert(spec_build_to(b_init(), t2, t2.len() as int, m + 1) == Some(st));
    // the inserted token meets the open sum and only coalesces
    assert(t2[m] == seq!['+']);
    lemma_fold_assoc(st, m + 1 == 1);
    assert(spec_build_step(st, t2[m], m + 1 == 1) == BStep::Cont(st));
    assert(spec_build_to(st, t2, m, m) == Some(st));
    assert(spec_build_to(st, t2, m + 1, m) == Some(st));
    lemma_build_to_trans(b_init(), t2, t2.len() as int, m + 1, m);
    assert(spec_build_to(b_init(), t2, t2.len() as int, m) == Some(st));
    // split both runs there; below it they read the same tokens
    lemma_build_split(b_init(), t2, t2.len() as int, m);
    lemma_build_split(b_init(), toks, toks.len() as int, m);
    assert forall|k: int| 0 <= k < m implies toks[k] == t2[k] by {
        assert(t2[k] == toks.take(m)[k]);
    }
    lemma_run_same_low(st, toks, t2, m);
}

/// Law: a bitwise element heads a subtree in which no node carries a
/// folded constant, and every leaf is a variable.
pub proof fn lemma_bitwise_subtree(av: ArenaV, i: int)
    requires
        wf_arena(av),
        tags_ok(av),
        0 <= i < av.elems.len(),
        spec_child_bw(av, i),
    ensures
        forall|k: int|
            0 <= k < spec_preorder(av, i, false).len() ==> (av.elems[#[trigger] spec_preorder(
                av,
                i,
                false,
            )[k]] matches ElemV::Node(n) ==> n.cst is None),
    decreases av.elems.len() - i, 1int, 0int,
{
    match av.elems[i] {
        ElemV::Leaf(_) => {},
        ElemV::Node(n) => {
            assert(tag_ok(av, i));
            assert(n.tag is Bitwise && n.cst is None);
            assert(spec_is_bitwise(av, n.op, n.ch));
            assert(wf_elem(av, i));
            lemma_bitwise_subtree_ch(av, n.ch, n.ch.len() as int, i);
            let po = spec_preorder(av, i, false);
            assert forall|k: int|
                0 <= k < po.len() implies (av.elems[#[trigger] po[k]] matches ElemV::Node(n2)
                ==> n2.cst is None) by {
                if k == 0 {
                    assert(po[0] == i);
                } else {
                    let rest = spec_preorder_ch(av, n.ch, n.ch.len() as int, i, false);
                    assert(po[k] == rest[k - 1]);
                }
            }
        },
        ElemV::Free => {},
    }
}

proof fn lemma_bitwise_subtree_ch(av: ArenaV, ch: Seq<int>, k: int, parent: int)
    requires
        wf_arena(av),
        tags_ok(av),
        0 <= parent < av.elems.len(),
        k <= ch.len(),
        forall|q: int| 0 <= q < ch.len() ==> spec_child_bw(av, #[trigger] ch[q]),
        forall|q: int| 0 <= q < ch.len() ==> parent < #[trigger] ch[q] < av.elems.len(),
    ensures
        forall|w: int|
            0 <= w < spec_preorder_ch(av, ch, k, parent, false).len() ==> (av.elems[#[trigger] spec_preorder_ch(
                av,
                ch,
                k,
                parent,
                false,
            )[w]] matches ElemV::Node(n2) ==> n2.cst is None),
    decreases av.elems.len() - parent, 0int, k,
{
    if k <= 0 || parent < 0 {
    } else {
        lemma_bitwise_subtree_ch(av, ch, k - 1, parent);
        if parent < ch[k - 1] < av.elems.len() {
            lemma_bitwise_subtree(av, ch[k - 1]);
            let head = spec_preorder(av, ch[k - 1], false);
            let tail = spec_preorder_ch(av, ch, k - 1, parent, false);
            assert forall|w: int|
                0 <= w < spec_preorder_ch(av, ch, k, parent, false).len() implies (av.elems[#[trigger] spec_preorder_ch(
                av,
                ch,
                k,
                parent,
                false,
            )[w]] matches ElemV::Node(n2) ==> n2.cst is None) by {
                if w < head.len() {
                    assert(spec_preorder_ch(av, ch, k, parent, false)[w] == head[w]);
                } else {
                    assert(spec_preorder_ch(av, ch, k, parent, false)[w] == tail[w - head.len()]);
                }
            }
        }
    }
}

} // verus!

verus! {

// ---------------------------------------------------------------------------
// The canonical serialization
// ---------------------------------------------------------------------------
// A node contributes its opening text when first visited; closing texts
// are parked on a stack. Moving on to a sibling flushes the stack newest
// first; what remains at the very end is emitted oldest first. The
// serialization is this trunk text followed by that final drain.
/// Joins parked closings newest first, as a sibling flush does.
pub open spec fn rjoin(p: Seq<Seq<char>>, m: int) -> Seq<char>
    decreases m,
{
    if m <= 0 {
        Seq::empty()
    } else {
        p[m - 1] + rjoin(p, m - 1)
    }
}

/// Joins parked closings oldest first, as the final drain does.
pub open spec fn fjoin(p: Seq<Seq<char>>, m: int) -> Seq<char>
    decreases m,
{
    if m <= 0 {
        Seq::empty()
    } else {
        fjoin(p, m - 1) + p[m - 1]
    }
}

/// The trunk text and parked closings of the element at `i`.
pub open spec fn spec_estr(av: ArenaV, i: int) -> (Seq<char>, Seq<Seq<char>>)
    decreases av.elems.len() - i, 1int, 0int,
{
    if !(0 <= i < av.elems.len()) {
        (Seq::empty(), Seq::empty())
    } else {
        match av.elems[i] {
            ElemV::Leaf(l) => (l.sign + seq![l.var], Seq::empty()),
            ElemV::Node(n) => {
                let chp = spec_estr_ch(av, n.ch, n.ch.len() as int, i);
                (spec_pref(n) + chp.0, seq![spec_suff(n)] + chp.1)
            },
            ElemV::Free => (Seq::empty(), Seq::empty()),
        }
    }
}

/// The children's contribution, processed last-stored first; the child
/// emitted last keeps its closings parked, the others are flushed.
pub open spec fn spec_estr_ch(av: ArenaV, ch: Seq<int>, k: int, parent: int) -> (
    Seq<char>,
    Seq<Seq<char>>,
)
    decreases av.elems.len() - parent, 0int, k,
{
    if k <= 0 || parent < 0 {
        (Seq::empty(), Seq::empty())
    } else if k == 1 {
        if parent < ch[0] < av.elems.len() {
            spec_estr(av, ch[0])
        } else {
            (Seq::empty(), Seq::empty())
        }
    } else {
        let rest = spec_estr_ch(av, ch, k - 1, parent);
        if parent < ch[k - 1] < av.elems.len() {
            let f = spec_estr(av, ch[k - 1]);
            (f.0 + rjoin(f.1, f.1.len() as int) + rest.0, rest.1)
        } else {
            rest
        }
    }
}

/// The canonical serialization of the element at `i`.
pub open spec fn spec_elem_str(av: ArenaV, i: int) -> Seq<char> {
    let tp = spec_estr(av, i);
    tp.0 + fjoin(tp.1, tp.1.len() as int)
}

impl Arena {
    /// The trunk text and parked closings of the element at `idx`.
    #[verifier::loop_isolation(false)]
    fn elem_parts(&self, idx: usize) -> (r: (String, Vec<String>))
        requires
            wf_arena(self@),
            idx < self@.elems.len(),
        ensures
            r.0@ == spec_estr(self@, idx as int).0,
            r.1.deep_view() == spec_estr(self@, idx as int).1,
        decreases self@.elems.len() - idx,
    {
        match self.get(idx) {
            Elem::Leaf(l) => {
                let mut s = l.val.sign.clone();
                push_char(&mut s, l.val.val);
                let p: Vec<String> = Vec::new();
                proof {
                    assert(s@ =~= spec_estr(self@, idx as int).0);
                    assert(p.deep_view() =~= spec_estr(self@, idx as int).1);
                }
                (s, p)
            },
            Elem::Node(n) => {
                let ps = n.pref_suff();
                let mut trunk = ps.0;
                let ch = n.ch();
                let ghost chi = ch@.map_values(|x: usize| x as int);
                let ghost n0 = self@.elems[idx as int]->Node_0;
                proof {
                    assert(chi == n0.ch);
                    assert(wf_elem(self@, idx as int));
                }
                let mut pending: Vec<String> = Vec::new();
                if ch.len() == 0 {
                    pending.push(ps.1);
                    proof {
                        assert(spec_estr_ch(self@, n0.ch, 0, idx as int).0 =~= Seq::<char>::empty());
                        assert(trunk@ =~= spec_estr(self@, idx as int).0);
                        assert(pending.deep_view() =~= spec_estr(self@, idx as int).1);
                    }
                    return (trunk, pending);
                }
                let mut k: usize = ch.len();
                while k > 1
                    invariant
                        1 <= k <= ch@.len(),
                        trunk@ + spec_estr_ch(self@, n0.ch, k as int, idx as int).0 == spec_pref(
                            n0,
                        ) + spec_estr_ch(self@, n0.ch, n0.ch.len() as int, idx as int).0,
                        spec_estr_ch(self@, n0.ch, k as int, idx as int).1 == spec_estr_ch(
                            self@,
                            n0.ch,
                            n0.ch.len() as int,
                            idx as int,
                        ).1,
                    decreases k,
                {
                    let c = ch[k - 1];
                    proof {
                        assert(chi[k - 1] == c as int);
                        assert((idx as int) < c as int && (c as int) < self@.elems.len());
                    }
                    let sub = self.elem_parts(c);
                    let mut t = sub.0;
                    let subp = sub.1;
                    let ghost spv = spec_estr(self@, c as int).1;
                    // flush the parked closings newest first
                    let mut m: usize = subp.len();
                    while m > 0
                        invariant
                            m <= subp@.len(),
                            subp.deep_view() == spv,
                            t@ + rjoin(spv, m as int) == spec_estr(self@, c as int).0 + rjoin(
                                spv,
                                spv.len() as int,
                            ),
                        decreases m,
                    {
                        proof {
                            assert(subp.deep_view()[m - 1] == subp@[m - 1]@);
                        }
                        t.append(subp[m - 1].as_str());
                        proof {
                            assert((t@ + rjoin(spv, m as int - 1)) =~= spec_estr(
                                self@,
                                c as int,
                            ).0 + rjoin(spv, spv.len() as int));
                        }
                        m = m - 1;
                    }
                    proof {
                        assert(rjoin(spv, 0) =~= Seq::<char>::empty());
                        assert(t@ =~= spec_estr(self@, c as int).0 + rjoin(
                            spv,
                            spv.len() as int,
                        ));
                    }
                    trunk.append(t.as_str());
                    proof {
                        assert(trunk@ + spec_estr_ch(self@, n0.ch, k as int - 1, idx as int).0
                            =~= spec_pref(n0) + spec_estr_ch(
                            self@,
                            n0.ch,
                            n0.ch.len() as int,
                            idx as int,
                        ).0);
                    }
                    k = k - 1;
                }
                // the last-emitted child keeps its closings parked
                let c0 = ch[0];
                proof {
                    assert(chi[0] == c0 as int);
                    assert((idx as int) < c0 as int && (c0 as int) < self@.elems.len());
                }
                let sub0 = self.elem_parts(c0);
                trunk.append(sub0.0.as_str());
                pending.push(ps.1);
                let subp0 = sub0.1;
                let ghost sp0 = spec_estr(self@, c0 as int).1;
                let mut q: usize = 0;
                while q < subp0.len()
                    invariant
                        q <= subp0@.len(),
                        subp0.deep_view() == sp0,
                        pending.deep_view() == seq![spec_suff(n0)] + sp0.take(q as int),
                    decreases subp0@.len() - q,
                {
                    let ghost pre = pending.deep_view();
                    proof {
                        assert(subp0.deep_view()[q as int] == subp0@[q as int]@);
                    }
                    pending.push(subp0[q].clone());
                    proof {
                        assert(pending.deep_view() =~= pre.push(sp0[q as int]));
                        assert(pending.deep_view() =~= seq![spec_suff(n0)] + sp0.take(
                            q as int + 1,
                        ));
                    }
                    q = q + 1;
                }
                proof {
                    assert(sp0.take(sp0.len() as int) =~= sp0);
                    assert(spec_estr_ch(self@, n0.ch, 1, idx as int) == spec_estr(
                        self@,
                        c0 as int,
                    ));
                    assert(trunk@ =~= spec_estr(self@, idx as int).0);
                    assert(pending.deep_view() =~= spec_estr(self@, idx as int).1);
                }
                (trunk, pending)
            },
            Elem::Free => {
                let s = String::new();
                let p: Vec<String> = Vec::new();
                proof {
                    assert(s@ =~= spec_estr(self@, idx as int).0);
                    assert(p.deep_view() =~= spec_estr(self@, idx as int).1);
                }
                (s, p)
            },
        }
    }

    /// The canonical serialization of the element at `idx`.
    #[verifier::loop_isolation(false)]
    pub fn elem_str(&self, idx: usize) -> (s: String)
        requires
            wf_arena(self@),
            idx < self@.elems.len(),
        ensures
            s@ == spec_elem_str(self@, idx as int),
    {
        let tp = self.elem_parts(idx);
        let mut s = tp.0;
        let pend = tp.1;
        let ghost pv = spec_estr(self@, idx as int).1;
        let mut m: usize = 0;
        while m < pend.len()
            invariant
                m <= pend@.len(),
                pend.deep_view() == pv,
                s@ == spec_estr(self@, idx as int).0 + fjoin(pv, m as int),
            decreases pend@.len() - m,
        {
            proof {
                assert(pend.deep_view()[m as int] == pend@[m as int]@);
            }
            s.append(pend[m].as_str());
            proof {
                assert(s@ =~= spec_estr(self@, idx as int).0 + fjoin(pv, m as int + 1));
            }
            m = m + 1;
        }
        proof {
            assert(s@ =~= spec_elem_str(self@, idx as int));
        }
        s
    }

    /// The canonical serialization of the whole expression.
    pub fn print(&self) -> (s: String)
        requires
            wf_arena(self@),
            0 <= self@.root < self@.elems.len(),
        ensures
            s@ == spec_elem_str(self@, self@.root),
    {
        self.elem_str(self.root_node)
    }
}

} // verus!

verus! {

// ---------------------------------------------------------------------------
// The polish form of a bitwise subtree
// ---------------------------------------------------------------------------
/// Whether the subtree at `i` has a polish form the engine can take: a
/// leaf whose sign is empty or the single complement mark, or a node
/// with a bitwise operator, at least one leaf child to lead the stream,
/// and every child renderable in turn.
pub open spec fn spec_pn_ok(av: ArenaV, i: int) -> bool
    decreases av.elems.len() - i, 1int, 0int,
{
    if 0 <= i < av.elems.len() {
        match av.elems[i] {
            ElemV::Leaf(l) => l.sign == Seq::<char>::empty() || l.sign == seq!['~'],
            ElemV::Node(n) => {
                &&& is_bw_op(n.op)
                &&& exists|k: int| 0 <= k < n.ch.len() && av.elems[#[trigger] n.ch[k]] is Leaf
                &&& spec_pn_ok_ch(av, i, n.ch, 0)
            },
            ElemV::Free => false,
        }
    } else {
        false
    }
}

/// Every child from position `k` on lies past its parent and is
/// renderable itself.
pub open spec fn spec_pn_ok_ch(av: ArenaV, i: int, ch: Seq<int>, k: int) -> bool
    decreases av.elems.len() - i, 0int, ch.len() - k,
{
    if k < 0 || k >= ch.len() {
        true
    } else {
        &&& i < ch[k] < av.elems.len()
        &&& spec_pn_ok(av, ch[k])
        &&& spec_pn_ok_ch(av, i, ch, k + 1)
    }
}

/// The chained form of child renderability, spelt out child by child.
pub proof fn lemma_pn_ok_ch(av: ArenaV, i: int, ch: Seq<int>, k: int)
    requires
        0 <= k <= ch.len(),
    ensures
        spec_pn_ok_ch(av, i, ch, k) == (forall|q: int|
            k <= q < ch.len() ==> (i < #[trigger] ch[q] < av.elems.len() && spec_pn_ok(
                av,
                ch[q],
            ))),
    decreases ch.len() - k,
{
    if k < ch.len() {
        lemma_pn_ok_ch(av, i, ch, k + 1);
    }
}

/// The leaf tokens a node contributes: its variable leaves, the last
/// stored first.
pub open spec fn spec_pn_leaves(av: ArenaV, ch: Seq<int>, k: int) -> Seq<(char, Seq<char>)>
    decreases ch.len() - k,
{
    if k < 0 || k >= ch.len() {
        Seq::empty()
    } else {
        spec_pn_leaves(av, ch, k + 1) + (match av.elems[ch[k]] {
            ElemV::Leaf(l) => seq![(l.var, l.sign)],
            _ => Seq::<(char, Seq<char>)>::empty(),
        })
    }
}

/// How many children from position `k` on are nodes.
pub open spec fn spec_pn_nnodes(av: ArenaV, ch: Seq<int>, k: int) -> int
    decreases ch.len() - k,
{
    if k < 0 || k >= ch.len() {
        0
    } else {
        spec_pn_nnodes(av, ch, k + 1) + (if av.elems[ch[k]] is Node {
            1int
        } else {
            0int
        })
    }
}

/// Whether some child before position `k` is a node.
pub open spec fn spec_pn_node_below(av: ArenaV, ch: Seq<int>, k: int) -> bool {
    exists|q: int| 0 <= q < k && av.elems[#[trigger] ch[q]] is Node
}

/// A close marker follows a nested subexpression exactly when more node
/// children wait at lower positions.
pub proof fn lemma_pn_nnodes_below(av: ArenaV, ch: Seq<int>, k: int)
    requires
        0 <= k <= ch.len(),
    ensures
        spec_pn_nnodes(av, ch, 0) >= spec_pn_nnodes(av, ch, k),
        (spec_pn_nnodes(av, ch, 0) > spec_pn_nnodes(av, ch, k)) == spec_pn_node_below(av, ch, k),
    decreases k,
{
    if k == 0 {
        assert(!spec_pn_node_below(av, ch, 0));
    } else {
        lemma_pn_nnodes_below(av, ch, k - 1);
        assert(spec_pn_nnodes(av, ch, k - 1) == spec_pn_nnodes(av, ch, k) + (
        if av.elems[ch[k - 1]] is Node {
            1int
        } else {
            0int
        }));
        if av.elems[ch[k - 1]] is Node {
            assert(spec_pn_node_below(av, ch, k));
        } else {
            assert(spec_pn_node_below(av, ch, k) == spec_pn_node_below(av, ch, k - 1)) by {
                if spec_pn_node_below(av, ch, k) {
                    let q = choose|q: int| 0 <= q < k && av.elems[#[trigger] ch[q]] is Node;
                    assert(q < k - 1);
                    assert(spec_pn_node_below(av, ch, k - 1));
                }
            }
        }
    }
}

/// The nested subexpressions a node contributes, the last stored first,
/// a close marker after each but the lowest stored.
pub open spec fn spec_pn_nodes(av: ArenaV, i: int, ch: Seq<int>, k: int) -> Seq<(char, Seq<char>)>
    decreases av.elems.len() - i, 0int, ch.len() - k,
{
    if k < 0 || k >= ch.len() {
        Seq::empty()
    } else {
        spec_pn_nodes(av, i, ch, k + 1) + (if av.elems[ch[k]] is Node {
            (if i < ch[k] < av.elems.len() {
                spec_pn(av, ch[k])
            } else {
                Seq::<(char, Seq<char>)>::empty()
            }) + (if spec_pn_node_below(av, ch, k) {
                seq![('!', Seq::<char>::empty())]
            } else {
                Seq::<(char, Seq<char>)>::empty()
            })
        } else {
            Seq::<(char, Seq<char>)>::empty()
        })
    }
}

/// The polish form of the subtree at `i`, in the order the engine
/// consumes it: each operator before its operands, variable leaves
/// before nested subexpressions.
pub open spec fn spec_pn(av: ArenaV, i: int) -> Seq<(char, Seq<char>)>
    decreases av.elems.len() - i, 1int, 0int,
{
    if 0 <= i < av.elems.len() {
        match av.elems[i] {
            ElemV::Leaf(l) => seq![(l.var, l.sign)],
            ElemV::Node(n) => seq![(n.op, Seq::<char>::empty())] + spec_pn_leaves(av, n.ch, 0)
                + spec_pn_nodes(av, i, n.ch, 0),
            ElemV::Free => Seq::empty(),
        }
    } else {
        Seq::empty()
    }
}

impl Arena {
    /// The polish form of a bitwise subtree, oriented for the truth-table
    /// engine, which consumes its input vector from the top: the stream's
    /// first token stands at the highest index. In stream order each
    /// operator comes before its operands, variable leaves first so the
    /// evaluator always holds a value, nested subexpressions after, each
    /// followed by a close marker when another operand comes behind it.
    /// `None` exactly where the subtree has no such form: a leaf carries
    /// an arithmetic sign, an operator is not bitwise, or a node has no
    /// leaf to lead with.
    pub fn pn(&self, idx: usize) -> (r: Option<Vec<(char, String)>>)
        requires
            wf_arena(self@),
            idx < self@.elems.len(),
        ensures
            (r is Some) == spec_pn_ok(self@, idx as int),
            (r matches Some(v) ==> {
                &&& crate::reduce::pn_view(v@) == spec_pn(self@, idx as int).reverse()
                &&& v@.len() > 0
                &&& crate::reduce::tt_signs_ok(crate::reduce::pn_view(v@))
            }),
    {
        let mut tmp: Vec<(char, String)> = Vec::new();
        proof {
            assert(crate::reduce::tt_signs_ok(crate::reduce::pn_view(tmp@)));
        }
        if !self.pn_rec(idx, &mut tmp) {
            return None;
        }
        let ghost fwd = spec_pn(self@, idx as int);
        proof {
            assert(crate::reduce::pn_view(tmp@) =~= fwd);
        }
        // orient for the engine: the first token moves to the top
        let mut out: Vec<(char, String)> = Vec::new();
        while tmp.len() > 0
            invariant
                tmp@.len() <= fwd.len(),
                crate::reduce::pn_view(tmp@) == fwd.take(tmp@.len() as int),
                out@.len() + tmp@.len() == fwd.len(),
                crate::reduce::pn_view(out@) == fwd.reverse().take(out@.len() as int),
                crate::reduce::tt_signs_ok(fwd),
                crate::reduce::tt_signs_ok(crate::reduce::pn_view(out@)),
            decreases tmp@.len(),
        {
            let ghost m = tmp@.len() as int;
            let ghost j = out@.len() as int;
            let t = match tmp.pop() {
                Some(t) => t,
                None => {
                    proof {
                        assert(false);
                    }
                    return None;
                },
            };
            proof {
                assert(fwd.take(m)[m - 1] == fwd[m - 1]);
                assert((t.0, t.1@) == fwd[m - 1]);
                assert(crate::reduce::pn_view(tmp@) =~= fwd.take(m - 1));
            }
            let ghost preo = crate::reduce::pn_view(out@);
            out.push(t);
            proof {
                assert(crate::reduce::pn_view(out@) =~= preo.push(fwd[m - 1]));
                assert(fwd.reverse()[j] == fwd[m - 1]);
                assert(crate::reduce::pn_view(out@) =~= fwd.reverse().take(j + 1));
                assert(fwd[m - 1].1 == Seq::<char>::empty() || fwd[m - 1].1 == seq!['~']);
                let nv = crate::reduce::pn_view(out@);
                assert forall|q: int|
                    0 <= q < nv.len() implies (#[trigger] nv[q].1 == Seq::<char>::empty()
                    || nv[q].1 == seq!['~']) by {
                    if q < j {
                        assert(nv[q] == preo[q]);
                    } else {
                        assert(nv[q] == fwd[m - 1]);
                    }
                }
            }
        }
        proof {
            assert(crate::reduce::pn_view(out@) =~= fwd.reverse());
            assert(fwd.len() >= 1);
        }
        Some(out)
    }

    /// Appends the polish form of the subtree at `idx`, in stream order,
    /// to `out`; `false`, with `out` in no stated shape, where the
    /// subtree has no such form.
    #[verifier::loop_isolation(false)]
    #[verifier::rlimit(100)]
    #[verifier::spinoff_prover]
    fn pn_rec(&self, idx: usize, out: &mut Vec<(char, String)>) -> (ok: bool)
        requires
            wf_arena(self@),
            idx < self@.elems.len(),
            crate::reduce::tt_signs_ok(crate::reduce::pn_view(old(out)@)),
        ensures
            ok == spec_pn_ok(self@, idx as int),
            ok ==> crate::reduce::pn_view(final(out)@) == crate::reduce::pn_view(old(out)@)
                + spec_pn(self@, idx as int),
            ok ==> crate::reduce::tt_signs_ok(crate::reduce::pn_view(final(out)@)),
        decreases self@.elems.len() - idx,
    {
        match self.get(idx) {
            Elem::Leaf(l) => {
                let n = l.val.sign.as_str().unicode_len();
                let ok_sign = n == 0 || (n == 1 && l.val.sign.as_str().get_char(0) == '~');
                let ghost lv = self@.elems[idx as int]->Leaf_0;
                proof {
                    assert(lv.sign == l.val.sign@ && lv.var == l.val.val);
                }
                if !ok_sign {
                    proof {
                        if lv.sign == Seq::<char>::empty() {
                            assert(n == 0);
                        }
                        if lv.sign == seq!['~'] {
                            assert(n == 1 && l.val.sign@[0] == '~');
                        }
                        assert(!spec_pn_ok(self@, idx as int));
                    }
                    return false;
                }
                let ghost pre = crate::reduce::pn_view(out@);
                out.push((l.val.val, l.val.sign.clone()));
                proof {
                    if n == 0 {
                        assert(l.val.sign@ =~= Seq::<char>::empty());
                    } else {
                        assert(l.val.sign@ =~= seq!['~']);
                    }
                    assert(crate::reduce::pn_view(out@) =~= pre.push(
                        (l.val.val, l.val.sign@),
                    ));
                    assert(crate::reduce::pn_view(out@) =~= pre + spec_pn(self@, idx as int));
                }
                true
            },
            Elem::Node(nd) => {
                let op = nd.expr.op();
                let ghost n0 = self@.elems[idx as int]->Node_0;
                proof {
                    assert(n0.op == op);
                }
                if !(op == '^' || op == '&' || op == '|') {
                    proof {
                        assert(!is_bw_op(n0.op));
                    }
                    return false;
                }
                let ghost pre = crate::reduce::pn_view(out@);
                out.push((op, String::new()));
                proof {
                    assert(crate::reduce::pn_view(out@) =~= pre.push(
                        (op, Seq::<char>::empty()),
                    ));
                }
                let ghost base = crate::reduce::pn_view(out@);
                let ch = nd.ch();
                let ghost chi = ch@.map_values(|x: usize| x as int);
                proof {
                    assert(chi == n0.ch);
                    assert(wf_elem(self@, idx as int));
                    assert(spec_pn_leaves(self@, chi, chi.len() as int) =~= Seq::<(
                        char,
                        Seq<char>,
                    )>::empty());
                }
                // the variable leaves, newest stored first
                let mut nleaf: usize = 0;
                let mut k: usize = ch.len();
                while k > 0
                    invariant
                        k <= ch@.len(),
                        crate::reduce::tt_signs_ok(crate::reduce::pn_view(out@)),
                        crate::reduce::pn_view(out@) == base + spec_pn_leaves(
                            self@,
                            chi,
                            k as int,
                        ),
                        (nleaf > 0) == exists|q: int|
                            k <= q < chi.len() && self@.elems[#[trigger] chi[q]] is Leaf,
                        forall|q: int|
                            k <= q < chi.len() && self@.elems[#[trigger] chi[q]] is Leaf
                                ==> spec_pn_ok(self@, chi[q]),
                    decreases k,
                {
                    let c = ch[k - 1];
                    proof {
                        assert(chi[k - 1] == c as int);
                        assert((idx as int) < c as int && (c as int) < self@.elems.len());
                    }
                    match self.get(c) {
                        Elem::Leaf(_) => {
                            if !self.pn_rec(c, out) {
                                proof {
                                    assert(!spec_pn_ok(self@, c as int));
                                    if spec_pn_ok(self@, idx as int) {
                                        lemma_pn_ok_ch(self@, idx as int, chi, 0);
                                    }
                                }
                                return false;
                            }
                            proof {
                                assert(spec_pn(self@, c as int) =~= seq![
                                    (
                                        self@.elems[c as int]->Leaf_0.var,
                                        self@.elems[c as int]->Leaf_0.sign,
                                    ),
                                ]);
                                assert(crate::reduce::pn_view(out@) =~= base + spec_pn_leaves(
                                    self@,
                                    chi,
                                    k as int - 1,
                                ));
                            }
                            if nleaf < usize::MAX {
                                nleaf = nleaf + 1;
                            }
                            proof {
                                assert(self@.elems[chi[k as int - 1]] is Leaf);
                            }
                        },
                        _ => {
                            proof {
                                assert(spec_pn_leaves(self@, chi, k as int - 1)
                                    =~= spec_pn_leaves(self@, chi, k as int));
                                if exists|q: int|
                                    k - 1 <= q < chi.len() && self@.elems[#[trigger] chi[q]] is Leaf {
                                    let q = choose|q: int|
                                        k - 1 <= q < chi.len()
                                            && self@.elems[#[trigger] chi[q]] is Leaf;
                                    assert(q >= k);
                                }
                            }
                        },
                    }
                    k = k - 1;
                }
                if nleaf == 0 {
                    proof {
                        assert(!spec_pn_ok(self@, idx as int));
                    }
                    return false;
                }
                // how many nested subexpressions follow
                let mut nnodes: usize = 0;
                let mut k2: usize = ch.len();
                while k2 > 0
                    invariant
                        k2 <= ch@.len(),
                        nnodes <= ch@.len() - k2,
                        nnodes as int == spec_pn_nnodes(self@, chi, k2 as int),
                    decreases k2,
                {
                    let c = ch[k2 - 1];
                    proof {
                        assert(chi[k2 - 1] == c as int);
                        assert((idx as int) < c as int && (c as int) < self@.elems.len());
                    }
                    match self.get(c) {
                        Elem::Node(_) => {
                            nnodes = nnodes + 1;
                        },
                        _ => {},
                    }
                    k2 = k2 - 1;
                }
                // the nested subexpressions, close-marked between operands
                let mut done: usize = 0;
                let mut k3: usize = ch.len();
                proof {
                    assert(spec_pn_nodes(self@, idx as int, chi, chi.len() as int) =~= Seq::<(
                        char,
                        Seq<char>,
                    )>::empty());
                }
                while k3 > 0
                    invariant
                        k3 <= ch@.len(),
                        done <= ch@.len() - k3,
                        done as int == spec_pn_nnodes(self@, chi, k3 as int),
                        nnodes as int == spec_pn_nnodes(self@, chi, 0),
                        crate::reduce::tt_signs_ok(crate::reduce::pn_view(out@)),
                        crate::reduce::pn_view(out@) == base + spec_pn_leaves(self@, chi, 0)
                            + spec_pn_nodes(self@, idx as int, chi, k3 as int),
                        forall|q: int|
                            k3 <= q < chi.len() && self@.elems[#[trigger] chi[q]] is Node
                                ==> spec_pn_ok(self@, chi[q]),
                    decreases k3,
                {
                    let c = ch[k3 - 1];
                    proof {
                        assert(chi[k3 - 1] == c as int);
                        assert((idx as int) < c as int && (c as int) < self@.elems.len());
                    }
                    match self.get(c) {
                        Elem::Node(_) => {
                            if !self.pn_rec(c, out) {
                                proof {
                                    assert(!spec_pn_ok(self@, c as int));
                                    if spec_pn_ok(self@, idx as int) {
                                        lemma_pn_ok_ch(self@, idx as int, chi, 0);
                                    }
                                }
                                return false;
                            }
                            done = done + 1;
                            proof {
                                lemma_pn_nnodes_below(self@, chi, k3 as int - 1);
                                assert(done as int == spec_pn_nnodes(self@, chi, k3 as int - 1));
                            }
                            if done < nnodes {
                                let ghost pre2 = crate::reduce::pn_view(out@);
                                out.push(('!', String::new()));
                                proof {
                                    assert(spec_pn_node_below(self@, chi, k3 as int - 1));
                                    assert(crate::reduce::pn_view(out@) =~= pre2.push(
                                        ('!', Seq::<char>::empty()),
                                    ));
                                    assert(crate::reduce::pn_view(out@) =~= base + spec_pn_leaves(
                                        self@,
                                        chi,
                                        0,
                                    ) + spec_pn_nodes(self@, idx as int, chi, k3 as int - 1));
                                }
                            } else {
                                proof {
                                    assert(!spec_pn_node_below(self@, chi, k3 as int - 1));
                                    assert(crate::reduce::pn_view(out@) =~= base + spec_pn_leaves(
                                        self@,
                                        chi,
                                        0,
                                    ) + spec_pn_nodes(self@, idx as int, chi, k3 as int - 1));
                                }
                            }
                        },
                        _ => {
                            proof {
                                assert(spec_pn_nodes(self@, idx as int, chi, k3 as int - 1)
                                    =~= spec_pn_nodes(self@, idx as int, chi, k3 as int));
                            }
                        },
                    }
                    k3 = k3 - 1;
                }
                proof {
                    assert forall|q: int| 0 <= q < chi.len() implies ((idx as int) < #[trigger] chi[q]
                        && chi[q] < self@.elems.len() && spec_pn_ok(self@, chi[q])) by {
                        assert(n0.ch[q] == chi[q]);
                        assert(!(self@.elems[chi[q]] is Free));
                    }
                    lemma_pn_ok_ch(self@, idx as int, chi, 0);
                    assert(spec_pn_ok(self@, idx as int));
                    assert(crate::reduce::pn_view(out@) =~= crate::reduce::pn_view(old(out)@)
                        + spec_pn(self@, idx as int));
                }
                true
            },
            Elem::Free => {
                proof {
                    assert(!spec_pn_ok(self@, idx as int));
                }
                false
            },
        }
    }
}

} // verus!

verus! {

// ---------------------------------------------------------------------------
// The reducer driver and its mathematical model
// ---------------------------------------------------------------------------
/// The polish stream of a bitwise child, oriented for the engine.
pub open spec fn spec_red_stream(av: ArenaV, c: int) -> Seq<(char, Seq<char>)> {
    spec_pn(av, c).reverse()
}

/// The variables that the stream of child `c` names, in increasing order.
pub open spec fn spec_red_vars(av: ArenaV, c: int) -> Seq<char> {
    crate::reduce::spec_vars_seq(spec_red_stream(av, c), spec_red_stream(av, c).len() as int)
}

/// Whether the engine takes the stream of child `c`: the subtree has a
/// polish form, the stream is well shaped, and it names at most three
/// variables.
pub open spec fn spec_red_child_ok(av: ArenaV, c: int) -> bool {
    &&& spec_pn_ok(av, c)
    &&& crate::reduce::pn_shape_ok(spec_red_stream(av, c))
    &&& spec_red_vars(av, c).len() <= 3
}

/// The truth table of child `c`'s stream.
pub open spec fn spec_red_tt(av: ArenaV, c: int) -> Seq<i8> {
    Seq::new(
        crate::reduce::pow2(spec_red_vars(av, c).len()),
        |i: int|
            if crate::reduce::spec_tt_entry(spec_red_stream(av, c), spec_red_vars(av, c), i as u32) {
                1i8
            } else {
                0i8
            },
    )
}

/// The pair the reducer records for child `c`: the solver's coefficients
/// over its truth table, and how many variables the stream names.
pub open spec fn spec_red_pair(av: ArenaV, c: int) -> (Seq<int>, int) {
    (
        crate::reduce::spec_solve(spec_red_tt(av, c), spec_red_vars(av, c).len() as u8),
        spec_red_vars(av, c).len() as int,
    )
}

/// The reducer's pass over an MBA sum's first `j` children: `None` where
/// a bitwise child exceeds the engine, else the recorded pairs in child
/// order. Children that are not bitwise are passed over.
pub open spec fn spec_red_mba(av: ArenaV, ch: Seq<int>, j: int) -> Option<Seq<(Seq<int>, int)>>
    decreases j,
{
    if j <= 0 {
        Some(Seq::empty())
    } else {
        match spec_red_mba(av, ch, j - 1) {
            None => None,
            Some(s) => {
                if !spec_child_bw(av, ch[j - 1]) {
                    Some(s)
                } else if spec_red_child_ok(av, ch[j - 1]) {
                    Some(s.push(spec_red_pair(av, ch[j - 1])))
                } else {
                    None
                }
            },
        }
    }
}

/// A failed pass stays failed as more children are taken in.
pub proof fn lemma_red_mba_none(av: ArenaV, ch: Seq<int>, j: int, j2: int)
    requires
        j <= j2,
        spec_red_mba(av, ch, j) is None,
    ensures
        spec_red_mba(av, ch, j2) is None,
    decreases j2 - j,
{
    if j < j2 {
        lemma_red_mba_none(av, ch, j, j2 - 1);
    }
}

/// What the reducer does from element `i` on: a leaf records nothing; an
/// MBA sum must carry no folded constant and has every bitwise child
/// solved; any other node is walked through child by child.
pub open spec fn spec_reduce(av: ArenaV, i: int) -> Option<Seq<(Seq<int>, int)>>
    decreases av.elems.len() - i, 1int, 0int,
{
    if 0 <= i < av.elems.len() {
        match av.elems[i] {
            ElemV::Leaf(_) => Some(Seq::empty()),
            ElemV::Node(n) => {
                if n.tag is MBA {
                    if n.cst is Some {
                        None
                    } else {
                        spec_red_mba(av, n.ch, n.ch.len() as int)
                    }
                } else {
                    spec_red_walk(av, i, n.ch, n.ch.len() as int)
                }
            },
            ElemV::Free => None,
        }
    } else {
        None
    }
}

/// The recursive walk over an ordinary node's first `j` children, the
/// children's records concatenated in order.
pub open spec fn spec_red_walk(av: ArenaV, i: int, ch: Seq<int>, j: int) -> Option<
    Seq<(Seq<int>, int)>,
>
    decreases av.elems.len() - i, 0int, j,
{
    if j <= 0 {
        Some(Seq::empty())
    } else {
        match spec_red_walk(av, i, ch, j - 1) {
            None => None,
            Some(s1) => {
                if i < ch[j - 1] < av.elems.len() {
                    match spec_reduce(av, ch[j - 1]) {
                        None => None,
                        Some(s2) => Some(s1 + s2),
                    }
                } else {
                    None
                }
            },
        }
    }
}

/// A failed walk stays failed as more children are taken in.
pub proof fn lemma_red_walk_none(av: ArenaV, i: int, ch: Seq<int>, j: int, j2: int)
    requires
        j <= j2,
        spec_red_walk(av, i, ch, j) is None,
    ensures
        spec_red_walk(av, i, ch, j2) is None,
    decreases j2 - j,
{
    if j < j2 {
        lemma_red_walk_none(av, i, ch, j, j2 - 1);
    }
}

/// The mathematical view of the reducer's output entries.
pub open spec fn red_out_view(v: Seq<(Vec<i8>, u8)>) -> Seq<(Seq<int>, int)> {
    v.map_values(|p: (Vec<i8>, u8)| (p.0@.map_values(|x: i8| x as int), p.1 as int))
}

/// Walks the expression from the root; at every sum recognized as MBA,
/// reduces each bitwise child: its polish form, its truth table, and the
/// basis coefficients the solver recovers, recorded in traversal order.
/// `None` exactly where some bitwise child of an MBA sum exceeds what
/// the engine accepts, or where an MBA sum carries a folded constant.
pub fn reduce(arena: &Arena, root_idx: usize) -> (r: Option<Vec<(Vec<i8>, u8)>>)
    requires
        wf_arena(arena@),
        root_idx < arena@.elems.len(),
        !(arena@.elems[root_idx as int] is Free),
    ensures
        (r is Some) == (spec_reduce(arena@, root_idx as int) is Some),
        (r matches Some(v) ==> spec_reduce(arena@, root_idx as int) == Some(red_out_view(v@))),
        (r matches Some(v) ==> forall|k: int|
            0 <= k < v@.len() ==> (#[trigger] v@[k].1 <= 3 && v@[k].0@.len() == crate::reduce::pow2(
                v@[k].1 as nat,
            ) + 1)),
{
    let mut out: Vec<(Vec<i8>, u8)> = Vec::new();
    proof {
        assert(red_out_view(out@) =~= Seq::<(Seq<int>, int)>::empty());
    }
    if reduce_rec(arena, root_idx, &mut out) {
        proof {
            assert(Seq::<(Seq<int>, int)>::empty() + spec_reduce(arena@, root_idx as int)->Some_0
                =~= spec_reduce(arena@, root_idx as int)->Some_0);
        }
        Some(out)
    } else {
        None
    }
}

#[verifier::loop_isolation(false)]
#[verifier::rlimit(100)]
#[verifier::spinoff_prover]
fn reduce_rec(
    arena: &Arena,
    idx: usize,
    out: &mut Vec<(Vec<i8>, u8)>,
) -> (ok: bool)
    requires
        wf_arena(arena@),
        idx < arena@.elems.len(),
        !(arena@.elems[idx as int] is Free),
        forall|k: int|
            0 <= k < old(out)@.len() ==> (#[trigger] old(out)@[k].1 <= 3 && old(out)@[k].0@.len()
                == crate::reduce::pow2(old(out)@[k].1 as nat) + 1),
    ensures
        ok == (spec_reduce(arena@, idx as int) is Some),
        ok ==> red_out_view(final(out)@) == red_out_view(old(out)@) + spec_reduce(
            arena@,
            idx as int,
        )->Some_0,
        ok ==> forall|k: int|
            0 <= k < final(out)@.len() ==> (#[trigger] final(out)@[k].1 <= 3
                && final(out)@[k].0@.len() == crate::reduce::pow2(final(out)@[k].1 as nat) + 1),
    decreases arena@.elems.len() - idx,
{
    let ghost av = arena@;
    if arena.is_mba(idx) {
        let ghost n0 = av.elems[idx as int]->Node_0;
        // a recognized sum of bitwise terms never carries a constant here
        match arena.get(idx) {
            Elem::Node(n) => {
                if n.has_cst() {
                    proof {
                        assert(spec_reduce(av, idx as int) is None);
                    }
                    return false;
                }
            },
            _ => {
                proof {
                    assert(false);
                }
            },
        }
        let ch = arena.get_ch(idx);
        let ghost chi = ch@.map_values(|x: usize| x as int);
        proof {
            assert(wf_elem(av, idx as int));
            assert(chi == spec_get_ch(av, idx as int));
            assert(chi == n0.ch);
            assert(red_out_view(out@) =~= red_out_view(old(out)@) + Seq::<(
                Seq<int>,
                int,
            )>::empty());
        }
        let mut k: usize = 0;
        while k < ch.len()
            invariant
                k <= ch@.len(),
                spec_red_mba(av, chi, k as int) is Some,
                red_out_view(out@) == red_out_view(old(out)@) + spec_red_mba(
                    av,
                    chi,
                    k as int,
                )->Some_0,
                forall|q: int|
                    0 <= q < out@.len() ==> (#[trigger] out@[q].1 <= 3 && out@[q].0@.len() == crate::reduce::pow2(
                        out@[q].1 as nat,
                    ) + 1),
            decreases ch@.len() - k,
        {
            let c = ch[k];
            proof {
                assert(chi[k as int] == c as int);
                assert((idx as int) < c as int && (c as int) < av.elems.len());
                assert(!(av.elems[c as int] is Free));
            }
            if arena.is_bitwise(c) {
                let polish = match arena.pn(c) {
                    Some(p) => p,
                    None => {
                        proof {
                            assert(!spec_red_child_ok(av, c as int));
                            assert(spec_red_mba(av, chi, k as int + 1) is None);
                            lemma_red_mba_none(av, chi, k as int + 1, chi.len() as int);
                            assert(spec_reduce(av, idx as int) is None);
                        }
                        return false;
                    },
                };
                let ghost strm = crate::reduce::pn_view(polish@);
                proof {
                    assert(strm == spec_red_stream(av, c as int));
                }
                let table = match crate::reduce::truth_table_checked(&polish) {
                    Some(tn) => tn,
                    None => {
                        proof {
                            assert(!(crate::reduce::pn_shape_ok(strm)
                                && crate::reduce::spec_vars_seq(
                                strm,
                                strm.len() as int,
                            ).len() <= 3));
                            assert(!spec_red_child_ok(av, c as int));
                            assert(spec_red_mba(av, chi, k as int + 1) is None);
                            lemma_red_mba_none(av, chi, k as int + 1, chi.len() as int);
                            assert(spec_reduce(av, idx as int) is None);
                        }
                        return false;
                    },
                };
                let nv = table.1;
                let tt = table.0;
                proof {
                    assert(spec_red_child_ok(av, c as int));
                    assert(nv as nat == spec_red_vars(av, c as int).len());
                    assert(nv == spec_red_vars(av, c as int).len() as u8);
                    assert(tt@ =~= spec_red_tt(av, c as int));
                    assert(forall|q: int| 0 <= q < tt@.len() ==> 0 <= #[trigger] tt@[q] <= 1);
                }
                let coeffs = crate::reduce::solve_sierpinski(tt, nv);
                let ghost preo = red_out_view(out@);
                out.push((coeffs, nv));
                proof {
                    assert(red_out_view(out@) =~= preo.push(
                        (coeffs@.map_values(|x: i8| x as int), nv as int),
                    ));
                    assert((coeffs@.map_values(|x: i8| x as int), nv as int) == spec_red_pair(
                        av,
                        c as int,
                    ));
                    assert(spec_red_mba(av, chi, k as int + 1)->Some_0 =~= spec_red_mba(
                        av,
                        chi,
                        k as int,
                    )->Some_0.push(spec_red_pair(av, c as int)));
                    assert(red_out_view(out@) =~= red_out_view(old(out)@) + spec_red_mba(
                        av,
                        chi,
                        k as int + 1,
                    )->Some_0);
                }
            } else {
                proof {
                    assert(spec_red_mba(av, chi, k as int + 1) == spec_red_mba(av, chi, k as int));
                }
            }
            k = k + 1;
        }
        proof {
            assert(spec_reduce(av, idx as int) == spec_red_mba(av, chi, chi.len() as int));
        }
        true
    } else {
        match arena.get(idx) {
            Elem::Node(_) => {
                let ghost n0 = av.elems[idx as int]->Node_0;
                let ch = arena.get_ch(idx);
                let ghost chi = ch@.map_values(|x: usize| x as int);
                proof {
                    assert(wf_elem(av, idx as int));
                    assert(chi == spec_get_ch(av, idx as int));
                    assert(chi == n0.ch);
                    assert(!(n0.tag is MBA));
                    assert(red_out_view(out@) =~= red_out_view(old(out)@) + Seq::<(
                        Seq<int>,
                        int,
                    )>::empty());
                }
                let mut k: usize = 0;
                while k < ch.len()
                    invariant
                        k <= ch@.len(),
                        spec_red_walk(av, idx as int, chi, k as int) is Some,
                        red_out_view(out@) == red_out_view(old(out)@) + spec_red_walk(
                            av,
                            idx as int,
                            chi,
                            k as int,
                        )->Some_0,
                        forall|q: int|
                            0 <= q < out@.len() ==> (#[trigger] out@[q].1 <= 3
                                && out@[q].0@.len() == crate::reduce::pow2(out@[q].1 as nat) + 1),
                    decreases ch@.len() - k,
                {
                    let c = ch[k];
                    proof {
                        assert(chi[k as int] == c as int);
                        assert((idx as int) < c as int && (c as int) < av.elems.len());
                        assert(!(av.elems[c as int] is Free));
                    }
                    if !reduce_rec(arena, c, out) {
                        proof {
                            assert(spec_red_walk(av, idx as int, chi, k as int + 1) is None);
                            lemma_red_walk_none(
                                av,
                                idx as int,
                                chi,
                                k as int + 1,
                                chi.len() as int,
                            );
                            assert(spec_reduce(av, idx as int) is None);
                        }
                        return false;
                    }
                    proof {
                        assert(red_out_view(out@) =~= red_out_view(old(out)@) + (spec_red_walk(
                            av,
                            idx as int,
                            chi,
                            k as int,
                        )->Some_0 + spec_reduce(av, c as int)->Some_0));
                        assert(spec_red_walk(av, idx as int, chi, k as int + 1)->Some_0
                            =~= spec_red_walk(av, idx as int, chi, k as int)->Some_0 + spec_reduce(
                            av,
                            c as int,
                        )->Some_0);
                    }
                    k = k + 1;
                }
                proof {
                    assert(spec_reduce(av, idx as int) == spec_red_walk(
                        av,
                        idx as int,
                        chi,
                        chi.len() as int,
                    ));
                }
                true
            },
            Elem::Leaf(_) => {
                proof {
                    assert(spec_reduce(av, idx as int) == Some(Seq::<(Seq<int>, int)>::empty()));
                    assert(red_out_view(out@) =~= red_out_view(old(out)@) + Seq::<(
                        Seq<int>,
                        int,
                    )>::empty());
                }
                true
            },
            Elem::Free => {
                proof {
                    assert(false);
                }
                false
            },
        }
    }
}

} // verus!
