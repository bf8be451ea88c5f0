//! Merkle roots: the type root (Tmr) of a type, the commitment root's
//! initial values (Cmr), and the two-pass identity root (Imr) of a program
//! node.
use crate::hash::{
    combine,
    combine_leaf_value,
    combine_of,
    combine_one,
    combine_one_of,
    leaf_value_of,
    tag_iv,
    tag_iv_of,
};
use crate::value::Value;
use vstd::prelude::*;
use vstd::string::StringSliceAdditionalSpecFns;

verus! {

/// Type Merkle root: the fingerprint of a type's shape.
#[derive(Clone, Copy, PartialEq, Eq, PartialOrd, Ord, Hash, Debug)]
pub struct Tmr(pub [u8; 32]);

/// Commitment Merkle root: the fingerprint of a program's combinators.
#[derive(Clone, Copy, PartialEq, Eq, PartialOrd, Ord, Hash, Debug)]
pub struct Cmr(pub [u8; 32]);

/// Identity Merkle root: the fingerprint of a program's combinators, its
/// witness data and its full type ascription.
#[derive(Clone, Copy, PartialEq, Eq, PartialOrd, Ord, Hash, Debug)]
pub struct Imr(pub [u8; 32]);

/// A type: the unit type, a sum or a product of two types.
#[derive(PartialEq, Eq, Debug)]
pub enum Type {
    Unit,
    Sum(Box<Type>, Box<Type>),
    Product(Box<Type>, Box<Type>),
}

/// A program node: its combinator, with the roots that a node carries
/// itself (a failure's entropy, a pruned subtree's root, a jet's root).
#[derive(Clone, Copy, PartialEq, Eq, Debug)]
pub enum Node {
    Iden,
    Unit,
    InjL,
    InjR,
    Take,
    Drop,
    Comp,
    Case,
    Pair,
    AssertL,
    AssertR,
    Disconnect,
    Witness,
    Fail(Cmr, Cmr),
    Hidden(Cmr),
    Jet(Cmr),
}

/// The source and target types of a node, by their roots.
#[derive(Clone, Copy, PartialEq, Eq, Debug)]
pub struct NodeType {
    pub source: Tmr,
    pub target: Tmr,
}

/// The tag of a type's outermost constructor.
pub open spec fn type_tag(t: Type) -> Seq<u8> {
    match t {
        Type::Unit => "Simplicity-Draft\x1fType\x1fone".spec_bytes(),
        Type::Sum(..) => "Simplicity-Draft\x1fType\x1fsum".spec_bytes(),
        Type::Product(..) => "Simplicity-Draft\x1fType\x1fprod".spec_bytes(),
    }
}

/// The type root of `t`: the unit type's initial value, or the sum's or
/// product's initial value combined with the roots of the two parts.
pub open spec fn tmr_of(t: Type) -> Seq<u8>
    decreases t,
{
    match t {
        Type::Unit => tag_iv_of(type_tag(t)),
        Type::Sum(a, b) => combine_of(tag_iv_of(type_tag(t)), tmr_of(*a), tmr_of(*b)),
        Type::Product(a, b) => combine_of(tag_iv_of(type_tag(t)), tmr_of(*a), tmr_of(*b)),
    }
}

/// The commitment tag of a node, where it has one (a pruned subtree and a
/// jet start from a root of their own instead).
pub open spec fn commitment_tag(node: Node) -> Seq<u8> {
    match node {
        Node::Iden => "Simplicity-Draft\x1fCommitment\x1fiden".spec_bytes(),
        Node::Unit => "Simplicity-Draft\x1fCommitment\x1funit".spec_bytes(),
        Node::InjL => "Simplicity-Draft\x1fCommitment\x1finjl".spec_bytes(),
        Node::InjR => "Simplicity-Draft\x1fCommitment\x1finjr".spec_bytes(),
        Node::Take => "Simplicity-Draft\x1fCommitment\x1ftake".spec_bytes(),
        Node::Drop => "Simplicity-Draft\x1fCommitment\x1fdrop".spec_bytes(),
        Node::Comp => "Simplicity-Draft\x1fCommitment\x1fcomp".spec_bytes(),
        Node::Case => "Simplicity-Draft\x1fCommitment\x1fcase".spec_bytes(),
        Node::AssertL => "Simplicity-Draft\x1fCommitment\x1fcase".spec_bytes(),
        Node::AssertR => "Simplicity-Draft\x1fCommitment\x1fcase".spec_bytes(),
        Node::Pair => "Simplicity-Draft\x1fCommitment\x1fpair".spec_bytes(),
        Node::Disconnect => "Simplicity-Draft\x1fCommitment\x1fdisconnect".spec_bytes(),
        Node::Witness => "Simplicity-Draft\x1fCommitment\x1fwitness".spec_bytes(),
        Node::Fail(..) => "Simplicity-Draft\x1fCommitment\x1ffail".spec_bytes(),
        Node::Hidden(..) => seq![],
        Node::Jet(..) => seq![],
    }
}

/// The initial value of a node's commitment root.
pub open spec fn cmr_iv_of(node: Node) -> Seq<u8> {
    match node {
        Node::Hidden(h) => h.0@,
        Node::Jet(j) => j.0@,
        _ => tag_iv_of(commitment_tag(node)),
    }
}

/// The initial value of a node's identity root in the first pass: the
/// commitment one, but for disconnect and witness nodes.
pub open spec fn imr_iv_of(node: Node) -> Seq<u8> {
    match node {
        Node::Disconnect => tag_iv_of("Simplicity-Draft\x1fIdentity\x1fdisconnect".spec_bytes()),
        Node::Witness => tag_iv_of("Simplicity-Draft\x1fIdentity\x1fwitness".spec_bytes()),
        _ => cmr_iv_of(node),
    }
}

/// The initial value of the second pass.
pub open spec fn pass_two_iv_of(node: Node) -> Seq<u8> {
    match node {
        Node::Hidden(..) => tag_iv_of("Simplicity-Draft\x1fHidden".spec_bytes()),
        _ => tag_iv_of("Simplicity-Draft\x1fIdentity".spec_bytes()),
    }
}

/// The number of children whose roots a node combines.
pub open spec fn arity(node: Node) -> nat {
    match node {
        Node::InjL | Node::InjR | Node::Take | Node::Drop => 1,
        Node::Comp | Node::Case | Node::Pair | Node::AssertL | Node::AssertR | Node::Disconnect => 2,
        _ => 0,
    }
}

/// What the first pass needs beside the node: a root for each child it
/// combines, and a value for a witness.
pub open spec fn first_pass_inputs(
    node: Node,
    left: Option<Imr>,
    right: Option<Imr>,
    value: Option<&Value>,
) -> bool {
    &&& arity(node) >= 1 ==> left is Some
    &&& arity(node) == 2 ==> right is Some
    &&& node == Node::Witness ==> value is Some && value->Some_0.bit_len() <= usize::MAX
}

/// The first-pass identity root of a node.
pub open spec fn imr_first_pass_of(
    node: Node,
    left: Option<Imr>,
    right: Option<Imr>,
    value: Option<&Value>,
    ty: NodeType,
) -> Seq<u8> {
    let iv = imr_iv_of(node);
    match node {
        Node::Fail(a, b) => combine_of(iv, a.0@, b.0@),
        Node::InjL | Node::InjR | Node::Take | Node::Drop => combine_one_of(iv, left->Some_0.0@),
        Node::Comp | Node::Case | Node::Pair | Node::AssertL | Node::AssertR | Node::Disconnect => {
            combine_of(iv, left->Some_0.0@, right->Some_0.0@)
        },
        Node::Witness => leaf_value_of(iv, *value->Some_0, ty.target.0@),
        _ => iv,
    }
}

/// The identity root of a node from its first-pass root: a pruned
/// subtree's depends on that root alone; any other node's binds its source
/// and target type roots too.
pub open spec fn imr_second_pass_of(first: Seq<u8>, node: Node, ty: NodeType) -> Seq<u8> {
    let iv = pass_two_iv_of(node);
    match node {
        Node::Hidden(..) => combine_one_of(iv, first),
        _ => combine_of(combine_one_of(iv, first), ty.source.0@, ty.target.0@),
    }
}

impl Tmr {
    /// The initial value for a type's outermost constructor.
    pub fn get_iv(ty: &Type) -> (r: Tmr)
        ensures
            r.0@ == tag_iv_of(type_tag(*ty)),
    {
        match ty {
            Type::Unit => Tmr(tag_iv("Simplicity-Draft\x1fType\x1fone")),
            Type::Sum(..) => Tmr(tag_iv("Simplicity-Draft\x1fType\x1fsum")),
            Type::Product(..) => Tmr(tag_iv("Simplicity-Draft\x1fType\x1fprod")),
        }
    }

    /// The type root of `ty`.
    pub fn of_type(ty: &Type) -> (r: Tmr)
        ensures
            r.0@ == tmr_of(*ty),
        decreases ty,
    {
        let iv = Tmr::get_iv(ty);
        match ty {
            Type::Unit => iv,
            Type::Sum(a, b) => {
                let ra = Tmr::of_type(a);
                let rb = Tmr::of_type(b);
                Tmr(combine(&iv.0, &ra.0, &rb.0))
            },
            Type::Product(a, b) => {
                let ra = Tmr::of_type(a);
                let rb = Tmr::of_type(b);
                Tmr(combine(&iv.0, &ra.0, &rb.0))
            },
        }
    }
}

impl Cmr {
    /// The initial value of a node's commitment root.
    pub fn get_iv(node: &Node) -> (r: Cmr)
        ensures
            r.0@ == cmr_iv_of(*node),
    {
        let tag = match node {
            Node::Hidden(h) => {
                return *h;
            },
            Node::Jet(j) => {
                return *j;
            },
            Node::Iden => "Simplicity-Draft\x1fCommitment\x1fiden",
            Node::Unit => "Simplicity-Draft\x1fCommitment\x1funit",
            Node::InjL => "Simplicity-Draft\x1fCommitment\x1finjl",
            Node::InjR => "Simplicity-Draft\x1fCommitment\x1finjr",
            Node::Take => "Simplicity-Draft\x1fCommitment\x1ftake",
            Node::Drop => "Simplicity-Draft\x1fCommitment\x1fdrop",
            Node::Comp => "Simplicity-Draft\x1fCommitment\x1fcomp",
            Node::Case | Node::AssertL | Node::AssertR => "Simplicity-Draft\x1fCommitment\x1fcase",
            Node::Pair => "Simplicity-Draft\x1fCommitment\x1fpair",
            Node::Disconnect => "Simplicity-Draft\x1fCommitment\x1fdisconnect",
            Node::Witness => "Simplicity-Draft\x1fCommitment\x1fwitness",
            Node::Fail(..) => "Simplicity-Draft\x1fCommitment\x1ffail",
        };
        Cmr(tag_iv(tag))
    }
}

impl Imr {
    /// The initial value of a node's identity root in the first pass.
    pub fn get_iv(node: &Node) -> (r: Imr)
        ensures
            r.0@ == imr_iv_of(*node),
    {
        match node {
            Node::Disconnect => Imr(tag_iv("Simplicity-Draft\x1fIdentity\x1fdisconnect")),
            Node::Witness => Imr(tag_iv("Simplicity-Draft\x1fIdentity\x1fwitness")),
            _ => Imr(Cmr::get_iv(node).0),
        }
    }

    /// The initial value of the second pass.
    pub fn pass_two_iv(node: &Node) -> (r: Imr)
        ensures
            r.0@ == pass_two_iv_of(*node),
    {
        match node {
            Node::Hidden(..) => Imr(tag_iv("Simplicity-Draft\x1fHidden")),
            _ => Imr(tag_iv("Simplicity-Draft\x1fIdentity")),
        }
    }

    /// The first-pass identity root of a node, from the roots of the
    /// children it combines and, for a witness, its value and node type.
    pub fn compute(
        node: &Node,
        left: Option<Imr>,
        right: Option<Imr>,
        value: Option<&Value>,
        ty: &NodeType,
    ) -> (r: Imr)
        requires
            first_pass_inputs(*node, left, right, value),
        ensures
            r.0@ == imr_first_pass_of(*node, left, right, value, *ty),
    {
        let iv = Imr::get_iv(node);
        match node {
            Node::Fail(a, b) => Imr(combine(&iv.0, &a.0, &b.0)),
            Node::InjL | Node::InjR | Node::Take | Node::Drop => {
                let l = left.unwrap();
                Imr(combine_one(&iv.0, &l.0))
            },
            Node::Comp | Node::Case | Node::Pair | Node::AssertL | Node::AssertR | Node::Disconnect => {
                let l = left.unwrap();
                let r = right.unwrap();
                Imr(combine(&iv.0, &l.0, &r.0))
            },
            Node::Witness => {
                let v = value.unwrap();
                Imr(combine_leaf_value(&iv.0, v, &ty.target.0))
            },
            _ => iv,
        }
    }

    /// The second pass, applied to the first-pass root `self`.
    pub fn compute_pass2(self, node: &Node, ty: &NodeType) -> (r: Imr)
        ensures
            r.0@ == imr_second_pass_of(self.0@, *node, *ty),
    {
        let iv = Imr::pass_two_iv(node);
        let once = combine_one(&iv.0, &self.0);
        match node {
            Node::Hidden(..) => Imr(once),
            _ => Imr(combine(&once, &ty.source.0, &ty.target.0)),
        }
    }
}

/// Structurally equal types have equal type roots.
pub proof fn lemma_tmr_deterministic(a: Type, b: Type)
    requires
        a == b,
    ensures
        tmr_of(a) == tmr_of(b),
{
}

/// The identity root of a pruned subtree does not depend on the node type
/// it is given: only on its first-pass root.
pub proof fn lemma_hidden_ignores_types(first: Seq<u8>, h: Cmr, t1: NodeType, t2: NodeType)
    ensures
        imr_second_pass_of(first, Node::Hidden(h), t1) == imr_second_pass_of(
            first,
            Node::Hidden(h),
            t2,
        ),
        imr_second_pass_of(first, Node::Hidden(h), t1) == combine_one_of(
            tag_iv_of("Simplicity-Draft\x1fHidden".spec_bytes()),
            first,
        ),
{
}

/// Outside a pruned subtree, the identity root is the compression of the
/// first-pass root (under the identity tag) with the source and target type
/// roots: nodes that differ only in their types feed different blocks to the
/// final compression.
pub proof fn lemma_types_reach_identity(first: Seq<u8>, node: Node, t1: NodeType, t2: NodeType)
    requires
        !(node is Hidden),
        t1.source.0@ != t2.source.0@ || t1.target.0@ != t2.target.0@,
    ensures
        imr_second_pass_of(first, node, t1) == compress_of_block(first, t1),
        imr_second_pass_of(first, node, t2) == compress_of_block(first, t2),
        t1.source.0@ + t1.target.0@ != t2.source.0@ + t2.target.0@,
{
    let a = t1.source.0@ + t1.target.0@;
    let b = t2.source.0@ + t2.target.0@;
    if a == b {
        assert(t1.source.0@ =~= a.take(32));
        assert(t2.source.0@ =~= b.take(32));
        assert(t1.target.0@ =~= a.skip(32));
        assert(t2.target.0@ =~= b.skip(32));
    }
}

/// The final compression of the second pass for a node that is not a pruned
/// subtree.
pub open spec fn compress_of_block(first: Seq<u8>, ty: NodeType) -> Seq<u8> {
    crate::hash::compress_of(
        combine_one_of(tag_iv_of("Simplicity-Draft\x1fIdentity".spec_bytes()), first),
        ty.source.0@ + ty.target.0@,
    )
}

} // verus!
