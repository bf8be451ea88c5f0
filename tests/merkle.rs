use bitcoin_hashes::{sha256, HashEngine};
use simplicity_core::hash::{combine, combine_leaf_value, combine_one, tag_iv};
use simplicity_core::merkle::{Cmr, Imr, Node, NodeType, Tmr, Type};
use simplicity_core::value::Value;

fn reference_tag_iv(tag: &str) -> [u8; 32] {
    let d = <sha256::Hash as bitcoin_hashes::Hash>::into_inner(<sha256::Hash as bitcoin_hashes::Hash>::hash(
        tag.as_bytes(),
    ));
    let mut e = <sha256::Hash as bitcoin_hashes::Hash>::engine();
    e.input(&d);
    e.input(&d);
    e.midstate().into_inner()
}

fn reference_compress(state: [u8; 32], block: &[u8]) -> [u8; 32] {
    let mut e = sha256::HashEngine::from_midstate(sha256::Midstate::from_inner(state), 0);
    e.input(block);
    e.midstate().into_inner()
}

fn unit() -> Type {
    Type::Unit
}

fn prod(a: Type, b: Type) -> Type {
    Type::Product(Box::new(a), Box::new(b))
}

fn sum(a: Type, b: Type) -> Type {
    Type::Sum(Box::new(a), Box::new(b))
}

#[test]
fn tag_iv_matches_sha256_midstate() {
    let tag = "Simplicity-Draft\x1fType\x1fone";
    let iv = tag_iv(tag);
    assert_eq!(iv, reference_tag_iv(tag));
    assert_ne!(iv, [0u8; 32]);
    assert_eq!(Tmr::get_iv(&Type::Unit).0, iv);
}

#[test]
fn combine_matches_compression() {
    let iv = tag_iv("Simplicity-Draft\x1fIdentity");
    let l = [1u8; 32];
    let r = [2u8; 32];
    let mut block = l.to_vec();
    block.extend_from_slice(&r);
    assert_eq!(combine(&iv, &l, &r), reference_compress(iv, &block));
    let mut block1 = vec![0u8; 32];
    block1.extend_from_slice(&r);
    assert_eq!(combine_one(&iv, &r), reference_compress(iv, &block1));
    assert_ne!(combine_one(&iv, &r), iv);
}

#[test]
fn tmr_deterministic() {
    let a = Tmr::of_type(&prod(unit(), sum(unit(), unit())));
    let b = Tmr::of_type(&prod(unit(), sum(unit(), unit())));
    assert_eq!(a, b);
}

#[test]
fn tmr_distinguishes_shapes() {
    let u = Tmr::of_type(&unit());
    let p = Tmr::of_type(&prod(unit(), unit()));
    let s = Tmr::of_type(&sum(unit(), unit()));
    assert_ne!(u, p);
    assert_ne!(p, s);
    assert_ne!(u, s);
    let expected = combine(&Tmr::get_iv(&prod(unit(), unit())).0, &u.0, &u.0);
    assert_eq!(p.0, expected);
}

fn node_type(src: Type, tgt: Type) -> NodeType {
    NodeType {
        source: Tmr::of_type(&src),
        target: Tmr::of_type(&tgt),
    }
}

#[test]
fn imr_type_sensitivity() {
    let t1 = node_type(unit(), unit());
    let t2 = node_type(prod(unit(), unit()), unit());
    let first1 = Imr::compute(&Node::Iden, None, None, None, &t1);
    let first2 = Imr::compute(&Node::Iden, None, None, None, &t2);
    assert_eq!(first1, first2);
    assert_ne!(
        first1.compute_pass2(&Node::Iden, &t1),
        first2.compute_pass2(&Node::Iden, &t2)
    );
}

#[test]
fn hidden_independent_of_types() {
    let h = Cmr([7u8; 32]);
    let node = Node::Hidden(h);
    let t1 = node_type(unit(), unit());
    let t2 = node_type(sum(unit(), unit()), prod(unit(), unit()));
    let first = Imr::compute(&node, None, None, None, &t1);
    assert_eq!(first, Imr(h.0));
    let a = first.compute_pass2(&node, &t1);
    let b = first.compute_pass2(&node, &t2);
    assert_eq!(a, b);
    let iv2 = tag_iv("Simplicity-Draft\x1fHidden");
    assert_eq!(a.0, combine_one(&iv2, &h.0));
}

#[test]
fn first_pass_by_arity() {
    let ty = node_type(unit(), unit());
    let l = Imr([3u8; 32]);
    let r = Imr([4u8; 32]);
    let iv_comp = Cmr::get_iv(&Node::Comp);
    assert_eq!(iv_comp.0, tag_iv("Simplicity-Draft\x1fCommitment\x1fcomp"));
    let comp = Imr::compute(&Node::Comp, Some(l), Some(r), None, &ty);
    assert_eq!(comp.0, combine(&iv_comp.0, &l.0, &r.0));
    let take = Imr::compute(&Node::Take, Some(l), None, None, &ty);
    assert_eq!(
        take.0,
        combine_one(&tag_iv("Simplicity-Draft\x1fCommitment\x1ftake"), &l.0)
    );
    let dis = Imr::compute(&Node::Disconnect, Some(l), Some(r), None, &ty);
    let iv_dis = tag_iv("Simplicity-Draft\x1fIdentity\x1fdisconnect");
    assert_eq!(Imr::get_iv(&Node::Disconnect).0, iv_dis);
    assert_eq!(dis.0, combine(&iv_dis, &l.0, &r.0));
    assert_ne!(Cmr::get_iv(&Node::Disconnect).0, iv_dis);
    assert_eq!(Cmr::get_iv(&Node::AssertL), Cmr::get_iv(&Node::Case));
    let fail = Imr::compute(&Node::Fail(Cmr([5u8; 32]), Cmr([6u8; 32])), None, None, None, &ty);
    assert_eq!(
        fail.0,
        combine(
            &tag_iv("Simplicity-Draft\x1fCommitment\x1ffail"),
            &[5u8; 32],
            &[6u8; 32]
        )
    );
}

#[test]
fn witness_leaf_depends_on_value() {
    let ty = node_type(unit(), prod(unit(), unit()));
    let v1 = Value::u8(1);
    let v2 = Value::u8(2);
    let a = Imr::compute(&Node::Witness, None, None, Some(&v1), &ty);
    let b = Imr::compute(&Node::Witness, None, None, Some(&v2), &ty);
    assert_ne!(a, b);
    let iv = tag_iv("Simplicity-Draft\x1fIdentity\x1fwitness");
    assert_eq!(a.0, combine_leaf_value(&iv, &v1, &ty.target.0));
    // tmr, bit length 8 as eight bytes, 24 zeros; then the byte and 63 zeros.
    let mut block0 = ty.target.0.to_vec();
    block0.extend_from_slice(&8u64.to_be_bytes());
    block0.extend_from_slice(&[0u8; 24]);
    let mut block1 = vec![1u8];
    block1.extend_from_slice(&[0u8; 63]);
    let expected = reference_compress(reference_compress(iv, &block0), &block1);
    assert_eq!(a.0, expected);
}

#[test]
fn witness_unit_value() {
    let ty = node_type(unit(), unit());
    let iv = tag_iv("Simplicity-Draft\x1fIdentity\x1fwitness");
    let a = Imr::compute(&Node::Witness, None, None, Some(&Value::Unit), &ty);
    let mut block0 = ty.target.0.to_vec();
    block0.extend_from_slice(&[0u8; 32]);
    assert_eq!(a.0, reference_compress(iv, &block0));
}
