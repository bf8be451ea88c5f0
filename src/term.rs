//! Program terms, and reading back the constant that a "scribe" term
//! (built of unit, injections and pairs alone) outputs.
use crate::merkle::Cmr;
use crate::value::Value;
use vstd::prelude::*;

verus! {

/// A program term: a combinator applied to its sub-terms.
#[derive(PartialEq, Eq, Debug)]
pub enum TermDag {
    Iden,
    Unit,
    InjL(Box<TermDag>),
    InjR(Box<TermDag>),
    Take(Box<TermDag>),
    Drop(Box<TermDag>),
    Comp(Box<TermDag>, Box<TermDag>),
    Case(Box<TermDag>, Box<TermDag>),
    Pair(Box<TermDag>, Box<TermDag>),
    Disconnect(Box<TermDag>, Box<TermDag>),
    Witness,
    Fail(Cmr, Cmr),
    Hidden(Cmr),
    Jet(Cmr),
}

/// The constant a scribe term outputs: unit gives the unit value, an
/// injection the matching sum, a pair the product; any other combinator
/// makes the term no scribe (`None`).
pub open spec fn scribed_value_of(t: TermDag) -> Option<Value>
    decreases t,
{
    match t {
        TermDag::Unit => Some(Value::Unit),
        TermDag::InjL(l) => match scribed_value_of(*l) {
            Some(v) => Some(Value::SumL(Box::new(v))),
            None => None,
        },
        TermDag::InjR(r) => match scribed_value_of(*r) {
            Some(v) => Some(Value::SumR(Box::new(v))),
            None => None,
        },
        TermDag::Pair(l, r) => match (scribed_value_of(*l), scribed_value_of(*r)) {
            (Some(a), Some(b)) => Some(Value::Prod(Box::new(a), Box::new(b))),
            _ => None,
        },
        _ => None,
    }
}

/// Reads the constant that the scribe term `dag` outputs; `None` where
/// `dag` holds a combinator other than unit, injections and pairs.
pub fn read_scribed_value(dag: &TermDag) -> (r: Option<Value>)
    ensures
        r == scribed_value_of(*dag),
    decreases dag,
{
    match dag {
        TermDag::Unit => Some(Value::Unit),
        TermDag::InjL(l) => match read_scribed_value(l) {
            Some(v) => Some(Value::sum_l(v)),
            None => None,
        },
        TermDag::InjR(r) => match read_scribed_value(r) {
            Some(v) => Some(Value::sum_r(v)),
            None => None,
        },
        TermDag::Pair(l, r) => {
            let a = read_scribed_value(l);
            let b = read_scribed_value(r);
            match (a, b) {
                (Some(a), Some(b)) => Some(Value::prod(a, b)),
                _ => None,
            }
        },
        _ => None,
    }
}

} // verus!
