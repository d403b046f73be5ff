//! The three-way classification of one process against one variable.
//!
//! `Fail` means the environment record could not be read, `Nothing` means
//! it was read but the variable was absent, `Value` carries the variable's
//! text. The total order `Fail < Nothing < Value(s)`, with `Value` entries
//! ordered lexicographically, drives both output modes.

use vstd::prelude::*;
use vstd::string::StringExecFns;
use crate::order::{lex_lt, str_lt, lemma_lex_lt_trichotomy, lemma_lex_lt_transitive};

verus! {

/// Outcome of searching one process's environment record for one variable.
#[derive(Debug, PartialEq, Eq)]
pub enum EnvVal {
    /// The record could not be opened or read.
    Fail,
    /// The record was read but holds no entry for the variable.
    Nothing,
    /// The record holds the variable with this text.
    Value(String),
}

/// Mathematical image of an [`EnvVal`]: the text is a character sequence.
pub enum EnvClass {
    Fail,
    Nothing,
    Value(Seq<char>),
}

impl View for EnvVal {
    type V = EnvClass;

    open spec fn view(&self) -> EnvClass {
        match self {
            EnvVal::Fail => EnvClass::Fail,
            EnvVal::Nothing => EnvClass::Nothing,
            EnvVal::Value(s) => EnvClass::Value(s@),
        }
    }
}

/// `a` strictly precedes `b`: `Fail < Nothing < Value(s)`, and `Value`
/// entries compare lexicographically by their text.
pub open spec fn class_lt(a: EnvClass, b: EnvClass) -> bool {
    match (a, b) {
        (EnvClass::Fail, EnvClass::Nothing) => true,
        (EnvClass::Fail, EnvClass::Value(_)) => true,
        (EnvClass::Nothing, EnvClass::Value(_)) => true,
        (EnvClass::Value(x), EnvClass::Value(y)) => lex_lt(x, y),
        _ => false,
    }
}

/// The classification order: `Fail` precedes `Nothing`, both precede every
/// `Value`, and two `Value` entries are ordered exactly by the
/// lexicographic order of their texts.
pub proof fn lemma_class_order(s: Seq<char>, t: Seq<char>)
    ensures
        class_lt(EnvClass::Fail, EnvClass::Nothing),
        class_lt(EnvClass::Fail, EnvClass::Value(s)),
        class_lt(EnvClass::Nothing, EnvClass::Value(s)),
        class_lt(EnvClass::Value(s), EnvClass::Value(t)) == lex_lt(s, t),
        !class_lt(EnvClass::Nothing, EnvClass::Fail),
        !class_lt(EnvClass::Value(s), EnvClass::Fail),
        !class_lt(EnvClass::Value(s), EnvClass::Nothing),
{
}

/// `class_lt` is a strict total order: exactly one of `a < b`, `b < a`,
/// `a == b` holds, and the order is transitive.
pub proof fn lemma_class_lt_properties(a: EnvClass, b: EnvClass, c: EnvClass)
    ensures
        class_lt(a, b) || class_lt(b, a) || a == b,
        class_lt(a, b) ==> !class_lt(b, a),
        class_lt(a, b) ==> a != b,
        class_lt(a, b) && class_lt(b, c) ==> class_lt(a, c),
{
    match (a, b) {
        (EnvClass::Value(x), EnvClass::Value(y)) => {
            lemma_lex_lt_trichotomy(x, y);
        },
        _ => {},
    }
    if class_lt(a, b) && class_lt(b, c) {
        match (a, b, c) {
            (EnvClass::Value(x), EnvClass::Value(y), EnvClass::Value(z)) => {
                lemma_lex_lt_transitive(x, y, z);
            },
            _ => {},
        }
    }
}

impl Clone for EnvVal {
    fn clone(&self) -> (r: Self)
        ensures
            r@ == self@,
    {
        match self {
            EnvVal::Fail => EnvVal::Fail,
            EnvVal::Nothing => EnvVal::Nothing,
            EnvVal::Value(s) => EnvVal::Value(s.clone()),
        }
    }
}

/// Display form of a classification: `Fail` and `Nothing` as bare
/// tokens, a value quoted.
pub open spec fn rendered(c: EnvClass) -> Seq<char> {
    match c {
        EnvClass::Fail => "Fail"@,
        EnvClass::Nothing => "Nothing"@,
        EnvClass::Value(s) => "\""@ + s + "\""@,
    }
}

impl EnvVal {
    /// The display form of this classification.
    pub fn render(&self) -> (r: String)
        ensures
            r@ == rendered(self@),
    {
        match self {
            EnvVal::Fail => "Fail".to_owned(),
            EnvVal::Nothing => "Nothing".to_owned(),
            EnvVal::Value(v) => {
                let mut out = "\"".to_owned();
                out.append(v.as_str());
                out.append("\"");
                out
            },
        }
    }

    /// Whether the two classifications are the same, texts included.
    pub fn same_class(&self, other: &EnvVal) -> (r: bool)
        ensures
            r == (self@ == other@),
    {
        match (self, other) {
            (EnvVal::Fail, EnvVal::Fail) => true,
            (EnvVal::Nothing, EnvVal::Nothing) => true,
            (EnvVal::Value(x), EnvVal::Value(y)) => x.eq(y),
            _ => false,
        }
    }

    /// Whether `self` strictly precedes `other` in the classification order.
    pub fn lt(&self, other: &EnvVal) -> (r: bool)
        ensures
            r == class_lt(self@, other@),
    {
        match (self, other) {
            (EnvVal::Fail, EnvVal::Nothing) => true,
            (EnvVal::Fail, EnvVal::Value(_)) => true,
            (EnvVal::Nothing, EnvVal::Value(_)) => true,
            (EnvVal::Value(x), EnvVal::Value(y)) => str_lt(x.as_str(), y.as_str()),
            _ => false,
        }
    }
}

} // verus!
