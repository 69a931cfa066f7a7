use vstd::prelude::*;
use crate::terms::LitValue;

verus! {

/// The unique identifier of one expression node in a query tree, used as
/// the column name of the node's materialized result.  Produced by the
/// external query-tree walker; unique per node instance.
pub struct Context {
    pub name: String,
}

impl View for Context {
    type V = Seq<char>;

    open spec fn view(&self) -> Seq<char> {
        self.name@
    }
}

impl Context {
    pub fn new(name: String) -> (c: Context)
        ensures
            c@ == name@,
    {
        Context { name }
    }

    pub fn from_str(name: &str) -> (c: Context)
        ensures
            c@ == name@,
    {
        Context { name: String::from_str(name) }
    }

    pub fn as_str(&self) -> (s: &str)
        ensures
            s@ == self@,
    {
        self.name.as_str()
    }
}

impl Clone for Context {
    fn clone(&self) -> (c: Context)
        ensures
            c@ == self@,
    {
        Context { name: self.name.clone() }
    }
}

/// A query variable, identified by its name.
pub struct Variable {
    pub name: String,
}

impl View for Variable {
    type V = Seq<char>;

    open spec fn view(&self) -> Seq<char> {
        self.name@
    }
}

impl Variable {
    pub fn new(name: String) -> (v: Variable)
        ensures
            v@ == name@,
    {
        Variable { name }
    }

    pub fn from_str(name: &str) -> (v: Variable)
        ensures
            v@ == name@,
    {
        Variable { name: String::from_str(name) }
    }

    pub fn as_str(&self) -> (s: &str)
        ensures
            s@ == self@,
    {
        self.name.as_str()
    }
}

impl Clone for Variable {
    fn clone(&self) -> (v: Variable)
        ensures
            v@ == self@,
    {
        Variable { name: self.name.clone() }
    }
}

/// An IRI, as a plain string.
pub struct NamedNode {
    pub iri: String,
}

impl View for NamedNode {
    type V = Seq<char>;

    open spec fn view(&self) -> Seq<char> {
        self.iri@
    }
}

impl NamedNode {
    pub fn new(iri: String) -> (n: NamedNode)
        ensures
            n@ == iri@,
    {
        NamedNode { iri }
    }

    pub fn from_str(iri: &str) -> (n: NamedNode)
        ensures
            n@ == iri@,
    {
        NamedNode { iri: String::from_str(iri) }
    }

    pub fn as_str(&self) -> (s: &str)
        ensures
            s@ == self@,
    {
        self.iri.as_str()
    }
}

/// A literal constant: the IRI of its datatype and its typed value.
pub struct Literal {
    pub datatype: String,
    pub value: LitValue,
}

impl Literal {
    pub fn new(datatype: String, value: LitValue) -> (l: Literal)
        ensures
            l.datatype@ == datatype@,
            l.value == value,
    {
        Literal { datatype, value }
    }
}

/// The binary operators of the expression language.
#[derive(Clone, Copy, PartialEq, Eq, Structural)]
pub enum Operator {
    Eq,
    Lt,
    LtEq,
    Gt,
    GtEq,
    And,
    Or,
    Plus,
    Minus,
    Multiply,
    Divide,
}

/// The kind of an expression node, as far as type-compatibility checking
/// needs to see it.
pub enum Expression {
    Equal,
    Less,
    LessOrEqual,
    Greater,
    GreaterOrEqual,
    And,
    Or,
    Add,
    Subtract,
    Multiply,
    Divide,
    Literal(Literal),
    Other(String),
}

/// The built-in functions with a defined translation, plus `Custom` for
/// functions dispatched by IRI and `Other` for every function kind without
/// a translation.
pub enum Function {
    Year,
    Month,
    Day,
    Hours,
    Minutes,
    Seconds,
    Abs,
    Ceil,
    Floor,
    Round,
    Concat,
    Regex,
    Contains,
    StrStarts,
    StrEnds,
    Custom(NamedNode),
    Other(String),
}

/// The aggregate operations the group-by operator can evaluate.
#[derive(Clone, Copy, PartialEq, Eq, Structural)]
pub enum AggregateOp {
    Count,
    Sum,
    Min,
    Max,
    Sample,
}

/// One aggregate to evaluate during group-by: the input column, the
/// operation, and the output column's name.
pub struct AggregateExpression {
    pub input: String,
    pub op: AggregateOp,
    pub output: String,
}

} // verus!
