use vstd::prelude::*;

verus! {

broadcast use vstd::seq::axiom_seq_index_decreases, vstd::seq::axiom_seq_subrange_decreases, vstd::std_specs::vec::axiom_vec_decreases_to_view;

/// An exact ratio of two signed 64-bit integers, kept exactly as parsed:
/// no reduction to lowest terms and no check on the denominator.
#[derive(Clone, Debug, PartialEq, PartialOrd)]
pub struct Ratio {
    numer: i64,
    denom: i64,
}

impl View for Ratio {
    type V = (int, int);

    closed spec fn view(&self) -> (int, int) {
        (self.numer as int, self.denom as int)
    }
}

impl Ratio {
    pub fn new(numer: i64, denom: i64) -> (r: Ratio)
        ensures
            r@ == (numer as int, denom as int),
    {
        Ratio { numer, denom }
    }

    pub fn numer(&self) -> (r: i64)
        ensures
            r as int == self@.0,
    {
        self.numer
    }

    pub fn denom(&self) -> (r: i64)
        ensures
            r as int == self@.1,
    {
        self.denom
    }
}

/// One parsed form. `Float` holds the literal text of the float, exactly as
/// it stood in the source (always of the shape `-? digit+ . digit*`), so that
/// the model stays free of floating-point fields; callers recover the value
/// with `str::parse::<f64>`. `Symbol` and `Keyword` carry a namespace and a
/// name; the reader always leaves the namespace empty.
#[derive(Debug, PartialEq)]
pub enum Value {
    Int(i64),
    Float(String),
    Rational(Ratio),
    String(String),
    Symbol(String, String),
    Keyword(String, String),
    ListParen(Vec<Value>),
    ListBracket(Vec<Value>),
    ListBrace(Vec<Value>),
}

/// The mathematical shape of a form: integers as `int`, text as `Seq<char>`,
/// list contents as `Seq<FormModel>`.
pub enum FormModel {
    Int(int),
    Float(Seq<char>),
    Rational(int, int),
    Str(Seq<char>),
    Symbol(Seq<char>, Seq<char>),
    Keyword(Seq<char>, Seq<char>),
    ListParen(Seq<FormModel>),
    ListBracket(Seq<FormModel>),
    ListBrace(Seq<FormModel>),
}

impl Value {
    /// The form a `Value` stands for, with nested lists modelled recursively.
    pub open spec fn model(self) -> FormModel
        decreases self,
        via Value::model_decreases
    {
        match self {
            Value::Int(n) => FormModel::Int(n as int),
            Value::Float(text) => FormModel::Float(text@),
            Value::Rational(r) => FormModel::Rational(r@.0, r@.1),
            Value::String(s) => FormModel::Str(s@),
            Value::Symbol(ns, n) => FormModel::Symbol(ns@, n@),
            Value::Keyword(ns, n) => FormModel::Keyword(ns@, n@),
            Value::ListParen(items) => FormModel::ListParen(models_of(items@)),
            Value::ListBracket(items) => FormModel::ListBracket(models_of(items@)),
            Value::ListBrace(items) => FormModel::ListBrace(models_of(items@)),
        }
    }

    #[via_fn]
    proof fn model_decreases(self) {
        match self {
            Value::ListParen(items) => {
                assert(decreases_to!(items => items@));
            },
            Value::ListBracket(items) => {
                assert(decreases_to!(items => items@));
            },
            Value::ListBrace(items) => {
                assert(decreases_to!(items => items@));
            },
            _ => {},
        }
    }
}

/// The models of a sequence of values, in order.
pub open spec fn models_of(s: Seq<Value>) -> Seq<FormModel>
    decreases s,
    via models_of_decreases
{
    if s.len() == 0 {
        Seq::empty()
    } else {
        models_of(s.drop_last()).push(s.last().model())
    }
}

#[via_fn]
proof fn models_of_decreases(s: Seq<Value>) {
    if s.len() > 0 {
        assert(decreases_to!(s => s.drop_last()));
        assert(decreases_to!(s => s.last()));
    }
}

/// Whether every `Float` in a form carries a text of the float-literal
/// shape `-? digit+ . digit*`.
pub open spec fn floats_ok(f: FormModel) -> bool
    decreases f,
{
    match f {
        FormModel::Float(t) => crate::numbers::is_float_text(t),
        FormModel::ListParen(es) => floats_ok_seq(es),
        FormModel::ListBracket(es) => floats_ok_seq(es),
        FormModel::ListBrace(es) => floats_ok_seq(es),
        _ => true,
    }
}

pub open spec fn floats_ok_seq(es: Seq<FormModel>) -> bool
    decreases es,
    via floats_ok_seq_decreases
{
    if es.len() == 0 {
        true
    } else {
        floats_ok_seq(es.drop_last()) && floats_ok(es.last())
    }
}

#[via_fn]
proof fn floats_ok_seq_decreases(es: Seq<FormModel>) {
    if es.len() > 0 {
        assert(decreases_to!(es => es.drop_last()));
        assert(decreases_to!(es => es.last()));
    }
}

pub proof fn lemma_floats_ok_seq_cons(f: FormModel, r: Seq<FormModel>)
    requires
        floats_ok(f),
        floats_ok_seq(r),
    ensures
        floats_ok_seq(seq![f] + r),
    decreases r.len(),
{
    if r.len() == 0 {
        assert((seq![f] + r) =~= seq![f]);
        assert(seq![f].drop_last() =~= Seq::<FormModel>::empty());
        assert(floats_ok_seq(Seq::<FormModel>::empty()));
        assert(floats_ok_seq(seq![f]));
    } else {
        assert((seq![f] + r).drop_last() =~= seq![f] + r.drop_last());
        assert((seq![f] + r).last() == r.last());
        lemma_floats_ok_seq_cons(f, r.drop_last());
        assert(floats_ok_seq(seq![f] + r));
    }
}

} // verus!
