use vstd::prelude::*;

verus! {

broadcast use vstd::std_specs::vec::group_vec_axioms, vstd::seq::group_seq_axioms;

/// The immutable tree of tagged values ("S-expressions") that the reader
/// produces. A value owns its children and is never mutated once built.
#[derive(Debug, PartialEq, Eq)]
pub enum MalType {
    MalList(Vec<MalType>),
    Vector(Vec<MalType>),
    Symbol(String),
    Keyword(String),
    Str(String),
    Number(i64),
    Bool(bool),
    Nil,
}

/// The mathematical model of a value tree: text as `Seq<char>`, numbers as
/// `int`, collections as `Seq<Form>`. Contracts speak in terms of this model.
#[verifier::ext_equal]
pub enum Form {
    List(Seq<Form>),
    Vector(Seq<Form>),
    Symbol(Seq<char>),
    Keyword(Seq<char>),
    Str(Seq<char>),
    Number(int),
    Bool(bool),
    Nil,
}

impl View for MalType {
    type V = Form;

    open spec fn view(&self) -> Form
        decreases self,
    {
        match self {
            MalType::MalList(es) => Form::List(
                Seq::new(es@.len(), |i: int| if 0 <= i < es@.len() { es@[i]@ } else { Form::Nil }),
            ),
            MalType::Vector(es) => Form::Vector(
                Seq::new(es@.len(), |i: int| if 0 <= i < es@.len() { es@[i]@ } else { Form::Nil }),
            ),
            MalType::Symbol(s) => Form::Symbol(s@),
            MalType::Keyword(s) => Form::Keyword(s@),
            MalType::Str(s) => Form::Str(s@),
            MalType::Number(n) => Form::Number(*n as int),
            MalType::Bool(b) => Form::Bool(*b),
            MalType::Nil => Form::Nil,
        }
    }
}

/// The models of a sequence of values.
pub open spec fn forms_of(es: Seq<MalType>) -> Seq<Form> {
    es.map_values(|e: MalType| e@)
}

/// The view of a collection value is the sequence of its elements' views.
pub proof fn lemma_collection_view(v: MalType)
    ensures
        (v matches MalType::MalList(es) ==> v@ == Form::List(forms_of(es@))),
        (v matches MalType::Vector(es) ==> v@ == Form::Vector(forms_of(es@))),
{
    match v {
        MalType::MalList(es) => {
            assert(v@ is List);
            assert(v@->List_0 =~= forms_of(es@));
        },
        MalType::Vector(es) => {
            assert(v@ is Vector);
            assert(v@->Vector_0 =~= forms_of(es@));
        },
        _ => {},
    }
}

pub proof fn lemma_forms_of_push(es: Seq<MalType>, e: MalType)
    ensures
        forms_of(es.push(e)) == forms_of(es).push(e@),
{
    assert(forms_of(es.push(e)) =~= forms_of(es).push(e@));
}

impl MalType {
    /// True exactly when the value is a `MalList`.
    pub fn is_list(&self) -> (r: bool)
        ensures
            r == (self@ is List),
    {
        match self {
            MalType::MalList(_) => true,
            _ => false,
        }
    }
}

/// The kinds of failure a parse can end in.
#[derive(Debug, Clone, Copy, PartialEq, Eq, Structural)]
pub enum ErrorKind {
    /// A form was expected but no tokens remain.
    UnexpectedEndOfInput,
    /// A list or vector was opened but never closed.
    UnterminatedCollection,
    /// A string literal's closing quote was never found, or a raw newline
    /// appeared inside it.
    UnterminatedString,
    /// A token that resolves to no atom and plays no structural role.
    IllegalCharacter,
    /// A numeric-looking token that does not denote a 64-bit signed integer.
    MalformedNumber,
    /// Nesting deeper than the reader's fixed recursion budget.
    DepthLimitExceeded,
}

/// The terminal result of a failed parse: no partial tree is ever returned.
#[derive(Debug, Clone, Copy, PartialEq, Eq, Structural)]
pub struct MalError(pub ErrorKind);

pub type MalResult = Result<MalType, MalError>;

} // verus!
