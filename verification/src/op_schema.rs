//! What an operator calls its inputs and outputs.
//!
//! A model says which value is wired to each position of an operator, but never
//! what the operator calls that position: a node holds a list of inputs and a
//! list of outputs and nothing else. The names — `X`, `W` and `B` for a `Conv` —
//! are part of the operator's schema, so they are carried in a table.

use crate::chars::{self, chars_of, split};
use crate::schema_table::SCHEMAS;
use crate::text::{self, decimal_text};
use vstd::prelude::*;
use vstd::string::*;

verus! {

/// How many values a formal parameter stands for.
#[derive(Copy, Clone, PartialEq, Eq, Debug, Structural)]
pub enum Arity {
    Required,
    /// May be left out. ONNX marks an omitted parameter with an empty name,
    /// keeping the ones after it in place, so positions still line up.
    Optional,
    /// Stands for any number of values, and so comes last.
    Variadic,
}

/// A row of a table of operators: the type, the domain, the inputs and the
/// outputs.
pub type Row = (&'static str, &'static str, &'static str, &'static str);

/// The signature of one operator.
pub struct OpSchema {
    /// Operator domain. The empty string is the default ONNX domain.
    pub domain: String,
    pub op_type: String,
    pub inputs: Vec<(String, Arity)>,
    pub outputs: Vec<(String, Arity)>,
}

#[verifier::ext_equal]
pub struct SchemaView {
    pub domain: Seq<char>,
    pub op_type: Seq<char>,
    pub inputs: Seq<(Seq<char>, Arity)>,
    pub outputs: Seq<(Seq<char>, Arity)>,
}

impl SchemaView {
    /// Whether only the last parameters stand for any number of values.
    pub open spec fn wf(self) -> bool {
        variadic_last(self.inputs) && variadic_last(self.outputs)
    }
}

/// A list of parameters as plain values.
pub open spec fn param_views(params: Seq<(String, Arity)>) -> Seq<(Seq<char>, Arity)> {
    Seq::new(params.len(), |i: int| (params[i].0@, params[i].1))
}

impl View for OpSchema {
    type V = SchemaView;

    open spec fn view(&self) -> SchemaView {
        SchemaView {
            domain: self.domain@,
            op_type: self.op_type@,
            inputs: param_views(self.inputs@),
            outputs: param_views(self.outputs@),
        }
    }
}

/// A parameter as a row of the table writes it. Only the last one of a list
/// can stand for any number of values.
pub open spec fn param_model(word: Seq<char>, last: bool) -> (Seq<char>, Arity) {
    if word.len() > 0 && word.last() == '?' {
        (word.drop_last(), Arity::Optional)
    } else if last && word.len() > 0 && word.last() == '*' {
        (word.drop_last(), Arity::Variadic)
    } else {
        (word, Arity::Required)
    }
}

/// A list of parameters as a row of the table writes it.
pub open spec fn params_model(list: Seq<char>) -> Seq<(Seq<char>, Arity)> {
    if list.len() == 0 {
        Seq::empty()
    } else {
        let words = chars::split_on(list, ' ');
        Seq::new(words.len(), |i: int| param_model(words[i], i == words.len() - 1))
    }
}

/// The signature that a row of the table gives.
pub open spec fn schema_model(row: Row) -> SchemaView {
    SchemaView {
        op_type: row.0@,
        domain: row.1@,
        inputs: params_model(row.2@),
        outputs: params_model(row.3@),
    }
}

/// The domain, with the explicit spelling of the default domain taken as the
/// default domain.
pub open spec fn normalized(domain: Seq<char>) -> Seq<char> {
    if domain == "ai.onnx"@ {
        Seq::empty()
    } else {
        domain
    }
}

/// The first of the signatures from the row `from` on that is of this operator.
pub open spec fn find_schema(
    rows: Seq<Row>,
    from: int,
    domain: Seq<char>,
    op_type: Seq<char>,
) -> Option<SchemaView>
    decreases rows.len() - from,
{
    if from < 0 || from >= rows.len() {
        None
    } else {
        let schema = schema_model(rows[from]);
        if schema.op_type == op_type && schema.domain == normalized(domain) {
            Some(schema)
        } else {
            find_schema(rows, from + 1, domain, op_type)
        }
    }
}

/// The signature of an operator according to a table.
pub open spec fn schema_in(
    table: Seq<Row>,
    domain: Seq<char>,
    op_type: Seq<char>,
) -> Option<SchemaView> {
    find_schema(table, 0, domain, op_type)
}

fn parse_param(word: &Vec<char>, last: bool) -> (param: (String, Arity))
    ensures
        (param.0@, param.1) == param_model(word@, last),
{
    let count: usize = word.len();
    let (end, arity): (usize, Arity) = if count > 0 && word[count - 1] == '?' {
        (count - 1, Arity::Optional)
    } else if last && count > 0 && word[count - 1] == '*' {
        (count - 1, Arity::Variadic)
    } else {
        (count, Arity::Required)
    };
    let mut name: String = String::new();
    for i in 0..end
        invariant
            end <= word@.len(),
            name@ == word@.take(i as int),
    {
        name.push(word[i]);
        assert(word@.take(i + 1) =~= word@.take(i as int).push(word@[i as int]));
    }
    proof {
        if end == count {
            assert(word@.take(end as int) =~= word@);
        } else {
            assert(word@.take(end as int) =~= word@.drop_last());
        }
    }
    (name, arity)
}

fn parse_params(list: &Vec<char>) -> (params: Vec<(String, Arity)>)
    ensures
        param_views(params@) == params_model(list@),
{
    let mut params: Vec<(String, Arity)> = Vec::new();
    if list.len() == 0 {
        assert(param_views(params@) =~= params_model(list@));
        return params;
    }
    let words: Vec<Vec<char>> = split(list, ' ');
    let ghost views = chars::split_on(list@, ' ');
    assert(views == chars::pieces_view(words@));
    let count: usize = words.len();
    for i in 0..count
        invariant
            count == words@.len(),
            views == chars::pieces_view(words@),
            params@.len() == i,
            forall|k: int|
                0 <= k < i ==> ((#[trigger] params@[k]).0@, params@[k].1) == param_model(
                    views[k],
                    k == count - 1,
                ),
    {
        params.push(parse_param(&words[i], i == count - 1));
    }
    assert(param_views(params@) =~= params_model(list@));
    params
}

fn parse_schema(row: Row) -> (schema: OpSchema)
    ensures
        schema@ == schema_model(row),
{
    OpSchema {
        domain: row.1.to_owned(),
        op_type: row.0.to_owned(),
        inputs: parse_params(&chars_of(row.2)),
        outputs: parse_params(&chars_of(row.3)),
    }
}

/// Treats the explicit spelling of the default domain as the default domain.
fn normalize(domain: &str) -> (result: &str)
    ensures
        result@ == normalized(domain@),
{
    if *domain == *"ai.onnx" {
        proof {
            reveal_strlit("");
            assert(""@ =~= Seq::<char>::empty());
        }
        ""
    } else {
        domain
    }
}

/// Finds the signature of an operator in a table.
pub fn find_in(table: &[Row], domain: &str, op_type: &str) -> (schema: Option<OpSchema>)
    ensures
        chars::opt_view(schema) == schema_in(table@, domain@, op_type@),
        schema is Some ==> schema->0@.wf(),
{
    let wanted: &str = normalize(domain);
    for i in 0..table.len()
        invariant
            wanted@ == normalized(domain@),
            schema_in(table@, domain@, op_type@) == find_schema(
                table@,
                i as int,
                domain@,
                op_type@,
            ),
    {
        let row: Row = table[i];
        if *row.0 == *op_type && *row.1 == *wanted {
            return Some(parse_schema(row));
        }
    }
    None
}

/// Finds the signature of an operator, if it is one this build knows.
///
/// Operators from other domains — the `com.microsoft` fusions, or anything a
/// runtime has added of its own — have no published signature here, and their
/// parameters stay unnamed.
pub fn lookup(domain: &str, op_type: &str) -> (schema: Option<OpSchema>)
    ensures
        chars::opt_view(schema) == schema_in(SCHEMAS@, domain@, op_type@),
        schema is Some ==> schema->0@.wf(),
{
    find_in(vstd::array::array_as_slice(&SCHEMAS), domain, op_type)
}

/// All the signatures of a table, in order.
pub fn schemas_in(table: &[Row]) -> (schemas: Vec<OpSchema>)
    ensures
        chars::views(schemas@) == Seq::new(table@.len(), |i: int| schema_model(table@[i])),
{
    let mut schemas: Vec<OpSchema> = Vec::new();
    for i in 0..table.len()
        invariant
            schemas@.len() == i,
            forall|k: int| 0 <= k < i ==> (#[trigger] schemas@[k])@ == schema_model(table@[k]),
    {
        schemas.push(parse_schema(table[i]));
    }
    assert(chars::views(schemas@) =~= Seq::new(table@.len(), |i: int| schema_model(table@[i])));
    schemas
}

/// Whether only the last parameter stands for any number of values.
pub open spec fn variadic_last(params: Seq<(Seq<char>, Arity)>) -> bool {
    forall|i: int|
        0 <= i < params.len() - 1 ==> (#[trigger] params[i]).1 != Arity::Variadic
}

/// The name of the parameter at `index`. One that stands for any number of
/// values covers every position from its own onwards, and is numbered off its
/// start.
pub open spec fn parameter_name(
    params: Seq<(Seq<char>, Arity)>,
    index: nat,
) -> Option<Seq<char>> {
    if index < params.len() && params[index as int].1 != Arity::Variadic {
        Some(params[index as int].0)
    } else if params.len() > 0 && params.last().1 == Arity::Variadic {
        Some(
            params.last().0 + "["@ + text::decimal((index - (params.len() - 1)) as nat) + "]"@,
        )
    } else {
        None
    }
}

/// The name of the parameter at `index`, as ONNX writes it.
///
/// A variadic parameter covers every position from its own onwards, so it is
/// numbered off its start: the third input of a `Concat` is `inputs[2]`.
pub fn parameter(params: &Vec<(String, Arity)>, index: usize) -> (name: Option<String>)
    requires
        variadic_last(param_views(params@)),
    ensures
        chars::opt_view(name) == parameter_name(param_views(params@), index as nat),
{
    let ghost views = param_views(params@);
    let count: usize = params.len();
    if index < count {
        assert(views[index as int] == (params@[index as int].0@, params@[index as int].1));
        if params[index].1 != Arity::Variadic {
            return Some(params[index].0.clone());
        }
    }
    if count > 0 {
        let last: usize = count - 1;
        assert(views[last as int] == (params@[last as int].0@, params@[last as int].1));
        if params[last].1 == Arity::Variadic {
            let mut name: String = params[last].0.clone();
            name.append("[");
            let number: String = decimal_text((index - last) as u64);
            name.append(number.as_str());
            name.append("]");
            return Some(name);
        }
    }
    None
}

} // verus!
