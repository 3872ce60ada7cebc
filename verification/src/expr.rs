//! Arithmetic over grid columns, as a study writes it. Parsing and evaluating are the expression
//! crate's, on floats; which names an expression reads, and whether the grid has each of them with
//! a value per cell, is this crate's.
use vstd::prelude::*;

use crate::find::{index_of, lemma_index_of_bounds, position};
use crate::rank::{ascending, insert_sorted, views};
use crate::text::owned;

verus! {

/// An expression's text and the names it reads, sorted, each once.
#[derive(Clone, Debug)]
pub struct Expr {
    src: String,
    vars: Vec<String>,
}

/// Why an expression cannot be evaluated over the columns at hand.
#[derive(Clone, Debug)]
pub enum BindError {
    /// It reads a name the source does not publish.
    Unknown(String),
    /// A column it reads does not carry one value per cell.
    Length { name: String, values: usize, rows: usize },
}

/// Whether the grid publishes `name` with one value per cell.
pub open spec fn column_ok(columns: Seq<String>, values: Seq<usize>, name: Seq<char>, rows: usize) -> bool {
    match index_of(columns, name) {
        Some(c) => values[c] == rows,
        None => false,
    }
}

/// The variable identifiers the expression crate's parser finds in a text, in the order its tree
/// yields them and with repeats; `None` where the text does not parse.
pub uninterp spec fn expr_identifiers(src: Seq<char>) -> Option<Seq<Seq<char>>>;

/// `evalexpr::build_operator_tree`, then `Node::iter_variable_identifiers`: the contract claims
/// only that the identifiers are a function of the text, and that the text parses exactly when the
/// tree is built.
#[verifier::external_body]
fn parse_identifiers(src: &str) -> (r: Option<Vec<String>>)
    ensures
        r is Some <==> expr_identifiers(src@) is Some,
        r matches Some(v) ==> views(v@) == expr_identifiers(src@)->0,
{
    match evalexpr::build_operator_tree::<evalexpr::DefaultNumericTypes>(src) {
        Ok(tree) => Some(tree.iter_variable_identifiers().map(String::from).collect()),
        Err(_) => None,
    }
}

impl Expr {
    pub closed spec fn source(&self) -> Seq<char> {
        self.src@
    }

    pub closed spec fn names(&self) -> Seq<Seq<char>> {
        views(self.vars@)
    }

    /// An expression as a study writes it: its text, and the names it reads, sorted and each once.
    /// `None`: the text is not an expression.
    pub fn parse(src: &str) -> (r: Option<Expr>)
        ensures
            r is Some <==> expr_identifiers(src@) is Some,
            r matches Some(e) ==> {
                &&& e.source() == src@
                &&& ascending(e.names())
                &&& forall|x: Seq<char>| e.names().contains(x) <==> expr_identifiers(src@)->0.contains(x)
            },
    {
        match parse_identifiers(src) {
            Some(ids) => Some(Expr::new(owned(src), ids)),
            None => None,
        }
    }

    /// An expression from its text and the variable identifiers the parser found in it, in the
    /// order found and with repeats.
    fn new(src: String, identifiers: Vec<String>) -> (e: Expr)
        ensures
            e.source() == src@,
            ascending(e.names()),
            forall|x: Seq<char>| e.names().contains(x) <==> views(identifiers@).contains(x),
    {
        let mut vars: Vec<String> = Vec::new();
        let mut i: usize = 0;
        while i < identifiers.len()
            invariant
                i <= identifiers@.len(),
                ascending(views(vars@)),
                forall|x: Seq<char>| views(vars@).contains(x) <==> views(identifiers@.take(i as int)).contains(x),
            decreases identifiers@.len() - i,
        {
            let ghost before = views(vars@);
            let ghost taken = views(identifiers@.take(i as int));
            insert_sorted(&mut vars, identifiers[i].clone());
            assert(views(identifiers@.take(i + 1)) =~= taken.push(identifiers@[i as int]@));
            assert forall|x: Seq<char>| views(vars@).contains(x) <==> views(identifiers@.take(i + 1)).contains(x) by {
                let t1 = taken.push(identifiers@[i as int]@);
                if taken.contains(x) {
                    let k = choose|k: int| 0 <= k < taken.len() && taken[k] == x;
                    assert(t1[k] == x);
                }
                if t1.contains(x) {
                    let k = choose|k: int| 0 <= k < t1.len() && t1[k] == x;
                    if k < taken.len() {
                        assert(taken[k] == x);
                    }
                }
                if x == identifiers@[i as int]@ {
                    assert(t1[taken.len() as int] == x);
                }
            }
            i += 1;
        }
        assert(identifiers@.take(i as int) =~= identifiers@);
        Expr { src, vars }
    }

    pub fn src(&self) -> (s: &str)
        ensures
            s@ == self.source(),
    {
        self.src.as_str()
    }

    pub fn vars(&self) -> (v: &Vec<String>)
        ensures
            views(v@) == self.names(),
    {
        &self.vars
    }

    /// Where each name the expression reads stands among the grid's columns, in the order of
    /// `names()`, each column checked to carry one value per cell. `columns` are the column names,
    /// `values` how many values each carries.
    pub fn bind(&self, columns: &Vec<String>, values: &Vec<usize>, rows: usize) -> (r: Result<Vec<usize>, BindError>)
        requires
            values@.len() == columns@.len(),
        ensures
            r matches Ok(at) ==> at@.len() == self.names().len() && forall|k: int|
                0 <= k < at@.len() ==> index_of(columns@, self.names()[k]) == Some(#[trigger] at@[k] as int)
                    && values@[at@[k] as int] == rows,
            r matches Err(BindError::Unknown(n)) ==> self.names().contains(n@) && index_of(columns@, n@) is None,
            r matches Err(BindError::Length { name, values: v, rows: w }) ==> {
                &&& self.names().contains(name@)
                &&& index_of(columns@, name@) is Some
                &&& values@[index_of(columns@, name@)->0] == v
                &&& v != rows
                &&& w == rows
            },
            r is Ok <==> forall|k: int|
                0 <= k < self.names().len() ==> #[trigger] column_ok(columns@, values@, self.names()[k], rows),
    {
        let mut at: Vec<usize> = Vec::new();
        let mut k: usize = 0;
        while k < self.vars.len()
            invariant
                k <= self.vars@.len(),
                values@.len() == columns@.len(),
                at@.len() == k,
                forall|j: int|
                    0 <= j < k ==> index_of(columns@, views(self.vars@)[j]) == Some(#[trigger] at@[j] as int)
                        && at@[j] < columns@.len() && values@[at@[j] as int] == rows,
            decreases self.vars@.len() - k,
        {
            let name = &self.vars[k];
            assert(views(self.vars@)[k as int] == name@);
            proof {
                lemma_index_of_bounds(columns@, name@);
            }
            match position(columns, name.as_str()) {
                None => {
                    assert(views(self.vars@).contains(name@));
                    assert(!column_ok(columns@, values@, self.names()[k as int], rows));
                    return Err(BindError::Unknown(name.clone()));
                },
                Some(c) => {
                    if values[c] != rows {
                        assert(views(self.vars@).contains(name@));
                        assert(!column_ok(columns@, values@, self.names()[k as int], rows));
                        return Err(BindError::Length { name: name.clone(), values: values[c], rows });
                    }
                    at.push(c);
                },
            }
            k += 1;
        }
        assert forall|j: int| 0 <= j < self.names().len() implies #[trigger] column_ok(columns@, values@, self.names()[j], rows) by {
            assert(index_of(columns@, views(self.vars@)[j]) == Some(at@[j] as int));
        }
        Ok(at)
    }
}

} // verus!
