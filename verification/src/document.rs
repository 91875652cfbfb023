//! Parsing of a declaration file's text into a table of generic values.

use vstd::prelude::*;
use crate::error::{ErrorKind, LoadError, LoadResult};
use crate::map::StrMap;
use crate::node::{Node, Table};
use crate::text::{decimal, decimal_string};

verus! {

/// The table that the TOML parser reads from a text, or `None` where the text
/// is not well-formed TOML.
pub uninterp spec fn toml_document(text: Seq<char>) -> Option<Table>;

/// Turns a value of the `toml` crate into a node of this library, variant by
/// variant: a scalar keeps what it holds (a float as its bits), an array its
/// values in their order, a table its entries in the order of their keys. A
/// table of the `toml` crate is a `BTreeMap`, so no key occurs twice.
#[verifier::external_body]
fn node_from_toml(v: toml::Value) -> Node {
    match v {
        toml::Value::String(s) => Node::String(s),
        toml::Value::Integer(i) => Node::Integer(i),
        toml::Value::Float(x) => Node::Float(x.to_bits()),
        toml::Value::Boolean(b) => Node::Boolean(b),
        toml::Value::Datetime(d) => Node::Datetime(d),
        toml::Value::Array(a) => Node::Array(a.into_iter().map(node_from_toml).collect()),
        toml::Value::Table(t) => Node::Table(
            StrMap { entries: t.into_iter().map(|(k, v)| (k, node_from_toml(v))).collect() },
        ),
    }
}

/// The errors that the TOML parser reports for a text that is not
/// well-formed, in the order in which it reports them: the line and the
/// column at which each begins, counted from 0, and its description.
pub uninterp spec fn toml_errors(text: Seq<char>) -> Seq<(nat, nat, Seq<char>)>;

/// The errors of a parser as contracts speak of them.
pub open spec fn error_views(errors: Seq<(usize, usize, String)>) -> Seq<(nat, nat, Seq<char>)> {
    Seq::new(errors.len(), |i: int| (errors[i].0 as nat, errors[i].1 as nat, errors[i].2@))
}

/// `toml::Parser::parse`: reads a text as TOML. The result is the table that
/// the parser builds, its values turned into nodes; where the parser builds
/// none, the errors that it reports, each with the line and column that
/// `toml::Parser::to_linecol` gives for its start. The parser reads nothing
/// but the text, so the same text gives the same table and the same errors.
#[verifier::external_body]
fn parse_document(text: &str) -> (res: Result<Table, Vec<(usize, usize, String)>>)
    ensures
        match res {
            Ok(t) => toml_document(text@) == Some(t),
            Err(errors) => toml_document(text@) is None && error_views(errors@) == toml_errors(
                text@,
            ),
        },
{
    let mut parser = toml::Parser::new(text);
    match parser.parse() {
        Some(t) => Ok(StrMap { entries: t.into_iter().map(|(k, v)| (k, node_from_toml(v))).collect() }),
        None => Err(
            parser.errors.iter().map(
                |e|
                    {
                        let (line, col) = parser.to_linecol(e.lo);
                        (line, col, e.desc.clone())
                    },
            ).collect(),
        ),
    }
}

/// One error of syntax as the message shows it: its line and column between
/// square brackets, then its description, then a comma.
pub open spec fn error_text(e: (nat, nat, Seq<char>)) -> Seq<char> {
    "["@ + decimal(e.0) + ":"@ + decimal(e.1) + "] "@ + e.2 + ", "@
}

/// The message for the errors of syntax of a text: one after the other, in
/// their order.
pub open spec fn syntax_message(errors: Seq<(nat, nat, Seq<char>)>) -> Seq<char>
    decreases errors.len(),
{
    if errors.len() == 0 {
        Seq::empty()
    } else {
        syntax_message(errors.drop_last()) + error_text(errors.last())
    }
}

/// Parses the text of a declaration file: gives the table that the text
/// holds. Where the text is not well-formed, the error is one of syntax, and
/// its message lists what the parser reports.
pub fn parse_toml(text: &str) -> (res: LoadResult<Table>)
    ensures
        match res {
            Ok(t) => toml_document(text@) == Some(t),
            Err(e) => toml_document(text@) is None && e@ == (
                ErrorKind::Syntax,
                syntax_message(toml_errors(text@)),
            ),
        },
{
    match parse_document(text) {
        Ok(t) => Ok(t),
        Err(errors) => {
            let ghost all = error_views(errors@);
            let mut msg = String::new();
            let mut i: usize = 0;
            assert(all.take(0) =~= Seq::<(nat, nat, Seq<char>)>::empty());
            while i < errors.len()
                invariant
                    i <= errors.len(),
                    all == error_views(errors@),
                    msg@ == syntax_message(all.take(i as int)),
                decreases errors.len() - i,
            {
                let line = decimal_string(errors[i].0);
                let col = decimal_string(errors[i].1);
                proof {
                    assert(all.take(i + 1).drop_last() =~= all.take(i as int));
                    assert(all.take(i + 1).last() == all[i as int]);
                }
                let ghost before = msg@;
                msg.append("[");
                msg.append(line.as_str());
                msg.append(":");
                msg.append(col.as_str());
                msg.append("] ");
                msg.append(errors[i].2.as_str());
                msg.append(", ");
                assert(msg@ =~= before + error_text(all[i as int]));
                i += 1;
            }
            assert(all.take(errors.len() as int) =~= all);
            Err(LoadError::new(ErrorKind::Syntax, msg))
        },
    }
}

} // verus!
