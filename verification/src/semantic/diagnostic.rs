//! Descriptions for logs. They say how much a value holds and never what it
//! holds.

use vstd::prelude::*;

use crate::digest::texts;
use crate::keys::string_views;
use crate::text::concat2;

verus! {

/// The first `n` fields of a description.
pub open spec fn described_fields(
    labels: Seq<Seq<char>>,
    values: Seq<Seq<char>>,
    n: int,
) -> Seq<char>
    decreases n,
{
    if n <= 0 {
        Seq::empty()
    } else if n == 1 {
        labels[0] + ": "@ + values[0]
    } else {
        described_fields(labels, values, n - 1) + (", "@ + (labels[n - 1] + ": "@ + values[n - 1]))
    }
}

/// A description: a name, and fields with labels.
pub open spec fn described(
    name: Seq<char>,
    labels: Seq<Seq<char>>,
    values: Seq<Seq<char>>,
) -> Seq<char> {
    name + " { "@ + (described_fields(labels, values, labels.len() as int) + " }"@)
}

/// A yes or no in words.
pub open spec fn flag_text(b: bool) -> Seq<char> {
    if b {
        "true"@
    } else {
        "false"@
    }
}

pub fn flag_string(b: bool) -> (r: String)
    ensures
        r@ == flag_text(b),
{
    if b {
        "true".to_owned()
    } else {
        "false".to_owned()
    }
}

fn describe_field(label: &str, value: &str) -> (r: String)
    ensures
        r@ == label@ + ": "@ + value@,
{
    let start: String = concat2(label, ": ");
    concat2(start.as_str(), value)
}

/// A description.
pub fn describe(name: &str, labels: &[&str], values: &Vec<String>) -> (r: String)
    requires
        labels@.len() == values@.len(),
    ensures
        r@ == described(name@, texts(labels@), string_views(values@)),
{
    let ghost ls = texts(labels@);
    let ghost vs = string_views(values@);
    let mut out: String = String::new();
    let mut i: usize = 0;
    assert(out@ =~= Seq::empty());
    while i < labels.len()
        invariant
            i <= labels@.len() == values@.len(),
            ls == texts(labels@),
            vs == string_views(values@),
            out@ == described_fields(ls, vs, i as int),
        decreases labels@.len() - i,
    {
        assert(ls[i as int] == labels@[i as int]@);
        assert(vs[i as int] == values@[i as int]@);
        let field: String = describe_field(labels[i], values[i].as_str());
        if i == 0 {
            out = field;
        } else {
            let next: String = concat2(", ", field.as_str());
            out = concat2(out.as_str(), next.as_str());
        }
        i += 1;
    }
    let end: String = concat2(out.as_str(), " }");
    let start: String = concat2(name, " { ");
    concat2(start.as_str(), end.as_str())
}

} // verus!
