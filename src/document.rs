//! The documents the rule reads: preamble fields, and the context a host
//! hands over for one document, with the dependencies it has fetched.

use vstd::prelude::*;

use crate::diagnostic::Level;

verus! {

/// One preamble header of a document.
pub struct Field {
    /// The header's name, such as `requires`.
    pub name: String,
    /// The raw value after the colon, whitespace included.
    pub value: String,
    /// The line on which the header starts.
    pub line_start: usize,
    /// The header's source text, name included.
    pub source: String,
}

/// The first field of `fields` named `name`.
pub open spec fn field_named(fields: Seq<Field>, name: Seq<char>) -> Option<Field>
    decreases fields.len(),
{
    if fields.len() == 0 {
        None
    } else if fields[0].name@ == name {
        Some(fields[0])
    } else {
        field_named(fields.drop_first(), name)
    }
}

/// Finds the field named `name`.
pub fn find_field<'a>(fields: &'a Vec<Field>, name: &String) -> (r: Option<&'a Field>)
    ensures
        r is Some <==> field_named(fields@, name@) is Some,
        r matches Some(f) ==> field_named(fields@, name@) == Some(*f),
{
    let n = fields.len();
    let mut i: usize = 0;
    assert(fields@.subrange(0, n as int) =~= fields@);
    while i < n
        invariant
            n == fields@.len(),
            i <= n,
            field_named(fields@, name@) == field_named(fields@.subrange(i as int, n as int), name@),
        decreases n - i,
    {
        if fields[i].name == *name {
            return Some(&fields[i]);
        }
        assert(fields@.subrange(i as int, n as int).drop_first() =~= fields@.subrange(
            i as int + 1,
            n as int,
        ));
        i = i + 1;
    }
    None
}

/// What the host got when it fetched one document.
pub struct Fetched {
    /// The locator the document was fetched under, such as `eip-1.md`.
    pub path: String,
    /// The document's preamble, or why it could not be read.
    pub result: Result<Vec<Field>, String>,
}

/// The first fetch outcome recorded under `path`.
pub open spec fn fetched_at(eips: Seq<Fetched>, path: Seq<char>) -> Option<Result<Vec<Field>, String>>
    decreases eips.len(),
{
    if eips.len() == 0 {
        None
    } else if eips[0].path@ == path {
        Some(eips[0].result)
    } else {
        fetched_at(eips.drop_first(), path)
    }
}

/// Everything the rule reads while it checks one document.
pub struct Context {
    /// The preamble of the document under check.
    pub preamble: Vec<Field>,
    /// The name under which the document is shown.
    pub origin: Option<String>,
    /// The severity that the host gives this rule's findings.
    pub annotation_type: Level,
    /// The documents that the host fetched for this one.
    pub eips: Vec<Fetched>,
}

impl Context {
    /// Finds what was fetched under `path`.
    pub fn eip<'a>(&'a self, path: &String) -> (r: Option<&'a Result<Vec<Field>, String>>)
        ensures
            r is Some <==> fetched_at(self.eips@, path@) is Some,
            r matches Some(x) ==> fetched_at(self.eips@, path@) == Some(*x),
    {
        let n = self.eips.len();
        let mut i: usize = 0;
        assert(self.eips@.subrange(0, n as int) =~= self.eips@);
        while i < n
            invariant
                n == self.eips@.len(),
                i <= n,
                fetched_at(self.eips@, path@) == fetched_at(
                    self.eips@.subrange(i as int, n as int),
                    path@,
                ),
            decreases n - i,
        {
            if self.eips[i].path == *path {
                return Some(&self.eips[i].result);
            }
            assert(self.eips@.subrange(i as int, n as int).drop_first() =~= self.eips@.subrange(
                i as int + 1,
                n as int,
            ));
            i = i + 1;
        }
        None
    }
}

} // verus!
