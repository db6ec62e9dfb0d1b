//! Paths into a contract's structured state, and their resolution against a
//! structural schema into a flat index path.
//!
//! Resolution either yields an index path consistent with the schema's
//! structure or reports no match; it never silently returns a wrong value.

use vstd::prelude::*;

verus! {

broadcast use vstd::seq_lib::group_seq_properties;

/// One step of a path: an index into a sequence type, or a named field of a
/// struct.
#[derive(Debug, Clone, PartialEq, Eq)]
pub enum SchemaSubPath {
    Index(usize),
    Field(String),
}

/// A structural description of a value's type, as far as path resolution
/// reads it.
#[derive(Debug)]
pub enum SchemaType {
    Struct { name: String, fields: SchemaFields },
    Vec { element: Box<SchemaType> },
    Array { element: Box<SchemaType>, length: u16 },
    Unit,
    Bool,
    U32,
    U64,
}

/// The field layout of a struct type.
#[derive(Debug)]
pub enum SchemaFields {
    Named { named: Vec<(String, SchemaType)> },
    Unnamed { unnamed: Vec<SchemaType> },
    Unit,
}

/// A sequence of steps into a value, resolved against a schema at
/// evaluation time.
#[derive(Debug, Clone)]
pub struct SborPath(pub Vec<SchemaSubPath>);

/// The index of the first named field called `f`, if any.
pub open spec fn find_field(named: Seq<(String, SchemaType)>, f: Seq<char>) -> Option<int>
    decreases named.len(),
{
    if named.len() == 0 {
        Option::None
    } else if named.first().0@ == f {
        Option::Some(0int)
    } else {
        match find_field(named.drop_first(), f) {
            Option::Some(i) => Option::Some(i + 1),
            Option::None => Option::None,
        }
    }
}

/// Prepends a prefix to a successful resolution; failure stays failure.
pub open spec fn with_prefix(prefix: Seq<usize>, rest: Option<Seq<usize>>) -> Option<Seq<usize>> {
    match rest {
        Option::Some(r) => Option::Some(prefix + r),
        Option::None => Option::None,
    }
}

/// What resolving a path against a schema yields: an `Index` step needs a
/// sequence type, a `Field` step needs a named-field struct with that
/// field; anything else is no match.
pub open spec fn rel_path_spec(path: Seq<SchemaSubPath>, schema: SchemaType) -> Option<Seq<usize>>
    decreases path.len(),
{
    if path.len() == 0 {
        Option::Some(Seq::empty())
    } else {
        match path.first() {
            SchemaSubPath::Index(i) => match schema {
                SchemaType::Vec { element } => with_prefix(
                    seq![i],
                    rel_path_spec(path.drop_first(), *element),
                ),
                SchemaType::Array { element, length } => with_prefix(
                    seq![i],
                    rel_path_spec(path.drop_first(), *element),
                ),
                _ => Option::None,
            },
            SchemaSubPath::Field(f) => match schema {
                SchemaType::Struct { name, fields } => match fields {
                    SchemaFields::Named { named } => match find_field(named@, f@) {
                        Option::Some(idx) => with_prefix(
                            seq![idx as usize],
                            rel_path_spec(path.drop_first(), named@[idx].1),
                        ),
                        Option::None => Option::None,
                    },
                    _ => Option::None,
                },
                _ => Option::None,
            },
        }
    }
}

proof fn lemma_find_field_first(named: Seq<(String, SchemaType)>, f: Seq<char>, k: int)
    requires
        0 <= k < named.len(),
        named[k].0@ == f,
        forall|t: int| 0 <= t < k ==> (#[trigger] named[t]).0@ != f,
    ensures
        find_field(named, f) == Option::Some(k),
    decreases k,
{
    if k == 0 {
    } else {
        assert(named.first().0@ != f) by {
            assert(named[0].0@ != f);
        }
        assert(named.drop_first()[k - 1] == named[k]);
        assert forall|t: int| 0 <= t < k - 1 implies (#[trigger] named.drop_first()[t]).0@ != f by {
            assert(named[t + 1].0@ != f);
        }
        lemma_find_field_first(named.drop_first(), f, k - 1);
    }
}

proof fn lemma_find_field_none(named: Seq<(String, SchemaType)>, f: Seq<char>)
    requires
        forall|t: int| 0 <= t < named.len() ==> (#[trigger] named[t]).0@ != f,
    ensures
        find_field(named, f) is None,
    decreases named.len(),
{
    if named.len() > 0 {
        assert(named[0].0@ != f);
        assert forall|t: int|
            0 <= t < named.drop_first().len() implies (#[trigger] named.drop_first()[t]).0@
            != f by {
            assert(named[t + 1].0@ != f);
        }
        lemma_find_field_none(named.drop_first(), f);
    }
}

fn find_field_exec(named: &Vec<(String, SchemaType)>, f: &String) -> (r: Option<usize>)
    ensures
        match r {
            Option::Some(k) => k < named@.len() && find_field(named@, f@) == Option::Some(
                k as int,
            ),
            Option::None => find_field(named@, f@) is None,
        },
{
    let mut k: usize = 0;
    while k < named.len()
        invariant
            k <= named@.len(),
            forall|t: int| 0 <= t < k ==> (#[trigger] named@[t]).0@ != f@,
        decreases named@.len() - k,
    {
        if named[k].0.eq(f) {
            proof {
                lemma_find_field_first(named@, f@, k as int);
            }
            return Option::Some(k);
        }
        k += 1;
    }
    proof {
        lemma_find_field_none(named@, f@);
    }
    Option::None
}

impl SborPath {
    pub fn new() -> (r: SborPath)
        ensures
            r.0@.len() == 0,
    {
        SborPath(Vec::new())
    }

    /// Appends a named-field step.
    pub fn field(self, field: &str) -> (r: SborPath)
        ensures
            r.0@.len() == self.0@.len() + 1,
            r.0@.drop_last() == self.0@,
            r.0@.last() is Field,
            r.0@.last()->Field_0@ == field@,
    {
        let mut p = self;
        p.0.push(SchemaSubPath::Field(field.to_owned()));
        proof {
            assert(p.0@.drop_last() =~= self.0@);
        }
        p
    }

    /// Appends an index step.
    pub fn index(self, index: usize) -> (r: SborPath)
        ensures
            r.0@.len() == self.0@.len() + 1,
            r.0@.drop_last() == self.0@,
            r.0@.last() == SchemaSubPath::Index(index),
    {
        let mut p = self;
        p.0.push(SchemaSubPath::Index(index));
        proof {
            assert(p.0@.drop_last() =~= self.0@);
        }
        p
    }

    /// Walks the path through the schema: each `Index` step requires a
    /// sequence type, each `Field` step a named-field struct holding the
    /// field. Yields the flat index path, or no match.
    pub fn rel_path(&self, schema: &SchemaType) -> (r: Option<Vec<usize>>)
        ensures
            match r {
                Option::Some(v) => rel_path_spec(self.0@, *schema) == Option::Some(v@),
                Option::None => rel_path_spec(self.0@, *schema) is None,
            },
    {
        let path = &self.0;
        let mut cur: &SchemaType = schema;
        let mut out: Vec<usize> = Vec::new();
        let mut i: usize = 0;
        proof {
            assert(self.0@.skip(0) =~= self.0@);
            match rel_path_spec(self.0@, *schema) {
                Option::Some(r0) => {
                    assert(out@ + r0 =~= r0);
                },
                Option::None => {},
            }
        }
        while i < path.len()
            invariant
                i <= path@.len(),
                path == &self.0,
                with_prefix(out@, rel_path_spec(path@.skip(i as int), *cur)) == rel_path_spec(
                    self.0@,
                    *schema,
                ),
            decreases path@.len() - i,
        {
            proof {
                assert(path@.skip(i as int).first() == path@[i as int]);
                assert(path@.skip(i as int).drop_first() =~= path@.skip(i + 1));
            }
            match &path[i] {
                SchemaSubPath::Index(idx) => {
                    match cur {
                        SchemaType::Vec { element } => {
                            proof {
                                step_prefix(out@, *idx, rel_path_spec(path@.skip(i + 1), **element));
                            }
                            out.push(*idx);
                            cur = &**element;
                        },
                        SchemaType::Array { element, length } => {
                            proof {
                                step_prefix(out@, *idx, rel_path_spec(path@.skip(i + 1), **element));
                            }
                            out.push(*idx);
                            cur = &**element;
                        },
                        _ => {
                            return Option::None;
                        },
                    }
                },
                SchemaSubPath::Field(f) => {
                    match cur {
                        SchemaType::Struct { name, fields } => {
                            match fields {
                                SchemaFields::Named { named } => {
                                    match find_field_exec(named, f) {
                                        Option::Some(idx) => {
                                            proof {
                                                step_prefix(
                                                    out@,
                                                    idx,
                                                    rel_path_spec(
                                                        path@.skip(i + 1),
                                                        named@[idx as int].1,
                                                    ),
                                                );
                                            }
                                            out.push(idx);
                                            cur = &named[idx].1;
                                        },
                                        Option::None => {
                                            return Option::None;
                                        },
                                    }
                                },
                                _ => {
                                    return Option::None;
                                },
                            }
                        },
                        _ => {
                            return Option::None;
                        },
                    }
                },
            }
            i += 1;
        }
        proof {
            assert(path@.skip(path@.len() as int) =~= Seq::<SchemaSubPath>::empty());
            match rel_path_spec(self.0@, *schema) {
                Option::Some(r0) => {
                    assert(out@ + Seq::<usize>::empty() =~= out@);
                },
                Option::None => {},
            }
        }
        Option::Some(out)
    }
}

/// Pushing a step onto the prefix absorbs one level of `with_prefix`.
proof fn step_prefix(prefix: Seq<usize>, idx: usize, rest: Option<Seq<usize>>)
    ensures
        with_prefix(prefix.push(idx), rest) == with_prefix(prefix, with_prefix(seq![idx], rest)),
{
    match rest {
        Option::Some(r) => {
            assert(prefix.push(idx) + r =~= prefix + (seq![idx] + r));
        },
        Option::None => {},
    }
}

/// Resolving `.field(f).index(n)` against a schema whose field `f` is a
/// sequence type yields exactly the index path `[position of f, n]`;
/// against a named-field struct without the field, it yields no match.
pub proof fn lemma_field_index_resolution(
    f: String,
    n: usize,
    name: String,
    named: Vec<(String, SchemaType)>,
    element: Box<SchemaType>,
)
    ensures
        ({
            let path = seq![SchemaSubPath::Field(f), SchemaSubPath::Index(n)];
            let schema = SchemaType::Struct {
                name,
                fields: SchemaFields::Named { named },
            };
            &&& (match find_field(named@, f@) {
                Option::Some(idx) => named@[idx].1 == (SchemaType::Vec { element })
                    ==> rel_path_spec(path, schema) == Option::Some(seq![idx as usize, n]),
                Option::None => rel_path_spec(path, schema) is None,
            })
        }),
{
    reveal_with_fuel(rel_path_spec, 4);
    let path = seq![SchemaSubPath::Field(f), SchemaSubPath::Index(n)];
    let schema = SchemaType::Struct { name, fields: SchemaFields::Named { named } };
    assert(path.first() == SchemaSubPath::Field(f));
    assert(path.drop_first() =~= seq![SchemaSubPath::Index(n)]);
    assert(seq![SchemaSubPath::Index(n)].drop_first() =~= Seq::<SchemaSubPath>::empty());
    match find_field(named@, f@) {
        Option::Some(idx) => {
            if named@[idx].1 == (SchemaType::Vec { element }) {
                assert(rel_path_spec(seq![SchemaSubPath::Index(n)], named@[idx].1)
                    == with_prefix(seq![n], Option::Some(Seq::<usize>::empty())));
                assert(seq![n] + Seq::<usize>::empty() =~= seq![n]);
                assert(seq![idx as usize] + seq![n] =~= seq![idx as usize, n]);
            }
        },
        Option::None => {},
    }
}

} // verus!
