//! Validation of a schema, and the offset tables that validation leaves
//! behind for the codecs.

use crate::laws::lemma_malformed_lists;
use crate::schema::{count, extent, representable, start, CategoryModel, Schema, Shape};
use vstd::prelude::*;

verus! {

/// The rule that a variant breaks.
#[derive(Clone, Copy, Debug, PartialEq, Eq)]
pub enum Defect {
    /// The variant carries more than one field, or a field that is no
    /// category.
    Malformed,
    /// The variant's payload refers to no category defined before its own.
    NotACategory,
    /// The variant's payload is a category tagged root.
    NestedRoot,
    /// With this variant the ordinals of its category no longer fit `usize`.
    Overflow,
}

/// A structural error of a schema: the offending variant, by the position of
/// its category in the schema and its own position in that category, and the
/// rule it breaks.
#[derive(Clone, Copy, Debug, PartialEq, Eq)]
pub struct SchemaError {
    pub category: usize,
    pub variant: usize,
    pub defect: Defect,
}

/// The rule that variant `v` of category `c` breaks, if any. Of several
/// broken rules the first in the order of `Defect` counts.
pub open spec fn defect(s: Seq<CategoryModel>, c: int, v: int) -> Option<Defect> {
    match s[c].variants[v] {
        Shape::Malformed => Some(Defect::Malformed),
        Shape::Nested(j) if j >= c => Some(Defect::NotACategory),
        Shape::Nested(j) if s[j as int].root => Some(Defect::NestedRoot),
        _ => if start(s, c, v + 1) > usize::MAX {
            Some(Defect::Overflow)
        } else {
            None
        },
    }
}

/// Whether `(c, v)` names a variant of the schema.
pub open spec fn is_variant(s: Seq<CategoryModel>, c: int, v: int) -> bool {
    0 <= c < s.len() && 0 <= v < s[c].variants.len()
}

/// A schema is valid when none of its variants breaks a rule.
pub open spec fn valid(s: Seq<CategoryModel>) -> bool {
    forall|c: int, v: int| is_variant(s, c, v) ==> #[trigger] defect(s, c, v) is None
}

/// Whether `e` reports the first broken rule of the schema, going through
/// the categories in definition order and through the variants of each in
/// declaration order.
pub open spec fn first_defect(s: Seq<CategoryModel>, e: SchemaError) -> bool {
    &&& is_variant(s, e.category as int, e.variant as int)
    &&& defect(s, e.category as int, e.variant as int) == Some(e.defect)
    &&& forall|c: int, v: int|
        is_variant(s, c, v) && (c < e.category || (c == e.category && v < e.variant))
            ==> #[trigger] defect(s, c, v) is None
}

/// Whether variant `v` of category `c` is ill-shaped.
pub open spec fn is_malformed(s: Seq<CategoryModel>, c: int, v: int) -> bool {
    is_variant(s, c, v) && s[c].variants[v] is Malformed
}

/// The report of the ill-shaped variant `v` of category `c`.
pub open spec fn malformed_at(c: int, v: int) -> SchemaError {
    SchemaError { category: c as usize, variant: v as usize, defect: Defect::Malformed }
}

/// Whether the variant that `a` reports comes before that of `b` in schema
/// order.
pub open spec fn precedes(a: SchemaError, b: SchemaError) -> bool {
    a.category < b.category || (a.category == b.category && a.variant < b.variant)
}

/// The ill-shaped variants among the first `v` variants of category `c`, in
/// declaration order.
pub open spec fn malformed_in(s: Seq<CategoryModel>, c: int, v: int) -> Seq<SchemaError>
    decreases v,
{
    if 0 <= c < s.len() && 0 < v <= s[c].variants.len() {
        let before = malformed_in(s, c, v - 1);
        if s[c].variants[v - 1] is Malformed {
            before.push(malformed_at(c, v - 1))
        } else {
            before
        }
    } else {
        Seq::empty()
    }
}

/// The ill-shaped variants of the first `c` categories: those of each
/// category in declaration order, the categories in definition order.
pub open spec fn malformed_upto(s: Seq<CategoryModel>, c: int) -> Seq<SchemaError>
    decreases c,
{
    if 0 < c <= s.len() {
        malformed_upto(s, c - 1) + malformed_in(s, c - 1, s[c - 1].variants.len() as int)
    } else {
        Seq::empty()
    }
}

/// Every ill-shaped variant of the schema, in schema order.
pub open spec fn malformed(s: Seq<CategoryModel>) -> Seq<SchemaError> {
    malformed_upto(s, s.len() as int)
}

/// What validation reports of a schema that is not valid. Where any variant
/// is ill-shaped: every ill-shaped variant, in schema order, and nothing
/// else. Where none is: the first variant that breaks another rule, alone.
pub open spec fn reported(s: Seq<CategoryModel>, errors: Seq<SchemaError>) -> bool {
    if malformed(s).len() > 0 {
        errors == malformed(s)
    } else {
        errors.len() == 1 && first_defect(s, errors[0])
    }
}

/// Whether `row` holds the starts of the first `n` variants of category `c`
/// and, after them, the start of what would follow.
spec fn is_row(s: Seq<CategoryModel>, c: int, row: Seq<usize>, n: int) -> bool {
    &&& row.len() == n + 1
    &&& forall|v: int| 0 <= v <= n ==> #[trigger] row[v] == start(s, c, v)
}

/// Whether `starts` holds a full row for each of the first `n` categories.
spec fn is_table(s: Seq<CategoryModel>, starts: Seq<Vec<usize>>, n: int) -> bool {
    &&& starts.len() == n
    &&& forall|c: int|
        0 <= c < n ==> is_row(s, c, (#[trigger] starts[c])@, s[c].variants.len() as int)
}

/// A schema that passed validation, with the start of every variant worked
/// out. Immutable: the codecs of its categories borrow it.
#[derive(Debug)]
pub struct Tables {
    schema: Schema,
    starts: Vec<Vec<usize>>,
}

impl View for Tables {
    type V = Seq<CategoryModel>;

    closed spec fn view(&self) -> Seq<CategoryModel> {
        self.schema@
    }
}

impl Tables {
    #[verifier::type_invariant]
    spec fn inv(&self) -> bool {
        &&& valid(self.schema@)
        &&& is_table(self.schema@, self.starts@, self.schema@.len() as int)
    }

    /// The schema that these tables were worked out for. It is valid.
    pub fn schema(&self) -> (schema: &Schema)
        ensures
            schema@ == self@,
            valid(self@),
            representable(self@),
    {
        proof {
            use_type_invariant(self);
            self.schema.lemma_representable();
        }
        &self.schema
    }

    /// The number of categories.
    pub fn len(&self) -> (n: usize)
        ensures
            n == self@.len(),
            valid(self@),
            representable(self@),
    {
        proof {
            use_type_invariant(self);
            self.schema.lemma_representable();
        }
        self.schema.categories.len()
    }

    /// Whether category `c` is tagged root.
    pub(crate) fn is_root(&self, c: usize) -> (root: bool)
        requires
            c < self@.len(),
        ensures
            root == self@[c as int].root,
    {
        self.schema.categories[c].root
    }

    /// The number of variants of category `c`.
    pub(crate) fn width(&self, c: usize) -> (n: usize)
        requires
            c < self@.len(),
        ensures
            n == self@[c as int].variants.len(),
    {
        self.schema.categories[c].variants.len()
    }

    /// The shape of variant `v` of category `c`.
    pub(crate) fn shape(&self, c: usize, v: usize) -> (shape: Shape)
        requires
            is_variant(self@, c as int, v as int),
        ensures
            shape == self@[c as int].variants[v as int],
    {
        self.schema.categories[c].variants[v].shape()
    }

    /// The first ordinal of variant `v` of category `c`; with `v` the number
    /// of variants, the count of the category.
    pub(crate) fn start(&self, c: usize, v: usize) -> (n: usize)
        requires
            c < self@.len(),
            v <= self@[c as int].variants.len(),
        ensures
            n == start(self@, c as int, v as int),
    {
        proof {
            use_type_invariant(self);
        }
        self.starts[c][v]
    }

    /// The number of ordinals of category `c`.
    pub(crate) fn count(&self, c: usize) -> (n: usize)
        requires
            c < self@.len(),
        ensures
            n == count(self@, c as int),
    {
        let n = self.width(c);
        self.start(c, n)
    }
}

/// Works out the tables of `schema`, checking every rule on the way.
/// Succeeds exactly on a valid schema; otherwise stops at the first variant
/// that breaks a rule.
fn tabulate(schema: Schema) -> (result: Result<Tables, SchemaError>)
    ensures
        match result {
            Ok(tables) => valid(schema@) && tables@ == schema@,
            Err(e) => first_defect(schema@, e),
        },
{
    let mut starts: Vec<Vec<usize>> = Vec::new();
    let mut c: usize = 0;
    while c < schema.categories.len()
        invariant
            c <= schema.categories.len(),
            is_table(schema@, starts@, c as int),
            forall|k: int, v: int|
                is_variant(schema@, k, v) && k < c ==> #[trigger] defect(schema@, k, v) is None,
        decreases schema.categories.len() - c,
    {
        let category = &schema.categories[c];
        let mut row: Vec<usize> = Vec::new();
        row.push(0);
        let mut v: usize = 0;
        while v < category.variants.len()
            invariant
                c < schema.categories.len(),
                *category == schema.categories@[c as int],
                v <= category.variants.len(),
                is_table(schema@, starts@, c as int),
                is_row(schema@, c as int, row@, v as int),
                forall|k: int, w: int|
                    is_variant(schema@, k, w) && (k < c || (k == c && w < v))
                        ==> #[trigger] defect(schema@, k, w) is None,
            decreases category.variants.len() - v,
        {
            let size: usize = match category.variants[v].shape() {
                Shape::Malformed => {
                    return Err(SchemaError { category: c, variant: v, defect: Defect::Malformed });
                },
                Shape::Leaf => 1,
                Shape::Nested(j) => {
                    if j >= c {
                        return Err(
                            SchemaError { category: c, variant: v, defect: Defect::NotACategory },
                        );
                    }
                    if schema.categories[j].root {
                        return Err(
                            SchemaError { category: c, variant: v, defect: Defect::NestedRoot },
                        );
                    }
                    let nested = &starts[j];
                    nested[nested.len() - 1]
                },
            };
            assert(size == extent(schema@, c as int, v as int));
            match row[v].checked_add(size) {
                None => {
                    return Err(SchemaError { category: c, variant: v, defect: Defect::Overflow });
                },
                Some(next) => {
                    row.push(next);
                },
            }
            v += 1;
        }
        starts.push(row);
        c += 1;
    }
    Ok(Tables { schema, starts })
}

/// Every ill-shaped variant of `schema`, in schema order.
fn ill_shaped(schema: &Schema) -> (errors: Vec<SchemaError>)
    ensures
        errors@ == malformed(schema@),
{
    let mut errors: Vec<SchemaError> = Vec::new();
    let mut c: usize = 0;
    while c < schema.categories.len()
        invariant
            c <= schema.categories.len(),
            errors@ == malformed_upto(schema@, c as int),
        decreases schema.categories.len() - c,
    {
        let category = &schema.categories[c];
        let ghost before = errors@;
        let mut v: usize = 0;
        while v < category.variants.len()
            invariant
                c < schema.categories.len(),
                *category == schema.categories@[c as int],
                v <= category.variants.len(),
                errors@ == before + malformed_in(schema@, c as int, v as int),
            decreases category.variants.len() - v,
        {
            match category.variants[v].shape() {
                Shape::Malformed => {
                    errors.push(
                        SchemaError { category: c, variant: v, defect: Defect::Malformed },
                    );
                },
                _ => {},
            }
            v += 1;
        }
        c += 1;
    }
    errors
}

/// Validates `schema` and works out its tables. Succeeds exactly on a valid
/// schema. Otherwise it reports every ill-shaped variant, in schema order;
/// only where no variant is ill-shaped does it report the first variant that
/// breaks another rule.
pub fn layers(schema: Schema) -> (result: Result<Tables, Vec<SchemaError>>)
    ensures
        result is Ok <==> valid(schema@),
        match result {
            Ok(tables) => tables@ == schema@,
            Err(errors) => reported(schema@, errors@),
        },
{
    let errors = ill_shaped(&schema);
    if errors.len() > 0 {
        proof {
            schema.lemma_representable();
            lemma_malformed_lists(schema@);
            let e = errors@[0];
            assert(defect(schema@, e.category as int, e.variant as int) is Some);
        }
        return Err(errors);
    }
    match tabulate(schema) {
        Ok(tables) => Ok(tables),
        Err(e) => {
            assert(defect(schema@, e.category as int, e.variant as int) is Some);
            let mut errors: Vec<SchemaError> = Vec::new();
            errors.push(e);
            Err(errors)
        },
    }
}

} // verus!
