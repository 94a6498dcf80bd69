//! The declaration of a hierarchy: categories, their variants and what each
//! variant carries, together with the mathematical model that the rest of
//! the crate states its contracts over.

use vstd::prelude::*;

verus! {

/// One field of a variant's payload.
#[derive(Clone, Copy, Debug, PartialEq, Eq)]
pub enum Payload {
    /// A reference to the category at this position of the schema.
    Category(usize),
    /// Anything that is not a category.
    Other,
}

/// What a variant is, judged by its payload alone.
#[derive(Clone, Copy, Debug, PartialEq, Eq)]
pub enum Shape {
    /// No payload: the variant occupies exactly one ordinal.
    Leaf,
    /// Exactly one payload field, a reference to a category: the variant
    /// occupies as many ordinals as that category has.
    Nested(usize),
    /// Any other payload.
    Malformed,
}

/// The shape of a payload, as a function of its fields.
pub open spec fn shape_of(payload: Seq<Payload>) -> Shape {
    if payload.len() == 0 {
        Shape::Leaf
    } else if payload.len() == 1 {
        match payload[0] {
            Payload::Category(j) => Shape::Nested(j),
            Payload::Other => Shape::Malformed,
        }
    } else {
        Shape::Malformed
    }
}

/// One alternative of a category, given by the fields it carries.
#[derive(Debug)]
pub struct Variant {
    pub payload: Vec<Payload>,
}

impl View for Variant {
    type V = Shape;

    open spec fn view(&self) -> Shape {
        shape_of(self.payload@)
    }
}

impl Variant {
    /// A variant without payload.
    pub fn leaf() -> (variant: Variant)
        ensures
            variant@ == Shape::Leaf,
    {
        Variant { payload: Vec::new() }
    }

    /// A variant whose payload is the category at position `category`.
    pub fn nested(category: usize) -> (variant: Variant)
        ensures
            variant@ == Shape::Nested(category),
    {
        let mut payload: Vec<Payload> = Vec::new();
        payload.push(Payload::Category(category));
        Variant { payload }
    }

    /// The shape of this variant.
    pub fn shape(&self) -> (shape: Shape)
        ensures
            shape == self@,
    {
        if self.payload.len() == 0 {
            Shape::Leaf
        } else if self.payload.len() == 1 {
            match self.payload[0] {
                Payload::Category(j) => Shape::Nested(j),
                Payload::Other => Shape::Malformed,
            }
        } else {
            Shape::Malformed
        }
    }
}

/// A category as the model sees it: its tag and the shapes of its variants
/// in declaration order.
pub struct CategoryModel {
    pub root: bool,
    pub variants: Seq<Shape>,
}

/// One node of the hierarchy: an ordered list of variants, tagged `root`
/// where it may be the outermost category of a hierarchy.
#[derive(Debug)]
pub struct Category {
    pub root: bool,
    pub variants: Vec<Variant>,
}

impl Category {
    /// A category with these variants, in this order, not tagged root.
    pub fn new(variants: Vec<Variant>) -> (category: Category)
        ensures
            !category.root,
            category.variants == variants,
    {
        Category { root: false, variants }
    }
}

/// Tags `category` root: it may be the outermost category of a hierarchy,
/// and no variant may nest it.
pub fn root(category: Category) -> (tagged: Category)
    ensures
        tagged.root,
        tagged.variants == category.variants,
{
    Category { root: true, variants: category.variants }
}

impl View for Category {
    type V = CategoryModel;

    open spec fn view(&self) -> CategoryModel {
        CategoryModel { root: self.root, variants: self.variants@.map_values(|v: Variant| v@) }
    }
}

/// The categories of a hierarchy in definition order. A variant refers to a
/// category by its position here, and only to one defined before its own.
#[derive(Debug)]
pub struct Schema {
    pub categories: Vec<Category>,
}

impl View for Schema {
    type V = Seq<CategoryModel>;

    open spec fn view(&self) -> Seq<CategoryModel> {
        self.categories@.map_values(|c: Category| c@)
    }
}

/// Whether the positions of all categories and variants fit `usize`, as
/// they do in the view of every `Schema`.
pub open spec fn representable(s: Seq<CategoryModel>) -> bool {
    &&& s.len() <= usize::MAX
    &&& forall|c: int| 0 <= c < s.len() ==> (#[trigger] s[c]).variants.len() <= usize::MAX
}

impl Schema {
    /// The view of a schema is representable.
    pub proof fn lemma_representable(&self)
        ensures
            representable(self@),
    {
        assert(self@.len() == self.categories.len());
        assert forall|c: int| 0 <= c < self@.len() implies (#[trigger] self@[c]).variants.len()
            <= usize::MAX by {
            assert(self@[c].variants.len() == self.categories@[c].variants.len());
        }
    }
}

/// The number of ordinals that variant `v` of category `c` occupies: one for
/// a leaf, the whole count of the nested category for a nested variant.
pub open spec fn extent(s: Seq<CategoryModel>, c: int, v: int) -> nat
    decreases c, v,
{
    if 0 <= c < s.len() && 0 <= v < s[c].variants.len() {
        match s[c].variants[v] {
            Shape::Leaf => 1,
            Shape::Nested(j) => if j < c {
                count(s, j as int)
            } else {
                0
            },
            Shape::Malformed => 0,
        }
    } else {
        0
    }
}

/// The first ordinal of variant `v` of category `c`: the sum of the extents
/// of the variants declared before it.
pub open spec fn start(s: Seq<CategoryModel>, c: int, v: int) -> nat
    decreases c, v,
{
    if 0 <= c < s.len() && 0 < v <= s[c].variants.len() {
        start(s, c, v - 1) + extent(s, c, v - 1)
    } else {
        0
    }
}

/// The number of ordinals of category `c`: the sum of the extents of all its
/// variants.
pub open spec fn count(s: Seq<CategoryModel>, c: int) -> nat
    decreases c, s[c].variants.len() + 1,
{
    if 0 <= c < s.len() {
        start(s, c, s[c].variants.len() as int)
    } else {
        0
    }
}

/// Whether `path` is a value of category `c`: it names a variant of `c`, then
/// a variant of the category nested there, and so on down to a leaf.
pub open spec fn is_layer(s: Seq<CategoryModel>, c: int, path: Seq<usize>) -> bool
    decreases path.len(),
{
    &&& 0 <= c < s.len()
    &&& path.len() > 0
    &&& path[0] < s[c].variants.len()
    &&& match s[c].variants[path[0] as int] {
        Shape::Leaf => path.len() == 1,
        Shape::Nested(j) => is_layer(s, j as int, path.skip(1)),
        Shape::Malformed => false,
    }
}

/// The ordinal of the value `path` of category `c`: the start of its variant,
/// plus, under a nested variant, the ordinal of the rest of the path in the
/// nested category.
pub open spec fn ordinal(s: Seq<CategoryModel>, c: int, path: Seq<usize>) -> nat
    decreases path.len(),
{
    if 0 <= c < s.len() && path.len() > 0 && path[0] < s[c].variants.len() {
        start(s, c, path[0] as int) + match s[c].variants[path[0] as int] {
            Shape::Nested(j) => ordinal(s, j as int, path.skip(1)),
            _ => 0,
        }
    } else {
        0
    }
}

/// The value of category `c` that has ordinal `n`.
pub open spec fn layer_at(s: Seq<CategoryModel>, c: int, n: nat) -> Seq<usize> {
    choose|path: Seq<usize>| is_layer(s, c, path) && ordinal(s, c, path) == n
}

} // verus!
