//! The codec of one category: its count, the ordinal of each of its values
//! and the value at each of its ordinals.

use crate::laws::{
    lemma_count_fits, lemma_ordinal_in_range, lemma_round_trip, lemma_start_monotone,
};
use crate::schema::{
    count, is_layer, layer_at, ordinal, representable, start, CategoryModel, Shape,
};
use crate::validate::{defect, is_variant, valid, Tables};
use vstd::prelude::*;

verus! {

/// What a codec offers: a count, and the conversion between the values it
/// numbers and their ordinals below that count.
pub trait Layers {
    /// The values that the codec numbers.
    type Layer;

    /// The number of ordinals.
    spec fn size(&self) -> nat;

    /// Whether `layer` is one of the values that the codec numbers.
    spec fn holds(&self, layer: &Self::Layer) -> bool;

    /// The ordinal of `layer`.
    spec fn number(&self, layer: &Self::Layer) -> nat;

    /// The number of ordinals: the ordinals are those below it.
    fn count(&self) -> (n: usize)
        ensures
            n == self.size(),
    ;

    /// Whether `layer` is one of the values that the codec numbers.
    fn contains(&self, layer: &Self::Layer) -> (known: bool)
        ensures
            known == self.holds(layer),
    ;

    /// The ordinal of `layer`.
    fn as_num(&self, layer: &Self::Layer) -> (num: usize)
        requires
            self.holds(layer),
        ensures
            num == self.number(layer),
            num < self.size() <= usize::MAX,
    ;

    /// The value with ordinal `num`; none where `num` is no ordinal.
    fn try_from_num(&self, num: usize) -> (layer: Option<Self::Layer>)
        ensures
            layer is Some <==> num < self.size(),
            layer matches Some(l) ==> self.holds(&l) && self.number(&l) == num,
    ;
}

/// Marks the codec of a category that is tagged root: one that may be the
/// outermost category of a hierarchy, and so is nested in no other.
pub trait Root: Layers {}

/// The codec of one category of a validated schema. Its values are paths: the
/// position of a variant of the category, then, under a nested variant, the
/// position of a variant of the nested category, and so on down to a leaf.
#[derive(Clone, Copy, Debug)]
pub struct Codec<'a> {
    tables: &'a Tables,
    category: usize,
}

impl<'a> Codec<'a> {
    #[verifier::type_invariant]
    spec fn inv(&self) -> bool {
        &&& valid(self.tables@)
        &&& representable(self.tables@)
        &&& self.category < self.tables@.len()
    }

    /// The schema that the category belongs to.
    pub closed spec fn schema(&self) -> Seq<CategoryModel> {
        self.tables@
    }

    /// The position of the category in its schema.
    pub closed spec fn category(&self) -> int {
        self.category as int
    }

    /// The range of ordinals of the variant at position `variant`, as its
    /// first ordinal and the one after its last; none where the category has
    /// no such variant.
    pub fn range(&self, variant: usize) -> (range: Option<(usize, usize)>)
        ensures
            range is Some <==> variant < self.schema()[self.category()].variants.len(),
            range matches Some((first, end)) ==> first == start(
                self.schema(),
                self.category(),
                variant as int,
            ) && end == start(self.schema(), self.category(), variant + 1),
    {
        proof {
            use_type_invariant(self);
        }
        if variant < self.tables.width(self.category) {
            Some(
                (
                    self.tables.start(self.category, variant),
                    self.tables.start(self.category, variant + 1),
                ),
            )
        } else {
            None
        }
    }
}

impl Tables {
    /// The codec of the category at position `category`; none where the
    /// schema has no such category.
    pub fn codec(&self, category: usize) -> (codec: Option<Codec<'_>>)
        ensures
            valid(self@),
            representable(self@),
            codec is Some <==> category < self@.len(),
            codec matches Some(c) ==> c.schema() == self@ && c.category() == category,
    {
        if category < self.len() {
            Some(Codec { tables: self, category })
        } else {
            None
        }
    }
}

/// The codec of a category that is tagged root.
#[derive(Clone, Copy, Debug)]
pub struct RootCodec<'a> {
    codec: Codec<'a>,
}

impl<'a> RootCodec<'a> {
    #[verifier::type_invariant]
    spec fn inv(&self) -> bool {
        self.codec.schema()[self.codec.category()].root
    }

    /// The codec of the category, as of any other.
    pub closed spec fn codec(&self) -> Codec<'a> {
        self.codec
    }

    /// The codec of the category, as of any other.
    pub fn as_codec(&self) -> (codec: Codec<'a>)
        ensures
            codec == self.codec(),
            codec.schema()[codec.category()].root,
    {
        proof {
            use_type_invariant(self);
        }
        self.codec
    }
}

impl Tables {
    /// The codec of the category at position `category`, where the schema
    /// has such a category and it is tagged root; none otherwise.
    pub fn root(&self, category: usize) -> (root: Option<RootCodec<'_>>)
        ensures
            valid(self@),
            representable(self@),
            root is Some <==> category < self@.len() && self@[category as int].root,
            root matches Some(r) ==> r.codec().schema() == self@ && r.codec().category()
                == category,
    {
        if category < self.len() && self.is_root(category) {
            Some(RootCodec { codec: Codec { tables: self, category } })
        } else {
            None
        }
    }
}

impl<'a> Layers for RootCodec<'a> {
    type Layer = Vec<usize>;

    open spec fn size(&self) -> nat {
        self.codec().size()
    }

    open spec fn holds(&self, layer: &Vec<usize>) -> bool {
        self.codec().holds(layer)
    }

    open spec fn number(&self, layer: &Vec<usize>) -> nat {
        self.codec().number(layer)
    }

    fn count(&self) -> (n: usize) {
        self.codec.count()
    }

    fn contains(&self, layer: &Vec<usize>) -> (known: bool) {
        self.codec.contains(layer)
    }

    fn as_num(&self, layer: &Vec<usize>) -> (num: usize) {
        self.codec.as_num(layer)
    }

    fn try_from_num(&self, num: usize) -> (layer: Option<Vec<usize>>)
        ensures
            layer matches Some(l) ==> l@ == layer_at(
                self.codec().schema(),
                self.codec().category(),
                num as nat,
            ),
    {
        self.codec.try_from_num(num)
    }
}

impl<'a> Root for RootCodec<'a> {}

impl<'a> Layers for Codec<'a> {
    type Layer = Vec<usize>;

    open spec fn size(&self) -> nat {
        count(self.schema(), self.category())
    }

    open spec fn holds(&self, layer: &Vec<usize>) -> bool {
        is_layer(self.schema(), self.category(), layer@)
    }

    open spec fn number(&self, layer: &Vec<usize>) -> nat {
        ordinal(self.schema(), self.category(), layer@)
    }

    fn count(&self) -> (n: usize)
        ensures
            valid(self.schema()),
            representable(self.schema()),
            0 <= self.category() < self.schema().len(),
    {
        proof {
            use_type_invariant(self);
        }
        self.tables.count(self.category)
    }

    fn contains(&self, layer: &Vec<usize>) -> (known: bool) {
        proof {
            use_type_invariant(self);
        }
        let tables = self.tables;
        let mut c = self.category;
        let mut i: usize = 0;
        assert(layer@.skip(0) =~= layer@);
        while i < layer.len()
            invariant
                tables@ == self.schema(),
                i <= layer.len(),
                c < tables@.len(),
                self.holds(layer) == is_layer(tables@, c as int, layer@.skip(i as int)),
            decreases layer.len() - i,
        {
            let v = layer[i];
            if v >= tables.width(c) {
                return false;
            }
            assert(layer@.skip(i as int).skip(1) =~= layer@.skip(i + 1));
            match tables.shape(c, v) {
                Shape::Leaf => {
                    return i + 1 == layer.len();
                },
                Shape::Nested(j) => {
                    if j >= tables.len() {
                        assert(!is_layer(tables@, j as int, layer@.skip(i + 1)));
                        return false;
                    }
                    c = j;
                },
                Shape::Malformed => {
                    return false;
                },
            }
            i += 1;
        }
        false
    }

    fn as_num(&self, layer: &Vec<usize>) -> (num: usize) {
        proof {
            use_type_invariant(self);
        }
        let tables = self.tables;
        let mut c = self.category;
        let mut num: usize = 0;
        let mut i: usize = 0;
        proof {
            assert(layer@.skip(0) =~= layer@);
            lemma_ordinal_in_range(tables@, self.category as int, layer@);
            lemma_count_fits(tables@, self.category as int);
        }
        while i < layer.len()
            invariant
                valid(tables@),
                i <= layer.len(),
                c < tables@.len(),
                i < layer.len() ==> is_layer(tables@, c as int, layer@.skip(i as int)),
                num + ordinal(tables@, c as int, layer@.skip(i as int)) == self.number(layer),
                self.number(layer) <= usize::MAX,
            decreases layer.len() - i,
        {
            let v = layer[i];
            proof {
                assert(layer@.skip(i as int).skip(1) =~= layer@.skip(i + 1));
                assert(is_variant(tables@, c as int, v as int));
                assert(defect(tables@, c as int, v as int) is None);
            }
            num = num + tables.start(c, v);
            match tables.shape(c, v) {
                Shape::Nested(j) => {
                    c = j;
                },
                _ => {},
            }
            i += 1;
        }
        num
    }

    fn try_from_num(&self, num: usize) -> (layer: Option<Vec<usize>>)
        ensures
            layer matches Some(l) ==> l@ == layer_at(self.schema(), self.category(), num as nat),
    {
        proof {
            use_type_invariant(self);
        }
        let tables = self.tables;
        if num >= tables.count(self.category) {
            return None;
        }
        let ghost target = layer_at(tables@, self.category as int, num as nat);
        proof {
            lemma_round_trip(tables@, self.category as int, num as nat);
            assert(target.skip(0) =~= target);
            assert(target.take(0) =~= Seq::<usize>::empty());
        }
        let mut layer: Vec<usize> = Vec::new();
        let mut c = self.category;
        let mut n = num;
        loop
            invariant_except_break
                valid(tables@),
                representable(tables@),
                c < tables@.len(),
                layer@.len() < target.len(),
                layer@ == target.take(layer@.len() as int),
                is_layer(tables@, c as int, target.skip(layer@.len() as int)),
                ordinal(tables@, c as int, target.skip(layer@.len() as int)) == n,
            ensures
                layer@ == target,
            decreases target.len() - layer@.len(),
        {
            let ghost i = layer@.len() as int;
            let ghost rest = target.skip(i);
            proof {
                lemma_ordinal_in_range(tables@, c as int, rest);
                assert(rest.skip(1) =~= target.skip(i + 1));
                assert(rest[0] == target[i]);
            }
            let mut v: usize = 0;
            while tables.start(c, v + 1) <= n
                invariant
                    c < tables@.len(),
                    rest.len() > 0,
                    v <= rest[0] < tables@[c as int].variants.len() <= usize::MAX,
                    start(tables@, c as int, rest[0] as int) <= n < start(
                        tables@,
                        c as int,
                        rest[0] + 1,
                    ),
                decreases rest[0] - v,
            {
                proof {
                    if v == rest[0] {
                        assert(false);
                    }
                }
                v += 1;
            }
            proof {
                if v < rest[0] {
                    lemma_start_monotone(tables@, c as int, v + 1, rest[0] as int);
                }
                assert(v == rest[0]);
            }
            layer.push(v);
            proof {
                assert(layer@ =~= target.take(i + 1));
                assert(is_variant(tables@, c as int, v as int));
                assert(defect(tables@, c as int, v as int) is None);
            }
            match tables.shape(c, v) {
                Shape::Nested(j) => {
                    assert(is_layer(tables@, j as int, target.skip(i + 1)));
                    assert(target.skip(i + 1).len() > 0);
                    n = n - tables.start(c, v);
                    c = j;
                },
                _ => {
                    assert(target.take(i + 1) =~= target);
                    break ;
                },
            }
        }
        Some(layer)
    }
}

} // verus!
