use layers::{layers, root, Category, Layers, LayersIter, Schema, Tables, Variant};

const VOID: usize = 0;
const BACKGROUND: usize = 1;
const LEVEL: usize = 2;
const ON_CANVAS: usize = 3;
const UI: usize = 4;
const MAIN: usize = 5;

fn draw_order() -> Tables {
    let void = Category::new(vec![]);
    let background = Category::new(vec![Variant::leaf(), Variant::leaf(), Variant::leaf()]);
    let level = Category::new(vec![Variant::leaf(), Variant::leaf()]);
    let on_canvas =
        Category::new(vec![Variant::leaf(), Variant::nested(VOID), Variant::leaf()]);
    let ui = Category::new(vec![Variant::leaf(), Variant::nested(ON_CANVAS)]);
    let main = root(Category::new(vec![
        Variant::nested(BACKGROUND),
        Variant::nested(LEVEL),
        Variant::leaf(),
        Variant::nested(VOID),
        Variant::nested(UI),
    ]));
    layers(Schema { categories: vec![void, background, level, on_canvas, ui, main] }).unwrap()
}

fn values_of_main() -> Vec<Vec<usize>> {
    vec![
        vec![0, 0],
        vec![0, 1],
        vec![0, 2],
        vec![1, 0],
        vec![1, 1],
        vec![2],
        vec![4, 0],
        vec![4, 1, 0],
        vec![4, 1, 2],
    ]
}

#[test]
fn tables_keep_the_schema() {
    let tables = draw_order();
    assert_eq!(tables.len(), 6);
    let schema = tables.schema();
    assert_eq!(schema.categories.len(), 6);
    assert!(schema.categories[MAIN].root);
    assert!(!schema.categories[UI].root);
    assert_eq!(schema.categories[MAIN].variants.len(), 5);
}

#[test]
fn there_is_a_codec_for_each_category_and_no_other() {
    let tables = draw_order();
    for c in 0..6 {
        assert!(tables.codec(c).is_some());
    }
    assert!(tables.codec(6).is_none());
    assert!(tables.codec(usize::MAX).is_none());
}

#[test]
fn only_a_tagged_category_has_a_root_codec() {
    let tables = draw_order();
    assert!(tables.root(MAIN).is_some());
    for c in 0..5 {
        assert!(tables.root(c).is_none());
    }
    assert!(tables.root(6).is_none());
}

#[test]
fn a_root_codec_numbers_as_the_codec_does() {
    let tables = draw_order();
    let main = tables.root(MAIN).unwrap();
    assert_eq!(main.count(), 9);
    assert_eq!(main.as_num(&vec![4, 1, 2]), 8);
    assert_eq!(main.try_from_num(5), Some(vec![2]));
    assert_eq!(main.try_from_num(9), None);
    assert!(main.contains(&vec![1, 1]));
    assert!(!main.contains(&vec![3]));
    assert_eq!(main.as_codec().count(), 9);
}

#[test]
fn round_trip_over_every_ordinal() {
    let tables = draw_order();
    for c in 0..6 {
        let codec = tables.codec(c).unwrap();
        for n in 0..codec.count() {
            let layer = codec.try_from_num(n).unwrap();
            assert!(codec.contains(&layer));
            assert_eq!(codec.as_num(&layer), n);
        }
    }
}

#[test]
fn round_trip_over_every_value() {
    let tables = draw_order();
    let main = tables.codec(MAIN).unwrap();
    for (n, layer) in values_of_main().iter().enumerate() {
        assert!(main.contains(layer));
        assert_eq!(main.as_num(layer), n);
        assert_eq!(main.try_from_num(n).as_ref(), Some(layer));
    }
}

#[test]
fn nothing_at_or_beyond_the_count() {
    let tables = draw_order();
    let main = tables.codec(MAIN).unwrap();
    assert_eq!(main.try_from_num(9), None);
    assert_eq!(main.try_from_num(10), None);
    assert_eq!(main.try_from_num(1000), None);
    assert_eq!(main.try_from_num(usize::MAX), None);
    let void = tables.codec(VOID).unwrap();
    assert_eq!(void.try_from_num(0), None);
}

#[test]
fn a_nested_category_counts_from_zero() {
    let tables = draw_order();
    let main = tables.codec(MAIN).unwrap();
    let level = tables.codec(LEVEL).unwrap();
    assert_eq!(level.as_num(&vec![0]), 0);
    assert_eq!(main.as_num(&vec![1, 0]), 3);
    let (first, _) = main.range(1).unwrap();
    for n in 0..level.count() {
        let inner = level.try_from_num(n).unwrap();
        let mut outer = vec![1];
        outer.extend(inner.iter());
        assert_eq!(main.as_num(&outer), first + n);
    }
    let ui = tables.codec(UI).unwrap();
    let on_canvas = tables.codec(ON_CANVAS).unwrap();
    assert_eq!(on_canvas.as_num(&vec![2]), 1);
    assert_eq!(ui.as_num(&vec![1, 2]), 2);
    assert_eq!(main.as_num(&vec![4, 1, 2]), 8);
}

#[test]
fn ranges_partition_the_ordinals() {
    let tables = draw_order();
    let main = tables.codec(MAIN).unwrap();
    assert_eq!(main.range(0), Some((0, 3)));
    assert_eq!(main.range(1), Some((3, 5)));
    assert_eq!(main.range(2), Some((5, 6)));
    assert_eq!(main.range(3), Some((6, 6)));
    assert_eq!(main.range(4), Some((6, 9)));
    assert_eq!(main.range(5), None);
    let on_canvas = tables.codec(ON_CANVAS).unwrap();
    assert_eq!(on_canvas.range(0), Some((0, 1)));
    assert_eq!(on_canvas.range(1), Some((1, 1)));
    assert_eq!(on_canvas.range(2), Some((1, 2)));
    assert_eq!(tables.codec(VOID).unwrap().range(0), None);
}

#[test]
fn an_uninhabited_category_adds_nothing_and_is_never_decoded() {
    let tables = draw_order();
    let main = tables.codec(MAIN).unwrap();
    assert_eq!(tables.codec(VOID).unwrap().count(), 0);
    assert_eq!(tables.codec(ON_CANVAS).unwrap().count(), 2);
    for n in 0..main.count() {
        let layer = main.try_from_num(n).unwrap();
        assert_ne!(layer[0], 3);
        assert!(!(layer.len() == 3 && layer[2] == 1));
    }
    assert!(!main.contains(&vec![3]));
    assert!(!main.contains(&vec![3, 0]));
    assert!(!main.contains(&vec![4, 1, 1]));
    assert!(!main.contains(&vec![4, 1, 1, 0]));
}

#[test]
fn contains_tells_values_from_other_paths() {
    let tables = draw_order();
    let main = tables.codec(MAIN).unwrap();
    for layer in values_of_main() {
        assert!(main.contains(&layer));
    }
    assert!(!main.contains(&vec![]));
    assert!(!main.contains(&vec![0]));
    assert!(!main.contains(&vec![5]));
    assert!(!main.contains(&vec![usize::MAX]));
    assert!(!main.contains(&vec![0, 3]));
    assert!(!main.contains(&vec![2, 0]));
    assert!(!main.contains(&vec![4, 1]));
    assert!(!main.contains(&vec![4, 0, 0]));
    let void = tables.codec(VOID).unwrap();
    assert!(!void.contains(&vec![]));
    assert!(!void.contains(&vec![0]));
}

#[test]
fn the_walk_from_the_first_value_yields_every_value_in_order() {
    let tables = draw_order();
    let main = tables.codec(MAIN).unwrap();
    let mut iter = LayersIter::first(&main);
    let mut seen = Vec::new();
    while let Some(layer) = iter.next() {
        seen.push(layer);
    }
    assert_eq!(seen, values_of_main());
    assert_eq!(iter.next(), None);
    assert_eq!(iter.next(), None);
}

#[test]
fn the_walk_yields_the_start_before_it_moves_on() {
    let tables = draw_order();
    let main = tables.codec(MAIN).unwrap();
    let start = vec![2];
    assert!(main.contains(&start));
    let mut iter = LayersIter::new(&main, start);
    assert_eq!(iter.next(), Some(vec![2]));
    assert_eq!(iter.next(), Some(vec![4, 0]));
    assert_eq!(iter.next(), Some(vec![4, 1, 0]));
    assert_eq!(iter.next(), Some(vec![4, 1, 2]));
    assert_eq!(iter.next(), None);
}

#[test]
fn the_walk_from_the_last_value_yields_it_alone() {
    let tables = draw_order();
    let main = tables.codec(MAIN).unwrap();
    let mut iter = LayersIter::new(&main, vec![4, 1, 2]);
    assert_eq!(iter.next(), Some(vec![4, 1, 2]));
    assert_eq!(iter.next(), None);
}

#[test]
fn the_walk_through_an_uninhabited_category_yields_nothing() {
    let tables = draw_order();
    let void = tables.codec(VOID).unwrap();
    let mut iter = LayersIter::first(&void);
    assert_eq!(iter.next(), None);
}

#[test]
fn the_walk_works_on_a_root_codec() {
    let tables = draw_order();
    let main = tables.root(MAIN).unwrap();
    let mut iter = LayersIter::first(&main);
    let mut n = 0;
    while let Some(layer) = iter.next() {
        assert_eq!(main.as_num(&layer), n);
        n += 1;
    }
    assert_eq!(n, 9);
}

#[test]
fn a_new_walk_starts_again() {
    let tables = draw_order();
    let level = tables.codec(LEVEL).unwrap();
    let mut iter = LayersIter::first(&level);
    assert_eq!(iter.next(), Some(vec![0]));
    assert_eq!(iter.next(), Some(vec![1]));
    assert_eq!(iter.next(), None);
    let mut again = LayersIter::first(&level);
    assert_eq!(again.next(), Some(vec![0]));
}
