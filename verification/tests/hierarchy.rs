use layers::{layers, root, Category, Layers, Schema, Tables, Variant};

const VOID: usize = 0;
const BACKGROUND: usize = 1;
const LEVEL: usize = 2;
const ON_CANVAS: usize = 3;
const UI: usize = 4;
const MAIN: usize = 5;

fn main_layers() -> Tables {
    let void = Category::new(vec![]);
    let background = Category::new(vec![Variant::leaf(), Variant::leaf(), Variant::leaf()]);
    let level = Category::new(vec![Variant::leaf(), Variant::leaf()]);
    let on_canvas =
        Category::new(vec![Variant::leaf(), Variant::nested(VOID), Variant::leaf()]);
    let ui = Category::new(vec![Variant::leaf(), Variant::nested(ON_CANVAS)]);
    let main = root(Category::new(vec![
        Variant::nested(BACKGROUND),
        Variant::nested(LEVEL),
        Variant::leaf(),
        Variant::nested(VOID),
        Variant::nested(UI),
    ]));
    let schema = Schema { categories: vec![void, background, level, on_canvas, ui, main] };
    layers(schema).unwrap()
}

#[test]
fn it_is_ordered() {
    let tables = main_layers();
    let main = tables.codec(MAIN).unwrap();
    assert_eq!(main.as_num(&vec![0, 0]), 0);
    assert_eq!(main.as_num(&vec![0, 1]), 1);
    assert_eq!(main.as_num(&vec![0, 2]), 2);
    assert_eq!(main.as_num(&vec![1, 0]), 3);
    assert_eq!(main.as_num(&vec![1, 1]), 4);
    assert_eq!(main.as_num(&vec![2]), 5);
    assert_eq!(main.as_num(&vec![4, 0]), 6);
    assert_eq!(main.as_num(&vec![4, 1, 0]), 7);
    assert_eq!(main.as_num(&vec![4, 1, 2]), 8);
    assert_eq!(tables.codec(LEVEL).unwrap().as_num(&vec![0]), 0);
}

#[test]
fn it_is_symmetric() {
    let tables = main_layers();
    let main = tables.codec(MAIN).unwrap();
    assert_eq!(main.try_from_num(0), Some(vec![0, 0]));
    assert_eq!(main.try_from_num(1), Some(vec![0, 1]));
    assert_eq!(main.try_from_num(2), Some(vec![0, 2]));
    assert_eq!(main.try_from_num(3), Some(vec![1, 0]));
    assert_eq!(main.try_from_num(4), Some(vec![1, 1]));
    assert_eq!(main.try_from_num(5), Some(vec![2]));
    assert_eq!(main.try_from_num(6), Some(vec![4, 0]));
    assert_eq!(main.try_from_num(7), Some(vec![4, 1, 0]));
    assert_eq!(main.try_from_num(8), Some(vec![4, 1, 2]));
    assert_eq!(main.try_from_num(9), None);
}

#[test]
fn it_has_expected_count() {
    let tables = main_layers();
    assert_eq!(tables.codec(MAIN).unwrap().count(), 9);
    assert_eq!(tables.codec(BACKGROUND).unwrap().count(), 3);
    assert_eq!(tables.codec(LEVEL).unwrap().count(), 2);
    assert_eq!(tables.codec(VOID).unwrap().count(), 0);
    assert_eq!(tables.codec(UI).unwrap().count(), 3);
    assert_eq!(tables.codec(ON_CANVAS).unwrap().count(), 2);
}
