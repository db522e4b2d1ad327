use vyges_layout::flatten::{flatten_plan, FlattenError, Place};
use vyges_layout::gds::{Cell, Element, Library};

const ONE: u64 = 0x4110_0000_0000_0000; // 1.0 as an 8-byte GDS real

fn boxed(name: &str) -> Cell {
    Cell {
        name: name.to_string(),
        elements: vec![Element::Boundary { layer: 1, datatype: 0, pts: vec![(0, 0), (10, 0), (10, 10), (0, 10), (0, 0)] }],
    }
}

fn sref(name: &str, x: i32, y: i32) -> Element {
    Element::Sref { sname: name.to_string(), x, y, reflect: false, mag: ONE, angle: 0 }
}

fn place(x: i32, y: i32) -> Place {
    Place { x, y, reflect: false, mag: ONE, angle: 0 }
}

#[test]
fn srefs_give_one_placement_each() {
    let mut lib = Library::default();
    lib.cells.push(boxed("leaf"));
    lib.cells.push(Cell { name: "top".to_string(), elements: vec![sref("leaf", 0, 0), sref("leaf", 100, 0)] });
    let plan = flatten_plan(&lib, "top").unwrap();
    assert_eq!(plan.len(), 2);
    assert_eq!((plan[0].cell, plan[0].elem), (0, 0));
    assert_eq!(plan[0].chain, vec![place(0, 0)]);
    assert_eq!(plan[1].chain, vec![place(100, 0)]);
}

#[test]
fn unknown_top_is_not_found() {
    let mut lib = Library::default();
    lib.cells.push(boxed("leaf"));
    assert!(matches!(flatten_plan(&lib, "nope"), Err(FlattenError::NotFound)));
}

#[test]
fn own_shapes_come_with_an_empty_chain() {
    let mut lib = Library::default();
    lib.cells.push(boxed("leaf"));
    let plan = flatten_plan(&lib, "leaf").unwrap();
    assert_eq!(plan.len(), 1);
    assert!(plan[0].chain.is_empty());
}

#[test]
fn cycles_and_missing_cells_expand_to_nothing() {
    let mut lib = Library::default();
    let mut a = boxed("a");
    a.elements.push(sref("b", 5, 5));
    a.elements.push(sref("ghost", 0, 0));
    let b = Cell { name: "b".to_string(), elements: vec![sref("a", 1, 1)] };
    lib.cells.push(a);
    lib.cells.push(b);
    let plan = flatten_plan(&lib, "a").unwrap();
    // only a's own box: b refers back to a (a cycle) and "ghost" does not exist
    assert_eq!(plan.len(), 1);
    assert_eq!((plan[0].cell, plan[0].elem), (0, 0));
}

#[test]
fn nested_placements_compose_outermost_first() {
    let mut lib = Library::default();
    lib.cells.push(boxed("leaf"));
    lib.cells.push(Cell { name: "mid".to_string(), elements: vec![sref("leaf", 1, 2)] });
    lib.cells.push(Cell { name: "top".to_string(), elements: vec![sref("mid", 10, 20)] });
    let plan = flatten_plan(&lib, "top").unwrap();
    assert_eq!(plan.len(), 1);
    assert_eq!(plan[0].chain, vec![place(10, 20), place(1, 2)]);
}

#[test]
fn an_array_expands_column_by_column() {
    let mut lib = Library::default();
    lib.cells.push(boxed("leaf"));
    lib.cells.push(Cell {
        name: "top".to_string(),
        elements: vec![Element::Aref {
            sname: "leaf".to_string(),
            cols: 2,
            rows: 3,
            pts: vec![(0, 0), (200, 0), (0, 300)],
            reflect: false,
            mag: ONE,
            angle: 0,
        }],
    });
    let plan = flatten_plan(&lib, "top").unwrap();
    let origins: Vec<(i32, i32)> = plan.iter().map(|p| (p.chain[0].x, p.chain[0].y)).collect();
    assert_eq!(origins, vec![(0, 0), (0, 100), (0, 200), (100, 0), (100, 100), (100, 200)]);
}

#[test]
fn a_negative_pitch_rounds_toward_zero() {
    let mut lib = Library::default();
    lib.cells.push(boxed("leaf"));
    lib.cells.push(Cell {
        name: "top".to_string(),
        elements: vec![Element::Aref {
            sname: "leaf".to_string(),
            cols: 2,
            rows: 1,
            pts: vec![(0, 0), (-7, 0), (0, 0)],
            reflect: false,
            mag: ONE,
            angle: 0,
        }],
    });
    let plan = flatten_plan(&lib, "top").unwrap();
    let xs: Vec<i32> = plan.iter().map(|p| p.chain[0].x).collect();
    assert_eq!(xs, vec![0, -3]);
}

#[test]
fn a_later_cell_shadows_an_earlier_one_of_the_same_name() {
    let mut lib = Library::default();
    lib.cells.push(boxed("leaf"));
    lib.cells.push(Cell { name: "leaf".to_string(), elements: vec![] });
    lib.cells.push(Cell { name: "top".to_string(), elements: vec![sref("leaf", 0, 0)] });
    let plan = flatten_plan(&lib, "top").unwrap();
    assert!(plan.is_empty());
}

#[test]
fn a_chain_deeper_than_the_limit_fails() {
    let mut lib = Library::default();
    lib.cells.push(boxed("c70"));
    for k in (0..70).rev() {
        lib.cells.push(Cell { name: format!("c{k}"), elements: vec![sref(&format!("c{}", k + 1), 0, 0)] });
    }
    assert!(matches!(flatten_plan(&lib, "c0"), Err(FlattenError::TooDeep)));
    // a chain within the limit is fine
    assert_eq!(flatten_plan(&lib, "c10").unwrap().len(), 1);
}
