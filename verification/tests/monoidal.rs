use diagram_algebra::category::{ComposableMutating, HasIdentity};
use diagram_algebra::error::DiagramError;
use diagram_algebra::monoidal::{
    copy_types, layers_composable, types_equal, GenericMonoidalInterpretableMut,
    GenericMonoidalMorphism, GenericMonoidalMorphismLayer, Monoidal,
};

/// A box that knows how many strands it has.
#[derive(Clone, Debug, PartialEq, Eq)]
struct Wires(usize);

impl HasIdentity<u64> for Wires {
    fn identity_req(_on_this: &u64) -> bool {
        true
    }

    fn identity(_on_this: &u64) -> Self {
        Wires(1)
    }
}

fn layer(blocks: &[usize], left: &[u64], right: &[u64]) -> GenericMonoidalMorphismLayer<Wires, u64> {
    GenericMonoidalMorphismLayer {
        blocks: blocks.iter().map(|&n| Wires(n)).collect(),
        left_type: left.to_vec(),
        right_type: right.to_vec(),
    }
}

#[test]
fn new_layer_and_morphism_are_empty() {
    let l = GenericMonoidalMorphismLayer::<Wires, u64>::new();
    assert!(l.blocks.is_empty() && l.left_type.is_empty() && l.right_type.is_empty());
    let m = GenericMonoidalMorphism::<Wires, u64>::new();
    assert_eq!(m.depth(), 0);
    assert_eq!(m.domain(), Vec::<u64>::new());
    assert_eq!(m.codomain(), Vec::<u64>::new());
}

#[test]
fn types_equal_compares_place_by_place() {
    assert!(types_equal(&vec![1u64, 2], &vec![1u64, 2]));
    assert!(!types_equal(&vec![1u64, 2], &vec![2u64, 1]));
    assert!(!types_equal(&vec![1u64], &vec![1u64, 1]));
    assert_eq!(copy_types(&vec![4u64, 5]), vec![4, 5]);
}

#[test]
fn identity_layer_has_one_box_for_every_label() {
    let l = GenericMonoidalMorphismLayer::<Wires, u64>::identity(&vec![7, 8, 9]);
    assert_eq!(l.blocks, vec![Wires(1), Wires(1), Wires(1)]);
    assert_eq!(l.left_type, vec![7, 8, 9]);
    assert_eq!(l.right_type, vec![7, 8, 9]);
    let m = GenericMonoidalMorphism::<Wires, u64>::identity(&vec![7, 8]);
    assert_eq!(m.depth(), 1);
    assert_eq!(m.domain(), vec![7, 8]);
    assert_eq!(m.codomain(), vec![7, 8]);
}

#[test]
fn product_of_layers_puts_them_side_by_side() {
    let mut a = layer(&[2], &[1, 1], &[2]);
    a.monoidal(layer(&[3], &[5], &[6, 6]));
    assert_eq!(a.blocks, vec![Wires(2), Wires(3)]);
    assert_eq!(a.left_type, vec![1, 1, 5]);
    assert_eq!(a.right_type, vec![2, 6, 6]);
    let copy = a.duplicate();
    assert!(copy == a);
}

#[test]
fn append_layer_wants_the_interface_to_fit() {
    let mut m = GenericMonoidalMorphism::<Wires, u64>::new();
    assert_eq!(m.append_layer(layer(&[2], &[1, 1], &[2])), Ok(()));
    assert_eq!(m.append_layer(layer(&[1], &[2], &[3])), Ok(()));
    assert_eq!(m.depth(), 2);
    assert_eq!(m.domain(), vec![1, 1]);
    assert_eq!(m.codomain(), vec![3]);
    assert_eq!(
        m.append_layer(layer(&[1], &[4], &[5])),
        Err(DiagramError::CompositionArityMismatch)
    );
    // the layer that did not fit is refused, and the last layer is lost with it
    assert_eq!(m.depth(), 1);
    assert_eq!(m.codomain(), vec![2]);
}

#[test]
fn layers_composable_compares_the_interface() {
    let a = [layer(&[2], &[1, 1], &[2])];
    let b = [layer(&[1], &[2], &[3])];
    let none: [GenericMonoidalMorphismLayer<Wires, u64>; 0] = [];
    let scalar = [layer(&[0], &[], &[])];
    assert_eq!(layers_composable(&a, &b), Ok(()));
    assert_eq!(layers_composable(&b, &a), Err(DiagramError::CompositionArityMismatch));
    assert_eq!(layers_composable(&a, &a), Err(DiagramError::CompositionArityMismatch));
    assert_eq!(layers_composable(&none, &none), Ok(()));
    assert_eq!(layers_composable(&none, &a), Err(DiagramError::CompositionArityMismatch));
    assert_eq!(layers_composable(&a, &none), Err(DiagramError::CompositionArityMismatch));
    assert_eq!(layers_composable(&none, &scalar), Ok(()));
    assert_eq!(layers_composable(&scalar, &none), Ok(()));
}

#[test]
fn compose_appends_the_layers() {
    let mut m = GenericMonoidalMorphism::<Wires, u64>::new();
    m.append_layer(layer(&[2], &[1, 1], &[2])).unwrap();
    let mut other = GenericMonoidalMorphism::<Wires, u64>::new();
    other.append_layer(layer(&[1], &[2], &[3])).unwrap();
    other.append_layer(layer(&[1], &[3], &[4])).unwrap();
    assert_eq!(m.composable(&other), Ok(()));
    assert_eq!(m.compose(other), Ok(()));
    assert_eq!(m.depth(), 3);
    assert_eq!(m.codomain(), vec![4]);
    let mut wrong = GenericMonoidalMorphism::<Wires, u64>::new();
    wrong.append_layer(layer(&[1], &[9], &[9])).unwrap();
    assert_eq!(m.composable(&wrong), Err(DiagramError::CompositionArityMismatch));
    assert_eq!(m.compose(wrong), Err(DiagramError::CompositionArityMismatch));
}

#[test]
fn product_of_morphisms_goes_on_with_identities() {
    let mut m = GenericMonoidalMorphism::<Wires, u64>::new();
    m.append_layer(layer(&[2], &[1, 1], &[2])).unwrap();
    let mut other = GenericMonoidalMorphism::<Wires, u64>::new();
    other.append_layer(layer(&[1], &[5], &[6])).unwrap();
    other.append_layer(layer(&[1], &[6], &[7])).unwrap();
    m.monoidal(other);
    assert_eq!(m.depth(), 2);
    assert_eq!(m.domain(), vec![1, 1, 5]);
    assert_eq!(m.codomain(), vec![2, 7]);
    // the longer operand first
    let mut long = GenericMonoidalMorphism::<Wires, u64>::new();
    long.append_layer(layer(&[1], &[5], &[6])).unwrap();
    long.append_layer(layer(&[1], &[6], &[7])).unwrap();
    let mut short = GenericMonoidalMorphism::<Wires, u64>::new();
    short.append_layer(layer(&[2], &[1, 1], &[2])).unwrap();
    long.monoidal(short);
    assert_eq!(long.depth(), 2);
    assert_eq!(long.domain(), vec![5, 1, 1]);
    assert_eq!(long.codomain(), vec![7, 2]);
}

fn read_box(b: &Wires) -> Result<GenericMonoidalMorphism<Wires, u64>, DiagramError> {
    let mut one = GenericMonoidalMorphism::<Wires, u64>::new();
    one.append_layer(layer(&[b.0], &[b.0 as u64], &[b.0 as u64]))?;
    Ok(one)
}

#[test]
fn interpret_composes_the_products_of_the_layers() {
    let mut m = GenericMonoidalMorphism::<Wires, u64>::new();
    m.append_layer(layer(&[1, 2], &[1, 2], &[1, 2])).unwrap();
    m.append_layer(layer(&[1, 2], &[1, 2], &[1, 2])).unwrap();
    let r = <GenericMonoidalMorphism<Wires, u64> as GenericMonoidalInterpretableMut<u64>>::interpret(
        &m, &read_box,
    );
    let read = r.ok().unwrap();
    // the identity on the domain, then the two layers
    assert_eq!(read.depth(), 3);
    assert_eq!(read.domain(), vec![1, 2]);
    assert_eq!(read.codomain(), vec![1, 2]);
}

#[test]
fn interpret_refuses_a_layer_without_boxes() {
    let mut broken = GenericMonoidalMorphism::<Wires, u64>::new();
    broken.append_layer(layer(&[], &[], &[])).unwrap();
    let r = <GenericMonoidalMorphism<Wires, u64> as GenericMonoidalInterpretableMut<u64>>::interpret(
        &broken, &read_box,
    );
    assert!(r == Err(DiagramError::EmptyLayer));
}

#[test]
fn interpret_of_no_layers_is_the_identity_on_nothing() {
    let m = GenericMonoidalMorphism::<Wires, u64>::new();
    let r = <GenericMonoidalMorphism<Wires, u64> as GenericMonoidalInterpretableMut<u64>>::interpret(
        &m, &read_box,
    );
    let read = r.ok().unwrap();
    assert_eq!(read.depth(), 1);
    assert_eq!(read.domain(), Vec::<u64>::new());
}

#[test]
fn compose_that_is_refused_at_the_seam_costs_the_last_layer() {
    let mut m = GenericMonoidalMorphism::<Wires, u64>::new();
    m.append_layer(layer(&[2], &[1, 1], &[2])).unwrap();
    m.append_layer(layer(&[1], &[2], &[3])).unwrap();
    let mut wrong = GenericMonoidalMorphism::<Wires, u64>::new();
    wrong.append_layer(layer(&[1], &[9], &[9])).unwrap();
    wrong.append_layer(layer(&[1], &[9], &[8])).unwrap();
    assert_eq!(m.compose(wrong), Err(DiagramError::CompositionArityMismatch));
    assert_eq!(m.depth(), 1);
    assert_eq!(m.codomain(), vec![2]);
    // onto no layers every morphism fits
    let mut none = GenericMonoidalMorphism::<Wires, u64>::new();
    let mut any = GenericMonoidalMorphism::<Wires, u64>::new();
    any.append_layer(layer(&[1], &[9], &[9])).unwrap();
    assert_eq!(none.compose(any), Ok(()));
    assert_eq!(none.depth(), 1);
}

#[test]
fn interpret_hands_on_the_error_of_the_interpreter() {
    let mut m = GenericMonoidalMorphism::<Wires, u64>::new();
    m.append_layer(layer(&[1, 7], &[1, 7], &[1, 7])).unwrap();
    m.append_layer(layer(&[], &[1, 7], &[1, 7])).unwrap();
    let failing = |b: &Wires| {
        if b.0 == 7 {
            Err(DiagramError::NoPermutation)
        } else {
            read_box(b)
        }
    };
    let r = <GenericMonoidalMorphism<Wires, u64> as GenericMonoidalInterpretableMut<u64>>::interpret(
        &m, &failing,
    );
    assert!(r == Err(DiagramError::NoPermutation));
}

#[test]
fn interpret_stops_at_the_first_layer_without_boxes() {
    let mut m = GenericMonoidalMorphism::<Wires, u64>::new();
    m.append_layer(layer(&[], &[], &[])).unwrap();
    m.append_layer(layer(&[7], &[], &[])).unwrap();
    let failing = |b: &Wires| {
        if b.0 == 7 {
            Err(DiagramError::NoPermutation)
        } else {
            read_box(b)
        }
    };
    let r = <GenericMonoidalMorphism<Wires, u64> as GenericMonoidalInterpretableMut<u64>>::interpret(
        &m, &failing,
    );
    assert!(r == Err(DiagramError::EmptyLayer));
}
