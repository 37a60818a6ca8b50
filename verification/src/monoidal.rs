//! The monoidal product, and morphisms built in layers of black boxes.

use vstd::prelude::*;
use crate::category::{Composable, ComposableMutating, HasIdentity};
use crate::error::DiagramError;
use crate::key::Key;

verus! {

/// Morphisms that can be placed side by side.
pub trait Monoidal: Sized {
    /// The operands whose product this implementation can hold.
    spec fn monoidal_req(&self, other: &Self) -> bool;

    /// Changes the morphism `self` to the product of `self` and `other`.
    fn monoidal(&mut self, other: Self)
        requires
            old(self).monoidal_req(&other),
    ;
}

/// Morphisms of a monoidal category whose composite is a new morphism.
pub trait MonoidalMorphism<T>: Monoidal + Composable<T> {

}

/// Morphisms of a monoidal category that take the composite in place.
pub trait MonoidalMutatingMorphism<T>: Monoidal + ComposableMutating<T> {

}

/// The two lists of labels are the same, place by place.
pub open spec fn same_types<Lambda: Key>(a: Seq<Lambda>, b: Seq<Lambda>) -> bool {
    a.len() == b.len() && forall|i: int| 0 <= i < a.len() ==> (#[trigger] a[i])@ == b[i]@
}

/// Whether the two lists of labels are the same, place by place.
pub fn types_equal<Lambda: Key>(a: &Vec<Lambda>, b: &Vec<Lambda>) -> (r: bool)
    ensures
        r == same_types(a@, b@),
{
    if a.len() != b.len() {
        return false;
    }
    let mut i: usize = 0;
    while i < a.len()
        invariant
            i <= a@.len(),
            a@.len() == b@.len(),
            forall|k: int| 0 <= k < i ==> (#[trigger] a@[k])@ == b@[k]@,
        decreases a@.len() - i,
    {
        if !a[i].key_eq(&b[i]) {
            return false;
        }
        i += 1;
    }
    true
}

/// A copy of a list of labels.
pub fn copy_types<Lambda: Key + Copy>(a: &Vec<Lambda>) -> (r: Vec<Lambda>)
    ensures
        r@ == a@,
{
    let mut r: Vec<Lambda> = Vec::new();
    let mut i: usize = 0;
    while i < a.len()
        invariant
            i <= a@.len(),
            r@ == a@.take(i as int),
        decreases a@.len() - i,
    {
        r.push(a[i]);
        proof {
            assert(a@.take(i + 1) =~= a@.take(i as int).push(a@[i as int]));
        }
        i += 1;
    }
    proof {
        assert(a@.take(a@.len() as int) =~= a@);
    }
    r
}

/// One layer of a morphism that is built from black boxes: the boxes side by
/// side, with the labels of everything that enters and leaves the layer.
#[derive(PartialEq, Eq, Clone)]
pub struct GenericMonoidalMorphismLayer<BoxType, Lambda: Key + Copy> {
    pub blocks: Vec<BoxType>,
    pub left_type: Vec<Lambda>,
    pub right_type: Vec<Lambda>,
}

impl<BoxType, Lambda: Key + Copy> GenericMonoidalMorphismLayer<BoxType, Lambda> {
    /// The layer without boxes.
    pub fn new() -> (r: Self)
        ensures
            r.blocks@ == Seq::<BoxType>::empty(),
            r.left_type@ == Seq::<Lambda>::empty(),
            r.right_type@ == Seq::<Lambda>::empty(),
    {
        Self { blocks: Vec::new(), left_type: Vec::new(), right_type: Vec::new() }
    }

}

impl<BoxType: Clone, Lambda: Key + Copy> GenericMonoidalMorphismLayer<BoxType, Lambda> {
    /// `copy` holds a clone of every box of `self`, and the same labels.
    pub open spec fn cloned_as(&self, copy: &Self) -> bool {
        &&& copy.left_type@ == self.left_type@
        &&& copy.right_type@ == self.right_type@
        &&& copy.blocks@.len() == self.blocks@.len()
        &&& forall|i: int|
            0 <= i < self.blocks@.len() ==> cloned::<BoxType>(
                self.blocks@[i],
                #[trigger] copy.blocks@[i],
            )
    }

    /// A layer with a clone of every box, and the same labels.
    pub fn duplicate(&self) -> (r: Self)
        ensures
            self.cloned_as(&r),
    {
        let mut blocks: Vec<BoxType> = Vec::new();
        let mut i: usize = 0;
        while i < self.blocks.len()
            invariant
                i <= self.blocks@.len(),
                blocks@.len() == i,
                forall|k: int|
                    0 <= k < i ==> cloned::<BoxType>(self.blocks@[k], #[trigger] blocks@[k]),
            decreases self.blocks@.len() - i,
        {
            blocks.push(self.blocks[i].clone());
            i += 1;
        }
        Self {
            blocks,
            left_type: copy_types(&self.left_type),
            right_type: copy_types(&self.right_type),
        }
    }
}

impl<BoxType: HasIdentity<Lambda>, Lambda: Key + Copy> HasIdentity<
    Vec<Lambda>,
> for GenericMonoidalMorphismLayer<BoxType, Lambda> {
    /// The boxes must have an identity on every label.
    open spec fn identity_req(on_type: &Vec<Lambda>) -> bool {
        forall|i: int| 0 <= i < on_type@.len() ==> BoxType::identity_req(&#[trigger] on_type@[i])
    }

    /// The layer of the identities on the labels `on_type`.
    fn identity(on_type: &Vec<Lambda>) -> (r: Self)
        ensures
            r.left_type@ == on_type@,
            r.right_type@ == on_type@,
            r.blocks@.len() == on_type@.len(),
            forall|i: int|
                0 <= i < on_type@.len() ==> call_ensures(
                    BoxType::identity,
                    (&on_type@[i],),
                    #[trigger] r.blocks@[i],
                ),
    {
        let mut answer = Self::new();
        let mut i: usize = 0;
        while i < on_type.len()
            invariant
                i <= on_type@.len(),
                forall|k: int|
                    0 <= k < on_type@.len() ==> BoxType::identity_req(&#[trigger] on_type@[k]),
                answer.left_type@ == on_type@.take(i as int),
                answer.right_type@ == on_type@.take(i as int),
                answer.blocks@.len() == i,
                forall|k: int|
                    0 <= k < i ==> call_ensures(
                        BoxType::identity,
                        (&on_type@[k],),
                        #[trigger] answer.blocks@[k],
                    ),
            decreases on_type@.len() - i,
        {
            let cur_type = &on_type[i];
            answer.blocks.push(BoxType::identity(cur_type));
            answer.left_type.push(*cur_type);
            answer.right_type.push(*cur_type);
            proof {
                assert(on_type@.take(i + 1) =~= on_type@.take(i as int).push(on_type@[i as int]));
            }
            i += 1;
        }
        proof {
            assert(on_type@.take(on_type@.len() as int) =~= on_type@);
        }
        answer
    }
}

impl<BoxType, Lambda: Key + Copy> Monoidal for GenericMonoidalMorphismLayer<BoxType, Lambda> {
    open spec fn monoidal_req(&self, other: &Self) -> bool {
        true
    }

    /// The boxes and the labels of `other` come after those of `self`.
    fn monoidal(&mut self, other: Self)
        ensures
            final(self).blocks@ == old(self).blocks@ + other.blocks@,
            final(self).left_type@ == old(self).left_type@ + other.left_type@,
            final(self).right_type@ == old(self).right_type@ + other.right_type@,
    {
        let mut other = other;
        self.blocks.append(&mut other.blocks);
        self.left_type.append(&mut other.left_type);
        self.right_type.append(&mut other.right_type);
    }
}

/// The labels that leave the last layer; none where there is no layer.
pub open spec fn outgoing<BoxType, Lambda: Key + Copy>(
    layers: Seq<GenericMonoidalMorphismLayer<BoxType, Lambda>>,
) -> Seq<Lambda> {
    if layers.len() == 0 {
        Seq::empty()
    } else {
        layers.last().right_type@
    }
}

/// The labels that enter the first layer; none where there is no layer.
pub open spec fn incoming<BoxType, Lambda: Key + Copy>(
    layers: Seq<GenericMonoidalMorphismLayer<BoxType, Lambda>>,
) -> Seq<Lambda> {
    if layers.len() == 0 {
        Seq::empty()
    } else {
        layers.first().left_type@
    }
}

/// Whether what leaves the layers `l` is what enters the layers `r`, in
/// number and in labels. Where one side has no layer, the other must have
/// nothing at the interface.
pub fn layers_composable<Lambda: Key + Copy, BoxType>(
    l: &[GenericMonoidalMorphismLayer<BoxType, Lambda>],
    r: &[GenericMonoidalMorphismLayer<BoxType, Lambda>],
) -> (res: Result<(), DiagramError>)
    ensures
        res is Ok <==> same_types(outgoing(l@), incoming(r@)),
        res is Err ==> res == Err::<(), DiagramError>(DiagramError::CompositionArityMismatch),
{
    if l.len() == 0 || r.len() == 0 {
        if l.len() == 0 && r.len() == 0 {
            return Ok(());
        } else if l.len() == 0 {
            let other_interface = &r[0].left_type;
            if other_interface.len() == 0 {
                return Ok(());
            } else {
                return Err(DiagramError::CompositionArityMismatch);
            }
        } else {
            let self_interface = &l[l.len() - 1].right_type;
            if self_interface.len() == 0 {
                return Ok(());
            } else {
                return Err(DiagramError::CompositionArityMismatch);
            }
        }
    }
    let lhs = &l[l.len() - 1].right_type;
    let rhs = &r[0].left_type;
    if lhs.len() != rhs.len() {
        return Err(DiagramError::CompositionArityMismatch);
    }
    if types_equal(lhs, rhs) {
        return Ok(());
    }
    Err(DiagramError::CompositionArityMismatch)
}

/// Layer `i` of `incoming` fits when the layers of `incoming` are put after
/// `layers` one by one: nothing stands before it, or what leaves the layer
/// before it is what enters it.
pub open spec fn fits_at<BoxType, Lambda: Key + Copy>(
    layers: Seq<GenericMonoidalMorphismLayer<BoxType, Lambda>>,
    incoming: Seq<GenericMonoidalMorphismLayer<BoxType, Lambda>>,
    i: int,
) -> bool {
    let so_far = layers + incoming.take(i);
    so_far.len() == 0 || same_types(so_far.last().right_type@, incoming[i].left_type@)
}

/// Layer `i` of `incoming` is the first that does not fit.
pub open spec fn is_first_misfit<BoxType, Lambda: Key + Copy>(
    layers: Seq<GenericMonoidalMorphismLayer<BoxType, Lambda>>,
    incoming: Seq<GenericMonoidalMorphismLayer<BoxType, Lambda>>,
    i: int,
) -> bool {
    &&& 0 <= i < incoming.len()
    &&& !fits_at(layers, incoming, i)
    &&& forall|j: int| 0 <= j < i ==> #[trigger] fits_at(layers, incoming, j)
}

/// The first layer of `incoming` that does not fit, where there is one.
pub open spec fn first_misfit<BoxType, Lambda: Key + Copy>(
    layers: Seq<GenericMonoidalMorphismLayer<BoxType, Lambda>>,
    incoming: Seq<GenericMonoidalMorphismLayer<BoxType, Lambda>>,
) -> int {
    choose|i: int| is_first_misfit(layers, incoming, i)
}

/// There is one first layer that does not fit, at most.
pub proof fn lemma_first_misfit<BoxType, Lambda: Key + Copy>(
    layers: Seq<GenericMonoidalMorphismLayer<BoxType, Lambda>>,
    incoming: Seq<GenericMonoidalMorphismLayer<BoxType, Lambda>>,
    i: int,
)
    requires
        is_first_misfit(layers, incoming, i),
    ensures
        first_misfit(layers, incoming) == i,
{
    let k = first_misfit(layers, incoming);
    assert(is_first_misfit(layers, incoming, k));
    if k < i {
        assert(fits_at(layers, incoming, k));
    } else if i < k {
        assert(fits_at(layers, incoming, i));
    }
}

/// A morphism that is built from black boxes, layer after layer.
#[derive(Clone, PartialEq, Eq)]
pub struct GenericMonoidalMorphism<BoxType, Lambda: Key + Copy> {
    layers: Vec<GenericMonoidalMorphismLayer<BoxType, Lambda>>,
}

impl<BoxType, Lambda: Key + Copy> GenericMonoidalMorphism<BoxType, Lambda> {
    /// The layers, first to last.
    pub closed spec fn layers(&self) -> Seq<GenericMonoidalMorphismLayer<BoxType, Lambda>> {
        self.layers@
    }

    /// The morphism without layers.
    pub fn new() -> (r: Self)
        ensures
            r.layers() == Seq::<GenericMonoidalMorphismLayer<BoxType, Lambda>>::empty(),
    {
        Self { layers: Vec::new() }
    }

    /// The number of layers.
    pub fn depth(&self) -> (d: usize)
        ensures
            d == self.layers().len(),
    {
        self.layers.len()
    }

    /// Puts `next_layer` after the last layer, if what leaves the last layer
    /// is what enters `next_layer`; the first layer always fits. A layer
    /// that does not fit is refused, and the last layer is lost with it.
    pub fn append_layer(&mut self, next_layer: GenericMonoidalMorphismLayer<BoxType, Lambda>) -> (r:
        Result<(), DiagramError>)
        ensures
            match r {
                Ok(_) => {
                    &&& old(self).layers().len() > 0 ==> same_types(
                        old(self).layers().last().right_type@,
                        next_layer.left_type@,
                    )
                    &&& final(self).layers() == old(self).layers().push(next_layer)
                },
                Err(e) => {
                    &&& e == DiagramError::CompositionArityMismatch
                    &&& old(self).layers().len() > 0
                    &&& !same_types(old(self).layers().last().right_type@, next_layer.left_type@)
                    &&& final(self).layers() == old(self).layers().drop_last()
                },
            },
    {
        let ghost before = self.layers@;
        match self.layers.pop() {
            Some(last_so_far) => {
                if !types_equal(&last_so_far.right_type, &next_layer.left_type) {
                    proof {
                        assert(self.layers@ =~= before.drop_last());
                    }
                    return Err(DiagramError::CompositionArityMismatch);
                }
                self.layers.push(last_so_far);
                proof {
                    assert(self.layers@ =~= before);
                }
            },
            None => {},
        }
        self.layers.push(next_layer);
        Ok(())
    }
}

impl<BoxType: HasIdentity<Lambda>, Lambda: Key + Copy> HasIdentity<
    Vec<Lambda>,
> for GenericMonoidalMorphism<BoxType, Lambda> {
    /// The boxes must have an identity on every label.
    open spec fn identity_req(on_this: &Vec<Lambda>) -> bool {
        forall|i: int| 0 <= i < on_this@.len() ==> BoxType::identity_req(&#[trigger] on_this@[i])
    }

    /// The morphism of one layer, the identities on the labels `on_this`.
    fn identity(on_this: &Vec<Lambda>) -> (r: Self)
        ensures
            r.layers().len() == 1,
            r.layers()[0].left_type@ == on_this@,
            r.layers()[0].right_type@ == on_this@,
            r.layers()[0].blocks@.len() == on_this@.len(),
            forall|i: int|
                0 <= i < on_this@.len() ==> call_ensures(
                    BoxType::identity,
                    (&on_this@[i],),
                    #[trigger] r.layers()[0].blocks@[i],
                ),
    {
        let mut layers: Vec<GenericMonoidalMorphismLayer<BoxType, Lambda>> = Vec::new();
        layers.push(GenericMonoidalMorphismLayer::identity(on_this));
        Self { layers }
    }
}

impl<BoxType, Lambda: Key + Copy> ComposableMutating<Vec<Lambda>> for GenericMonoidalMorphism<
    BoxType,
    Lambda,
> {
    open spec fn compose_req(&self, other: &Self) -> bool {
        true
    }

    fn composable(&self, other: &Self) -> (r: Result<(), DiagramError>)
        ensures
            r is Ok <==> same_types(outgoing(self.layers()), incoming(other.layers())),
            r is Err ==> r == Err::<(), DiagramError>(DiagramError::CompositionArityMismatch),
    {
        layers_composable(self.layers.as_slice(), other.layers.as_slice())
    }

    /// Appends the layers of `other` one by one, and stops at the first that
    /// does not fit: that layer is refused, and the layer before it is lost
    /// with it.
    fn compose(&mut self, other: Self) -> (r: Result<(), DiagramError>)
        ensures
            r is Ok <==> forall|i: int|
                0 <= i < other.layers().len() ==> #[trigger] fits_at(
                    old(self).layers(),
                    other.layers(),
                    i,
                ),
            r is Ok ==> final(self).layers() == old(self).layers() + other.layers(),
            r matches Err(e) ==> e == DiagramError::CompositionArityMismatch && is_first_misfit(
                old(self).layers(),
                other.layers(),
                first_misfit(old(self).layers(), other.layers()),
            ) && final(self).layers() == (old(self).layers() + other.layers().take(
                first_misfit(old(self).layers(), other.layers()),
            )).drop_last(),
    {
        let ghost before = self.layers@;
        let ghost incoming_layers = other.layers@;
        let mut rest = other.layers;
        let ghost count = rest.len();
        let mut i: usize = 0;
        while rest.len() > 0
            invariant
                incoming_layers.len() == count,
                i + rest@.len() == incoming_layers.len(),
                rest@ == incoming_layers.subrange(i as int, incoming_layers.len() as int),
                before == old(self).layers(),
                incoming_layers == other.layers(),
                self.layers@ == before + incoming_layers.take(i as int),
                forall|j: int| 0 <= j < i ==> #[trigger] fits_at(before, incoming_layers, j),
            decreases rest@.len(),
        {
            let next_layer = rest.remove(0);
            let ghost so_far = self.layers@;
            proof {
                assert(next_layer == incoming_layers[i as int]);
            }
            match self.append_layer(next_layer) {
                Ok(_) => {},
                Err(e) => {
                    proof {
                        assert(!fits_at(before, incoming_layers, i as int));
                        lemma_first_misfit(before, incoming_layers, i as int);
                    }
                    return Err(e);
                },
            }
            proof {
                assert(incoming_layers.take(i + 1) =~= incoming_layers.take(i as int).push(
                    incoming_layers[i as int],
                ));
                assert(self.layers@ =~= before + incoming_layers.take(i + 1));
                assert(rest@ =~= incoming_layers.subrange(i + 1, incoming_layers.len() as int));
                assert(fits_at(before, incoming_layers, i as int));
            }
            i += 1;
        }
        proof {
            assert(incoming_layers.take(incoming_layers.len() as int) =~= incoming_layers);
        }
        Ok(())
    }

    /// The labels that enter the first layer.
    fn domain(&self) -> (r: Vec<Lambda>)
        ensures
            r@ == incoming(self.layers()),
    {
        if self.layers.len() == 0 {
            Vec::new()
        } else {
            copy_types(&self.layers[0].left_type)
        }
    }

    /// The labels that leave the last layer.
    fn codomain(&self) -> (r: Vec<Lambda>)
        ensures
            r@ == outgoing(self.layers()),
    {
        if self.layers.len() == 0 {
            Vec::new()
        } else {
            copy_types(&self.layers[self.layers.len() - 1].right_type)
        }
    }
}

/// Every layer but the last hands on what the next layer takes.
pub open spec fn layers_fit<BoxType, Lambda: Key + Copy>(
    layers: Seq<GenericMonoidalMorphismLayer<BoxType, Lambda>>,
) -> bool {
    forall|i: int|
        0 <= i < layers.len() - 1 ==> same_types(
            (#[trigger] layers[i]).right_type@,
            layers[i + 1].left_type@,
        )
}

/// Layer `n` of the product of two layered morphisms: the layers of the two
/// side by side, and the identity on what has left the shorter one where it
/// has come to its end.
pub open spec fn product_layer_types<BoxType, Lambda: Key + Copy>(
    a: Seq<GenericMonoidalMorphismLayer<BoxType, Lambda>>,
    b: Seq<GenericMonoidalMorphismLayer<BoxType, Lambda>>,
    n: int,
) -> (Seq<Lambda>, Seq<Lambda>) {
    let a_side = if n < a.len() {
        (a[n].left_type@, a[n].right_type@)
    } else {
        (outgoing(a), outgoing(a))
    };
    let b_side = if n < b.len() {
        (b[n].left_type@, b[n].right_type@)
    } else {
        (outgoing(b), outgoing(b))
    };
    (a_side.0 + b_side.0, a_side.1 + b_side.1)
}

/// `block` is box `i` of what one operand of a product gives to layer `n`:
/// the box of its layer `n`, or a clone of it where `copied` says so; where
/// the operand has come to its end, the identity on label `i` of what has
/// left it.
pub open spec fn is_product_box<BoxType: Clone + HasIdentity<Lambda>, Lambda: Key + Copy>(
    a: Seq<GenericMonoidalMorphismLayer<BoxType, Lambda>>,
    n: int,
    copied: bool,
    i: int,
    block: BoxType,
) -> bool {
    if n < a.len() {
        if copied {
            cloned::<BoxType>(a[n].blocks@[i], block)
        } else {
            block == a[n].blocks@[i]
        }
    } else {
        call_ensures(BoxType::identity, (&outgoing(a)[i],), block)
    }
}

/// The number of boxes that one operand of a product gives to layer `n`.
pub open spec fn product_share<BoxType, Lambda: Key + Copy>(
    a: Seq<GenericMonoidalMorphismLayer<BoxType, Lambda>>,
    n: int,
) -> nat {
    if n < a.len() {
        a[n].blocks@.len()
    } else {
        outgoing(a).len()
    }
}

/// `layer` holds the boxes of layer `n` of the product of two layered
/// morphisms: first those of the first operand, then clones of those of the
/// second, with identities for an operand that has come to its end.
pub open spec fn holds_product_boxes<BoxType: Clone + HasIdentity<Lambda>, Lambda: Key + Copy>(
    a: Seq<GenericMonoidalMorphismLayer<BoxType, Lambda>>,
    b: Seq<GenericMonoidalMorphismLayer<BoxType, Lambda>>,
    n: int,
    layer: GenericMonoidalMorphismLayer<BoxType, Lambda>,
) -> bool {
    &&& layer.blocks@.len() == product_share(a, n) + product_share(b, n)
    &&& forall|i: int|
        0 <= i < product_share(a, n) ==> is_product_box(a, n, false, i, #[trigger] layer.blocks@[i])
    &&& forall|i: int|
        0 <= i < product_share(b, n) ==> #[trigger] is_product_box(
            b,
            n,
            true,
            i,
            layer.blocks@[product_share(a, n) + i],
        )
}

impl<BoxType: Clone + HasIdentity<Lambda>, Lambda: Key + Copy> Monoidal for GenericMonoidalMorphism<
    BoxType,
    Lambda,
> {
    /// The boxes must have an identity on every label that leaves a layer,
    /// and the layers of each operand must fit.
    open spec fn monoidal_req(&self, other: &Self) -> bool {
        &&& layers_fit(self.layers())
        &&& layers_fit(other.layers())
        &&& forall|n: int, i: int|
            0 <= n < self.layers().len() && 0 <= i < self.layers()[n].right_type@.len()
                ==> BoxType::identity_req(&#[trigger] self.layers()[n].right_type@[i])
        &&& forall|n: int, i: int|
            0 <= n < other.layers().len() && 0 <= i < other.layers()[n].right_type@.len()
                ==> BoxType::identity_req(&#[trigger] other.layers()[n].right_type@[i])
    }

    /// The product, layer by layer: the shorter operand goes on with
    /// identities on what has left its last layer.
    fn monoidal(&mut self, other: Self)
        ensures
            final(self).layers().len() == if old(self).layers().len() >= other.layers().len() {
                old(self).layers().len()
            } else {
                other.layers().len()
            },
            forall|n: int|
                0 <= n < final(self).layers().len() ==> ((#[trigger] final(self).layers()[n]).left_type@,
                    final(self).layers()[n].right_type@) == product_layer_types(
                    old(self).layers(),
                    other.layers(),
                    n,
                ),
            forall|n: int|
                0 <= n < final(self).layers().len() ==> holds_product_boxes(
                    old(self).layers(),
                    other.layers(),
                    n,
                    #[trigger] final(self).layers()[n],
                ),
            layers_fit(final(self).layers()),
    {
        let self_len = self.layers.len();
        let others_len = other.layers.len();
        let ghost a = self.layers@;
        let ghost b = other.layers@;
        let mut last_other_type: Vec<Lambda> = Vec::new();
        let mut last_self_type: Vec<Lambda> = Vec::new();
        let mut n: usize = 0;
        while n < self_len
            invariant
                n <= self_len,
                self_len == a.len(),
                others_len == b.len(),
                b == other.layers@,
                self.layers@.len() == a.len(),
                forall|k: int| n <= k < a.len() ==> #[trigger] self.layers@[k] == a[k],
                forall|k: int|
                    0 <= k < n ==> ((#[trigger] self.layers@[k]).left_type@, self.layers@[k].right_type@)
                        == product_layer_types(a, b, k),
                forall|k: int|
                    0 <= k < n ==> holds_product_boxes(a, b, k, #[trigger] self.layers@[k]),
                last_self_type@ == outgoing(a.take(n as int)),
                last_other_type@ == outgoing(b.take(if n <= b.len() { n as int } else { b.len() as int })),
                forall|m: int, i: int|
                    0 <= m < b.len() && 0 <= i < b[m].right_type@.len() ==> BoxType::identity_req(
                        &#[trigger] b[m].right_type@[i],
                    ),
            decreases self_len - n,
        {
            last_self_type = copy_types(&self.layers[n].right_type);
            let extra = if n < others_len {
                last_other_type = copy_types(&other.layers[n].right_type);
                other.layers[n].duplicate()
            } else {
                proof {
                    assert(b.take(b.len() as int) =~= b);
                }
                GenericMonoidalMorphismLayer::identity(&last_other_type)
            };
            proof {
                assert(a.take(n + 1).last() == a[n as int]);
                if n < others_len {
                    assert(b.take(n + 1).last() == b[n as int]);
                } else {
                    assert(b.take(b.len() as int) =~= b);
                }
            }
            let mut cur_self_layer = self.layers.remove(n);
            cur_self_layer.monoidal(extra);
            self.layers.insert(n, cur_self_layer);
            n += 1;
        }
        proof {
            assert(a.take(a.len() as int) =~= a);
        }
        let mut m: usize = self_len;
        while m < others_len
            invariant
                self_len <= m,
                m <= others_len || m == self_len,
                self_len == a.len(),
                others_len == b.len(),
                b == other.layers@,
                self.layers@.len() == m,
                last_self_type@ == outgoing(a),
                forall|k: int|
                    0 <= k < m ==> ((#[trigger] self.layers@[k]).left_type@, self.layers@[k].right_type@)
                        == product_layer_types(a, b, k),
                forall|k: int|
                    0 <= k < m ==> holds_product_boxes(a, b, k, #[trigger] self.layers@[k]),
                forall|x: int, i: int|
                    0 <= x < a.len() && 0 <= i < a[x].right_type@.len() ==> BoxType::identity_req(
                        &#[trigger] a[x].right_type@[i],
                    ),
            decreases others_len - m,
        {
            let mut new_layer = GenericMonoidalMorphismLayer::identity(&last_self_type);
            new_layer.monoidal(other.layers[m].duplicate());
            self.layers.push(new_layer);
            m += 1;
        }
        proof {
            lemma_product_fits(a, b, self.layers@);
        }
    }
}

/// The layers of a product fit where the layers of the two operands fit.
pub proof fn lemma_product_fits<BoxType, Lambda: Key + Copy>(
    a: Seq<GenericMonoidalMorphismLayer<BoxType, Lambda>>,
    b: Seq<GenericMonoidalMorphismLayer<BoxType, Lambda>>,
    out: Seq<GenericMonoidalMorphismLayer<BoxType, Lambda>>,
)
    requires
        layers_fit(a),
        layers_fit(b),
        forall|n: int|
            0 <= n < out.len() ==> ((#[trigger] out[n]).left_type@, out[n].right_type@)
                == product_layer_types(a, b, n),
    ensures
        layers_fit(out),
{
    assert forall|i: int| 0 <= i < out.len() - 1 implies same_types(
        (#[trigger] out[i]).right_type@,
        out[i + 1].left_type@,
    ) by {
        let left = out[i].right_type@;
        let right = out[i + 1].left_type@;
        assert((out[i].left_type@, out[i].right_type@) == product_layer_types(a, b, i));
        assert((out[i + 1].left_type@, out[i + 1].right_type@) == product_layer_types(a, b, i + 1));
        if i + 1 < a.len() {
            assert(same_types(a[i].right_type@, a[i + 1].left_type@));
        }
        if i + 1 < b.len() {
            assert(same_types(b[i].right_type@, b[i + 1].left_type@));
        }
        let pa = product_layer_types(a, b, i);
        let pb = product_layer_types(a, b, i + 1);
        assert(left.len() == right.len());
        assert forall|k: int| 0 <= k < left.len() implies (#[trigger] left[k])@ == right[k]@ by {
            let a_right = if i < a.len() {
                a[i].right_type@
            } else {
                outgoing(a)
            };
            if k < a_right.len() {
                if i + 1 < a.len() {
                    assert(a[i].right_type@[k]@ == a[i + 1].left_type@[k]@);
                }
            } else {
                let j = k - a_right.len();
                if i + 1 < b.len() {
                    assert(b[i].right_type@[j]@ == b[i + 1].left_type@[j]@);
                }
            }
        }
    }
}

impl<BoxType: Clone + HasIdentity<Lambda>, Lambda: Key + Copy> MonoidalMutatingMorphism<
    Vec<Lambda>,
> for GenericMonoidalMorphism<BoxType, Lambda> {

}

/// The interpreter gives a value for `block`.
pub open spec fn box_read<S, BoxType, F: Fn(&BoxType) -> Result<S, DiagramError>>(
    interpreter: &F,
    block: BoxType,
) -> bool {
    exists|v: S| #[trigger] call_ensures(interpreter, (&block,), Ok::<S, DiagramError>(v))
}

/// The interpreter gives a value for each of the first `upto` boxes of
/// `layer`.
pub open spec fn boxes_read<
    S,
    BoxType,
    Lambda: Key + Copy,
    F: Fn(&BoxType) -> Result<S, DiagramError>,
>(interpreter: &F, layer: GenericMonoidalMorphismLayer<BoxType, Lambda>, upto: int) -> bool {
    forall|i: int|
        0 <= i < upto ==> box_read::<S, BoxType, F>(interpreter, #[trigger] layer.blocks@[i])
}

/// Every layer before layer `n` has a box, and the interpreter gives a value
/// for every box of these layers.
pub open spec fn layers_read<
    S,
    BoxType,
    Lambda: Key + Copy,
    F: Fn(&BoxType) -> Result<S, DiagramError>,
>(interpreter: &F, layers: Seq<GenericMonoidalMorphismLayer<BoxType, Lambda>>, n: int) -> bool {
    forall|m: int|
        0 <= m < n ==> (#[trigger] layers[m]).blocks@.len() > 0 && boxes_read::<
            S,
            BoxType,
            Lambda,
            F,
        >(interpreter, layers[m], layers[m].blocks@.len() as int)
}

/// Reading stops at layer `n` with the error `e`. The layers before it are
/// read. Layer `n` has no box, and `e` says so; or the interpreter gives `e`
/// for one of its boxes, after values for the boxes before that one; or all
/// its boxes are read, and the composition with what was read before is
/// refused.
pub open spec fn stops_at<
    S,
    BoxType,
    Lambda: Key + Copy,
    F: Fn(&BoxType) -> Result<S, DiagramError>,
>(
    interpreter: &F,
    layers: Seq<GenericMonoidalMorphismLayer<BoxType, Lambda>>,
    n: int,
    e: DiagramError,
) -> bool {
    &&& 0 <= n < layers.len()
    &&& layers_read::<S, BoxType, Lambda, F>(interpreter, layers, n)
    &&& {
        ||| layers[n].blocks@.len() == 0 && e == DiagramError::EmptyLayer
        ||| exists|i: int|
            0 <= i < layers[n].blocks@.len() && boxes_read::<S, BoxType, Lambda, F>(
                interpreter,
                layers[n],
                i,
            ) && #[trigger] call_ensures(
                interpreter,
                (&layers[n].blocks@[i],),
                Err::<S, DiagramError>(e),
            )
        ||| layers[n].blocks@.len() > 0 && boxes_read::<S, BoxType, Lambda, F>(
            interpreter,
            layers[n],
            layers[n].blocks@.len() as int,
        )
    }
}

/// Morphisms into which a layered morphism of black boxes can be read, where
/// composition changes the first operand.
pub trait GenericMonoidalInterpretableMut<Lambda: Key + Copy>: Monoidal + ComposableMutating<
    Vec<Lambda>,
> + HasIdentity<Vec<Lambda>> {
    /// Reads `morphism` with `black_box_interpreter` for the boxes: the boxes
    /// of a layer are placed side by side, and the layers are composed onto
    /// the identity of the domain. Reading stops at the first layer without
    /// a box, with `EmptyLayer`, at the first error of the interpreter, which
    /// is handed on, and at the first composition that is refused.
    fn interpret<F: Fn(&BoxType) -> Result<Self, DiagramError>, BoxType>(
        morphism: &GenericMonoidalMorphism<BoxType, Lambda>,
        black_box_interpreter: &F,
    ) -> (r: Result<Self, DiagramError>)
        requires
            forall|on: &Vec<Lambda>| #[trigger] Self::identity_req(on),
            forall|a: &Self, b: &Self| #[trigger] a.monoidal_req(b),
            forall|a: &Self, b: &Self| #[trigger] ComposableMutating::compose_req(a, b),
            forall|n: int, i: int|
                0 <= n < morphism.layers().len() && 0 <= i < morphism.layers()[n].blocks@.len()
                    ==> call_requires(
                    black_box_interpreter,
                    (&#[trigger] morphism.layers()[n].blocks@[i],),
                ),
        ensures
            morphism.layers().len() == 0 ==> r is Ok,
            r is Ok ==> layers_read::<Self, BoxType, Lambda, F>(
                black_box_interpreter,
                morphism.layers(),
                morphism.layers().len() as int,
            ),
            r matches Err(e) ==> exists|n: int| #[trigger]
                stops_at::<Self, BoxType, Lambda, F>(black_box_interpreter, morphism.layers(), n, e),
            morphism.layers().len() > 0 && morphism.layers()[0].blocks@.len() == 0 ==> r == Err::<
                Self,
                DiagramError,
            >(DiagramError::EmptyLayer),
    {
        let domain = morphism.domain();
        let mut answer = Self::identity(&domain);
        let mut n: usize = 0;
        while n < morphism.layers.len()
            invariant
                n <= morphism.layers@.len(),
                morphism.layers() == morphism.layers@,
                forall|a: &Self, b: &Self| #[trigger] a.monoidal_req(b),
                forall|a: &Self, b: &Self| #[trigger] ComposableMutating::compose_req(a, b),
                forall|k: int, i: int|
                    0 <= k < morphism.layers@.len() && 0 <= i < morphism.layers@[k].blocks@.len()
                        ==> call_requires(
                        black_box_interpreter,
                        (&#[trigger] morphism.layers@[k].blocks@[i],),
                    ),
                layers_read::<Self, BoxType, Lambda, F>(
                    black_box_interpreter,
                    morphism.layers@,
                    n as int,
                ),
            decreases morphism.layers@.len() - n,
        {
            let layer = &morphism.layers[n];
            if layer.blocks.len() == 0 {
                proof {
                    assert(stops_at::<Self, BoxType, Lambda, F>(
                        black_box_interpreter,
                        morphism.layers(),
                        n as int,
                        DiagramError::EmptyLayer,
                    ));
                    if n > 0 {
                        assert(morphism.layers@[0].blocks@.len() > 0);
                    }
                }
                return Err(DiagramError::EmptyLayer);
            }
            let mut cur_layer = match black_box_interpreter(&layer.blocks[0]) {
                Ok(first) => first,
                Err(e) => {
                    proof {
                        assert(call_ensures(
                            black_box_interpreter,
                            (&morphism.layers()[n as int].blocks@[0],),
                            Err::<Self, DiagramError>(e),
                        ));
                        assert(stops_at::<Self, BoxType, Lambda, F>(
                            black_box_interpreter,
                            morphism.layers(),
                            n as int,
                            e,
                        ));
                        if n > 0 {
                            assert(morphism.layers@[0].blocks@.len() > 0);
                        }
                    }
                    return Err(e);
                },
            };
            proof {
                assert(call_ensures(
                    black_box_interpreter,
                    (&layer.blocks@[0],),
                    Ok::<Self, DiagramError>(cur_layer),
                ));
                assert(box_read::<Self, BoxType, F>(black_box_interpreter, layer.blocks@[0]));
            }
            let mut i: usize = 1;
            while i < layer.blocks.len()
                invariant
                    1 <= i <= layer.blocks@.len(),
                    n < morphism.layers@.len(),
                    layer == morphism.layers@[n as int],
                    morphism.layers() == morphism.layers@,
                    layers_read::<Self, BoxType, Lambda, F>(
                        black_box_interpreter,
                        morphism.layers@,
                        n as int,
                    ),
                    boxes_read::<Self, BoxType, Lambda, F>(black_box_interpreter, *layer, i as int),
                    forall|a: &Self, b: &Self| #[trigger] a.monoidal_req(b),
                    forall|k: int, i: int|
                        0 <= k < morphism.layers@.len() && 0 <= i < morphism.layers@[k].blocks@.len()
                            ==> call_requires(
                            black_box_interpreter,
                            (&#[trigger] morphism.layers@[k].blocks@[i],),
                        ),
                decreases layer.blocks@.len() - i,
            {
                match black_box_interpreter(&layer.blocks[i]) {
                    Ok(block) => {
                        proof {
                            assert(call_ensures(
                                black_box_interpreter,
                                (&layer.blocks@[i as int],),
                                Ok::<Self, DiagramError>(block),
                            ));
                            assert(box_read::<Self, BoxType, F>(
                                black_box_interpreter,
                                layer.blocks@[i as int],
                            ));
                        }
                        cur_layer.monoidal(block);
                    },
                    Err(e) => {
                        proof {
                            assert(call_ensures(
                                black_box_interpreter,
                                (&morphism.layers()[n as int].blocks@[i as int],),
                                Err::<Self, DiagramError>(e),
                            ));
                            assert(stops_at::<Self, BoxType, Lambda, F>(
                                black_box_interpreter,
                                morphism.layers(),
                                n as int,
                                e,
                            ));
                            if n > 0 {
                                assert(morphism.layers@[0].blocks@.len() > 0);
                            }
                        }
                        return Err(e);
                    },
                }
                i += 1;
            }
            match answer.compose(cur_layer) {
                Ok(_) => {},
                Err(e) => {
                    proof {
                        assert(stops_at::<Self, BoxType, Lambda, F>(
                            black_box_interpreter,
                            morphism.layers(),
                            n as int,
                            e,
                        ));
                        if n > 0 {
                            assert(morphism.layers@[0].blocks@.len() > 0);
                        }
                    }
                    return Err(e);
                },
            }
            n += 1;
        }
        Ok(answer)
    }
}

/// Morphisms into which a layered morphism of black boxes can be read, where
/// composition gives a new morphism.
pub trait GenericMonoidalInterpretable<Lambda: Key + Copy>: Monoidal + Composable<
    Vec<Lambda>,
> + HasIdentity<Vec<Lambda>> {
    /// Reads `morphism` with `black_box_interpreter` for the boxes: the boxes
    /// of a layer are placed side by side, and the layers are composed onto
    /// the identity of the domain. Reading stops at the first layer without
    /// a box, with `EmptyLayer`, at the first error of the interpreter, which
    /// is handed on, and at the first composition that is refused.
    fn interpret<F: Fn(&BoxType) -> Result<Self, DiagramError>, BoxType>(
        morphism: &GenericMonoidalMorphism<BoxType, Lambda>,
        black_box_interpreter: &F,
    ) -> (r: Result<Self, DiagramError>)
        requires
            forall|on: &Vec<Lambda>| #[trigger] Self::identity_req(on),
            forall|a: &Self, b: &Self| #[trigger] a.monoidal_req(b),
            forall|a: &Self, b: &Self| #[trigger] Composable::compose_req(a, b),
            forall|n: int, i: int|
                0 <= n < morphism.layers().len() && 0 <= i < morphism.layers()[n].blocks@.len()
                    ==> call_requires(
                    black_box_interpreter,
                    (&#[trigger] morphism.layers()[n].blocks@[i],),
                ),
        ensures
            morphism.layers().len() == 0 ==> r is Ok,
            r is Ok ==> layers_read::<Self, BoxType, Lambda, F>(
                black_box_interpreter,
                morphism.layers(),
                morphism.layers().len() as int,
            ),
            r matches Err(e) ==> exists|n: int| #[trigger]
                stops_at::<Self, BoxType, Lambda, F>(black_box_interpreter, morphism.layers(), n, e),
            morphism.layers().len() > 0 && morphism.layers()[0].blocks@.len() == 0 ==> r == Err::<
                Self,
                DiagramError,
            >(DiagramError::EmptyLayer),
    {
        let domain = morphism.domain();
        let mut answer = Self::identity(&domain);
        let mut n: usize = 0;
        while n < morphism.layers.len()
            invariant
                n <= morphism.layers@.len(),
                morphism.layers() == morphism.layers@,
                forall|a: &Self, b: &Self| #[trigger] a.monoidal_req(b),
                forall|a: &Self, b: &Self| #[trigger] Composable::compose_req(a, b),
                forall|k: int, i: int|
                    0 <= k < morphism.layers@.len() && 0 <= i < morphism.layers@[k].blocks@.len()
                        ==> call_requires(
                        black_box_interpreter,
                        (&#[trigger] morphism.layers@[k].blocks@[i],),
                    ),
                layers_read::<Self, BoxType, Lambda, F>(
                    black_box_interpreter,
                    morphism.layers@,
                    n as int,
                ),
            decreases morphism.layers@.len() - n,
        {
            let layer = &morphism.layers[n];
            if layer.blocks.len() == 0 {
                proof {
                    assert(stops_at::<Self, BoxType, Lambda, F>(
                        black_box_interpreter,
                        morphism.layers(),
                        n as int,
                        DiagramError::EmptyLayer,
                    ));
                    if n > 0 {
                        assert(morphism.layers@[0].blocks@.len() > 0);
                    }
                }
                return Err(DiagramError::EmptyLayer);
            }
            let mut cur_layer = match black_box_interpreter(&layer.blocks[0]) {
                Ok(first) => first,
                Err(e) => {
                    proof {
                        assert(call_ensures(
                            black_box_interpreter,
                            (&morphism.layers()[n as int].blocks@[0],),
                            Err::<Self, DiagramError>(e),
                        ));
                        assert(stops_at::<Self, BoxType, Lambda, F>(
                            black_box_interpreter,
                            morphism.layers(),
                            n as int,
                            e,
                        ));
                        if n > 0 {
                            assert(morphism.layers@[0].blocks@.len() > 0);
                        }
                    }
                    return Err(e);
                },
            };
            proof {
                assert(call_ensures(
                    black_box_interpreter,
                    (&layer.blocks@[0],),
                    Ok::<Self, DiagramError>(cur_layer),
                ));
                assert(box_read::<Self, BoxType, F>(black_box_interpreter, layer.blocks@[0]));
            }
            let mut i: usize = 1;
            while i < layer.blocks.len()
                invariant
                    1 <= i <= layer.blocks@.len(),
                    n < morphism.layers@.len(),
                    layer == morphism.layers@[n as int],
                    morphism.layers() == morphism.layers@,
                    layers_read::<Self, BoxType, Lambda, F>(
                        black_box_interpreter,
                        morphism.layers@,
                        n as int,
                    ),
                    boxes_read::<Self, BoxType, Lambda, F>(black_box_interpreter, *layer, i as int),
                    forall|a: &Self, b: &Self| #[trigger] a.monoidal_req(b),
                    forall|k: int, i: int|
                        0 <= k < morphism.layers@.len() && 0 <= i < morphism.layers@[k].blocks@.len()
                            ==> call_requires(
                            black_box_interpreter,
                            (&#[trigger] morphism.layers@[k].blocks@[i],),
                        ),
                decreases layer.blocks@.len() - i,
            {
                match black_box_interpreter(&layer.blocks[i]) {
                    Ok(block) => {
                        proof {
                            assert(call_ensures(
                                black_box_interpreter,
                                (&layer.blocks@[i as int],),
                                Ok::<Self, DiagramError>(block),
                            ));
                            assert(box_read::<Self, BoxType, F>(
                                black_box_interpreter,
                                layer.blocks@[i as int],
                            ));
                        }
                        cur_layer.monoidal(block);
                    },
                    Err(e) => {
                        proof {
                            assert(call_ensures(
                                black_box_interpreter,
                                (&morphism.layers()[n as int].blocks@[i as int],),
                                Err::<Self, DiagramError>(e),
                            ));
                            assert(stops_at::<Self, BoxType, Lambda, F>(
                                black_box_interpreter,
                                morphism.layers(),
                                n as int,
                                e,
                            ));
                            if n > 0 {
                                assert(morphism.layers@[0].blocks@.len() > 0);
                            }
                        }
                        return Err(e);
                    },
                }
                i += 1;
            }
            answer = match answer.compose(&cur_layer) {
                Ok(next) => next,
                Err(e) => {
                    proof {
                        assert(stops_at::<Self, BoxType, Lambda, F>(
                            black_box_interpreter,
                            morphism.layers(),
                            n as int,
                            e,
                        ));
                        if n > 0 {
                            assert(morphism.layers@[0].blocks@.len() > 0);
                        }
                    }
                    return Err(e);
                },
            };
            n += 1;
        }
        Ok(answer)
    }
}

impl<BoxType: Clone + HasIdentity<Lambda>, Lambda: Key + Copy> GenericMonoidalInterpretableMut<
    Lambda,
> for GenericMonoidalMorphism<BoxType, Lambda> {

}

} // verus!
