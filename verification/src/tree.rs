//! The tag-tree document model: what the markup parser produces and the
//! decoder consumes. An element has a name, child elements in document order,
//! and its accumulated character data.

use vstd::prelude::*;

verus! {

broadcast use vstd::std_specs::vec::group_vec_axioms;

/// One element of a parsed document.
#[derive(Debug)]
pub struct Element {
    /// The tag name.
    pub name: String,
    /// Child elements, in document order.
    pub children: Vec<Element>,
    /// Concatenated character data directly inside this element, with
    /// literal (no-escape) blocks folded in.
    pub text: String,
}

/// The mathematical image of an element: its name, the images of its
/// children in document order, and its character data.
pub struct ElemModel {
    pub name: Seq<char>,
    pub children: Seq<ElemModel>,
    pub text: Seq<char>,
}

impl Element {
    /// The element's mathematical image.
    pub open spec fn model(self) -> ElemModel
        decreases self,
    {
        ElemModel { name: self.name@, children: ems(self.children@), text: self.text@ }
    }
}

/// Images of a sequence of elements, in order.
pub open spec fn ems(els: Seq<Element>) -> Seq<ElemModel>
    decreases els,
{
    if els.len() == 0 {
        Seq::empty()
    } else {
        seq![els[0].model()] + ems(els.skip(1))
    }
}

pub proof fn lemma_ems(els: Seq<Element>)
    ensures
        ems(els).len() == els.len(),
        forall|i: int| 0 <= i < els.len() ==> ems(els)[i] == #[trigger] els[i].model(),
    decreases els.len(),
{
    if els.len() > 0 {
        lemma_ems(els.skip(1));
        assert(forall|i: int| 1 <= i < els.len() ==> els.skip(1)[i - 1] == #[trigger] els[i]);
    }
}

pub proof fn lemma_ems_push(els: Seq<Element>, e: Element)
    ensures
        ems(els.push(e)) == ems(els).push(e.model()),
{
    lemma_ems(els);
    lemma_ems(els.push(e));
    assert forall|i: int| 0 <= i < els.len() + 1 implies ems(els.push(e))[i] == ems(els).push(
        e.model(),
    )[i] by {
        assert(ems(els.push(e))[i] == els.push(e)[i].model());
        if i < els.len() {
            assert(els.push(e)[i] == els[i]);
            assert(ems(els)[i] == els[i].model());
        } else {
            assert(els.push(e)[i] == e);
        }
    }
    assert(ems(els.push(e)) =~= ems(els).push(e.model()));
}

pub proof fn lemma_ems_update(els: Seq<Element>, i: int, e: Element)
    requires
        0 <= i < els.len(),
    ensures
        ems(els.update(i, e)) == ems(els).update(i, e.model()),
{
    lemma_ems(els);
    lemma_ems(els.update(i, e));
    assert forall|k: int| 0 <= k < els.len() implies ems(els.update(i, e))[k] == ems(
        els,
    ).update(i, e.model())[k] by {
        assert(ems(els.update(i, e))[k] == els.update(i, e)[k].model());
        if k != i {
            assert(els.update(i, e)[k] == els[k]);
            assert(ems(els)[k] == els[k].model());
        } else {
            assert(els.update(i, e)[k] == e);
        }
    }
    assert(ems(els.update(i, e)) =~= ems(els).update(i, e.model()));
}

pub proof fn lemma_ems_drop_last(els: Seq<Element>)
    requires
        els.len() > 0,
    ensures
        ems(els.drop_last()) == ems(els).drop_last(),
{
    lemma_ems(els);
    lemma_ems(els.drop_last());
    assert forall|k: int| 0 <= k < els.len() - 1 implies ems(els.drop_last())[k] == ems(
        els,
    ).drop_last()[k] by {
        assert(ems(els.drop_last())[k] == els.drop_last()[k].model());
        assert(els.drop_last()[k] == els[k]);
        assert(ems(els)[k] == els[k].model());
    }
    assert(ems(els.drop_last()) =~= ems(els).drop_last());
}

/// Height measure of an element model, used to bound recursion over
/// documents.
pub open spec fn em_size(em: ElemModel) -> nat
    decreases em,
{
    1 + ems_size(em.children)
}

/// Height measure of a sequence of element models.
pub open spec fn ems_size(els: Seq<ElemModel>) -> nat
    decreases els,
{
    if els.len() == 0 {
        0
    } else {
        1 + em_size(els[0]) + ems_size(els.skip(1))
    }
}

/// Every model of a sequence is strictly smaller than the sequence.
pub proof fn lemma_ems_size_index(els: Seq<ElemModel>, i: int)
    requires
        0 <= i < els.len(),
    ensures
        em_size(els[i]) < ems_size(els),
    decreases els.len(),
{
    if i == 0 {
    } else {
        lemma_ems_size_index(els.skip(1), i - 1);
        assert(els.skip(1)[i - 1] == els[i]);
    }
}

/// Height measure of an element, used to bound recursion over documents.
pub open spec fn elem_size(el: Element) -> nat
    decreases el,
{
    1 + elems_size(el.children@)
}

/// Height measure of a sequence of elements.
pub open spec fn elems_size(els: Seq<Element>) -> nat
    decreases els,
{
    if els.len() == 0 {
        0
    } else {
        1 + elem_size(els[0]) + elems_size(els.skip(1))
    }
}

/// Every element of a sequence is strictly smaller than the sequence.
pub proof fn lemma_elems_size_index(els: Seq<Element>, i: int)
    requires
        0 <= i < els.len(),
    ensures
        elem_size(els[i]) < elems_size(els),
    decreases els.len(),
{
    if i == 0 {
    } else {
        lemma_elems_size_index(els.skip(1), i - 1);
        assert(els.skip(1)[i - 1] == els[i]);
    }
}

/// Every tag of the element, itself included, has a non-empty name.
pub open spec fn elem_named(el: Element) -> bool
    decreases el,
{
    el.name@.len() > 0 && elems_named(el.children@)
}

pub open spec fn elems_named(els: Seq<Element>) -> bool
    decreases els,
{
    if els.len() == 0 {
        true
    } else {
        elem_named(els[0]) && elems_named(els.skip(1))
    }
}

pub proof fn lemma_elems_named_push(els: Seq<Element>, e: Element)
    ensures
        elems_named(els.push(e)) == (elems_named(els) && elem_named(e)),
    decreases els.len(),
{
    if els.len() == 0 {
        assert(els.push(e)[0] == e);
        assert(els.push(e).skip(1) =~= Seq::<Element>::empty());
        assert(elems_named(Seq::<Element>::empty()));
    } else {
        assert(els.push(e)[0] == els[0]);
        assert(els.push(e).skip(1) =~= els.skip(1).push(e));
        lemma_elems_named_push(els.skip(1), e);
    }
}

/// First child with the given name, in document order.
pub open spec fn find_child(els: Seq<ElemModel>, name: Seq<char>) -> Option<ElemModel>
    decreases els.len(),
{
    if els.len() == 0 {
        None
    } else if els[0].name == name {
        Some(els[0])
    } else {
        find_child(els.skip(1), name)
    }
}

impl Element {
    /// First child with the given name.
    pub fn child_named(&self, name: &str) -> (r: Option<&Element>)
        ensures
            match r {
                Some(c) => find_child(ems(self.children@), name@) == Some(c.model()),
                None => find_child(ems(self.children@), name@) is None,
            },
    {
        let ghost cm = ems(self.children@);
        let n = self.children.len();
        let mut i: usize = 0;
        proof {
            lemma_ems(self.children@);
            assert(cm.skip(0) =~= cm);
        }
        while i < n
            invariant
                0 <= i <= n,
                n == self.children@.len(),
                cm == ems(self.children@),
                cm.len() == n,
                forall|k: int| 0 <= k < n ==> cm[k] == #[trigger] self.children@[k].model(),
                find_child(cm, name@) == find_child(cm.skip(i as int), name@),
            decreases n - i,
        {
            let c = &self.children[i];
            proof {
                assert(cm.skip(i as int)[0] == cm[i as int]);
                assert(cm[i as int] == self.children@[i as int].model());
                assert(self.children@[i as int].model().name == self.children@[i as int].name@);
            }
            if crate::strutil::str_eq(c.name.as_str(), name) {
                return Some(c);
            }
            proof {
                assert(cm.skip(i as int).skip(1) =~= cm.skip(i as int + 1));
            }
            i = i + 1;
        }
        proof {
            assert(cm.skip(n as int) =~= Seq::<ElemModel>::empty());
        }
        None
    }
}

} // verus!
