use vstd::prelude::*;

use crate::text::text_view;

verus! {

/// One element of a parsed document.
#[derive(Clone, Debug)]
pub struct Element {
    /// Local tag name, without any namespace prefix.
    pub tag: String,
    /// Text of the element's first child, where that child is a text node.
    pub text: Option<String>,
    /// Nesting level: an element's children have a level one higher than its
    /// own, and its descendants follow it directly in document order.
    pub level: usize,
}

/// The elements of a document in document order.
#[derive(Clone, Debug)]
pub struct XmlDocument {
    pub elements: Vec<Element>,
}

/// Element `j` lies strictly inside the subtree of element `n`: it comes
/// after `n`, and every element from just after `n` up to `j` is nested
/// deeper than `n`.
pub open spec fn inside(d: Seq<Element>, n: int, j: int) -> bool {
    &&& 0 <= n < j < d.len()
    &&& forall|k: int| n < k <= j ==> #[trigger] d[k].level > d[n].level
}

/// Element `j` is a child of element `n`.
pub open spec fn is_child(d: Seq<Element>, n: int, j: int) -> bool {
    inside(d, n, j) && d[j].level == d[n].level + 1
}

/// Element `j` is `n` itself or lies inside it.
pub open spec fn is_descendant(d: Seq<Element>, n: int, j: int) -> bool {
    (j == n && 0 <= n < d.len()) || inside(d, n, j)
}

/// Element `j` has tag `t` and is a child of `n` (`kids`) or a descendant of
/// `n` (not `kids`).
pub open spec fn picked(d: Seq<Element>, n: int, t: Seq<char>, kids: bool, j: int) -> bool {
    &&& if kids { is_child(d, n, j) } else { is_descendant(d, n, j) }
    &&& d[j].tag@ == t
}

/// The elements below index `hi` that `picked` selects, in document order.
pub open spec fn picked_below(d: Seq<Element>, n: int, t: Seq<char>, kids: bool, hi: int) -> Seq<
    usize,
>
    decreases hi - n,
{
    if hi <= n {
        seq![]
    } else {
        let p = picked_below(d, n, t, kids, hi - 1);
        if picked(d, n, t, kids, hi - 1) {
            p.push((hi - 1) as usize)
        } else {
            p
        }
    }
}

/// The children of `n` with tag `t`, in document order.
pub open spec fn children_tagged(d: Seq<Element>, n: int, t: Seq<char>) -> Seq<usize> {
    picked_below(d, n, t, true, d.len() as int)
}

/// `n` itself and its descendants with tag `t`, in document order.
pub open spec fn descendants_tagged(d: Seq<Element>, n: int, t: Seq<char>) -> Seq<usize> {
    picked_below(d, n, t, false, d.len() as int)
}

/// The text of the first child of `n` with tag `t`; none where there is no
/// such child or it holds no text.
pub open spec fn child_text(d: Seq<Element>, n: int, t: Seq<char>) -> Option<Seq<char>> {
    let ks = children_tagged(d, n, t);
    if ks.len() == 0 {
        None
    } else {
        text_view(d[ks[0] as int].text)
    }
}

/// Index `j` is an element at or after `n` that `picked` selects.
pub open spec fn picked_at(d: Seq<Element>, n: int, t: Seq<char>, kids: bool, j: int) -> bool {
    n <= j < d.len() && picked(d, n, t, kids, j)
}

proof fn lemma_picked_below_bounds(d: Seq<Element>, n: int, t: Seq<char>, kids: bool, hi: int)
    requires
        0 <= n,
        hi <= d.len(),
        d.len() <= usize::MAX,
    ensures
        forall|i: int|
            0 <= i < picked_below(d, n, t, kids, hi).len() ==> picked_at(
                d,
                n,
                t,
                kids,
                #[trigger] picked_below(d, n, t, kids, hi)[i] as int,
            ),
    decreases hi - n,
{
    if hi > n {
        lemma_picked_below_bounds(d, n, t, kids, hi - 1);
        let p = picked_below(d, n, t, kids, hi - 1);
        let q = picked_below(d, n, t, kids, hi);
        assert forall|i: int| 0 <= i < q.len() implies picked_at(d, n, t, kids, #[trigger] q[i] as int) by {
            if i < p.len() {
                assert(q[i] == p[i]);
            }
        }
    }
}

/// Past the first element that is not nested deeper than `n`, nothing more
/// is picked.
proof fn lemma_picked_below_stops(
    d: Seq<Element>,
    n: int,
    t: Seq<char>,
    kids: bool,
    stop: int,
    hi: int,
)
    requires
        0 <= n < stop <= hi <= d.len(),
        stop < d.len() ==> d[stop].level <= d[n].level,
    ensures
        picked_below(d, n, t, kids, hi) == picked_below(d, n, t, kids, stop),
    decreases hi - stop,
{
    if hi > stop {
        lemma_picked_below_stops(d, n, t, kids, stop, hi - 1);
        assert(!inside(d, n, hi - 1));
    }
}

/// The elements that `picked` selects for `node`, in document order.
fn pick(doc: &XmlDocument, node: usize, name: &str, kids: bool) -> (r: Vec<usize>)
    requires
        node < doc.elements@.len(),
    ensures
        r@ == picked_below(doc.elements@, node as int, name@, kids, doc.elements@.len() as int),
{
    let ghost d = doc.elements@;
    let tag = name.to_owned();
    let base = doc.elements[node].level;
    let len = doc.elements.len();
    let mut out: Vec<usize> = Vec::new();
    if doc.elements[node].tag == tag && !kids {
        out.push(node);
    }
    assert(picked_below(d, node as int, name@, kids, node as int) == Seq::<usize>::empty());
    assert(out@ == picked_below(d, node as int, name@, kids, node + 1));
    let mut j: usize = node + 1;
    while j < doc.elements.len() && doc.elements[j].level > base
        invariant
            d == doc.elements@,
            node < j <= d.len(),
            base == d[node as int].level,
            tag@ == name@,
            out@ == picked_below(d, node as int, name@, kids, j as int),
            forall|k: int| node < k < j ==> #[trigger] d[k].level > base,
        decreases d.len() - j,
    {
        let e = &doc.elements[j];
        let deep_enough = !kids || e.level - 1 == base;
        if deep_enough && e.tag == tag {
            out.push(j);
        }
        j = j + 1;
    }
    proof {
        lemma_picked_below_stops(d, node as int, name@, kids, j as int, d.len() as int);
    }
    out
}

/// The first child of `node` with tag `name`.
pub fn find_child_by_tag_name(doc: &XmlDocument, node: usize, name: &str) -> (r: Option<usize>)
    requires
        node < doc.elements@.len(),
    ensures
        ({
            let ks = children_tagged(doc.elements@, node as int, name@);
            if ks.len() == 0 {
                r.is_none()
            } else {
                r == Some(ks[0])
            }
        }),
{
    let ks = pick(doc, node, name, true);
    if ks.len() == 0 {
        None
    } else {
        Some(ks[0])
    }
}

/// The text of the first child of `node` tagged `name`.
pub fn child_text_of(doc: &XmlDocument, node: usize, name: &str) -> (r: Option<String>)
    requires
        node < doc.elements@.len(),
    ensures
        text_view(r) == child_text(doc.elements@, node as int, name@),
{
    let len = doc.elements.len();
    proof {
        lemma_picked_below_bounds(doc.elements@, node as int, name@, true, len as int);
    }
    match find_child_by_tag_name(doc, node, name) {
        Some(c) => match &doc.elements[c].text {
            Some(s) => Some(s.clone()),
            None => None,
        },
        None => None,
    }
}

/// The text of the `name` child of `node`.
pub fn get_name(doc: &XmlDocument, node: usize) -> (r: Option<String>)
    requires
        node < doc.elements@.len(),
    ensures
        text_view(r) == child_text(doc.elements@, node as int, "name"@),
{
    child_text_of(doc, node, "name")
}

/// The first element with tag `name` among `node` and its descendants.
pub fn find_descendant_by_tag_name(doc: &XmlDocument, node: usize, name: &str) -> (r: Option<usize>)
    requires
        node < doc.elements@.len(),
    ensures
        ({
            let ks = descendants_tagged(doc.elements@, node as int, name@);
            if ks.len() == 0 {
                r.is_none()
            } else {
                r == Some(ks[0])
            }
        }),
{
    let ks = pick(doc, node, name, false);
    if ks.len() == 0 {
        None
    } else {
        Some(ks[0])
    }
}

/// The children of `node` with tag `name`, in document order.
pub fn find_children_by_tag_name(doc: &XmlDocument, node: usize, name: &str) -> (r: Vec<usize>)
    requires
        node < doc.elements@.len(),
    ensures
        r@ == children_tagged(doc.elements@, node as int, name@),
        forall|j: int| 0 <= j < r@.len() ==> picked_at(doc.elements@, node as int, name@, true, #[trigger] r@[j] as int),
{
    let len = doc.elements.len();
    proof {
        lemma_picked_below_bounds(doc.elements@, node as int, name@, true, len as int);
    }
    pick(doc, node, name, true)
}

/// `node` and its descendants with tag `name`, in document order.
pub fn find_descendants_by_tag_name(doc: &XmlDocument, node: usize, name: &str) -> (r: Vec<usize>)
    requires
        node < doc.elements@.len(),
    ensures
        r@ == descendants_tagged(doc.elements@, node as int, name@),
        forall|j: int| 0 <= j < r@.len() ==> picked_at(doc.elements@, node as int, name@, false, #[trigger] r@[j] as int),
{
    let len = doc.elements.len();
    proof {
        lemma_picked_below_bounds(doc.elements@, node as int, name@, false, len as int);
    }
    pick(doc, node, name, false)
}

} // verus!
