use vstd::prelude::*;

use crate::table::Table;
use crate::xml::{child_text, child_text_of, Element, XmlDocument};

verus! {

/// An address-space segment: a named region with a base offset and a size.
pub struct Segment {
    pub name: String,
    pub address_offset: String,
    pub range: String,
}

pub ghost struct SegmentView {
    pub name: Seq<char>,
    pub address_offset: Seq<char>,
    pub range: Seq<char>,
}

impl View for Segment {
    type V = SegmentView;

    open spec fn view(&self) -> SegmentView {
        SegmentView { name: self.name@, address_offset: self.address_offset@, range: self.range@ }
    }
}

/// A named bit range within a register; the name is its key in the register.
pub struct Field {
    pub bit_offset: String,
    pub bit_width: String,
}

pub ghost struct FieldView {
    pub bit_offset: Seq<char>,
    pub bit_width: Seq<char>,
}

impl View for Field {
    type V = FieldView;

    open spec fn view(&self) -> FieldView {
        FieldView { bit_offset: self.bit_offset@, bit_width: self.bit_width@ }
    }
}

/// An addressable register; the name is its key in the block.
pub struct Register {
    pub offset: String,
    pub width: String,
    pub fields: Table<Field>,
}

pub ghost struct RegisterView {
    pub offset: Seq<char>,
    pub width: Seq<char>,
    pub fields: Map<Seq<char>, FieldView>,
}

impl View for Register {
    type V = RegisterView;

    open spec fn view(&self) -> RegisterView {
        RegisterView { offset: self.offset@, width: self.width@, fields: self.fields@ }
    }
}

/// The registers of one memory map, placed in the segment that the map
/// resolved to.
pub struct RegisterBlock {
    /// Key of the segment in the segment table.
    pub segment: String,
    /// The segment's address offset.
    pub address: String,
    /// The segment's range.
    pub range: String,
    pub registers: Table<Register>,
}

pub ghost struct BlockView {
    pub segment: Seq<char>,
    pub address: Seq<char>,
    pub range: Seq<char>,
    pub registers: Map<Seq<char>, RegisterView>,
}

impl View for RegisterBlock {
    type V = BlockView;

    open spec fn view(&self) -> BlockView {
        BlockView {
            segment: self.segment@,
            address: self.address@,
            range: self.range@,
            registers: self.registers@,
        }
    }
}

/// A required child element.
#[derive(Clone, Copy, Debug, PartialEq, Eq, Structural)]
pub enum Child {
    Name,
    AddressOffset,
    Range,
    Size,
    BitOffset,
    BitWidth,
}

/// What to do with a memory map whose segment cannot be resolved.
#[derive(Clone, Copy, Debug, PartialEq, Eq, Structural)]
pub enum OnUnresolved {
    /// Stop with [`ExtractError::UnresolvedSegment`].
    Fail,
    /// Leave the map out and go on.
    Skip,
}

/// What to do where an offset, range, size or bit position is missing or
/// holds no text. Names are always required.
#[derive(Clone, Copy, Debug, PartialEq, Eq, Structural)]
pub enum OnMissing {
    /// Stop with [`ExtractError::MissingChild`].
    Fail,
    /// Take the empty text.
    Empty,
}

/// How strictly a corpus is read.
#[derive(Clone, Copy, Debug, PartialEq, Eq, Structural)]
pub struct Policy {
    pub unresolved: OnUnresolved,
    pub missing_text: OnMissing,
}

/// Why extraction stopped. `document` is the position of the document in
/// the corpus, `element` the position of the element in that document.
#[derive(Clone, Copy, Debug, PartialEq, Eq, Structural)]
pub enum ExtractError {
    /// The element lacks a required child, or the child holds no text.
    MissingChild { document: usize, element: usize, child: Child },
    /// No segment matches the memory map, by its own name or by any `name`
    /// element inside it.
    UnresolvedSegment { document: usize, element: usize },
}

pub open spec fn missing(k: int, e: int, c: Child) -> ExtractError {
    ExtractError::MissingChild { document: k as usize, element: e as usize, child: c }
}

/// The text of the `t` child of element `n` of document `k`, where `child`
/// names it in errors; under [`OnMissing::Empty`] a missing text is empty.
pub open spec fn required_text(
    k: int,
    d: Seq<Element>,
    n: int,
    t: Seq<char>,
    child: Child,
    policy: Policy,
) -> Result<Seq<char>, ExtractError> {
    match child_text(d, n, t) {
        Some(s) => Ok(s),
        None => if policy.missing_text == OnMissing::Empty {
            Ok(Seq::empty())
        } else {
            Err(missing(k, n, child))
        },
    }
}

/// The text of the `tag` child of element `n`, as `required_text` gives it.
pub fn required_child(
    doc: &XmlDocument,
    k: usize,
    n: usize,
    tag: &str,
    child: Child,
    policy: Policy,
) -> (r: Result<String, ExtractError>)
    requires
        n < doc.elements@.len(),
    ensures
        match required_text(k as int, doc.elements@, n as int, tag@, child, policy) {
            Ok(s) => r is Ok && r->Ok_0@ == s,
            Err(x) => r is Err && r->Err_0 == x,
        },
{
    match child_text_of(doc, n, tag) {
        Some(s) => Ok(s),
        None => match policy.missing_text {
            OnMissing::Empty => Ok(String::new()),
            OnMissing::Fail => Err(ExtractError::MissingChild { document: k, element: n, child }),
        },
    }
}

/// A list of updates, or the error that stopped producing it.
pub type Updates<W> = Result<Seq<(Seq<char>, Option<W>)>, ExtractError>;

/// Two results in sequence: the first error, or both lists joined.
pub open spec fn chain<W>(a: Updates<W>, b: Updates<W>) -> Updates<W> {
    match a {
        Err(e) => Err(e),
        Ok(x) => match b {
            Err(e) => Err(e),
            Ok(y) => Ok(x + y),
        },
    }
}

/// The results of a sequence of steps joined in order; the first error
/// stops it.
pub open spec fn gather<W>(steps: Seq<Updates<W>>) -> Updates<W>
    decreases steps.len(),
{
    if steps.len() == 0 {
        Ok(seq![])
    } else {
        chain(gather(steps.drop_last()), steps.last())
    }
}

/// The map after applying updates in order: a key with a value is set, a key
/// without one is removed.
pub open spec fn apply_updates<W>(m: Map<Seq<char>, W>, u: Seq<(Seq<char>, Option<W>)>) -> Map<
    Seq<char>,
    W,
>
    decreases u.len(),
{
    if u.len() == 0 {
        m
    } else {
        let prev = apply_updates(m, u.drop_last());
        match u.last().1 {
            Some(v) => prev.insert(u.last().0, v),
            None => prev.remove(u.last().0),
        }
    }
}

pub proof fn lemma_gather_advance<W>(steps: Seq<Updates<W>>, i: int)
    requires
        0 <= i < steps.len(),
    ensures
        gather(steps.take(i + 1)) == chain(gather(steps.take(i)), steps[i]),
{
    assert(steps.take(i + 1).drop_last() =~= steps.take(i));
}

pub proof fn lemma_gather_err<W>(steps: Seq<Updates<W>>, i: int)
    requires
        0 <= i <= steps.len(),
        gather(steps.take(i)) is Err,
    ensures
        gather(steps) == gather(steps.take(i)),
    decreases steps.len() - i,
{
    if i < steps.len() {
        lemma_gather_advance(steps, i);
        lemma_gather_err(steps, i + 1);
    } else {
        assert(steps.take(i) =~= steps);
    }
}

pub proof fn lemma_gather_all<W>(steps: Seq<Updates<W>>)
    ensures
        gather(steps.take(steps.len() as int)) == gather(steps),
{
    assert(steps.take(steps.len() as int) =~= steps);
}

pub proof fn lemma_apply_concat<W>(
    m: Map<Seq<char>, W>,
    a: Seq<(Seq<char>, Option<W>)>,
    b: Seq<(Seq<char>, Option<W>)>,
)
    ensures
        apply_updates(m, a + b) == apply_updates(apply_updates(m, a), b),
    decreases b.len(),
{
    if b.len() > 0 {
        assert((a + b).drop_last() =~= a + b.drop_last());
        lemma_apply_concat(m, a, b.drop_last());
    } else {
        assert(a + b =~= a);
    }
}

/// `table` after a step: applied on success, the step's error otherwise.
pub open spec fn stepped<W>(
    before: Map<Seq<char>, W>,
    after: Map<Seq<char>, W>,
    step: Updates<W>,
    r: Result<(), ExtractError>,
) -> bool {
    match step {
        Ok(e) => r is Ok && after == apply_updates(before, e),
        Err(x) => r == Err::<(), ExtractError>(x),
    }
}

/// State of a loop over `steps` after `i` of them: they gathered to
/// `Ok(acc)`, and the table went from `start` to `start` with `acc` applied.
pub open spec fn loop_state<W>(
    steps: Seq<Updates<W>>,
    i: int,
    acc: Seq<(Seq<char>, Option<W>)>,
    start: Map<Seq<char>, W>,
    now: Map<Seq<char>, W>,
) -> bool {
    gather(steps.take(i)) == Ok::<_, ExtractError>(acc) && now == apply_updates(start, acc)
}

pub proof fn lemma_loop_ok<W>(
    steps: Seq<Updates<W>>,
    i: int,
    acc: Seq<(Seq<char>, Option<W>)>,
    start: Map<Seq<char>, W>,
    mid: Map<Seq<char>, W>,
    now: Map<Seq<char>, W>,
) -> (acc2: Seq<(Seq<char>, Option<W>)>)
    requires
        0 <= i < steps.len(),
        loop_state(steps, i, acc, start, mid),
        steps[i] is Ok,
        now == apply_updates(mid, steps[i]->Ok_0),
    ensures
        acc2 == acc + steps[i]->Ok_0,
        loop_state(steps, i + 1, acc2, start, now),
{
    lemma_gather_advance(steps, i);
    lemma_apply_concat(start, acc, steps[i]->Ok_0);
    acc + steps[i]->Ok_0
}

pub proof fn lemma_loop_err<W>(steps: Seq<Updates<W>>, i: int, acc: Seq<(Seq<char>, Option<W>)>)
    requires
        0 <= i < steps.len(),
        gather(steps.take(i)) == Ok::<_, ExtractError>(acc),
        steps[i] is Err,
    ensures
        gather(steps) == steps[i],
{
    lemma_gather_advance(steps, i);
    lemma_gather_err(steps, i + 1);
}

/// Some update in `u` is for `key`.
pub open spec fn touches<W>(u: Seq<(Seq<char>, Option<W>)>, key: Seq<char>) -> bool {
    exists|i: int| 0 <= i < u.len() && #[trigger] u[i].0 == key
}

/// Every value that `u` sets satisfies `p`.
pub open spec fn all_set<W>(u: Seq<(Seq<char>, Option<W>)>, p: spec_fn(W) -> bool) -> bool {
    forall|i: int| 0 <= i < u.len() && (#[trigger] u[i]).1 is Some ==> p(u[i].1->Some_0)
}

/// Where `u` updates `key`, the result at `key` does not depend on the map
/// the updates start from.
pub proof fn lemma_apply_touched<W>(
    x: Map<Seq<char>, W>,
    y: Map<Seq<char>, W>,
    u: Seq<(Seq<char>, Option<W>)>,
    key: Seq<char>,
)
    requires
        touches(u, key),
    ensures
        apply_updates(x, u).contains_key(key) == apply_updates(y, u).contains_key(key),
        apply_updates(x, u).contains_key(key) ==> apply_updates(x, u)[key] == apply_updates(y, u)[key],
    decreases u.len(),
{
    if u.last().0 != key {
        let i = choose|i: int| 0 <= i < u.len() && #[trigger] u[i].0 == key;
        assert(u.drop_last()[i] == u[i]);
        lemma_apply_touched(x, y, u.drop_last(), key);
    }
}

/// Where `u` does not update `key`, the result at `key` is the start's.
pub proof fn lemma_apply_untouched<W>(x: Map<Seq<char>, W>, u: Seq<(Seq<char>, Option<W>)>, key: Seq<char>)
    requires
        !touches(u, key),
    ensures
        apply_updates(x, u).contains_key(key) == x.contains_key(key),
        x.contains_key(key) ==> apply_updates(x, u)[key] == x[key],
    decreases u.len(),
{
    if u.len() > 0 {
        let p = u.drop_last();
        assert(!touches(p, key)) by {
            if touches(p, key) {
                let i = choose|i: int| 0 <= i < p.len() && #[trigger] p[i].0 == key;
                assert(u[i] == p[i]);
            }
        }
        assert(u[u.len() - 1].0 != key);
        lemma_apply_untouched(x, p, key);
    }
}

/// Applying the same updates a second time changes nothing.
pub proof fn lemma_apply_idempotent<W>(m: Map<Seq<char>, W>, u: Seq<(Seq<char>, Option<W>)>)
    ensures
        apply_updates(apply_updates(m, u), u) == apply_updates(m, u),
{
    let a = apply_updates(m, u);
    assert forall|key: Seq<char>|
        #![trigger apply_updates(a, u).contains_key(key)]
        apply_updates(a, u).contains_key(key) == a.contains_key(key) && (a.contains_key(key)
            ==> apply_updates(a, u)[key] == a[key]) by {
        if touches(u, key) {
            lemma_apply_touched(a, m, u, key);
        } else {
            lemma_apply_untouched(a, u, key);
        }
    }
    assert(apply_updates(a, u) =~= a);
}

pub proof fn lemma_gather_all_set<W>(steps: Seq<Updates<W>>, p: spec_fn(W) -> bool)
    requires
        forall|i: int| 0 <= i < steps.len() && (#[trigger] steps[i]) is Ok ==> all_set(steps[i]->Ok_0, p),
    ensures
        gather(steps) is Ok ==> all_set(gather(steps)->Ok_0, p),
    decreases steps.len(),
{
    if steps.len() > 0 {
        let q = steps.drop_last();
        assert forall|i: int| 0 <= i < q.len() && (#[trigger] q[i]) is Ok implies all_set(q[i]->Ok_0, p) by {
            assert(q[i] == steps[i]);
        }
        lemma_gather_all_set(q, p);
        if gather(steps) is Ok {
            let a = gather(q)->Ok_0;
            let b = steps.last()->Ok_0;
            assert(steps.last() == steps[steps.len() - 1]);
            assert forall|i: int| 0 <= i < (a + b).len() && (#[trigger] (a + b)[i]).1 is Some implies p(
                (a + b)[i].1->Some_0,
            ) by {
                if i < a.len() {
                    assert((a + b)[i] == a[i]);
                } else {
                    assert((a + b)[i] == b[i - a.len()]);
                }
            }
        }
    }
}

pub proof fn lemma_apply_all_set<W>(m: Map<Seq<char>, W>, u: Seq<(Seq<char>, Option<W>)>, p: spec_fn(W) -> bool)
    requires
        forall|key: Seq<char>| #[trigger] m.contains_key(key) ==> p(m[key]),
        all_set(u, p),
    ensures
        forall|key: Seq<char>|
            #[trigger] apply_updates(m, u).contains_key(key) ==> p(apply_updates(m, u)[key]),
    decreases u.len(),
{
    if u.len() > 0 {
        let q = u.drop_last();
        assert forall|i: int| 0 <= i < q.len() && (#[trigger] q[i]).1 is Some implies p(q[i].1->Some_0) by {
            assert(q[i] == u[i]);
        }
        lemma_apply_all_set(m, q, p);
        let last = u[u.len() - 1];
        assert(u.last() == last);
        let prev = apply_updates(m, q);
        assert forall|key: Seq<char>| #[trigger] apply_updates(m, u).contains_key(key) implies p(
            apply_updates(m, u)[key],
        ) by {
            if key != last.0 {
                assert(prev.contains_key(key));
            }
        }
    }
}

} // verus!
