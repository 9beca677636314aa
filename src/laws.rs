use vstd::prelude::*;

use crate::blocks::{
    corpus_map_steps, document_map_steps, first_segment_key, lemma_resolve_in, register_model,
    register_step, resolve,
};
use crate::model::{
    all_set, apply_updates, gather, lemma_apply_all_set, lemma_apply_concat, lemma_apply_idempotent,
    lemma_apply_touched, lemma_gather_all_set, touches, BlockView, Policy, SegmentView,
};
use crate::segments::{corpus_segment_steps, document_segment_steps, segment_entries, segment_table};
use crate::text::{ascii_lower, text_view};
use crate::xml::{child_text, descendants_tagged, Element, XmlDocument};

verus! {

/// Running both passes again over the same corpus, starting from what the
/// first run produced, yields the same segment table and the same model.
pub proof fn lemma_rerun_is_stable(c: Seq<XmlDocument>, policy: Policy)
    requires
        register_model(c, policy) is Ok,
    ensures
        ({
            let segs = segment_table(c, policy)->Ok_0;
            let model = register_model(c, policy)->Ok_0;
            &&& apply_updates(segs, segment_entries(c, policy)->Ok_0) == segs
            &&& apply_updates(model, gather(corpus_map_steps(c, segs, policy))->Ok_0) == model
        }),
{
    let segs = segment_table(c, policy)->Ok_0;
    lemma_apply_idempotent(Map::<Seq<char>, SegmentView>::empty(), segment_entries(c, policy)->Ok_0);
    lemma_apply_idempotent(
        Map::<Seq<char>, BlockView>::empty(),
        gather(corpus_map_steps(c, segs, policy))->Ok_0,
    );
}

/// The block holds at least one register.
pub open spec fn has_registers(b: BlockView) -> bool {
    b.registers.len() > 0
}

/// No block of the model is without registers: a memory map with no
/// register in its address blocks never appears, whatever segment it names.
pub proof fn lemma_no_empty_blocks(c: Seq<XmlDocument>, policy: Policy)
    requires
        register_model(c, policy) is Ok,
    ensures
        forall|key: Seq<char>|
            #[trigger] register_model(c, policy)->Ok_0.contains_key(key) ==> register_model(
                c,
                policy,
            )->Ok_0[key].registers.len() > 0,
{
    let segs = segment_table(c, policy)->Ok_0;
    let p = |b: BlockView| has_registers(b);
    let steps = corpus_map_steps(c, segs, policy);
    assert forall|k: int| 0 <= k < steps.len() && (#[trigger] steps[k]) is Ok implies all_set(
        steps[k]->Ok_0,
        p,
    ) by {
        let ds = document_map_steps(k, c[k].elements@, segs, policy);
        assert forall|i: int| 0 <= i < ds.len() && (#[trigger] ds[i]) is Ok implies all_set(ds[i]->Ok_0, p) by {
            let u = ds[i]->Ok_0;
            assert forall|j: int| 0 <= j < u.len() && (#[trigger] u[j]).1 is Some implies p(u[j].1->Some_0) by {}
        }
        lemma_gather_all_set(ds, p);
    }
    lemma_gather_all_set(steps, p);
    lemma_apply_all_set(Map::<Seq<char>, BlockView>::empty(), gather(steps)->Ok_0, p);
}

/// Segment keys ignore ASCII case: a memory map whose lower-cased name equals
/// the lower-cased name of a segment in the table resolves to that segment.
pub proof fn lemma_segment_lookup_ignores_case(
    d: Seq<Element>,
    m: int,
    map_name: Seq<char>,
    segment_name: Seq<char>,
    segs: Map<Seq<char>, SegmentView>,
)
    requires
        segs.contains_key(ascii_lower(segment_name)),
        ascii_lower(map_name) == ascii_lower(segment_name),
    ensures
        resolve(d, m, map_name, segs) == Some(ascii_lower(segment_name)),
{
}

/// Register keys keep their case: a register's entry is keyed by the exact
/// text of its `name` element, so names that differ only in case are
/// different keys.
pub proof fn lemma_register_key_keeps_case(k: int, d: Seq<Element>, r: int, policy: Policy)
    requires
        register_step(k, d, r, policy) is Ok,
    ensures
        register_step(k, d, r, policy)->Ok_0.len() == 1,
        register_step(k, d, r, policy)->Ok_0[0].0 == child_text(d, r, "name"@)->Some_0,
{
}

proof fn lemma_first_segment_key_found(
    d: Seq<Element>,
    ds: Seq<usize>,
    segs: Map<Seq<char>, SegmentView>,
    i: int,
    j: int,
)
    requires
        0 <= i <= j < ds.len(),
        text_view(d[ds[j] as int].text) is Some,
        segs.contains_key(ascii_lower(text_view(d[ds[j] as int].text)->Some_0)),
    ensures
        first_segment_key(d, ds, segs, i) is Some,
    decreases j - i,
{
    if i < j {
        lemma_first_segment_key_found(d, ds, segs, i + 1, j);
    }
}

/// A memory map whose own name is no segment key, but which holds a `name`
/// element whose lower-cased text is one, resolves to a segment of the table.
pub proof fn lemma_fallback_resolves(
    d: Seq<Element>,
    m: int,
    map_name: Seq<char>,
    segs: Map<Seq<char>, SegmentView>,
    j: int,
)
    requires
        !segs.contains_key(ascii_lower(map_name)),
        0 <= j < descendants_tagged(d, m, "name"@).len(),
        ({
            let t = text_view(d[descendants_tagged(d, m, "name"@)[j] as int].text);
            t is Some && segs.contains_key(ascii_lower(t->Some_0))
        }),
    ensures
        resolve(d, m, map_name, segs) is Some,
        segs.contains_key(resolve(d, m, map_name, segs)->Some_0),
{
    let ds = descendants_tagged(d, m, "name"@);
    lemma_first_segment_key_found(d, ds, segs, 0, j);
    lemma_resolve_in(d, m, map_name, segs);
}

/// The last document decides: a key that the last document's own segments
/// set has, in the table of the whole corpus, the value that those segments
/// alone give it, whatever the documents before it hold.
pub proof fn lemma_last_document_wins(c: Seq<XmlDocument>, key: Seq<char>, policy: Policy)
    requires
        c.len() > 0,
        segment_table(c, policy) is Ok,
        touches(gather(document_segment_steps(c.len() - 1, c.last().elements@, policy))->Ok_0, key),
    ensures
        ({
            let own = apply_updates(
                Map::<Seq<char>, SegmentView>::empty(),
                gather(document_segment_steps(c.len() - 1, c.last().elements@, policy))->Ok_0,
            );
            let all = segment_table(c, policy)->Ok_0;
            &&& all.contains_key(key) == own.contains_key(key)
            &&& own.contains_key(key) ==> all[key] == own[key]
        }),
{
    let steps = corpus_segment_steps(c, policy);
    assert(steps.last() == gather(document_segment_steps(c.len() - 1, c.last().elements@, policy)));
    let a = gather(steps.drop_last())->Ok_0;
    let e = steps.last()->Ok_0;
    let empty = Map::<Seq<char>, SegmentView>::empty();
    lemma_apply_concat(empty, a, e);
    lemma_apply_touched(apply_updates(empty, a), empty, e, key);
}

} // verus!
