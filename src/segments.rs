use vstd::prelude::*;

use crate::model::{
    apply_updates, gather, lemma_gather_all, lemma_loop_err, lemma_loop_ok, loop_state,
    required_child, required_text, stepped, Child, ExtractError, Policy, Segment, SegmentView,
    Updates,
};
use crate::table::Table;
use crate::text::{ascii_lower, to_ascii_lower};
use crate::xml::{child_text, children_tagged, child_text_of, find_children_by_tag_name, picked_at, XmlDocument, Element};

verus! {

/// What one `segment` element (element `g` of document `k`) contributes to
/// the segment table: nothing without a name, else one entry keyed by the
/// lower-cased name. A named segment needs an `addressOffset` and a `range`,
/// as `policy` asks.
pub open spec fn segment_step(k: int, d: Seq<Element>, g: int, policy: Policy) -> Updates<SegmentView> {
    match child_text(d, g, "name"@) {
        None => Ok(seq![]),
        Some(name) => match required_text(k, d, g, "addressOffset"@, Child::AddressOffset, policy) {
            Err(x) => Err(x),
            Ok(offset) => match required_text(k, d, g, "range"@, Child::Range, policy) {
                Err(x) => Err(x),
                Ok(range) => Ok(
                    seq![(ascii_lower(name), Some(SegmentView { name, address_offset: offset, range }))],
                ),
            },
        },
    }
}

/// The `segment` children of a `segments` element `s`.
pub open spec fn segments_steps(k: int, d: Seq<Element>, s: int, policy: Policy) -> Seq<Updates<SegmentView>> {
    let ks = children_tagged(d, s, "segment"@);
    Seq::new(ks.len(), |j: int| segment_step(k, d, ks[j] as int, policy))
}

/// The `segments` children of an `addressSpace` element `a`.
pub open spec fn space_steps(k: int, d: Seq<Element>, a: int, policy: Policy) -> Seq<Updates<SegmentView>> {
    let ks = children_tagged(d, a, "segments"@);
    Seq::new(ks.len(), |j: int| gather(segments_steps(k, d, ks[j] as int, policy)))
}

/// Every `addressSpace` element of document `k`, in document order.
pub open spec fn document_segment_steps(k: int, d: Seq<Element>, policy: Policy) -> Seq<Updates<SegmentView>> {
    Seq::new(
        d.len(),
        |i: int|
            if d[i].tag@ == "addressSpace"@ {
                gather(space_steps(k, d, i, policy))
            } else {
                Ok(seq![])
            },
    )
}

/// Every document of the corpus, in order.
pub open spec fn corpus_segment_steps(c: Seq<XmlDocument>, policy: Policy) -> Seq<Updates<SegmentView>> {
    Seq::new(c.len(), |k: int| gather(document_segment_steps(k, c[k].elements@, policy)))
}

/// The segment entries of the whole corpus, in the order they are met.
pub open spec fn segment_entries(c: Seq<XmlDocument>, policy: Policy) -> Updates<SegmentView> {
    gather(corpus_segment_steps(c, policy))
}

/// The segment table of a corpus: lower-cased name to segment, where a later
/// segment replaces an earlier one with the same key.
pub open spec fn segment_table(c: Seq<XmlDocument>, policy: Policy) -> Result<Map<Seq<char>, SegmentView>, ExtractError> {
    match segment_entries(c, policy) {
        Ok(e) => Ok(apply_updates(Map::empty(), e)),
        Err(x) => Err(x),
    }
}

fn add_segment(doc: &XmlDocument, k: usize, g: usize, table: &mut Table<Segment>, policy: Policy) -> (r: Result<
    (),
    ExtractError,
>)
    requires
        old(table).wf(),
        g < doc.elements@.len(),
    ensures
        final(table).wf(),
        stepped(old(table)@, final(table)@, segment_step(k as int, doc.elements@, g as int, policy), r),
{
    let name = match child_text_of(doc, g, "name") {
        Some(n) => n,
        None => {
            assert(apply_updates(table@, seq![]) == table@);
            return Ok(());
        },
    };
    let offset = match required_child(doc, k, g, "addressOffset", Child::AddressOffset, policy) {
        Ok(o) => o,
        Err(x) => {
            return Err(x);
        },
    };
    let range = match required_child(doc, k, g, "range", Child::Range, policy) {
        Ok(r) => r,
        Err(x) => {
            return Err(x);
        },
    };
    let key = to_ascii_lower(&name);
    let ghost u = seq![(key@, Some(SegmentView { name: name@, address_offset: offset@, range: range@ }))];
    proof {
        assert(u.drop_last() =~= Seq::<(Seq<char>, Option<SegmentView>)>::empty());
        assert(apply_updates(table@, u.drop_last()) == table@);
    }
    let ghost before = table@;
    table.insert(key, Segment { name, address_offset: offset, range });
    assert(table@ == apply_updates(before, u));
    Ok(())
}

fn add_segments(doc: &XmlDocument, k: usize, s: usize, table: &mut Table<Segment>, policy: Policy) -> (r: Result<
    (),
    ExtractError,
>)
    requires
        old(table).wf(),
        s < doc.elements@.len(),
    ensures
        final(table).wf(),
        stepped(old(table)@, final(table)@, gather(segments_steps(k as int, doc.elements@, s as int, policy)), r),
{
    let ghost d = doc.elements@;
    let ghost steps = segments_steps(k as int, d, s as int, policy);
    let ghost start = table@;
    let ks = find_children_by_tag_name(doc, s, "segment");
    let ghost mut acc: Seq<(Seq<char>, Option<SegmentView>)> = seq![];
    let mut i: usize = 0;
    while i < ks.len()
        invariant
            d == doc.elements@,
            ks@ == children_tagged(d, s as int, "segment"@),
            forall|j: int| 0 <= j < ks@.len() ==> picked_at(d, s as int, "segment"@, true, #[trigger] ks@[j] as int),
            steps == segments_steps(k as int, d, s as int, policy),
            steps.len() == ks@.len(),
            0 <= i <= ks@.len(),
            table.wf(),
            loop_state(steps, i as int, acc, start, table@),
        decreases ks@.len() - i,
    {
        let ghost mid = table@;
        let r = add_segment(doc, k, ks[i], table, policy);
        match r {
            Ok(()) => {
                proof {
                    acc = lemma_loop_ok(steps, i as int, acc, start, mid, table@);
                }
            },
            Err(x) => {
                proof {
                    lemma_loop_err(steps, i as int, acc);
                }
                return Err(x);
            },
        }
        i = i + 1;
    }
    proof {
        lemma_gather_all(steps);
    }
    Ok(())
}

fn add_space(doc: &XmlDocument, k: usize, a: usize, table: &mut Table<Segment>, policy: Policy) -> (r: Result<
    (),
    ExtractError,
>)
    requires
        old(table).wf(),
        a < doc.elements@.len(),
    ensures
        final(table).wf(),
        stepped(old(table)@, final(table)@, gather(space_steps(k as int, doc.elements@, a as int, policy)), r),
{
    let ghost d = doc.elements@;
    let ghost steps = space_steps(k as int, d, a as int, policy);
    let ghost start = table@;
    let ks = find_children_by_tag_name(doc, a, "segments");
    let ghost mut acc: Seq<(Seq<char>, Option<SegmentView>)> = seq![];
    let mut i: usize = 0;
    while i < ks.len()
        invariant
            d == doc.elements@,
            ks@ == children_tagged(d, a as int, "segments"@),
            forall|j: int| 0 <= j < ks@.len() ==> picked_at(d, a as int, "segments"@, true, #[trigger] ks@[j] as int),
            steps == space_steps(k as int, d, a as int, policy),
            steps.len() == ks@.len(),
            0 <= i <= ks@.len(),
            table.wf(),
            loop_state(steps, i as int, acc, start, table@),
        decreases ks@.len() - i,
    {
        let ghost mid = table@;
        let r = add_segments(doc, k, ks[i], table, policy);
        match r {
            Ok(()) => {
                proof {
                    acc = lemma_loop_ok(steps, i as int, acc, start, mid, table@);
                }
            },
            Err(x) => {
                proof {
                    lemma_loop_err(steps, i as int, acc);
                }
                return Err(x);
            },
        }
        i = i + 1;
    }
    proof {
        lemma_gather_all(steps);
    }
    Ok(())
}

fn add_document_segments(doc: &XmlDocument, k: usize, table: &mut Table<Segment>, policy: Policy) -> (r: Result<
    (),
    ExtractError,
>)
    requires
        old(table).wf(),
    ensures
        final(table).wf(),
        stepped(old(table)@, final(table)@, gather(document_segment_steps(k as int, doc.elements@, policy)), r),
{
    let ghost d = doc.elements@;
    let ghost steps = document_segment_steps(k as int, d, policy);
    let ghost start = table@;
    let space_tag = "addressSpace".to_owned();
    let ghost mut acc: Seq<(Seq<char>, Option<SegmentView>)> = seq![];
    let mut i: usize = 0;
    while i < doc.elements.len()
        invariant
            d == doc.elements@,
            steps == document_segment_steps(k as int, d, policy),
            space_tag@ == "addressSpace"@,
            0 <= i <= d.len(),
            table.wf(),
            loop_state(steps, i as int, acc, start, table@),
        decreases d.len() - i,
    {
        let ghost mid = table@;
        if doc.elements[i].tag == space_tag {
            let r = add_space(doc, k, i, table, policy);
            match r {
                Ok(()) => {
                    proof {
                        acc = lemma_loop_ok(steps, i as int, acc, start, mid, table@);
                    }
                },
                Err(x) => {
                    proof {
                        lemma_loop_err(steps, i as int, acc);
                    }
                    return Err(x);
                },
            }
        } else {
            proof {
                assert(apply_updates(mid, seq![]) == mid);
                acc = lemma_loop_ok(steps, i as int, acc, start, mid, table@);
            }
        }
        i = i + 1;
    }
    proof {
        lemma_gather_all(steps);
    }
    Ok(())
}

/// Builds the segment table of a corpus: every `segment` of every
/// `segments` child of every `addressSpace`, keyed by its lower-cased name,
/// documents and elements taken in order, a later segment replacing an
/// earlier one with the same key. Segments without a name are skipped.
pub fn collect_segments(corpus: &Vec<XmlDocument>, policy: Policy) -> (r: Result<Table<Segment>, ExtractError>)
    ensures
        match segment_table(corpus@, policy) {
            Ok(m) => r is Ok && r->Ok_0.wf() && r->Ok_0@ == m,
            Err(x) => r is Err && r->Err_0 == x,
        },
{
    let ghost steps = corpus_segment_steps(corpus@, policy);
    let mut table: Table<Segment> = Table::new();
    let ghost start = table@;
    let ghost mut acc: Seq<(Seq<char>, Option<SegmentView>)> = seq![];
    let mut k: usize = 0;
    while k < corpus.len()
        invariant
            steps == corpus_segment_steps(corpus@, policy),
            0 <= k <= corpus@.len(),
            start == Map::<Seq<char>, SegmentView>::empty(),
            table.wf(),
            loop_state(steps, k as int, acc, start, table@),
        decreases corpus@.len() - k,
    {
        let ghost mid = table@;
        let r = add_document_segments(&corpus[k], k, &mut table, policy);
        match r {
            Ok(()) => {
                proof {
                    acc = lemma_loop_ok(steps, k as int, acc, start, mid, table@);
                }
            },
            Err(x) => {
                proof {
                    lemma_loop_err(steps, k as int, acc);
                }
                return Err(x);
            },
        }
        k = k + 1;
    }
    proof {
        lemma_gather_all(steps);
    }
    Ok(table)
}

} // verus!
