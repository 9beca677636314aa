use vstd::prelude::*;

use crate::model::{
    apply_updates, gather, lemma_gather_all, lemma_loop_err, lemma_loop_ok, loop_state, missing,
    required_child, required_text, stepped, BlockView, Child, ExtractError, Field, FieldView,
    OnUnresolved, Policy, Register, RegisterBlock,
    RegisterView,
    Segment, SegmentView, Updates,
};
use crate::segments::{collect_segments, segment_table};
use crate::table::Table;
use crate::text::{ascii_lower, text_view, to_ascii_lower};
use crate::xml::{
    child_text, child_text_of, children_tagged, descendants_tagged, find_children_by_tag_name,
    find_descendants_by_tag_name, get_name, picked_at, XmlDocument, Element,
};

verus! {

/// What one `field` element `f` contributes to its register: one entry keyed
/// by its name, with its `bitOffset` and `bitWidth`. The name is required,
/// the other two as `policy` asks.
pub open spec fn field_step(k: int, d: Seq<Element>, f: int, policy: Policy) -> Updates<FieldView> {
    match child_text(d, f, "name"@) {
        None => Err(missing(k, f, Child::Name)),
        Some(name) => match required_text(k, d, f, "bitOffset"@, Child::BitOffset, policy) {
            Err(x) => Err(x),
            Ok(bit_offset) => match required_text(k, d, f, "bitWidth"@, Child::BitWidth, policy) {
                Err(x) => Err(x),
                Ok(bit_width) => Ok(seq![(name, Some(FieldView { bit_offset, bit_width }))]),
            },
        },
    }
}

/// The `field` children of a `register` element `r`.
pub open spec fn field_steps(k: int, d: Seq<Element>, r: int, policy: Policy) -> Seq<Updates<FieldView>> {
    let ks = children_tagged(d, r, "field"@);
    Seq::new(ks.len(), |j: int| field_step(k, d, ks[j] as int, policy))
}

/// What one `register` element `r` contributes to its block: one entry keyed
/// by its name (case kept), with its `addressOffset`, its `size` as width and
/// its fields. The name is required, then offset and size as `policy` asks,
/// then the fields are read.
pub open spec fn register_step(k: int, d: Seq<Element>, r: int, policy: Policy) -> Updates<RegisterView> {
    match child_text(d, r, "name"@) {
        None => Err(missing(k, r, Child::Name)),
        Some(name) => match required_text(k, d, r, "addressOffset"@, Child::AddressOffset, policy) {
            Err(x) => Err(x),
            Ok(offset) => match required_text(k, d, r, "size"@, Child::Size, policy) {
                Err(x) => Err(x),
                Ok(width) => match gather(field_steps(k, d, r, policy)) {
                    Err(x) => Err(x),
                    Ok(fs) => Ok(
                        seq![(name, Some(RegisterView { offset, width, fields: apply_updates(Map::empty(), fs) }))],
                    ),
                },
            },
        },
    }
}

/// The `register` children of an `addressBlock` element `b`.
pub open spec fn block_steps(k: int, d: Seq<Element>, b: int, policy: Policy) -> Seq<Updates<RegisterView>> {
    let ks = children_tagged(d, b, "register"@);
    Seq::new(ks.len(), |j: int| register_step(k, d, ks[j] as int, policy))
}

/// The `addressBlock` children of a `memoryMap` element `m`.
pub open spec fn map_register_steps(k: int, d: Seq<Element>, m: int, policy: Policy) -> Seq<Updates<RegisterView>> {
    let ks = children_tagged(d, m, "addressBlock"@);
    Seq::new(ks.len(), |j: int| gather(block_steps(k, d, ks[j] as int, policy)))
}

/// The first of the elements `ds` from position `j` on whose text,
/// lower-cased, is a key of `segs`; that key.
pub open spec fn first_segment_key(
    d: Seq<Element>,
    ds: Seq<usize>,
    segs: Map<Seq<char>, SegmentView>,
    j: int,
) -> Option<Seq<char>>
    decreases ds.len() - j,
{
    if j < 0 || j >= ds.len() {
        None
    } else {
        match text_view(d[ds[j] as int].text) {
            Some(t) if segs.contains_key(ascii_lower(t)) => Some(ascii_lower(t)),
            _ => first_segment_key(d, ds, segs, j + 1),
        }
    }
}

/// The segment key that memory map `m` named `name` resolves to: its own
/// lower-cased name where that is a key, else the first `name` element inside
/// the map, in document order, whose lower-cased text is a key.
pub open spec fn resolve(
    d: Seq<Element>,
    m: int,
    name: Seq<char>,
    segs: Map<Seq<char>, SegmentView>,
) -> Option<Seq<char>> {
    if segs.contains_key(ascii_lower(name)) {
        Some(ascii_lower(name))
    } else {
        first_segment_key(d, descendants_tagged(d, m, "name"@), segs, 0)
    }
}

/// What one `memoryMap` element `m` does to the model, keyed by its
/// lower-cased name: the name is required, then its registers are read, then
/// its segment is resolved. A map with no registers removes the key; one
/// with registers sets it to a block in the resolved segment. A map that
/// resolves to no segment stops extraction, or is left out under
/// [`OnUnresolved::Skip`].
pub open spec fn map_step(
    k: int,
    d: Seq<Element>,
    m: int,
    segs: Map<Seq<char>, SegmentView>,
    policy: Policy,
) -> Updates<BlockView> {
    match child_text(d, m, "name"@) {
        None => Err(missing(k, m, Child::Name)),
        Some(name) => match gather(map_register_steps(k, d, m, policy)) {
            Err(x) => Err(x),
            Ok(rs) => match resolve(d, m, name, segs) {
                None => if policy.unresolved == OnUnresolved::Skip {
                    Ok(seq![])
                } else {
                    Err(ExtractError::UnresolvedSegment { document: k as usize, element: m as usize })
                },
                Some(key) => {
                    let registers = apply_updates(Map::empty(), rs);
                    if registers.len() == 0 {
                        Ok(seq![(ascii_lower(name), None)])
                    } else {
                        Ok(
                            seq![(ascii_lower(name), Some(BlockView {
                                segment: key,
                                address: segs[key].address_offset,
                                range: segs[key].range,
                                registers,
                            }))],
                        )
                    }
                },
            },
        },
    }
}

/// Every `memoryMap` element of document `k`, in document order.
pub open spec fn document_map_steps(
    k: int,
    d: Seq<Element>,
    segs: Map<Seq<char>, SegmentView>,
    policy: Policy,
) -> Seq<Updates<BlockView>> {
    Seq::new(
        d.len(),
        |i: int|
            if d[i].tag@ == "memoryMap"@ {
                map_step(k, d, i, segs, policy)
            } else {
                Ok(seq![])
            },
    )
}

/// Every document of the corpus, in order.
pub open spec fn corpus_map_steps(
    c: Seq<XmlDocument>,
    segs: Map<Seq<char>, SegmentView>,
    policy: Policy,
) -> Seq<Updates<BlockView>> {
    Seq::new(c.len(), |k: int| gather(document_map_steps(k, c[k].elements@, segs, policy)))
}

/// The blocks of a corpus against a segment table: lower-cased memory-map
/// name to block.
pub open spec fn block_table(
    c: Seq<XmlDocument>,
    segs: Map<Seq<char>, SegmentView>,
    policy: Policy,
) -> Result<Map<Seq<char>, BlockView>, ExtractError> {
    match gather(corpus_map_steps(c, segs, policy)) {
        Ok(u) => Ok(apply_updates(Map::empty(), u)),
        Err(x) => Err(x),
    }
}

/// The model of a corpus: segments first, over all documents, then blocks.
pub open spec fn register_model(c: Seq<XmlDocument>, policy: Policy) -> Result<
    Map<Seq<char>, BlockView>,
    ExtractError,
> {
    match segment_table(c, policy) {
        Err(x) => Err(x),
        Ok(segs) => block_table(c, segs, policy),
    }
}

fn add_field(doc: &XmlDocument, k: usize, f: usize, table: &mut Table<Field>, policy: Policy) -> (r: Result<
    (),
    ExtractError,
>)
    requires
        old(table).wf(),
        f < doc.elements@.len(),
    ensures
        final(table).wf(),
        stepped(old(table)@, final(table)@, field_step(k as int, doc.elements@, f as int, policy), r),
{
    let name = match child_text_of(doc, f, "name") {
        Some(n) => n,
        None => {
            return Err(ExtractError::MissingChild { document: k, element: f, child: Child::Name });
        },
    };
    let bit_offset = match required_child(doc, k, f, "bitOffset", Child::BitOffset, policy) {
        Ok(v) => v,
        Err(x) => {
            return Err(x);
        },
    };
    let bit_width = match required_child(doc, k, f, "bitWidth", Child::BitWidth, policy) {
        Ok(v) => v,
        Err(x) => {
            return Err(x);
        },
    };
    let ghost u = seq![(name@, Some(FieldView { bit_offset: bit_offset@, bit_width: bit_width@ }))];
    proof {
        assert(u.drop_last() =~= Seq::<(Seq<char>, Option<FieldView>)>::empty());
        assert(apply_updates(table@, u.drop_last()) == table@);
    }
    let ghost before = table@;
    table.insert(name, Field { bit_offset, bit_width });
    assert(table@ == apply_updates(before, u));
    Ok(())
}

fn add_fields(doc: &XmlDocument, k: usize, reg: usize, table: &mut Table<Field>, policy: Policy) -> (r: Result<
    (),
    ExtractError,
>)
    requires
        old(table).wf(),
        reg < doc.elements@.len(),
    ensures
        final(table).wf(),
        stepped(old(table)@, final(table)@, gather(field_steps(k as int, doc.elements@, reg as int, policy)), r),
{
    let ghost d = doc.elements@;
    let ghost steps = field_steps(k as int, d, reg as int, policy);
    let ghost start = table@;
    let ks = find_children_by_tag_name(doc, reg, "field");
    let ghost mut acc: Seq<(Seq<char>, Option<FieldView>)> = seq![];
    let mut i: usize = 0;
    while i < ks.len()
        invariant
            d == doc.elements@,
            ks@ == children_tagged(d, reg as int, "field"@),
            forall|j: int| 0 <= j < ks@.len() ==> picked_at(d, reg as int, "field"@, true, #[trigger] ks@[j] as int),
            steps == field_steps(k as int, d, reg as int, policy),
            steps.len() == ks@.len(),
            0 <= i <= ks@.len(),
            table.wf(),
            loop_state(steps, i as int, acc, start, table@),
        decreases ks@.len() - i,
    {
        let ghost mid = table@;
        let r = add_field(doc, k, ks[i], table, policy);
        match r {
            Ok(()) => {
                proof {
                    acc = lemma_loop_ok(steps, i as int, acc, start, mid, table@);
                }
            },
            Err(x) => {
                proof {
                    lemma_loop_err(steps, i as int, acc);
                }
                return Err(x);
            },
        }
        i = i + 1;
    }
    proof {
        lemma_gather_all(steps);
    }
    Ok(())
}

fn add_register(doc: &XmlDocument, k: usize, reg: usize, table: &mut Table<Register>, policy: Policy) -> (r: Result<
    (),
    ExtractError,
>)
    requires
        old(table).wf(),
        reg < doc.elements@.len(),
    ensures
        final(table).wf(),
        stepped(old(table)@, final(table)@, register_step(k as int, doc.elements@, reg as int, policy), r),
{
    let name = match child_text_of(doc, reg, "name") {
        Some(n) => n,
        None => {
            return Err(ExtractError::MissingChild { document: k, element: reg, child: Child::Name });
        },
    };
    let offset = match required_child(doc, k, reg, "addressOffset", Child::AddressOffset, policy) {
        Ok(v) => v,
        Err(x) => {
            return Err(x);
        },
    };
    let width = match required_child(doc, k, reg, "size", Child::Size, policy) {
        Ok(v) => v,
        Err(x) => {
            return Err(x);
        },
    };
    let mut fields: Table<Field> = Table::new();
    match add_fields(doc, k, reg, &mut fields, policy) {
        Ok(()) => {},
        Err(x) => {
            return Err(x);
        },
    }
    let ghost u = seq![(name@, Some(RegisterView { offset: offset@, width: width@, fields: fields@ }))];
    proof {
        assert(u.drop_last() =~= Seq::<(Seq<char>, Option<RegisterView>)>::empty());
        assert(apply_updates(table@, u.drop_last()) == table@);
    }
    let ghost before = table@;
    table.insert(name, Register { offset, width, fields });
    assert(table@ == apply_updates(before, u));
    Ok(())
}

fn add_block_registers(doc: &XmlDocument, k: usize, b: usize, table: &mut Table<Register>, policy: Policy) -> (r: Result<
    (),
    ExtractError,
>)
    requires
        old(table).wf(),
        b < doc.elements@.len(),
    ensures
        final(table).wf(),
        stepped(old(table)@, final(table)@, gather(block_steps(k as int, doc.elements@, b as int, policy)), r),
{
    let ghost d = doc.elements@;
    let ghost steps = block_steps(k as int, d, b as int, policy);
    let ghost start = table@;
    let ks = find_children_by_tag_name(doc, b, "register");
    let ghost mut acc: Seq<(Seq<char>, Option<RegisterView>)> = seq![];
    let mut i: usize = 0;
    while i < ks.len()
        invariant
            d == doc.elements@,
            ks@ == children_tagged(d, b as int, "register"@),
            forall|j: int| 0 <= j < ks@.len() ==> picked_at(d, b as int, "register"@, true, #[trigger] ks@[j] as int),
            steps == block_steps(k as int, d, b as int, policy),
            steps.len() == ks@.len(),
            0 <= i <= ks@.len(),
            table.wf(),
            loop_state(steps, i as int, acc, start, table@),
        decreases ks@.len() - i,
    {
        let ghost mid = table@;
        let r = add_register(doc, k, ks[i], table, policy);
        match r {
            Ok(()) => {
                proof {
                    acc = lemma_loop_ok(steps, i as int, acc, start, mid, table@);
                }
            },
            Err(x) => {
                proof {
                    lemma_loop_err(steps, i as int, acc);
                }
                return Err(x);
            },
        }
        i = i + 1;
    }
    proof {
        lemma_gather_all(steps);
    }
    Ok(())
}

fn add_map_registers(doc: &XmlDocument, k: usize, m: usize, table: &mut Table<Register>, policy: Policy) -> (r: Result<
    (),
    ExtractError,
>)
    requires
        old(table).wf(),
        m < doc.elements@.len(),
    ensures
        final(table).wf(),
        stepped(old(table)@, final(table)@, gather(map_register_steps(k as int, doc.elements@, m as int, policy)), r),
{
    let ghost d = doc.elements@;
    let ghost steps = map_register_steps(k as int, d, m as int, policy);
    let ghost start = table@;
    let ks = find_children_by_tag_name(doc, m, "addressBlock");
    let ghost mut acc: Seq<(Seq<char>, Option<RegisterView>)> = seq![];
    let mut i: usize = 0;
    while i < ks.len()
        invariant
            d == doc.elements@,
            ks@ == children_tagged(d, m as int, "addressBlock"@),
            forall|j: int| 0 <= j < ks@.len() ==> picked_at(d, m as int, "addressBlock"@, true, #[trigger] ks@[j] as int),
            steps == map_register_steps(k as int, d, m as int, policy),
            steps.len() == ks@.len(),
            0 <= i <= ks@.len(),
            table.wf(),
            loop_state(steps, i as int, acc, start, table@),
        decreases ks@.len() - i,
    {
        let ghost mid = table@;
        let r = add_block_registers(doc, k, ks[i], table, policy);
        match r {
            Ok(()) => {
                proof {
                    acc = lemma_loop_ok(steps, i as int, acc, start, mid, table@);
                }
            },
            Err(x) => {
                proof {
                    lemma_loop_err(steps, i as int, acc);
                }
                return Err(x);
            },
        }
        i = i + 1;
    }
    proof {
        lemma_gather_all(steps);
    }
    Ok(())
}

proof fn lemma_first_segment_key_in(
    d: Seq<Element>,
    ds: Seq<usize>,
    segs: Map<Seq<char>, SegmentView>,
    j: int,
)
    ensures
        first_segment_key(d, ds, segs, j) matches Some(key) ==> segs.contains_key(key),
    decreases ds.len() - j,
{
    if 0 <= j < ds.len() {
        lemma_first_segment_key_in(d, ds, segs, j + 1);
    }
}

pub proof fn lemma_resolve_in(d: Seq<Element>, m: int, name: Seq<char>, segs: Map<Seq<char>, SegmentView>)
    ensures
        resolve(d, m, name, segs) matches Some(key) ==> segs.contains_key(key),
{
    lemma_first_segment_key_in(d, descendants_tagged(d, m, "name"@), segs, 0);
}

/// The segment key that memory map `m` named `name` resolves to.
fn resolve_segment(doc: &XmlDocument, m: usize, name: &String, segs: &Table<Segment>) -> (r: Option<
    String,
>)
    requires
        segs.wf(),
        m < doc.elements@.len(),
    ensures
        text_view(r) == resolve(doc.elements@, m as int, name@, segs@),
{
    let ghost d = doc.elements@;
    let key = to_ascii_lower(name);
    if segs.get(&key).is_some() {
        return Some(key);
    }
    let ds = find_descendants_by_tag_name(doc, m, "name");
    let mut j: usize = 0;
    while j < ds.len()
        invariant
            d == doc.elements@,
            segs.wf(),
            !segs@.contains_key(ascii_lower(name@)),
            ds@ == descendants_tagged(d, m as int, "name"@),
            forall|i: int| 0 <= i < ds@.len() ==> picked_at(d, m as int, "name"@, false, #[trigger] ds@[i] as int),
            0 <= j <= ds@.len(),
            first_segment_key(d, ds@, segs@, 0) == first_segment_key(d, ds@, segs@, j as int),
        decreases ds@.len() - j,
    {
        match &doc.elements[ds[j]].text {
            Some(t) => {
                let candidate = to_ascii_lower(t);
                if segs.get(&candidate).is_some() {
                    return Some(candidate);
                }
            },
            None => {},
        }
        j = j + 1;
    }
    None
}

fn add_map(
    doc: &XmlDocument,
    k: usize,
    m: usize,
    segs: &Table<Segment>,
    policy: Policy,
    table: &mut Table<RegisterBlock>,
) -> (r: Result<(), ExtractError>)
    requires
        old(table).wf(),
        segs.wf(),
        m < doc.elements@.len(),
    ensures
        final(table).wf(),
        stepped(old(table)@, final(table)@, map_step(k as int, doc.elements@, m as int, segs@, policy), r),
{
    let ghost d = doc.elements@;
    let name = match get_name(doc, m) {
        Some(n) => n,
        None => {
            return Err(ExtractError::MissingChild { document: k, element: m, child: Child::Name });
        },
    };
    let mut registers: Table<Register> = Table::new();
    match add_map_registers(doc, k, m, &mut registers, policy) {
        Ok(()) => {},
        Err(x) => {
            return Err(x);
        },
    }
    let seg_key = match resolve_segment(doc, m, &name, segs) {
        Some(s) => s,
        None => {
            return match policy.unresolved {
                OnUnresolved::Skip => {
                    assert(apply_updates(table@, seq![]) == table@);
                    Ok(())
                },
                OnUnresolved::Fail => Err(ExtractError::UnresolvedSegment { document: k, element: m }),
            };
        },
    };
    proof {
        lemma_resolve_in(d, m as int, name@, segs@);
    }
    let key = to_ascii_lower(&name);
    let ghost before = table@;
    if registers.len() == 0 {
        let ghost u = seq![(key@, None::<BlockView>)];
        proof {
            assert(u.drop_last() =~= Seq::<(Seq<char>, Option<BlockView>)>::empty());
            assert(apply_updates(before, u.drop_last()) == before);
        }
        table.remove(&key);
        assert(table@ == apply_updates(before, u));
    } else {
        let seg = match segs.get(&seg_key) {
            Some(s) => s,
            None => {
                return Err(ExtractError::UnresolvedSegment { document: k, element: m });
            },
        };
        let block = RegisterBlock {
            segment: seg_key,
            address: seg.address_offset.clone(),
            range: seg.range.clone(),
            registers,
        };
        let ghost u = seq![(key@, Some(block@))];
        proof {
            assert(u.drop_last() =~= Seq::<(Seq<char>, Option<BlockView>)>::empty());
            assert(apply_updates(before, u.drop_last()) == before);
        }
        table.insert(key, block);
        assert(table@ == apply_updates(before, u));
    }
    Ok(())
}

fn add_document_maps(
    doc: &XmlDocument,
    k: usize,
    segs: &Table<Segment>,
    policy: Policy,
    table: &mut Table<RegisterBlock>,
) -> (r: Result<(), ExtractError>)
    requires
        old(table).wf(),
        segs.wf(),
    ensures
        final(table).wf(),
        stepped(old(table)@, final(table)@, gather(document_map_steps(k as int, doc.elements@, segs@, policy)), r),
{
    let ghost d = doc.elements@;
    let ghost steps = document_map_steps(k as int, d, segs@, policy);
    let ghost start = table@;
    let map_tag = "memoryMap".to_owned();
    let ghost mut acc: Seq<(Seq<char>, Option<BlockView>)> = seq![];
    let mut i: usize = 0;
    while i < doc.elements.len()
        invariant
            d == doc.elements@,
            segs.wf(),
            steps == document_map_steps(k as int, d, segs@, policy),
            map_tag@ == "memoryMap"@,
            0 <= i <= d.len(),
            table.wf(),
            loop_state(steps, i as int, acc, start, table@),
        decreases d.len() - i,
    {
        let ghost mid = table@;
        if doc.elements[i].tag == map_tag {
            let r = add_map(doc, k, i, segs, policy, table);
            match r {
                Ok(()) => {
                    proof {
                        acc = lemma_loop_ok(steps, i as int, acc, start, mid, table@);
                    }
                },
                Err(x) => {
                    proof {
                        lemma_loop_err(steps, i as int, acc);
                    }
                    return Err(x);
                },
            }
        } else {
            proof {
                assert(apply_updates(mid, seq![]) == mid);
                acc = lemma_loop_ok(steps, i as int, acc, start, mid, table@);
            }
        }
        i = i + 1;
    }
    proof {
        lemma_gather_all(steps);
    }
    Ok(())
}

/// Assembles the register blocks of a corpus against a complete segment
/// table: every `memoryMap` of every document, in order, keyed by its
/// lower-cased name.
pub fn assemble_blocks(corpus: &Vec<XmlDocument>, segs: &Table<Segment>, policy: Policy) -> (r: Result<
    Table<RegisterBlock>,
    ExtractError,
>)
    requires
        segs.wf(),
    ensures
        match block_table(corpus@, segs@, policy) {
            Ok(m) => r is Ok && r->Ok_0.wf() && r->Ok_0@ == m,
            Err(x) => r is Err && r->Err_0 == x,
        },
{
    let ghost steps = corpus_map_steps(corpus@, segs@, policy);
    let mut table: Table<RegisterBlock> = Table::new();
    let ghost start = table@;
    let ghost mut acc: Seq<(Seq<char>, Option<BlockView>)> = seq![];
    let mut k: usize = 0;
    while k < corpus.len()
        invariant
            segs.wf(),
            steps == corpus_map_steps(corpus@, segs@, policy),
            0 <= k <= corpus@.len(),
            start == Map::<Seq<char>, BlockView>::empty(),
            table.wf(),
            loop_state(steps, k as int, acc, start, table@),
        decreases corpus@.len() - k,
    {
        let ghost mid = table@;
        let r = add_document_maps(&corpus[k], k, segs, policy, &mut table);
        match r {
            Ok(()) => {
                proof {
                    acc = lemma_loop_ok(steps, k as int, acc, start, mid, table@);
                }
            },
            Err(x) => {
                proof {
                    lemma_loop_err(steps, k as int, acc);
                }
                return Err(x);
            },
        }
        k = k + 1;
    }
    proof {
        lemma_gather_all(steps);
    }
    Ok(table)
}

/// Extracts the register model of a corpus: the segment table is built from
/// all documents first, then every memory map is resolved against it.
pub fn extract(corpus: &Vec<XmlDocument>, policy: Policy) -> (r: Result<
    Table<RegisterBlock>,
    ExtractError,
>)
    ensures
        match register_model(corpus@, policy) {
            Ok(m) => r is Ok && r->Ok_0.wf() && r->Ok_0@ == m,
            Err(x) => r is Err && r->Err_0 == x,
        },
{
    let segs = match collect_segments(corpus, policy) {
        Ok(t) => t,
        Err(x) => {
            return Err(x);
        },
    };
    assemble_blocks(corpus, &segs, policy)
}

} // verus!
