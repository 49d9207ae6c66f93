//! Properties that tie the archive operations together: what a full scan
//! guarantees about entity sizes, how the two directory listings relate,
//! and how content reads are clamped.

use vstd::prelude::*;

use crate::model::{
    block_at, content_read_len, deep_listing, descendant_filter, dir_matches, direct_child_filter,
    drop_self, entity_at, file_content, first_dir_match, first_name_match, has_signature,
    is_descendant_name, is_direct_child_name, kind_byte, kind_known, lemma_first_where,
    lemma_octal_value_nonneg, lemma_signature_in_range, next_offset, scan, shallow_listing,
    size_field_ok, size_fits, stripped_size_field, trim_trailing_slashes, EntityModel,
};

verus! {

/// A sequence none of whose elements matches filters to nothing.
proof fn lemma_filter_no_match(s: Seq<EntityModel>, pred: spec_fn(EntityModel) -> bool)
    requires
        forall|i: int| 0 <= i < s.len() ==> !pred(#[trigger] s[i]),
    ensures
        s.filter(pred) == Seq::<EntityModel>::empty(),
    decreases s.len(),
{
    reveal(Seq::filter);
    if s.len() > 0 {
        assert(forall|i: int| 0 <= i < s.len() - 1 ==> s.drop_last()[i] == s[i]);
        lemma_filter_no_match(s.drop_last(), pred);
        assert(!pred(s.last()));
    }
}

/// A single matching element filters to itself.
proof fn lemma_filter_singleton(x: EntityModel, pred: spec_fn(EntityModel) -> bool)
    requires
        pred(x),
    ensures
        seq![x].filter(pred) == seq![x],
{
    reveal_with_fuel(Seq::filter, 2);
    assert(seq![x].drop_last() =~= Seq::<EntityModel>::empty());
    assert(seq![x].last() == x);
    assert(Seq::<EntityModel>::empty().filter(pred) =~= Seq::<EntityModel>::empty());
    assert(seq![x].filter(pred) =~= Seq::<EntityModel>::empty().push(x));
    assert(Seq::<EntityModel>::empty().push(x) =~= seq![x]);
}

/// Whatever the filtered sequence holds, the sequence held already.
proof fn lemma_filter_in_source(s: Seq<EntityModel>, pred: spec_fn(EntityModel) -> bool, x: EntityModel)
    requires
        s.filter(pred).contains(x),
    ensures
        s.contains(x),
        pred(x),
    decreases s.len(),
{
    reveal(Seq::filter);
    if s.len() > 0 {
        if pred(s.last()) && x == s.last() {
            assert(s.contains(x)) by {
                assert(s[s.len() - 1] == x);
            }
        } else {
            let f = s.drop_last().filter(pred);
            assert(f.contains(x)) by {
                if pred(s.last()) {
                    let i = choose|i: int| 0 <= i < s.filter(pred).len() && s.filter(pred)[i] == x;
                    assert(s.filter(pred) == f.push(s.last()));
                    assert(i < f.len() + 1);
                    assert(f[i] == x);
                }
            }
            lemma_filter_in_source(s.drop_last(), pred, x);
            let i = choose|i: int| 0 <= i < s.drop_last().len() && s.drop_last()[i] == x;
            assert(s[i] == x);
        }
    }
}

/// Anything the sequence holds that matches shows up in the filtered
/// sequence.
proof fn lemma_filter_of_match(s: Seq<EntityModel>, pred: spec_fn(EntityModel) -> bool, x: EntityModel)
    requires
        s.contains(x),
        pred(x),
    ensures
        s.filter(pred).contains(x),
{
    let i = choose|i: int| 0 <= i < s.len() && s[i] == x;
    s.lemma_filter_contains(pred, i);
}

/// Filtering a sequence whose first match sits at `di` keeps that match
/// in front, followed by the matches of what comes after it.
#[verifier::spinoff_prover]
proof fn lemma_split_filter(es: Seq<EntityModel>, di: int, pred: spec_fn(EntityModel) -> bool)
    requires
        0 <= di < es.len(),
        pred(es[di]),
        forall|j: int| 0 <= j < di ==> !pred(#[trigger] es[j]),
    ensures
        es.filter(pred) == seq![es[di]] + es.skip(di + 1).filter(pred),
{
    let before = es.take(di);
    let after = es.skip(di + 1);
    assert(es =~= (before + seq![es[di]]) + after);
    assert(forall|j: int| 0 <= j < di ==> before[j] == es[j]);
    lemma_filter_no_match(before, pred);
    lemma_filter_singleton(es[di], pred);
    Seq::filter_distributes_over_add(before + seq![es[di]], after, pred);
    Seq::filter_distributes_over_add(before, seq![es[di]], pred);
    assert(es.filter(pred) == ((before + seq![es[di]]) + after).filter(pred));
    assert((before.filter(pred) + seq![es[di]]) + after.filter(pred) =~= seq![es[di]]
        + after.filter(pred));
}

/// Every entity a scan yields has a non-negative size: the size came from
/// an octal field that decoded.
pub proof fn lemma_scan_sizes_nonneg(c: Seq<u8>, off: int)
    ensures
        forall|i: int|
            0 <= i < scan(c, off).entities.len() ==> 0 <= #[trigger] scan(c, off).entities[i].size,
    decreases (if off <= c.len() {
        c.len() - off
    } else {
        0
    }),
{
    let b = block_at(c, off);
    if has_signature(b) && size_field_ok(b) && size_fits(b) && kind_known(kind_byte(b)) {
        lemma_signature_in_range(c, off);
        lemma_octal_value_nonneg(stripped_size_field(b));
        lemma_scan_sizes_nonneg(c, next_offset(c, off));
        let rest = scan(c, next_offset(c, off)).entities;
        assert(scan(c, off).entities == seq![entity_at(c, off)] + rest);
        assert forall|i: int| 0 <= i < scan(c, off).entities.len() implies 0 <= #[trigger] scan(
            c,
            off,
        ).entities[i].size by {
            if i == 0 {
                assert(scan(c, off).entities[0] == entity_at(c, off));
            } else {
                assert(scan(c, off).entities[i] == rest[i - 1]);
            }
        }
    }
}

/// Reading a whole file hands back exactly as many bytes as the size of
/// the entity that the same path resolves to: what `read_entire_file`
/// returns is as long as the size `find_file` reports.
pub proof fn lemma_entire_read_len(c: Seq<u8>, path: Seq<char>)
    requires
        first_name_match(scan(c, 0).entities, path) is Some,
    ensures
        ({
            let es = scan(c, 0).entities;
            let i = first_name_match(es, path)->0;
            &&& 0 <= i < es.len()
            &&& file_content(c, es[i]).len() == es[i].size
        }),
{
    let es = scan(c, 0).entities;
    lemma_first_where(es, |e: EntityModel| e.name == path);
    lemma_scan_sizes_nonneg(c, 0);
}

/// A content read is clamped: it never returns more bytes than remain of
/// the entity past the offset, nor more than the buffer holds, nor ever a
/// negative count.
pub proof fn lemma_read_clamped(c: Seq<u8>, e: EntityModel, offset: int, buf_len: int)
    requires
        buf_len >= 0,
    ensures
        0 <= content_read_len(c, e, offset, buf_len),
        content_read_len(c, e, offset, buf_len) <= buf_len,
        e.size - offset >= 0 ==> content_read_len(c, e, offset, buf_len) <= e.size - offset,
        e.size - offset < 0 ==> content_read_len(c, e, offset, buf_len) == 0,
{
}

/// The shallow listing of a directory sits inside its recursive listing,
/// and counts exactly the direct children: every entity the shallow
/// listing holds, the recursive listing holds too, and the shallow
/// listing's length is the number of direct-child matches besides the
/// directory's own entry.  This holds of archives where no entity placed
/// before the directory's entry already lies under it.
#[verifier::spinoff_prover]
#[verifier::rlimit(60)]
pub proof fn lemma_shallow_within_deep(c: Seq<u8>, path: Seq<char>)
    requires
        first_dir_match(scan(c, 0).entities, path) is Some,
        ({
            let es = scan(c, 0).entities;
            let di = first_dir_match(es, path)->0;
            forall|j: int| 0 <= j < di ==> !is_descendant_name(#[trigger] es[j].name, es[di].name)
        }),
    ensures
        deep_listing(c, path) is Some,
        shallow_listing(c, path) is Some,
        forall|x: EntityModel|
            shallow_listing(c, path)->0.contains(x) ==> deep_listing(c, path)->0.contains(x),
        ({
            let es = scan(c, 0).entities;
            let di = first_dir_match(es, path)->0;
            shallow_listing(c, path)->0.len() + 1 == direct_child_filter(es, es[di].name).len()
        }),
{
    let es = scan(c, 0).entities;
    lemma_first_where(es, |e: EntityModel| dir_matches(e, trim_trailing_slashes(path)));
    let di = first_dir_match(es, path)->0;
    let d = es[di];
    let dname = d.name;
    let descp = |e: EntityModel| is_descendant_name(e.name, dname);
    let childp = |e: EntityModel| is_direct_child_name(e.name, dname);

    // The directory's own entry is a descendant and a direct child of
    // itself: the empty remainder holds no separator.
    assert(dname.subrange(0, dname.len() as int) =~= dname);
    assert(dname.subrange(dname.len() as int, dname.len() as int) =~= Seq::<char>::empty());
    assert(descp(d));
    assert(childp(d));

    // Nothing before the directory's entry matches either predicate.
    assert forall|j: int| 0 <= j < di implies !childp(#[trigger] es[j]) by {
        assert(!is_descendant_name(es[j].name, dname));
    }
    lemma_split_filter(es, di, descp);
    lemma_split_filter(es, di, childp);
    let deep_tail = es.skip(di + 1).filter(descp);
    let shallow_tail = es.skip(di + 1).filter(childp);
    assert(descendant_filter(es, dname) == seq![d] + deep_tail);
    assert(direct_child_filter(es, dname) == seq![d] + shallow_tail);
    assert(drop_self(seq![d] + deep_tail) =~= deep_tail);
    assert(drop_self(seq![d] + shallow_tail) =~= shallow_tail);
    assert(deep_listing(c, path) == Some(deep_tail));
    assert(shallow_listing(c, path) == Some(shallow_tail));

    // A direct child is a descendant, so each shallow element stands in
    // the deep listing too.
    assert forall|x: EntityModel| shallow_tail.contains(x) implies deep_tail.contains(x) by {
        lemma_filter_in_source(es.skip(di + 1), childp, x);
        assert(descp(x));
        lemma_filter_of_match(es.skip(di + 1), descp, x);
    }
}

} // verus!
