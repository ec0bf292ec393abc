//! Merge keys: `<<: *base` (or `<<: [*a, *b]`) splices the entries of the
//! referenced mappings into the mapping that holds it.
use vstd::prelude::*;

use crate::text::{chars_equal_str, str_chars};
use crate::text::cow_text;
use crate::value::{all_borrowed, lemma_model_containers, pairs_model, BorrowedValue, Node};

verus! {

/// The key `<<`.
pub open spec fn is_merge_key(k: Node) -> bool {
    k == Node::Str(seq!['<', '<'])
}

/// The mappings among a run of nodes, in order.
pub open spec fn maps_in(items: Seq<Node>) -> Seq<Seq<(Node, Node)>>
    decreases items.len(),
{
    if items.len() == 0 {
        Seq::empty()
    } else {
        maps_in(items.drop_last()) + match items.last() {
            Node::Pairs(p) => seq![p],
            _ => Seq::empty(),
        }
    }
}

/// The mappings a merge key's value brings in: the mapping itself, or the
/// mappings of a sequence in order; nothing for any other value.
pub open spec fn merge_sources_of(v: Node) -> Seq<Seq<(Node, Node)>> {
    match v {
        Node::Pairs(p) => seq![p],
        Node::List(items) => maps_in(items),
        _ => Seq::empty(),
    }
}

/// The entries of a mapping whose key is not `<<`, in order.
pub open spec fn explicit_pairs(ps: Seq<(Node, Node)>) -> Seq<(Node, Node)>
    decreases ps.len(),
{
    if ps.len() == 0 {
        Seq::empty()
    } else {
        explicit_pairs(ps.drop_last()) + if is_merge_key(ps.last().0) { Seq::empty() } else { seq![ps.last()] }
    }
}

/// The mappings that the `<<` entries of a mapping bring in, in order.
pub open spec fn all_sources(ps: Seq<(Node, Node)>) -> Seq<Seq<(Node, Node)>>
    decreases ps.len(),
{
    if ps.len() == 0 {
        Seq::empty()
    } else {
        all_sources(ps.drop_last()) + if is_merge_key(ps.last().0) { merge_sources_of(ps.last().1) } else { Seq::empty() }
    }
}

/// Some entry of `r` has the key `k`.
pub open spec fn has_key(r: Seq<(Node, Node)>, k: Node) -> bool {
    exists|j: int| 0 <= j < r.len() && r[j].0 == k
}

/// `r` with each entry of `src` added whose key `r` (as it grows) does not
/// hold yet.
pub open spec fn add_missing(r: Seq<(Node, Node)>, src: Seq<(Node, Node)>) -> Seq<(Node, Node)>
    decreases src.len(),
{
    if src.len() == 0 {
        r
    } else {
        add_missing(if has_key(r, src[0].0) { r } else { r.push(src[0]) }, src.drop_first())
    }
}

/// `add_missing` with each source in turn.
pub open spec fn add_all(r: Seq<(Node, Node)>, srcs: Seq<Seq<(Node, Node)>>) -> Seq<(Node, Node)>
    decreases srcs.len(),
{
    if srcs.len() == 0 { r } else { add_all(add_missing(r, srcs[0]), srcs.drop_first()) }
}

/// A mapping with its merge keys spliced in: its explicit entries, then the
/// entries of the merged-in mappings whose keys are not there yet.
pub open spec fn merged_pairs(ps: Seq<(Node, Node)>) -> Seq<(Node, Node)> {
    add_all(explicit_pairs(ps), all_sources(ps))
}

/// The models of a list of mappings.
pub open spec fn sources_model<'a>(srcs: Seq<Vec<(BorrowedValue<'a>, BorrowedValue<'a>)>>) -> Seq<Seq<(Node, Node)>> {
    Seq::new(srcs.len(), |i: int| pairs_model(srcs[i]@))
}

fn is_merge_key_exec(k: &BorrowedValue<'_>) -> (r: bool)
    ensures
        r == is_merge_key(k.model()),
{
    match k {
        BorrowedValue::String(s) => {
            let v = str_chars(cow_text(s));
            let r = chars_equal_str(v.as_slice(), "<<");
            proof {
                reveal_strlit("<<");
                assert("<<"@ =~= seq!['<', '<']);
            }
            r
        },
        _ => false,
    }
}

/// True when some entry of `r` has a key equal to `k`.
fn has_key_exec<'a>(r: &Vec<(BorrowedValue<'a>, BorrowedValue<'a>)>, k: &BorrowedValue<'a>) -> (b: bool)
    ensures
        b == has_key(pairs_model(r@), k.model()),
{
    let mut j: usize = 0;
    while j < r.len()
        invariant
            j <= r.len(),
            forall|m: int| 0 <= m < j ==> pairs_model(r@)[m].0 != k.model(),
        decreases r.len() - j,
    {
        if r[j].0.equals(k) {
            assert(pairs_model(r@)[j as int].0 == k.model());
            return true;
        }
        j = j + 1;
    }
    false
}

proof fn lemma_pairs_model_push<'a>(r: Seq<(BorrowedValue<'a>, BorrowedValue<'a>)>, p: (BorrowedValue<'a>, BorrowedValue<'a>))
    ensures
        pairs_model(r.push(p)) == pairs_model(r).push((p.0.model(), p.1.model())),
{
    assert(pairs_model(r.push(p)) =~= pairs_model(r).push((p.0.model(), p.1.model())));
}

proof fn lemma_sources_model_push<'a>(r: Seq<Vec<(BorrowedValue<'a>, BorrowedValue<'a>)>>, p: Vec<(BorrowedValue<'a>, BorrowedValue<'a>)>)
    ensures
        sources_model(r.push(p)) == sources_model(r).push(pairs_model(p@)),
{
    assert(sources_model(r.push(p)) =~= sources_model(r).push(pairs_model(p@)));
}

/// Whether the `<<` entry `p` brings in the entry `e`: `e` is an entry of
/// the mapping it names, or of one of the mappings in the list it names.
pub open spec fn brings<'a>(p: (BorrowedValue<'a>, BorrowedValue<'a>), e: (BorrowedValue<'a>, BorrowedValue<'a>)) -> bool {
    match p.1 {
        BorrowedValue::Mapping(inner) => inner@.contains(e),
        BorrowedValue::Sequence(items) => exists|q: int|
            0 <= q < items.len() && (#[trigger] items@[q] matches BorrowedValue::Mapping(inner) && inner@.contains(e)),
        _ => false,
    }
}

/// Whether the entry `p` of a mapping passes `e` on to the merged mapping:
/// a `<<` entry passes on what it brings in, any other entry itself.
pub open spec fn passes_on<'a>(p: (BorrowedValue<'a>, BorrowedValue<'a>), e: (BorrowedValue<'a>, BorrowedValue<'a>)) -> bool {
    if is_merge_key(p.0.model()) { brings(p, e) } else { p == e }
}

/// `e` is, as it stands (keys and values with their own borrows), an entry
/// that some entry of `pairs` passes on.
pub open spec fn passed_through<'a>(pairs: Seq<(BorrowedValue<'a>, BorrowedValue<'a>)>, e: (BorrowedValue<'a>, BorrowedValue<'a>)) -> bool {
    exists|j: int| 0 <= j < pairs.len() && #[trigger] passes_on(pairs[j], e)
}

/// Every key and value of `pairs` is borrowed throughout.
pub open spec fn entries_borrowed<'a>(pairs: Seq<(BorrowedValue<'a>, BorrowedValue<'a>)>) -> bool {
    forall|q: int| 0 <= q < pairs.len() ==> all_borrowed(#[trigger] pairs[q].0) && all_borrowed(pairs[q].1)
}

/// What passes through from entries that are borrowed throughout is
/// borrowed throughout.
proof fn lemma_passed_through_borrowed<'a>(pairs: Seq<(BorrowedValue<'a>, BorrowedValue<'a>)>, e: (BorrowedValue<'a>, BorrowedValue<'a>))
    requires
        entries_borrowed(pairs),
        passed_through(pairs, e),
    ensures
        all_borrowed(e.0),
        all_borrowed(e.1),
{
    let j = choose|j: int| 0 <= j < pairs.len() && #[trigger] passes_on(pairs[j], e);
    let p = pairs[j];
    assert(all_borrowed(p.0) && all_borrowed(p.1));
    if is_merge_key(p.0.model()) {
        match p.1 {
            BorrowedValue::Mapping(inner) => {
                let idx = choose|idx: int| 0 <= idx < inner@.len() && inner@[idx] == e;
                assert(all_borrowed(inner@[idx].0));
            },
            BorrowedValue::Sequence(items) => {
                let q = choose|q: int|
                    0 <= q < items.len() && (#[trigger] items@[q] matches BorrowedValue::Mapping(inner) && inner@.contains(e));
                assert(all_borrowed(items@[q]));
                match items@[q] {
                    BorrowedValue::Mapping(inner) => {
                        let idx = choose|idx: int| 0 <= idx < inner@.len() && inner@[idx] == e;
                        assert(all_borrowed(inner@[idx].0));
                    },
                    _ => {},
                }
            },
            _ => {},
        }
    }
}

/// Splices the mappings that `<<` entries bring in into the mapping made of
/// `pairs` (see [`merged_pairs`]): explicit keys win over merged-in ones,
/// and among merged-in mappings the earlier ones win. Every entry of the
/// result is an entry passed through as it stood, so borrowed text stays
/// borrowed.
pub fn merge_in_map<'a>(pairs: Vec<(BorrowedValue<'a>, BorrowedValue<'a>)>) -> (r: BorrowedValue<'a>)
    ensures
        r.model() == Node::Pairs(merged_pairs(pairs_model(pairs@))),
        r matches BorrowedValue::Mapping(out) && forall|q: int| 0 <= q < out.len() ==> passed_through(pairs@, #[trigger] out@[q]),
        entries_borrowed(pairs@) ==> all_borrowed(r),
{
    let ghost orig = pairs_model(pairs@);
    let mut pairs = pairs;
    let ghost original = pairs@;
    let mut result: Vec<(BorrowedValue<'a>, BorrowedValue<'a>)> = Vec::new();
    let mut sources: Vec<Vec<(BorrowedValue<'a>, BorrowedValue<'a>)>> = Vec::new();
    let n = pairs.len();
    let mut i: usize = 0;
    while i < n
        invariant
            n == pairs.len(),
            n == original.len(),
            orig == pairs_model(original),
            i <= n,
            forall|j: int| i <= j < n ==> pairs@[j] == original[j],
            pairs_model(result@) == explicit_pairs(orig.take(i as int)),
            sources_model(sources@) == all_sources(orig.take(i as int)),
            forall|q: int| 0 <= q < result@.len() ==> passed_through(original, #[trigger] result@[q]),
            forall|a: int, b: int| 0 <= a < sources@.len() && 0 <= b < sources@[a]@.len()
                ==> passed_through(original, #[trigger] sources@[a]@[b]),
        decreases n - i,
    {
        let mut taken = (BorrowedValue::Null, BorrowedValue::Null);
        std::mem::swap(&mut taken, &mut pairs[i]);
        assert(taken == original[i as int]);
        assert(orig.take(i + 1).drop_last() =~= orig.take(i as int));
        assert(orig.take(i + 1).last() == orig[i as int]);
        let (k, v) = taken;
        if is_merge_key_exec(&k) {
            let ghost before = sources@;
            match v {
                BorrowedValue::Mapping(inner) => {
                    proof { lemma_model_containers(&BorrowedValue::Mapping(inner)); }
                    let ghost m = pairs_model(inner@);
                    proof {
                        assert forall|b: int| 0 <= b < inner@.len() implies passed_through(original, #[trigger] inner@[b]) by {
                            assert(inner@.contains(inner@[b]));
                            assert(passes_on(original[i as int], inner@[b]));
                        }
                    }
                    sources.push(inner);
                    proof {
                        lemma_sources_model_push(before, sources@.last());
                        assert(merge_sources_of(orig[i as int].1) == seq![m]);
                    }
                },
                BorrowedValue::Sequence(items) => {
                    let ghost iv = BorrowedValue::Sequence(items);
                    let ghost ivec = items;
                    proof { lemma_model_containers(&iv); }
                    let ghost im = crate::value::items_model(items@);
                    let mut items = items;
                    let ghost items0 = items@;
                    let m = items.len();
                    let mut j: usize = 0;
                    while j < m
                        invariant
                            m == items.len(),
                            m == items0.len(),
                            im == crate::value::items_model(items0),
                            j <= m,
                            forall|q: int| j <= q < m ==> items@[q] == items0[q],
                            sources_model(sources@) == sources_model(before) + maps_in(im.take(j as int)),
                            i < original.len(),
                            is_merge_key(original[i as int].0.model()),
                            original[i as int].1 == BorrowedValue::Sequence(ivec),
                            ivec@ == items0,
                            forall|a: int, b: int| 0 <= a < sources@.len() && 0 <= b < sources@[a]@.len()
                                ==> passed_through(original, #[trigger] sources@[a]@[b]),
                        decreases m - j,
                    {
                        let mut item = BorrowedValue::Null;
                        std::mem::swap(&mut item, &mut items[j]);
                        assert(im.take(j + 1).drop_last() =~= im.take(j as int));
                        assert(im.take(j + 1).last() == items0[j as int].model());
                        let ghost cur = sources@;
                        match item {
                            BorrowedValue::Mapping(inner) => {
                                proof {
                                    lemma_model_containers(&BorrowedValue::Mapping(inner));
                                    assert forall|b: int| 0 <= b < inner@.len() implies passed_through(original, #[trigger] inner@[b]) by {
                                        assert(inner@.contains(inner@[b]));
                                        assert(ivec@[j as int] matches BorrowedValue::Mapping(x) && x@.contains(inner@[b]));
                                        assert(passes_on(original[i as int], inner@[b]));
                                    }
                                }
                                sources.push(inner);
                                proof { lemma_sources_model_push(cur, sources@.last()); }
                            },
                            _ => {
                                assert(maps_in(im.take(j + 1)) =~= maps_in(im.take(j as int)));
                            },
                        }
                        j = j + 1;
                    }
                    assert(im.take(m as int) =~= im);
                },
                _ => {},
            }
        } else {
            let ghost before = result@;
            proof { assert(passes_on(original[i as int], (k, v))); }
            result.push((k, v));
            proof { lemma_pairs_model_push(before, (k, v)); }
        }
        i = i + 1;
    }
    assert(orig.take(n as int) =~= orig);
    let ghost srcs = all_sources(orig);
    assert(srcs.skip(0) =~= srcs);
    assert(pairs_model(result@) == explicit_pairs(orig));
    assert(sources_model(sources@) == srcs);
    assert forall|q: int| 0 <= q < sources@.len() implies pairs_model(#[trigger] sources@[q]@) == srcs[q] by {
        assert(sources_model(sources@)[q] == pairs_model(sources@[q]@));
    }
    let ns = sources.len();
    let mut si: usize = 0;
    while si < ns
        invariant
            ns == sources.len(),
            srcs.len() == ns,
            si <= ns,
            forall|q: int| si <= q < ns ==> pairs_model(#[trigger] sources@[q]@) == srcs[q],
            merged_pairs(orig) == add_all(pairs_model(result@), srcs.skip(si as int)),
            forall|q: int| 0 <= q < result@.len() ==> passed_through(original, #[trigger] result@[q]),
            forall|a: int, b: int| 0 <= a < sources@.len() && 0 <= b < sources@[a]@.len()
                ==> passed_through(original, #[trigger] sources@[a]@[b]),
        decreases ns - si,
    {
        let mut src: Vec<(BorrowedValue<'a>, BorrowedValue<'a>)> = Vec::new();
        std::mem::swap(&mut src, &mut sources[si]);
        let ghost sm = pairs_model(src@);
        let ghost src0 = src@;
        assert(srcs.skip(si as int)[0] == sm);
        assert(srcs.skip(si as int).drop_first() =~= srcs.skip(si + 1));
        let ml = src.len();
        let mut j: usize = 0;
        assert(sm.skip(0) =~= sm);
        while j < ml
            invariant
                ml == src.len(),
                ml == src0.len(),
                sm == pairs_model(src0),
                j <= ml,
                forall|q: int| j <= q < ml ==> src@[q] == src0[q],
                merged_pairs(orig) == add_all(add_missing(pairs_model(result@), sm.skip(j as int)), srcs.skip(si + 1)),
                forall|q: int| 0 <= q < result@.len() ==> passed_through(original, #[trigger] result@[q]),
                forall|b: int| 0 <= b < ml ==> passed_through(original, #[trigger] src0[b]),
            decreases ml - j,
        {
            let mut entry = (BorrowedValue::Null, BorrowedValue::Null);
            std::mem::swap(&mut entry, &mut src[j]);
            assert(sm.skip(j as int)[0] == sm[j as int]);
            assert(sm.skip(j as int).drop_first() =~= sm.skip(j + 1));
            let (k, v) = entry;
            if !has_key_exec(&result, &k) {
                let ghost before = result@;
                result.push((k, v));
                proof { lemma_pairs_model_push(before, (k, v)); }
            }
            j = j + 1;
        }
        assert(sm.skip(ml as int) =~= Seq::<(Node, Node)>::empty());
        si = si + 1;
    }
    assert(srcs.skip(ns as int) =~= Seq::<Seq<(Node, Node)>>::empty());
    proof {
        if entries_borrowed(original) {
            assert forall|q: int| 0 <= q < result@.len() implies all_borrowed(#[trigger] result@[q].0) && all_borrowed(result@[q].1) by {
                lemma_passed_through_borrowed(original, result@[q]);
            }
        }
    }
    let r = BorrowedValue::Mapping(result);
    proof { lemma_model_containers(&r); }
    r
}

/// The value of the first entry of `r` with key `k`.
pub open spec fn lookup(r: Seq<(Node, Node)>, k: Node) -> Option<Node>
    decreases r.len(),
{
    if r.len() == 0 {
        None
    } else if r[0].0 == k {
        Some(r[0].1)
    } else {
        lookup(r.drop_first(), k)
    }
}

/// The value for `k` in the first of `srcs` that has the key.
pub open spec fn first_source_lookup(srcs: Seq<Seq<(Node, Node)>>, k: Node) -> Option<Node>
    decreases srcs.len(),
{
    if srcs.len() == 0 {
        None
    } else {
        match lookup(srcs[0], k) {
            Some(v) => Some(v),
            None => first_source_lookup(srcs.drop_first(), k),
        }
    }
}

/// No two entries of `r` share a key.
pub open spec fn unique_keys(r: Seq<(Node, Node)>) -> bool {
    forall|a: int, b: int| 0 <= a < b < r.len() ==> r[a].0 != r[b].0
}

proof fn lemma_lookup_has_key(r: Seq<(Node, Node)>, k: Node)
    ensures
        lookup(r, k) is Some <==> has_key(r, k),
    decreases r.len(),
{
    if r.len() > 0 {
        lemma_lookup_has_key(r.drop_first(), k);
        if has_key(r, k) && r[0].0 != k {
            let j = choose|j: int| 0 <= j < r.len() && r[j].0 == k;
            assert(r.drop_first()[j - 1].0 == k);
        }
        if has_key(r.drop_first(), k) {
            let j = choose|j: int| 0 <= j < r.drop_first().len() && r.drop_first()[j].0 == k;
            assert(r[j + 1].0 == k);
        }
    }
}

/// Looking up a key that a prefix holds finds it in the prefix.
proof fn lemma_lookup_prefix(p: Seq<(Node, Node)>, q: Seq<(Node, Node)>, k: Node)
    requires
        has_key(p, k),
    ensures
        lookup(p + q, k) == lookup(p, k),
    decreases p.len(),
{
    if p[0].0 != k {
        let j = choose|j: int| 0 <= j < p.len() && p[j].0 == k;
        assert(p.drop_first()[j - 1].0 == k);
        assert((p + q).drop_first() =~= p.drop_first() + q);
        lemma_lookup_prefix(p.drop_first(), q, k);
    }
}

/// Growing a mapping by `add_missing` keeps what it held in front.
proof fn lemma_add_missing_extends(r: Seq<(Node, Node)>, src: Seq<(Node, Node)>)
    ensures
        add_missing(r, src).len() >= r.len(),
        add_missing(r, src).take(r.len() as int) == r,
    decreases src.len(),
{
    if src.len() > 0 {
        let r2 = if has_key(r, src[0].0) { r } else { r.push(src[0]) };
        lemma_add_missing_extends(r2, src.drop_first());
        assert(add_missing(r, src).take(r.len() as int) =~= add_missing(r2, src.drop_first()).take(r2.len() as int).take(r.len() as int));
    }
}

proof fn lemma_add_all_extends(r: Seq<(Node, Node)>, srcs: Seq<Seq<(Node, Node)>>)
    ensures
        add_all(r, srcs).len() >= r.len(),
        add_all(r, srcs).take(r.len() as int) == r,
    decreases srcs.len(),
{
    if srcs.len() > 0 {
        let r2 = add_missing(r, srcs[0]);
        lemma_add_missing_extends(r, srcs[0]);
        lemma_add_all_extends(r2, srcs.drop_first());
        assert(add_all(r, srcs).take(r.len() as int) =~= add_all(r2, srcs.drop_first()).take(r2.len() as int).take(r.len() as int));
    }
}

proof fn lemma_lookup_in_extension(r: Seq<(Node, Node)>, big: Seq<(Node, Node)>, k: Node)
    requires
        has_key(r, k),
        big.len() >= r.len(),
        big.take(r.len() as int) == r,
    ensures
        lookup(big, k) == lookup(r, k),
{
    assert(big =~= r + big.skip(r.len() as int));
    lemma_lookup_prefix(r, big.skip(r.len() as int), k);
}

proof fn lemma_has_key_push(r: Seq<(Node, Node)>, e: (Node, Node), k: Node)
    ensures
        has_key(r.push(e), k) <==> has_key(r, k) || e.0 == k,
{
    if has_key(r, k) {
        let j = choose|j: int| 0 <= j < r.len() && r[j].0 == k;
        assert(r.push(e)[j].0 == k);
    }
    if e.0 == k {
        assert(r.push(e)[r.len() as int].0 == k);
    }
    if has_key(r.push(e), k) && e.0 != k {
        let j = choose|j: int| 0 <= j < r.push(e).len() && r.push(e)[j].0 == k;
        assert(r[j].0 == k);
    }
}

proof fn lemma_lookup_push_new(r: Seq<(Node, Node)>, e: (Node, Node))
    requires
        !has_key(r, e.0),
    ensures
        lookup(r.push(e), e.0) == Some(e.1),
    decreases r.len(),
{
    if r.len() > 0 {
        assert(r[0].0 != e.0) by {
            if r[0].0 == e.0 { assert(has_key(r, e.0)); }
        }
        assert(!has_key(r.drop_first(), e.0)) by {
            if has_key(r.drop_first(), e.0) {
                let j = choose|j: int| 0 <= j < r.drop_first().len() && r.drop_first()[j].0 == e.0;
                assert(r[j + 1].0 == e.0);
            }
        }
        assert(r.push(e).drop_first() =~= r.drop_first().push(e));
        lemma_lookup_push_new(r.drop_first(), e);
    } else {
        assert(r.push(e)[0] == e);
    }
}

/// What `add_missing` gives for a key its start does not hold: the value of
/// the key's first entry in `src`, if any.
proof fn lemma_add_missing_lookup(r: Seq<(Node, Node)>, src: Seq<(Node, Node)>, k: Node)
    requires
        !has_key(r, k),
    ensures
        lookup(src, k) is None ==> !has_key(add_missing(r, src), k),
        lookup(src, k) is Some ==> lookup(add_missing(r, src), k) == lookup(src, k),
    decreases src.len(),
{
    if src.len() > 0 {
        let e = src[0];
        let r2 = if has_key(r, e.0) { r } else { r.push(e) };
        if e.0 == k {
            lemma_lookup_push_new(r, e);
            lemma_has_key_push(r, e, k);
            lemma_add_missing_extends(r2, src.drop_first());
            lemma_lookup_in_extension(r2, add_missing(r2, src.drop_first()), k);
        } else {
            lemma_has_key_push(r, e, k);
            lemma_add_missing_lookup(r2, src.drop_first(), k);
        }
    }
}

proof fn lemma_add_all_lookup(r: Seq<(Node, Node)>, srcs: Seq<Seq<(Node, Node)>>, k: Node)
    requires
        !has_key(r, k),
    ensures
        lookup(add_all(r, srcs), k) == first_source_lookup(srcs, k),
    decreases srcs.len(),
{
    if srcs.len() == 0 {
        lemma_lookup_has_key(r, k);
    } else {
        let r2 = add_missing(r, srcs[0]);
        lemma_add_missing_lookup(r, srcs[0], k);
        if lookup(srcs[0], k) is Some {
            lemma_lookup_has_key(r2, k);
            lemma_add_all_extends(r2, srcs.drop_first());
            lemma_lookup_in_extension(r2, add_all(r2, srcs.drop_first()), k);
        } else {
            lemma_add_all_lookup(r2, srcs.drop_first(), k);
        }
    }
}

proof fn lemma_add_missing_unique(r: Seq<(Node, Node)>, src: Seq<(Node, Node)>)
    requires
        unique_keys(r),
    ensures
        unique_keys(add_missing(r, src)),
    decreases src.len(),
{
    if src.len() > 0 {
        let e = src[0];
        if !has_key(r, e.0) {
            let r2 = r.push(e);
            assert forall|a: int, b: int| 0 <= a < b < r2.len() implies r2[a].0 != r2[b].0 by {
                if b == r.len() {
                    if r2[a].0 == e.0 { assert(has_key(r, e.0)); }
                }
            }
            lemma_add_missing_unique(r2, src.drop_first());
        } else {
            lemma_add_missing_unique(r, src.drop_first());
        }
    }
}

proof fn lemma_add_all_unique(r: Seq<(Node, Node)>, srcs: Seq<Seq<(Node, Node)>>)
    requires
        unique_keys(r),
    ensures
        unique_keys(add_all(r, srcs)),
    decreases srcs.len(),
{
    if srcs.len() > 0 {
        lemma_add_missing_unique(r, srcs[0]);
        lemma_add_all_unique(add_missing(r, srcs[0]), srcs.drop_first());
    }
}

/// Merging keeps the explicit entries of a mapping, in order, in front of
/// everything merged in.
pub proof fn merge_starts_with_explicit(ps: Seq<(Node, Node)>)
    ensures
        merged_pairs(ps).len() >= explicit_pairs(ps).len(),
        merged_pairs(ps).take(explicit_pairs(ps).len() as int) == explicit_pairs(ps),
{
    lemma_add_all_extends(explicit_pairs(ps), all_sources(ps));
}

/// Explicit keys win: a key the mapping sets itself keeps its own value,
/// whatever the merged-in mappings hold.
pub proof fn merge_keeps_explicit(ps: Seq<(Node, Node)>, k: Node)
    requires
        has_key(explicit_pairs(ps), k),
    ensures
        lookup(merged_pairs(ps), k) == lookup(explicit_pairs(ps), k),
{
    merge_starts_with_explicit(ps);
    lemma_lookup_in_extension(explicit_pairs(ps), merged_pairs(ps), k);
}

/// A key the mapping does not set gets its value from the first merged-in
/// mapping that has it (earlier entries of `<<: [*a, *b]` win), or stays
/// absent.
pub proof fn merge_takes_first_source(ps: Seq<(Node, Node)>, k: Node)
    requires
        !has_key(explicit_pairs(ps), k),
    ensures
        lookup(merged_pairs(ps), k) == first_source_lookup(all_sources(ps), k),
{
    lemma_add_all_lookup(explicit_pairs(ps), all_sources(ps), k);
}

/// Merging never adds a key twice: if the explicit entries have distinct
/// keys, so does the merged mapping.
pub proof fn merge_adds_no_duplicate(ps: Seq<(Node, Node)>)
    requires
        unique_keys(explicit_pairs(ps)),
    ensures
        unique_keys(merged_pairs(ps)),
{
    lemma_add_all_unique(explicit_pairs(ps), all_sources(ps));
}

/// A node with merge keys resolved bottom-up: children first, then each
/// mapping's own `<<` entries (see [`merged_pairs`]).
pub open spec fn resolved(n: Node) -> Node
    decreases n, 1int,
{
    match n {
        Node::Pairs(ps) => Node::Pairs(merged_pairs(resolved_pairs(ps))),
        Node::List(items) => Node::List(resolved_items(items)),
        Node::Tagged(t, inner) => Node::Tagged(t, Box::new(resolved(*inner))),
        other => other,
    }
}

/// Each key and value resolved.
pub open spec fn resolved_pairs(ps: Seq<(Node, Node)>) -> Seq<(Node, Node)>
    decreases ps, 0int,
{
    Seq::new(ps.len(), |i: int| {
        if 0 <= i < ps.len() { (resolved(ps[i].0), resolved(ps[i].1)) } else { (Node::Null, Node::Null) }
    })
}

/// Each item resolved.
pub open spec fn resolved_items(items: Seq<Node>) -> Seq<Node>
    decreases items, 0int,
{
    Seq::new(items.len(), |i: int| {
        if 0 <= i < items.len() { resolved(items[i]) } else { Node::Null }
    })
}

/// No mapping anywhere in `n` holds a `<<` key.
pub open spec fn merge_free(n: Node) -> bool
    decreases n,
{
    match n {
        Node::Pairs(ps) => forall|i: int|
            0 <= i < ps.len() ==> !is_merge_key(#[trigger] ps[i].0) && merge_free(ps[i].0) && merge_free(ps[i].1),
        Node::List(items) => forall|i: int| 0 <= i < items.len() ==> merge_free(#[trigger] items[i]),
        Node::Tagged(_, inner) => merge_free(*inner),
        _ => true,
    }
}

/// An entry that may stand in a merge-free mapping.
spec fn good_entry(e: (Node, Node)) -> bool {
    !is_merge_key(e.0) && merge_free(e.0) && merge_free(e.1)
}

spec fn all_good(r: Seq<(Node, Node)>) -> bool {
    forall|i: int| 0 <= i < r.len() ==> good_entry(#[trigger] r[i])
}

spec fn parts_merge_free(ps: Seq<(Node, Node)>) -> bool {
    forall|i: int| #![trigger ps[i]] 0 <= i < ps.len() ==> merge_free(ps[i].0) && merge_free(ps[i].1)
}

proof fn lemma_explicit_good(ps: Seq<(Node, Node)>)
    requires
        parts_merge_free(ps),
    ensures
        all_good(explicit_pairs(ps)),
    decreases ps.len(),
{
    if ps.len() > 0 {
        let init = ps.drop_last();
        assert forall|i: int| 0 <= i < init.len() implies merge_free(#[trigger] init[i].0) && merge_free(init[i].1) by {
            assert(init[i] == ps[i]);
        }
        lemma_explicit_good(init);
        let last = ps.last();
        assert(merge_free(ps[ps.len() - 1].0));
        let tail = if is_merge_key(last.0) { Seq::<(Node, Node)>::empty() } else { seq![last] };
        let a = explicit_pairs(init);
        assert(explicit_pairs(ps) == a + tail);
        assert forall|i: int| 0 <= i < (a + tail).len() implies good_entry(#[trigger] (a + tail)[i]) by {
            if i < a.len() {
                assert((a + tail)[i] == a[i]);
            } else {
                assert((a + tail)[i] == tail[i - a.len()]);
            }
        }
    }
}

proof fn lemma_maps_in_good(items: Seq<Node>)
    requires
        forall|i: int| 0 <= i < items.len() ==> merge_free(#[trigger] items[i]),
    ensures
        forall|k: int| 0 <= k < maps_in(items).len() ==> all_good(#[trigger] maps_in(items)[k]),
    decreases items.len(),
{
    if items.len() > 0 {
        let init = items.drop_last();
        assert forall|i: int| 0 <= i < init.len() implies merge_free(#[trigger] init[i]) by {
            assert(init[i] == items[i]);
        }
        lemma_maps_in_good(init);
        let a = maps_in(init);
        let last = items.last();
        assert(merge_free(last));
        let tail = match last {
            Node::Pairs(p) => seq![p],
            _ => Seq::<Seq<(Node, Node)>>::empty(),
        };
        assert(maps_in(items) == a + tail);
        assert forall|k: int| 0 <= k < (a + tail).len() implies all_good(#[trigger] (a + tail)[k]) by {
            if k < a.len() {
                assert((a + tail)[k] == a[k]);
            } else {
                assert((a + tail)[k] == tail[k - a.len()]);
                if let Node::Pairs(p) = last {
                    assert(tail[k - a.len()] == p);
                    assert forall|i: int| 0 <= i < p.len() implies good_entry(#[trigger] p[i]) by {}
                }
            }
        }
    }
}

proof fn lemma_sources_good(ps: Seq<(Node, Node)>)
    requires
        parts_merge_free(ps),
    ensures
        forall|k: int| 0 <= k < all_sources(ps).len() ==> all_good(#[trigger] all_sources(ps)[k]),
    decreases ps.len(),
{
    if ps.len() > 0 {
        let j: int = ps.len() - 1;
        let last = ps[j];
        assert(merge_free(last.1));
        let init = ps.drop_last();
        assert forall|i: int| 0 <= i < init.len() implies merge_free(#[trigger] init[i].0) && merge_free(init[i].1) by {
            assert(init[i] == ps[i]);
        }
        lemma_sources_good(init);
        let a = all_sources(init);
        let tail = if is_merge_key(last.0) { merge_sources_of(last.1) } else { Seq::<Seq<(Node, Node)>>::empty() };
        assert(all_sources(ps) == a + tail);
        assert forall|k: int| 0 <= k < tail.len() implies all_good(#[trigger] tail[k]) by {
            match last.1 {
                Node::Pairs(p) => {
                    assert(tail[k] == p);
                    assert forall|i: int| 0 <= i < p.len() implies good_entry(#[trigger] p[i]) by {}
                },
                Node::List(items) => {
                    lemma_maps_in_good(items);
                },
                _ => {},
            }
        }
        assert forall|k: int| 0 <= k < (a + tail).len() implies all_good(#[trigger] (a + tail)[k]) by {
            if k < a.len() {
                assert((a + tail)[k] == a[k]);
            } else {
                assert((a + tail)[k] == tail[k - a.len()]);
            }
        }
    }
}

proof fn lemma_add_missing_good(r: Seq<(Node, Node)>, src: Seq<(Node, Node)>)
    requires
        all_good(r),
        all_good(src),
    ensures
        all_good(add_missing(r, src)),
    decreases src.len(),
{
    if src.len() > 0 {
        let r2 = if has_key(r, src[0].0) { r } else { r.push(src[0]) };
        assert(good_entry(src[0]));
        assert forall|i: int| 0 <= i < r2.len() implies good_entry(#[trigger] r2[i]) by {
            if i < r.len() {
                assert(r2[i] == r[i]);
            }
        }
        let rest = src.drop_first();
        assert forall|i: int| 0 <= i < rest.len() implies good_entry(#[trigger] rest[i]) by {
            assert(rest[i] == src[i + 1]);
        }
        lemma_add_missing_good(r2, rest);
    }
}

proof fn lemma_add_all_good(r: Seq<(Node, Node)>, srcs: Seq<Seq<(Node, Node)>>)
    requires
        all_good(r),
        forall|k: int| 0 <= k < srcs.len() ==> all_good(#[trigger] srcs[k]),
    ensures
        all_good(add_all(r, srcs)),
    decreases srcs.len(),
{
    if srcs.len() > 0 {
        assert(all_good(srcs[0]));
        lemma_add_missing_good(r, srcs[0]);
        let rest = srcs.drop_first();
        assert forall|k: int| 0 <= k < rest.len() implies all_good(#[trigger] rest[k]) by {
            assert(rest[k] == srcs[k + 1]);
        }
        lemma_add_all_good(add_missing(r, srcs[0]), rest);
    }
}

proof fn lemma_merged_merge_free(ps: Seq<(Node, Node)>)
    requires
        parts_merge_free(ps),
    ensures
        merge_free(Node::Pairs(merged_pairs(ps))),
{
    lemma_explicit_good(ps);
    lemma_sources_good(ps);
    lemma_add_all_good(explicit_pairs(ps), all_sources(ps));
    let m = merged_pairs(ps);
    assert forall|i: int| 0 <= i < m.len() implies !is_merge_key(#[trigger] m[i].0) && merge_free(m[i].0) && merge_free(m[i].1) by {
        assert(good_entry(m[i]));
    }
}

/// Resolving merge keys leaves no `<<` key in any mapping: every mapping
/// of the result has had its merge keys spliced in.
pub proof fn resolving_leaves_no_merge_key(n: Node)
    ensures
        merge_free(resolved(n)),
    decreases n,
{
    match n {
        Node::Pairs(ps) => {
            let rp = resolved_pairs(ps);
            assert forall|i: int| 0 <= i < rp.len() implies merge_free(#[trigger] rp[i].0) && merge_free(rp[i].1) by {
                assert(decreases_to!(n => ps[i].0));
                assert(decreases_to!(n => ps[i].1));
                resolving_leaves_no_merge_key(ps[i].0);
                resolving_leaves_no_merge_key(ps[i].1);
            }
            lemma_merged_merge_free(rp);
        },
        Node::List(items) => {
            let ri = resolved_items(items);
            assert forall|i: int| 0 <= i < ri.len() implies merge_free(#[trigger] ri[i]) by {
                assert(decreases_to!(n => items[i]));
                resolving_leaves_no_merge_key(items[i]);
            }
        },
        Node::Tagged(t, inner) => {
            resolving_leaves_no_merge_key(*inner);
        },
        _ => {},
    }
}

proof fn lemma_explicit_of_merge_free(ps: Seq<(Node, Node)>)
    requires
        forall|i: int| 0 <= i < ps.len() ==> !is_merge_key(#[trigger] ps[i].0),
    ensures
        explicit_pairs(ps) == ps,
        all_sources(ps) == Seq::<Seq<(Node, Node)>>::empty(),
    decreases ps.len(),
{
    if ps.len() > 0 {
        let init = ps.drop_last();
        assert forall|i: int| 0 <= i < init.len() implies !is_merge_key(#[trigger] init[i].0) by {
            assert(init[i] == ps[i]);
        }
        lemma_explicit_of_merge_free(init);
        assert(!is_merge_key(ps.last().0));
        assert(explicit_pairs(ps) =~= ps);
        assert(all_sources(ps) =~= Seq::<Seq<(Node, Node)>>::empty());
    }
}

/// A node with no `<<` key anywhere resolves to itself.
proof fn lemma_merge_free_resolves_to_itself(n: Node)
    requires
        merge_free(n),
    ensures
        resolved(n) == n,
    decreases n,
{
    match n {
        Node::Pairs(ps) => {
            let rp = resolved_pairs(ps);
            assert forall|i: int| 0 <= i < ps.len() implies #[trigger] rp[i] == ps[i] by {
                assert(decreases_to!(n => ps[i].0));
                assert(decreases_to!(n => ps[i].1));
                lemma_merge_free_resolves_to_itself(ps[i].0);
                lemma_merge_free_resolves_to_itself(ps[i].1);
            }
            assert(rp =~= ps);
            lemma_explicit_of_merge_free(ps);
            assert(merged_pairs(ps) == ps);
        },
        Node::List(items) => {
            let ri = resolved_items(items);
            assert forall|i: int| 0 <= i < items.len() implies #[trigger] ri[i] == items[i] by {
                assert(decreases_to!(n => items[i]));
                lemma_merge_free_resolves_to_itself(items[i]);
            }
            assert(ri =~= items);
        },
        Node::Tagged(t, inner) => {
            lemma_merge_free_resolves_to_itself(*inner);
        },
        _ => {},
    }
}

/// Resolving merge keys a second time changes nothing.
pub proof fn resolving_is_idempotent(n: Node)
    ensures
        resolved(resolved(n)) == resolved(n),
{
    resolving_leaves_no_merge_key(n);
    lemma_merge_free_resolves_to_itself(resolved(n));
}

/// Resolves every merge key in `v`, children before parents (see
/// [`resolved`]). Scalars come back as they were and tags keep their text
/// as it stood, so a value borrowed throughout stays borrowed throughout.
#[verifier::loop_isolation(false)]
pub fn resolve_merge_keys<'a>(v: BorrowedValue<'a>) -> (r: BorrowedValue<'a>)
    ensures
        r.model() == resolved(v.model()),
        !(v is Mapping || v is Sequence || v is Tagged) ==> r == v,
        v matches BorrowedValue::Tagged(t, _) ==> r matches BorrowedValue::Tagged(u, _) && u == t,
        all_borrowed(v) ==> all_borrowed(r),
    decreases v,
{
    let ghost vm = v.model();
    proof { lemma_model_containers(&v); }
    match v {
        BorrowedValue::Mapping(pairs) => {
            let ghost pv = pairs;
            let ghost p0 = pairs@;
            let mut pairs = pairs;
            let n = pairs.len();
            let mut recursed: Vec<(BorrowedValue<'a>, BorrowedValue<'a>)> = Vec::new();
            let mut i: usize = 0;
            while i < n
                invariant
                    n == pairs.len(),
                    n == p0.len(),
                    vm == Node::Pairs(pairs_model(p0)),
                    i <= n,
                    forall|j: int| i <= j < n ==> pairs@[j] == p0[j],
                    recursed.len() == i,
                    forall|j: int| 0 <= j < i ==> #[trigger] pairs_model(recursed@)[j] == (resolved(p0[j].0.model()), resolved(p0[j].1.model())),
                    all_borrowed(v) ==> entries_borrowed(recursed@),
                decreases n - i,
            {
                let mut taken = (BorrowedValue::Null, BorrowedValue::Null);
                std::mem::swap(&mut taken, &mut pairs[i]);
                let (k, val) = taken;
                proof {
                    vstd::std_specs::vec::axiom_vec_index_decreases(pv, i as int);
                    assert(decreases_to!(v => pv));
                    assert(decreases_to!(pv => pv[i as int]));
                    assert(decreases_to!(pv[i as int] => pv[i as int].0));
                    assert(decreases_to!(v => p0[i as int].0));
                    assert(decreases_to!(v => p0[i as int].1));
                }
                proof {
                    if all_borrowed(v) {
                        assert(all_borrowed(p0[i as int].0) && all_borrowed(p0[i as int].1));
                    }
                }
                let rk = resolve_merge_keys(k);
                let rv = resolve_merge_keys(val);
                let ghost before = recursed@;
                recursed.push((rk, rv));
                proof {
                    lemma_pairs_model_push(before, (rk, rv));
                    if all_borrowed(v) {
                        assert forall|q: int| 0 <= q < recursed@.len() implies all_borrowed(#[trigger] recursed@[q].0) && all_borrowed(recursed@[q].1) by {
                            if q < before.len() {
                                assert(recursed@[q] == before[q]);
                            }
                        }
                    }
                }
                i = i + 1;
            }
            assert(pairs_model(recursed@) =~= resolved_pairs(pairs_model(p0)));
            merge_in_map(recursed)
        },
        BorrowedValue::Sequence(items) => {
            let ghost iv = items;
            let ghost i0 = items@;
            let mut items = items;
            let n = items.len();
            let mut out: Vec<BorrowedValue<'a>> = Vec::new();
            let mut i: usize = 0;
            while i < n
                invariant
                    n == items.len(),
                    n == i0.len(),
                    vm == Node::List(crate::value::items_model(i0)),
                    i <= n,
                    forall|j: int| i <= j < n ==> items@[j] == i0[j],
                    out.len() == i,
                    forall|j: int| 0 <= j < i ==> #[trigger] out@[j].model() == resolved(i0[j].model()),
                    all_borrowed(v) ==> forall|j: int| 0 <= j < i ==> all_borrowed(#[trigger] out@[j]),
                decreases n - i,
            {
                let mut taken = BorrowedValue::Null;
                std::mem::swap(&mut taken, &mut items[i]);
                proof {
                    vstd::std_specs::vec::axiom_vec_index_decreases(iv, i as int);
                    assert(decreases_to!(v => iv));
                    assert(decreases_to!(v => i0[i as int]));
                }
                proof {
                    if all_borrowed(v) {
                        assert(all_borrowed(i0[i as int]));
                    }
                }
                let r = resolve_merge_keys(taken);
                out.push(r);
                i = i + 1;
            }
            let r = BorrowedValue::Sequence(out);
            proof {
                lemma_model_containers(&r);
                assert(crate::value::items_model(out@) =~= resolved_items(crate::value::items_model(i0)));
            }
            r
        },
        BorrowedValue::Tagged(t, inner) => {
            let r = resolve_merge_keys(*inner);
            BorrowedValue::Tagged(t, Box::new(r))
        },
        other => other,
    }
}

} // verus!
