//! Deduplication, ranking and capping of completion candidates.
//!
//! Candidates pass three stages: one entry is kept per label, entries whose
//! label starts with the typed prefix move to the front, and the list is cut
//! to its first [`MAX_COMPLETIONS`] entries.
use crate::item::{item_views, CompletionItem, ItemView};
use crate::text::{
    lemma_lex_irreflexive, lemma_lex_total, lemma_lex_transitive, lex_lt, starts_with, str_lt,
};
use vstd::prelude::*;

verus! {

/// The most candidates that a query returns.
pub const MAX_COMPLETIONS: usize = 50;

/// Whether `label` starts with `prefix`.
pub open spec fn matches_prefix(label: Seq<char>, prefix: Seq<char>) -> bool {
    prefix.is_prefix_of(label)
}

/// The rank order on labels: labels that start with the prefix come before
/// those that do not, and within either group labels are in lexicographic
/// order.
pub open spec fn ranks_before(a: Seq<char>, b: Seq<char>, prefix: Seq<char>) -> bool {
    if matches_prefix(a, prefix) == matches_prefix(b, prefix) {
        lex_lt(a, b)
    } else {
        matches_prefix(a, prefix)
    }
}

/// Whether some entry of `items` carries `label`.
pub open spec fn has_label(items: Seq<ItemView>, label: Seq<char>) -> bool {
    exists|i: int| 0 <= i < items.len() && (#[trigger] items[i]).label == label
}

/// Index of the first entry of `items` that carries `label`; the length of
/// `items` when none does.
pub open spec fn first_with_label(items: Seq<ItemView>, label: Seq<char>) -> int
    decreases items.len(),
{
    if items.len() == 0 {
        0
    } else {
        let before = first_with_label(items.drop_last(), label);
        if before < items.len() - 1 {
            before
        } else if items.last().label == label {
            items.len() - 1
        } else {
            items.len() as int
        }
    }
}

/// `first_with_label` finds an entry with the label that no entry with the
/// label precedes, and finds none only where there is none.
pub proof fn lemma_first_with_label(items: Seq<ItemView>, label: Seq<char>)
    ensures
        0 <= first_with_label(items, label) <= items.len(),
        first_with_label(items, label) < items.len() ==> items[first_with_label(
            items,
            label,
        )].label == label,
        forall|j: int|
            0 <= j < first_with_label(items, label) ==> (#[trigger] items[j]).label != label,
        first_with_label(items, label) < items.len() <==> has_label(items, label),
    decreases items.len(),
{
    if items.len() > 0 {
        lemma_first_with_label(items.drop_last(), label);
        assert forall|j: int| 0 <= j < first_with_label(items, label) implies (
        #[trigger] items[j]).label != label by {
            if j < items.len() - 1 {
                assert(items.drop_last()[j] == items[j]);
            }
        }
        if first_with_label(items, label) < items.len() {
            assert(items[first_with_label(items, label)].label == label);
        }
    }
}

/// Whether `item` is the first entry of `input` that carries its label.
pub open spec fn is_first_occurrence(input: Seq<ItemView>, item: ItemView) -> bool {
    let k = first_with_label(input, item.label);
    k < input.len() && input[k] == item
}

/// Whether the labels of `items` are strictly ascending.
pub open spec fn labels_ascending(items: Seq<ItemView>) -> bool {
    forall|i: int, j: int|
        #![trigger items[i], items[j]]
        0 <= i < j < items.len() ==> lex_lt(items[i].label, items[j].label)
}

/// What deduplication makes of `input`: the entries of `out` are in
/// ascending order of their labels, each is the first entry of `input` with
/// its label, and every label of `input` is still there.
pub open spec fn is_deduplicated(input: Seq<ItemView>, out: Seq<ItemView>) -> bool {
    &&& labels_ascending(out)
    &&& forall|i: int| 0 <= i < out.len() ==> is_first_occurrence(input, #[trigger] out[i])
    &&& forall|k: int| 0 <= k < input.len() ==> has_label(out, (#[trigger] input[k]).label)
}

/// The place of `label` in a list with ascending labels.
fn lower_bound(items: &Vec<CompletionItem>, label: &str) -> (pos: usize)
    requires
        labels_ascending(item_views(items@)),
    ensures
        pos <= items@.len(),
        forall|i: int| 0 <= i < pos ==> lex_lt((#[trigger] item_views(items@)[i]).label, label@),
        forall|i: int|
            pos <= i < items@.len() ==> !lex_lt((#[trigger] item_views(items@)[i]).label, label@),
{
    let ghost views = item_views(items@);
    let mut lo: usize = 0;
    let mut hi: usize = items.len();
    while lo < hi
        invariant
            lo <= hi <= items@.len(),
            views == item_views(items@),
            labels_ascending(views),
            forall|i: int| 0 <= i < lo ==> lex_lt((#[trigger] views[i]).label, label@),
            forall|i: int| hi <= i < items@.len() ==> !lex_lt((#[trigger] views[i]).label, label@),
        decreases hi - lo,
    {
        let mid: usize = lo + (hi - lo) / 2;
        if str_lt(items[mid].label.as_str(), label) {
            proof {
                assert forall|i: int| 0 <= i < mid + 1 implies lex_lt(
                    (#[trigger] views[i]).label,
                    label@,
                ) by {
                    if i < mid {
                        assert(lex_lt(views[i].label, views[mid as int].label));
                        lemma_lex_transitive(views[i].label, views[mid as int].label, label@);
                    }
                }
            }
            lo = mid + 1;
        } else {
            proof {
                assert forall|i: int| mid <= i < items@.len() implies !lex_lt(
                    (#[trigger] views[i]).label,
                    label@,
                ) by {
                    if i > mid && lex_lt(views[i].label, label@) {
                        assert(lex_lt(views[mid as int].label, views[i].label));
                        lemma_lex_transitive(views[mid as int].label, views[i].label, label@);
                    }
                }
            }
            hi = mid;
        }
    }
    lo
}

/// One step of deduplication: the next entry of `source` either finds its
/// label at `pos` and is dropped, or is inserted at `pos`.
proof fn lemma_dedup_step(source: Seq<ItemView>, n: int, out: Seq<ItemView>, pos: int)
    requires
        0 <= n < source.len(),
        is_deduplicated(source.take(n), out),
        0 <= pos <= out.len(),
        forall|i: int| 0 <= i < pos ==> lex_lt((#[trigger] out[i]).label, source[n].label),
        forall|i: int| pos <= i < out.len() ==> !lex_lt((#[trigger] out[i]).label, source[n].label),
    ensures
        pos < out.len() && out[pos].label == source[n].label ==> is_deduplicated(
            source.take(n + 1),
            out,
        ),
        !(pos < out.len() && out[pos].label == source[n].label) ==> is_deduplicated(
            source.take(n + 1),
            out.insert(pos, source[n]),
        ),
{
    let x = source[n];
    let s0 = source.take(n);
    let s1 = source.take(n + 1);
    assert(s1.drop_last() == s0);
    assert(s1.last() == x);
    // entries already kept stay first occurrences
    assert forall|i: int| 0 <= i < out.len() implies is_first_occurrence(s1, #[trigger] out[i]) by {
        assert(is_first_occurrence(s0, out[i]));
        lemma_first_with_label(s0, out[i].label);
        let k = first_with_label(s0, out[i].label);
        assert(s1[k] == s0[k]);
    }
    if pos < out.len() && out[pos].label == x.label {
        assert forall|k: int| 0 <= k < s1.len() implies has_label(out, (#[trigger] s1[k]).label) by {
            if k < n {
                assert(s0[k] == s1[k]);
            }
        }
    } else {
        let grown = out.insert(pos, x);
        // the label is new
        assert forall|i: int| 0 <= i < out.len() implies (#[trigger] out[i]).label != x.label by {
            lemma_lex_irreflexive(x.label);
            if i > pos && out[i].label == x.label {
                assert(lex_lt(out[pos].label, out[i].label));
            }
        }
        if pos < out.len() {
            lemma_lex_total(out[pos].label, x.label);
        }
        assert forall|i: int, j: int| 0 <= i < j < grown.len() implies lex_lt(
            grown[i].label,
            grown[j].label,
        ) by {
            if i == pos {
                assert(grown[j] == out[j - 1]);
                if j - 1 > pos {
                    assert(lex_lt(out[pos].label, out[j - 1].label));
                    lemma_lex_transitive(x.label, out[pos].label, out[j - 1].label);
                }
            } else if j == pos {
                assert(grown[i] == out[i]);
            } else {
                let oi = if i < pos { i } else { i - 1 };
                let oj = if j < pos { j } else { j - 1 };
                assert(grown[i] == out[oi] && grown[j] == out[oj]);
            }
        }
        lemma_first_with_label(s0, x.label);
        if first_with_label(s0, x.label) < n {
            let k = first_with_label(s0, x.label);
            assert(has_label(out, s0[k].label));
        }
        assert(is_first_occurrence(s1, x));
        assert forall|i: int| 0 <= i < grown.len() implies is_first_occurrence(
            s1,
            #[trigger] grown[i],
        ) by {
            if i != pos {
                let oi = if i < pos { i } else { i - 1 };
                assert(grown[i] == out[oi]);
            }
        }
        assert forall|k: int| 0 <= k < s1.len() implies has_label(grown, (#[trigger] s1[k]).label) by {
            if k < n {
                assert(s0[k] == s1[k]);
                let w = choose|w: int| 0 <= w < out.len() && (#[trigger] out[w]).label == s0[k].label;
                let gw = if w < pos { w } else { w + 1 };
                assert(grown[gw] == out[w]);
            } else {
                assert(grown[pos] == x);
            }
        }
    }
}

/// Keeps one entry per label: the first of the list that carries it. The
/// entries come out in ascending order of their labels.
pub fn dedup_by_label(items: &mut Vec<CompletionItem>)
    ensures
        is_deduplicated(item_views(old(items)@), item_views(final(items)@)),
{
    let mut input: Vec<CompletionItem> = Vec::new();
    core::mem::swap(items, &mut input);
    let ghost raw = input@;
    let ghost source = item_views(raw);
    for item in it: input
        invariant
            it.seq() == raw,
            source == item_views(raw),
            is_deduplicated(source.take(it.index() as int), item_views(items@)),
    {
        let ghost out = item_views(items@);
        let pos = lower_bound(items, item.label.as_str());
        proof {
            lemma_dedup_step(source, it.index() as int, out, pos as int);
        }
        if !(pos < items.len() && items[pos].label == item.label) {
            items.insert(pos, item);
            assert(item_views(items@) =~= out.insert(pos as int, item@));
        }
    }
    assert(source.take(raw.len() as int) == source);
}

/// What ranking makes of `input`: the same entries, in rank order.
pub open spec fn is_ranked(input: Seq<ItemView>, prefix: Seq<char>, out: Seq<ItemView>) -> bool {
    &&& out.len() == input.len()
    &&& forall|i: int, j: int|
        #![trigger out[i], out[j]]
        0 <= i < j < out.len() ==> ranks_before(out[i].label, out[j].label, prefix)
    &&& forall|i: int| 0 <= i < out.len() ==> input.contains(#[trigger] out[i])
    &&& forall|k: int| 0 <= k < input.len() ==> out.contains(#[trigger] input[k])
}

/// The state of ranking after `n` entries of `source`: those that start
/// with the prefix are in `front`, the others in `back`, both in the order
/// in which they came.
spec fn is_split(
    source: Seq<ItemView>,
    n: int,
    prefix: Seq<char>,
    front: Seq<ItemView>,
    back: Seq<ItemView>,
) -> bool {
    &&& front.len() + back.len() == n
    &&& labels_ascending(front)
    &&& labels_ascending(back)
    &&& forall|i: int| 0 <= i < front.len() ==> matches_prefix((#[trigger] front[i]).label, prefix)
    &&& forall|i: int| 0 <= i < back.len() ==> !matches_prefix((#[trigger] back[i]).label, prefix)
    &&& forall|i: int, m: int|
        #![trigger front[i], source[m]]
        0 <= i < front.len() && n <= m < source.len() ==> lex_lt(front[i].label, source[m].label)
    &&& forall|i: int, m: int|
        #![trigger back[i], source[m]]
        0 <= i < back.len() && n <= m < source.len() ==> lex_lt(back[i].label, source[m].label)
    &&& forall|i: int| 0 <= i < front.len() ==> source.contains(#[trigger] front[i])
    &&& forall|i: int| 0 <= i < back.len() ==> source.contains(#[trigger] back[i])
    &&& forall|k: int|
        0 <= k < n ==> front.contains(#[trigger] source[k]) || back.contains(source[k])
}

/// One step of ranking: the next entry goes to the end of its group.
proof fn lemma_split_step(
    source: Seq<ItemView>,
    n: int,
    prefix: Seq<char>,
    front: Seq<ItemView>,
    back: Seq<ItemView>,
)
    requires
        labels_ascending(source),
        0 <= n < source.len(),
        is_split(source, n, prefix, front, back),
    ensures
        matches_prefix(source[n].label, prefix) ==> is_split(
            source,
            n + 1,
            prefix,
            front.push(source[n]),
            back,
        ),
        !matches_prefix(source[n].label, prefix) ==> is_split(
            source,
            n + 1,
            prefix,
            front,
            back.push(source[n]),
        ),
{
    let x = source[n];
    let group = if matches_prefix(x.label, prefix) { front } else { back };
    let grown = group.push(x);
    assert forall|i: int, j: int| 0 <= i < j < grown.len() implies lex_lt(
        grown[i].label,
        grown[j].label,
    ) by {
        if j == group.len() {
            assert(grown[i] == group[i]);
            if matches_prefix(x.label, prefix) {
                assert(lex_lt(front[i].label, source[n].label));
            } else {
                assert(lex_lt(back[i].label, source[n].label));
            }
        } else {
            assert(grown[i] == group[i] && grown[j] == group[j]);
        }
    }
    assert forall|i: int, m: int|
        0 <= i < grown.len() && n + 1 <= m < source.len() implies lex_lt(
        grown[i].label,
        source[m].label,
    ) by {
        if i == group.len() {
            assert(lex_lt(source[n].label, source[m].label));
        } else {
            assert(grown[i] == group[i]);
            if matches_prefix(x.label, prefix) {
                assert(lex_lt(front[i].label, source[m].label));
            } else {
                assert(lex_lt(back[i].label, source[m].label));
            }
        }
    }
    assert forall|i: int| 0 <= i < grown.len() implies source.contains(#[trigger] grown[i]) by {
        if i < group.len() {
            assert(grown[i] == group[i]);
        }
    }
    assert(grown[group.len() as int] == x);
    assert forall|k: int| 0 <= k < n + 1 implies (if matches_prefix(x.label, prefix) {
        grown.contains(#[trigger] source[k]) || back.contains(source[k])
    } else {
        front.contains(source[k]) || grown.contains(source[k])
    }) by {
        if k < n {
            if group.contains(source[k]) {
                let w = choose|w: int| 0 <= w < group.len() && group[w] == source[k];
                assert(grown[w] == source[k]);
            }
        }
    }
    if matches_prefix(x.label, prefix) {
        assert forall|i: int| 0 <= i < grown.len() implies matches_prefix(
            (#[trigger] grown[i]).label,
            prefix,
        ) by {
            if i < group.len() {
                assert(grown[i] == group[i]);
            }
        }
    } else {
        assert forall|i: int| 0 <= i < grown.len() implies !matches_prefix(
            (#[trigger] grown[i]).label,
            prefix,
        ) by {
            if i < group.len() {
                assert(grown[i] == group[i]);
            }
        }
    }
}

/// Once every entry has been placed, the two groups joined are the ranked
/// list.
proof fn lemma_split_done(
    source: Seq<ItemView>,
    prefix: Seq<char>,
    front: Seq<ItemView>,
    back: Seq<ItemView>,
)
    requires
        is_split(source, source.len() as int, prefix, front, back),
    ensures
        is_ranked(source, prefix, front + back),
{
    let out = front + back;
    assert forall|i: int, j: int| 0 <= i < j < out.len() implies ranks_before(
        out[i].label,
        out[j].label,
        prefix,
    ) by {
        if j < front.len() {
            assert(out[i] == front[i] && out[j] == front[j]);
        } else if i < front.len() {
            assert(out[i] == front[i] && out[j] == back[j - front.len()]);
        } else {
            assert(out[i] == back[i - front.len()] && out[j] == back[j - front.len()]);
        }
    }
    assert forall|i: int| 0 <= i < out.len() implies source.contains(#[trigger] out[i]) by {
        if i < front.len() {
            assert(out[i] == front[i]);
        } else {
            assert(out[i] == back[i - front.len()]);
        }
    }
    assert forall|k: int| 0 <= k < source.len() implies out.contains(#[trigger] source[k]) by {
        if front.contains(source[k]) {
            let w = choose|w: int| 0 <= w < front.len() && front[w] == source[k];
            assert(out[w] == source[k]);
        } else {
            let w = choose|w: int| 0 <= w < back.len() && back[w] == source[k];
            assert(out[w + front.len()] == source[k]);
        }
    }
}

/// Moves the entries whose label starts with `prefix` in front of the
/// others. Given labels in ascending order, the result is in rank order.
pub(crate) fn rank_by_prefix(items: &mut Vec<CompletionItem>, prefix: &str)
    requires
        labels_ascending(item_views(old(items)@)),
    ensures
        is_ranked(item_views(old(items)@), prefix@, item_views(final(items)@)),
{
    let mut input: Vec<CompletionItem> = Vec::new();
    core::mem::swap(items, &mut input);
    let mut rest: Vec<CompletionItem> = Vec::new();
    let ghost raw = input@;
    let ghost source = item_views(raw);
    for item in it: input
        invariant
            it.seq() == raw,
            source == item_views(raw),
            labels_ascending(source),
            is_split(source, it.index() as int, prefix@, item_views(items@), item_views(rest@)),
    {
        let ghost front = item_views(items@);
        let ghost back = item_views(rest@);
        proof {
            lemma_split_step(source, it.index() as int, prefix@, front, back);
        }
        if starts_with(item.label.as_str(), prefix) {
            items.push(item);
            assert(item_views(items@) =~= front.push(item@));
        } else {
            rest.push(item);
            assert(item_views(rest@) =~= back.push(item@));
        }
    }
    proof {
        lemma_split_done(source, prefix@, item_views(items@), item_views(rest@));
    }
    let ghost front = item_views(items@);
    let ghost back = item_views(rest@);
    items.append(&mut rest);
    assert(item_views(items@) =~= front + back);
}

/// What the whole pipeline makes of `input`: at most [`MAX_COMPLETIONS`]
/// entries in rank order, each the first entry of `input` with its label;
/// and a label of `input` is missing only where the list is full and the
/// label ranks behind every entry of it.
pub open spec fn is_ranking(input: Seq<ItemView>, prefix: Seq<char>, out: Seq<ItemView>) -> bool {
    &&& out.len() <= MAX_COMPLETIONS
    &&& forall|i: int, j: int|
        #![trigger out[i], out[j]]
        0 <= i < j < out.len() ==> ranks_before(out[i].label, out[j].label, prefix)
    &&& forall|i: int| 0 <= i < out.len() ==> is_first_occurrence(input, #[trigger] out[i])
    &&& forall|k: int|
        0 <= k < input.len() ==> has_label(out, (#[trigger] input[k]).label) || ranks_behind_all(
            out,
            input[k].label,
            prefix,
        )
}

/// Whether `out` is full and `label` ranks behind each of its entries.
pub open spec fn ranks_behind_all(out: Seq<ItemView>, label: Seq<char>, prefix: Seq<char>) -> bool {
    &&& out.len() == MAX_COMPLETIONS
    &&& forall|i: int| 0 <= i < out.len() ==> ranks_before((#[trigger] out[i]).label, label, prefix)
}

/// The three stages in a row give a ranking of the input.
proof fn lemma_pipeline(
    input: Seq<ItemView>,
    prefix: Seq<char>,
    deduped: Seq<ItemView>,
    ranked: Seq<ItemView>,
    out: Seq<ItemView>,
)
    requires
        is_deduplicated(input, deduped),
        is_ranked(deduped, prefix, ranked),
        ranked.len() <= MAX_COMPLETIONS ==> out == ranked,
        ranked.len() > MAX_COMPLETIONS ==> out == ranked.subrange(0, MAX_COMPLETIONS as int),
    ensures
        is_ranking(input, prefix, out),
{
    assert forall|i: int| 0 <= i < out.len() implies out[i] == ranked[i] by {}
    assert forall|i: int| 0 <= i < out.len() implies is_first_occurrence(input, #[trigger] out[i]) by {
        assert(deduped.contains(ranked[i]));
        let w = choose|w: int| 0 <= w < deduped.len() && deduped[w] == ranked[i];
        assert(is_first_occurrence(input, deduped[w]));
    }
    assert forall|k: int| 0 <= k < input.len() implies has_label(out, (#[trigger] input[k]).label)
        || ranks_behind_all(out, input[k].label, prefix) by {
        let label = input[k].label;
        assert(has_label(deduped, label));
        let w = choose|w: int| 0 <= w < deduped.len() && (#[trigger] deduped[w]).label == label;
        assert(ranked.contains(deduped[w]));
        let v = choose|v: int| 0 <= v < ranked.len() && ranked[v] == deduped[w];
        if v < out.len() {
            assert(out[v].label == label);
        } else {
            assert forall|i: int| 0 <= i < out.len() implies ranks_before(
                (#[trigger] out[i]).label,
                label,
                prefix,
            ) by {
                assert(ranks_before(ranked[i].label, ranked[v].label, prefix));
            }
        }
    }
    assert forall|i: int, j: int| 0 <= i < j < out.len() implies ranks_before(
        out[i].label,
        out[j].label,
        prefix,
    ) by {
        assert(ranks_before(ranked[i].label, ranked[j].label, prefix));
    }
}

/// Whether no two entries of `items` share a label.
pub open spec fn labels_distinct(items: Seq<ItemView>) -> bool {
    forall|i: int, j: int|
        #![trigger items[i], items[j]]
        0 <= i < j < items.len() ==> items[i].label != items[j].label
}

/// Whether every entry whose label starts with `prefix` stands before
/// every entry whose label does not.
pub open spec fn matches_come_first(items: Seq<ItemView>, prefix: Seq<char>) -> bool {
    forall|i: int, j: int|
        #![trigger items[i], items[j]]
        0 <= i < items.len() && 0 <= j < items.len() && matches_prefix(items[i].label, prefix)
            && !matches_prefix(items[j].label, prefix) ==> i < j
}

/// The rank order is a strict total order on labels: no label ranks before
/// itself, no two rank before each other, and of two different labels one
/// ranks before the other.
pub proof fn lemma_rank_order(a: Seq<char>, b: Seq<char>, prefix: Seq<char>)
    ensures
        !ranks_before(a, a, prefix),
        !(ranks_before(a, b, prefix) && ranks_before(b, a, prefix)),
        a != b ==> ranks_before(a, b, prefix) || ranks_before(b, a, prefix),
{
    lemma_lex_irreflexive(a);
    lemma_lex_total(a, b);
}

/// A ranking holds no label twice.
pub proof fn lemma_ranking_labels_distinct(
    input: Seq<ItemView>,
    prefix: Seq<char>,
    out: Seq<ItemView>,
)
    requires
        is_ranking(input, prefix, out),
    ensures
        labels_distinct(out),
{
    assert forall|i: int, j: int| 0 <= i < j < out.len() implies out[i].label != out[j].label by {
        lemma_rank_order(out[i].label, out[j].label, prefix);
    }
}

/// In a ranking the entries that start with the prefix come first.
pub proof fn lemma_ranking_matches_first(
    input: Seq<ItemView>,
    prefix: Seq<char>,
    out: Seq<ItemView>,
)
    requires
        is_ranking(input, prefix, out),
    ensures
        matches_come_first(out, prefix),
{
    assert forall|i: int, j: int|
        0 <= i < out.len() && 0 <= j < out.len() && matches_prefix(out[i].label, prefix)
            && !matches_prefix(out[j].label, prefix) implies i < j by {
        if j < i {
            assert(ranks_before(out[j].label, out[i].label, prefix));
        }
    }
}

/// Every entry of a ranking is an entry of the input; nothing is ranked
/// where there is no candidate.
pub proof fn lemma_ranking_within(input: Seq<ItemView>, prefix: Seq<char>, out: Seq<ItemView>)
    requires
        is_ranking(input, prefix, out),
    ensures
        forall|i: int| 0 <= i < out.len() ==> input.contains(#[trigger] out[i]),
        input.len() == 0 ==> out.len() == 0,
{
    assert forall|i: int| 0 <= i < out.len() implies input.contains(#[trigger] out[i]) by {
        assert(is_first_occurrence(input, out[i]));
        lemma_first_with_label(input, out[i].label);
    }
    if out.len() > 0 {
        assert(input.contains(out[0]));
    }
}

/// Two rankings of one input that agree before index `i` cannot differ at
/// `i` with the first one's label ranking ahead.
proof fn lemma_ranking_no_gap(
    input: Seq<ItemView>,
    prefix: Seq<char>,
    a: Seq<ItemView>,
    b: Seq<ItemView>,
    i: int,
)
    requires
        is_ranking(input, prefix, a),
        is_ranking(input, prefix, b),
        0 <= i < a.len(),
        i < b.len(),
        forall|j: int| 0 <= j < i ==> a[j] == b[j],
    ensures
        !ranks_before(a[i].label, b[i].label, prefix),
{
    if ranks_before(a[i].label, b[i].label, prefix) {
        let label = a[i].label;
        assert(is_first_occurrence(input, a[i]));
        lemma_first_with_label(input, label);
        let k = first_with_label(input, label);
        assert(input[k].label == label);
        lemma_rank_order(label, b[i].label, prefix);
        lemma_rank_order(label, label, prefix);
        if has_label(b, label) {
            let w = choose|w: int| 0 <= w < b.len() && (#[trigger] b[w]).label == label;
            if w < i {
                assert(a[w] == b[w]);
                assert(ranks_before(a[w].label, a[i].label, prefix));
            } else if w > i {
                assert(ranks_before(b[i].label, b[w].label, prefix));
            }
        } else {
            assert(ranks_behind_all(b, input[k].label, prefix));
            assert(ranks_before(b[i].label, label, prefix));
        }
    }
}

/// Two rankings of one input agree wherever both have an entry.
proof fn lemma_ranking_agree(
    input: Seq<ItemView>,
    prefix: Seq<char>,
    a: Seq<ItemView>,
    b: Seq<ItemView>,
    i: int,
)
    requires
        is_ranking(input, prefix, a),
        is_ranking(input, prefix, b),
        0 <= i <= a.len(),
        i <= b.len(),
    ensures
        forall|j: int| 0 <= j < i ==> a[j] == b[j],
    decreases i,
{
    if i > 0 {
        lemma_ranking_agree(input, prefix, a, b, i - 1);
        lemma_ranking_no_gap(input, prefix, a, b, i - 1);
        lemma_ranking_no_gap(input, prefix, b, a, i - 1);
        lemma_rank_order(a[i - 1].label, b[i - 1].label, prefix);
        assert(is_first_occurrence(input, a[i - 1]));
        assert(is_first_occurrence(input, b[i - 1]));
    }
}

/// A ranking that agrees with another on all its entries is not shorter.
proof fn lemma_ranking_not_shorter(
    input: Seq<ItemView>,
    prefix: Seq<char>,
    a: Seq<ItemView>,
    b: Seq<ItemView>,
)
    requires
        is_ranking(input, prefix, a),
        is_ranking(input, prefix, b),
        forall|j: int| 0 <= j < a.len() && j < b.len() ==> a[j] == b[j],
    ensures
        a.len() >= b.len(),
{
    if a.len() < b.len() {
        let i = a.len() as int;
        let label = b[i].label;
        assert(is_first_occurrence(input, b[i]));
        lemma_first_with_label(input, label);
        let k = first_with_label(input, label);
        assert(input[k].label == label);
        lemma_rank_order(label, label, prefix);
        if has_label(a, label) {
            let w = choose|w: int| 0 <= w < a.len() && (#[trigger] a[w]).label == label;
            assert(a[w] == b[w]);
            assert(ranks_before(b[w].label, b[i].label, prefix));
        } else {
            assert(ranks_behind_all(a, input[k].label, prefix));
        }
    }
}

/// The ranking of an input is unique: whatever meets [`is_ranking`] for
/// the same candidates and prefix is the same list, entry for entry.
pub proof fn lemma_ranking_unique(
    input: Seq<ItemView>,
    prefix: Seq<char>,
    a: Seq<ItemView>,
    b: Seq<ItemView>,
)
    requires
        is_ranking(input, prefix, a),
        is_ranking(input, prefix, b),
    ensures
        a == b,
{
    let shared = if a.len() <= b.len() { a.len() as int } else { b.len() as int };
    lemma_ranking_agree(input, prefix, a, b, shared);
    lemma_ranking_not_shorter(input, prefix, a, b);
    assert forall|j: int| 0 <= j < b.len() && j < a.len() implies b[j] == a[j] by {}
    lemma_ranking_not_shorter(input, prefix, b, a);
    assert(a =~= b);
}

/// Deduplicates, ranks and caps a list of candidates.
///
/// One entry is kept per label, the first of the list that carries it;
/// entries whose label starts with `prefix` come first, each group in
/// lexicographic order of its labels; the list is cut after
/// [`MAX_COMPLETIONS`] entries.
pub fn rank_completions(items: &mut Vec<CompletionItem>, prefix: &str)
    ensures
        is_ranking(item_views(old(items)@), prefix@, item_views(final(items)@)),
        final(items)@.len() <= MAX_COMPLETIONS,
        labels_distinct(item_views(final(items)@)),
        matches_come_first(item_views(final(items)@), prefix@),
{
    let ghost input = item_views(items@);
    dedup_by_label(items);
    let ghost deduped = item_views(items@);
    rank_by_prefix(items, prefix);
    let ghost ranked = item_views(items@);
    items.truncate(MAX_COMPLETIONS);
    proof {
        if ranked.len() > MAX_COMPLETIONS {
            assert(item_views(items@) =~= ranked.subrange(0, MAX_COMPLETIONS as int));
        } else {
            assert(item_views(items@) =~= ranked);
        }
        lemma_pipeline(input, prefix@, deduped, ranked, item_views(items@));
        lemma_ranking_labels_distinct(input, prefix@, item_views(items@));
        lemma_ranking_matches_first(input, prefix@, item_views(items@));
    }
}

} // verus!
