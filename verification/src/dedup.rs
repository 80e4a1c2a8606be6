//! The merge stage: records are grouped by their name entry and records that
//! share one collapse into a single record whose entry set is the union.

use vstd::prelude::*;
use crate::entry::VcardEntry;
use crate::text::name_prefix;
use crate::vcard::{
    CardView, Vcard, card_views, entries_distinct, find_by_prefix, seq_insert, union_entries,
};

verus! {

/// The merge key of a record: its first entry whose property line starts
/// with `N`. In well-formed input there is at most one.
pub open spec fn find_name(es: Seq<Seq<Seq<char>>>) -> Option<Seq<Seq<char>>> {
    find_by_prefix(es, name_prefix())
}

/// The first position holding key `k` in the keyed accumulator, if any.
pub open spec fn key_index(
    acc: Seq<(Seq<Seq<char>>, CardView)>,
    k: Seq<Seq<char>>,
) -> Option<int>
    decreases acc.len(),
{
    if acc.len() == 0 {
        None
    } else if acc[0].0 == k {
        Some(0int)
    } else {
        match key_index(acc.drop_first(), k) {
            None => None,
            Some(j) => Some(j + 1),
        }
    }
}

/// Merging keeps the first-seen record's version and unions the entry sets.
pub open spec fn merge_cards(a: CardView, b: CardView) -> CardView {
    CardView { version: a.version, entries: union_entries(a.entries, b.entries) }
}

/// Feed one record to the accumulator: a record without a name entry is
/// dropped; a new key is appended; a seen key merges.
pub open spec fn dedup_step(
    acc: Seq<(Seq<Seq<char>>, CardView)>,
    c: CardView,
) -> Seq<(Seq<Seq<char>>, CardView)> {
    match find_name(c.entries) {
        None => acc,
        Some(k) => match key_index(acc, k) {
            None => acc.push((k, c)),
            Some(j) => acc.update(j, (k, merge_cards(acc[j].1, c))),
        },
    }
}

/// Feed every record to the accumulator, in order.
pub open spec fn dedup_acc(
    acc: Seq<(Seq<Seq<char>>, CardView)>,
    cards: Seq<CardView>,
) -> Seq<(Seq<Seq<char>>, CardView)>
    decreases cards.len(),
{
    if cards.len() == 0 {
        acc
    } else {
        dedup_acc(dedup_step(acc, cards[0]), cards.drop_first())
    }
}

/// The records of a keyed accumulator, keys dropped.
pub open spec fn records_of(acc: Seq<(Seq<Seq<char>>, CardView)>) -> Seq<CardView> {
    Seq::new(acc.len(), |i: int| acc[i].1)
}

/// The deduplicated output for a record sequence: one record per distinct
/// merge key, in first-seen order.
pub open spec fn dedup_views(cards: Seq<CardView>) -> Seq<CardView> {
    records_of(dedup_acc(Seq::empty(), cards))
}

/// What `key_index` finds: the first matching position, or none anywhere.
pub proof fn lemma_key_index(acc: Seq<(Seq<Seq<char>>, CardView)>, k: Seq<Seq<char>>)
    ensures
        match key_index(acc, k) {
            None => forall|i: int| 0 <= i < acc.len() ==> (#[trigger] acc[i]).0 != k,
            Some(j) => 0 <= j < acc.len() && acc[j].0 == k && forall|i: int|
                0 <= i < j ==> (#[trigger] acc[i]).0 != k,
        },
    decreases acc.len(),
{
    if acc.len() > 0 && acc[0].0 != k {
        lemma_key_index(acc.drop_first(), k);
        assert forall|i: int| 1 <= i < acc.len() implies (#[trigger] acc[i]).0
            == acc.drop_first()[i - 1].0 by {}
    }
}

/// The union keeps its left operand as a prefix.
pub proof fn lemma_union_prefix(a: Seq<Seq<Seq<char>>>, b: Seq<Seq<Seq<char>>>)
    ensures
        union_entries(a, b).len() >= a.len(),
        forall|i: int| 0 <= i < a.len() ==> union_entries(a, b)[i] == a[i],
    decreases b.len(),
{
    if b.len() > 0 {
        lemma_union_prefix(seq_insert(a, b[0]), b.drop_first());
    }
}

/// An entry is in the union exactly when it is in one of the operands.
pub proof fn lemma_union_contains(a: Seq<Seq<Seq<char>>>, b: Seq<Seq<Seq<char>>>, e: Seq<Seq<char>>)
    ensures
        union_entries(a, b).contains(e) <==> a.contains(e) || b.contains(e),
    decreases b.len(),
{
    if b.len() == 0 {
    } else {
        lemma_union_contains(seq_insert(a, b[0]), b.drop_first(), e);
        assert(seq_insert(a, b[0]).contains(e) <==> a.contains(e) || b[0] == e) by {
            if a.contains(e) {
                let i = choose|i: int| 0 <= i < a.len() && a[i] == e;
                assert(seq_insert(a, b[0])[i] == e);
            }
            if !a.contains(e) && b[0] == e {
                assert(seq_insert(a, b[0]).last() == e);
            }
            if seq_insert(a, b[0]).contains(e) && !a.contains(e) {
                let i = choose|i: int|
                    0 <= i < seq_insert(a, b[0]).len() && seq_insert(a, b[0])[i] == e;
            }
        }
        assert(b.drop_first().contains(e) || b[0] == e <==> b.contains(e)) by {
            if b.contains(e) {
                let i = choose|i: int| 0 <= i < b.len() && b[i] == e;
                if i > 0 {
                    assert(b.drop_first()[i - 1] == e);
                }
            }
            if b.drop_first().contains(e) {
                let i = choose|i: int| 0 <= i < b.drop_first().len() && b.drop_first()[i] == e;
                assert(b[i + 1] == e);
            }
        }
    }
}

/// The union of a duplicate-free entry sequence with any other stays
/// duplicate-free: an entry both records share appears once.
pub proof fn lemma_union_distinct(a: Seq<Seq<Seq<char>>>, b: Seq<Seq<Seq<char>>>)
    requires
        entries_distinct(a),
    ensures
        entries_distinct(union_entries(a, b)),
    decreases b.len(),
{
    if b.len() > 0 {
        assert(entries_distinct(seq_insert(a, b[0]))) by {
            if !a.contains(b[0]) {
                let pushed = a.push(b[0]);
                assert forall|i: int, j: int| 0 <= i < j < pushed.len() implies pushed[i]
                    != pushed[j] by {
                    if j == a.len() as int {
                        if pushed[i] == b[0] {
                            assert(a[i] == b[0]);
                            assert(a.contains(b[0]));
                        }
                    }
                }
            }
        }
        lemma_union_distinct(seq_insert(a, b[0]), b.drop_first());
    }
}

/// Searching a longer sequence that extends `a` finds what searching `a`
/// found.
pub proof fn lemma_find_by_prefix_extend(
    a: Seq<Seq<Seq<char>>>,
    b: Seq<Seq<Seq<char>>>,
    p: Seq<char>,
)
    requires
        a.len() <= b.len(),
        forall|i: int| 0 <= i < a.len() ==> b[i] == a[i],
        find_by_prefix(a, p) is Some,
    ensures
        find_by_prefix(b, p) == find_by_prefix(a, p),
    decreases a.len(),
{
    if a.len() > 0 {
        if a[0].len() > 0 && crate::text::has_prefix(a[0][0], p) {
        } else {
            lemma_find_by_prefix_extend(a.drop_first(), b.drop_first(), p);
        }
    }
}

/// The well-formedness the accumulator keeps: keys are distinct, and each
/// stored record's name entry is the key it is stored under.
pub open spec fn acc_inv(acc: Seq<(Seq<Seq<char>>, CardView)>) -> bool {
    &&& forall|i: int, j: int| 0 <= i < j < acc.len() ==> acc[i].0 != acc[j].0
    &&& forall|i: int| 0 <= i < acc.len() ==> find_name((#[trigger] acc[i]).1.entries) == Some(
        acc[i].0,
    )
}

/// One step keeps the accumulator well-formed.
pub proof fn lemma_dedup_step_inv(acc: Seq<(Seq<Seq<char>>, CardView)>, c: CardView)
    requires
        acc_inv(acc),
    ensures
        acc_inv(dedup_step(acc, c)),
{
    match find_name(c.entries) {
        None => {},
        Some(k) => {
            lemma_key_index(acc, k);
            match key_index(acc, k) {
                None => {},
                Some(j) => {
                    let merged = merge_cards(acc[j].1, c);
                    lemma_union_prefix(acc[j].1.entries, c.entries);
                    lemma_find_by_prefix_extend(
                        acc[j].1.entries,
                        merged.entries,
                        name_prefix(),
                    );
                    assert(find_name(merged.entries) == Some(k));
                },
            }
        },
    }
}

/// Feeding any record sequence keeps the accumulator well-formed.
pub proof fn lemma_dedup_acc_inv(acc: Seq<(Seq<Seq<char>>, CardView)>, cards: Seq<CardView>)
    requires
        acc_inv(acc),
    ensures
        acc_inv(dedup_acc(acc, cards)),
    decreases cards.len(),
{
    if cards.len() > 0 {
        lemma_dedup_step_inv(acc, cards[0]);
        lemma_dedup_acc_inv(dedup_step(acc, cards[0]), cards.drop_first());
    }
}

/// Every deduplicated record still carries a name entry: a record lacking
/// one never appears in the output.
pub proof fn lemma_dedup_all_named(cards: Seq<CardView>)
    ensures
        forall|i: int| 0 <= i < dedup_views(cards).len() ==> find_name(
            (#[trigger] dedup_views(cards)[i]).entries,
        ) is Some,
{
    lemma_dedup_acc_inv(Seq::empty(), cards);
}

/// Replaying a well-formed accumulator's records adds each one back
/// verbatim: all keys are fresh.
proof fn lemma_dedup_replay(
    pre: Seq<(Seq<Seq<char>>, CardView)>,
    rest: Seq<(Seq<Seq<char>>, CardView)>,
)
    requires
        acc_inv(pre + rest),
    ensures
        dedup_acc(pre, records_of(rest)) == pre + rest,
    decreases rest.len(),
{
    if rest.len() == 0 {
        assert(records_of(rest).len() == 0);
        assert(pre + rest =~= pre);
    } else {
        let whole = pre + rest;
        let k = rest[0].0;
        let c = rest[0].1;
        assert(whole[pre.len() as int] == rest[0]);
        assert(find_name(c.entries) == Some(k));
        lemma_key_index(pre, k);
        assert(key_index(pre, k) is None) by {
            match key_index(pre, k) {
                Some(j) => {
                    assert(whole[j] == pre[j]);
                },
                None => {},
            }
        }
        assert(records_of(rest)[0] == c);
        assert(dedup_step(pre, c) == pre.push((k, c)));
        assert(pre.push((k, c)) + rest.drop_first() =~= pre + rest);
        lemma_dedup_replay(pre.push((k, c)), rest.drop_first());
        assert(records_of(rest).drop_first() =~= records_of(rest.drop_first()));
        assert(dedup_acc(pre, records_of(rest)) == dedup_acc(
            dedup_step(pre, c),
            records_of(rest).drop_first(),
        ));
    }
}

/// Deduplication is idempotent: merging the merged output changes nothing.
pub proof fn lemma_dedup_idempotent(cards: Seq<CardView>)
    ensures
        dedup_views(dedup_views(cards)) == dedup_views(cards),
{
    let acc = dedup_acc(Seq::empty(), cards);
    lemma_dedup_acc_inv(Seq::empty(), cards);
    assert(Seq::<(Seq<Seq<char>>, CardView)>::empty() + acc =~= acc);
    lemma_dedup_replay(Seq::empty(), acc);
}

/// Two records with the same name entry merge into one record that keeps the
/// first version and holds exactly the union of the two entry sets, each
/// shared entry once.
pub proof fn lemma_merge_two_records(a: CardView, b: CardView, k: Seq<Seq<char>>)
    requires
        find_name(a.entries) == Some(k),
        find_name(b.entries) == Some(k),
        entries_distinct(a.entries),
    ensures
        dedup_views(seq![a, b]).len() == 1,
        dedup_views(seq![a, b])[0].version == a.version,
        forall|e: Seq<Seq<char>>| dedup_views(seq![a, b])[0].entries.contains(e) <==> a.entries.contains(
            e,
        ) || b.entries.contains(e),
        entries_distinct(dedup_views(seq![a, b])[0].entries),
{
    lemma_union_distinct(a.entries, b.entries);
    let empty_acc = Seq::<(Seq<Seq<char>>, CardView)>::empty();
    let cards = seq![a, b];
    assert(cards[0] == a);
    assert(dedup_step(empty_acc, a) == empty_acc.push((k, a)));
    let one = empty_acc.push((k, a));
    assert(cards.drop_first()[0] == b);
    assert(key_index(one, k) == Some(0int));
    assert(one.update(0, (k, merge_cards(a, b)))[0] == (k, merge_cards(a, b)));
    assert(cards.drop_first().drop_first().len() == 0);
    assert(dedup_acc(empty_acc, cards) == dedup_acc(one, cards.drop_first()));
    assert(dedup_step(one, b) == one.update(0, (k, merge_cards(a, b))));
    let tail = cards.drop_first();
    assert(dedup_acc(one, tail) == dedup_acc(dedup_step(one, tail[0]), tail.drop_first()));
    assert(dedup_acc(dedup_step(one, b), tail.drop_first()) == dedup_step(one, b));
    assert(dedup_acc(empty_acc, cards) == one.update(0, (k, merge_cards(a, b))));
    assert(dedup_views(cards).len() == 1);
    assert(dedup_views(cards)[0] == merge_cards(a, b));
    assert forall|e: Seq<Seq<char>>|
        dedup_views(cards)[0].entries.contains(e) <==> a.entries.contains(e) || b.entries.contains(
            e,
        ) by {
        lemma_union_contains(a.entries, b.entries, e);
    }
}

/// Scan the keyed accumulator for a key.
fn find_key(acc: &Vec<(VcardEntry, Vcard)>, key: &VcardEntry) -> (r: Option<usize>)
    ensures
        match r {
            Some(j) => j < acc@.len() && key_index(pairs_view(acc@), key@) == Some(j as int),
            None => key_index(pairs_view(acc@), key@) is None,
        },
{
    let n = acc.len();
    let mut j: usize = 0;
    while j < n
        invariant
            n == acc@.len(),
            j <= n,
            forall|m: int| 0 <= m < j ==> (#[trigger] pairs_view(acc@)[m]).0 != key@,
        decreases n - j,
    {
        if acc[j].0 == *key {
            proof {
                assert(pairs_view(acc@)[j as int].0 == key@);
                lemma_key_index(pairs_view(acc@), key@);
            }
            return Some(j);
        }
        proof {
            assert(pairs_view(acc@)[j as int].0 != key@);
        }
        j += 1;
    }
    proof {
        lemma_key_index(pairs_view(acc@), key@);
    }
    None
}

/// Merge the parsed records, grouping them by name entry, in first-seen
/// order. A record without a name entry is dropped.
pub fn dedup(cards: Vec<Vcard>) -> (r: Vec<Vcard>)
    requires
        forall|i: int| 0 <= i < cards@.len() ==> (#[trigger] cards@[i]).wf(),
    ensures
        card_views(r@) == dedup_views(card_views(cards@)),
        forall|i: int| 0 <= i < r@.len() ==> (#[trigger] r@[i]).wf(),
{
    let ghost orig = card_views(cards@);
    let mut cs = cards;
    let mut acc: Vec<(VcardEntry, Vcard)> = Vec::new();
    proof {
        assert(pairs_view(acc@) =~= Seq::<(Seq<Seq<char>>, CardView)>::empty());
    }
    while cs.len() > 0
        invariant
            forall|i: int| 0 <= i < cs@.len() ==> (#[trigger] cs@[i]).wf(),
            forall|i: int| 0 <= i < acc@.len() ==> (#[trigger] acc@[i]).1.wf(),
            dedup_acc(pairs_view(acc@), card_views(cs@)) == dedup_acc(Seq::empty(), orig),
        decreases cs@.len(),
    {
        let ghost pre_pairs = pairs_view(acc@);
        let ghost pre_cards = card_views(cs@);
        let c = cs.remove(0);
        proof {
            assert(pre_cards[0] == c@);
            assert(card_views(cs@) =~= pre_cards.drop_first());
        }
        match c.get("N") {
            None => {
                proof {
                    assert(dedup_step(pre_pairs, c@) == pre_pairs);
                }
            },
            Some(name) => {
                let key = name.clone();
                proof {
                    assert(find_name(c@.entries) == Some(key@));
                }
                match find_key(&acc, &key) {
                    Some(j) => {
                        let ghost before = pairs_view(acc@);
                        proof {
                            lemma_key_index(before, key@);
                        }
                        let (k0, mut merged) = acc.remove(j);
                        merged.extend(&c);
                        acc.insert(j, (k0, merged));
                        proof {
                            assert(pairs_view(acc@) =~= before.update(
                                j as int,
                                (key@, merge_cards(before[j as int].1, c@)),
                            ));
                            assert(dedup_step(pre_pairs, c@) == pairs_view(acc@));
                        }
                    },
                    None => {
                        let ghost before = pairs_view(acc@);
                        acc.push((key, c));
                        proof {
                            assert(pairs_view(acc@) =~= before.push((key@, c@)));
                            assert(dedup_step(pre_pairs, c@) == pairs_view(acc@));
                        }
                    },
                }
            },
        }
    }
    proof {
        assert(card_views(cs@).len() == 0);
        assert(dedup_acc(pairs_view(acc@), card_views(cs@)) == pairs_view(acc@));
    }
    let ghost fin = pairs_view(acc@);
    let mut out: Vec<Vcard> = Vec::new();
    let mut rest = acc;
    proof {
        assert(card_views(out@) + records_of(pairs_view(rest@)) =~= records_of(fin));
    }
    while rest.len() > 0
        invariant
            forall|i: int| 0 <= i < out@.len() ==> (#[trigger] out@[i]).wf(),
            forall|i: int| 0 <= i < rest@.len() ==> (#[trigger] rest@[i]).1.wf(),
            card_views(out@) + records_of(pairs_view(rest@)) == records_of(fin),
        decreases rest@.len(),
    {
        let ghost pre_out = card_views(out@);
        let ghost pre_rest = pairs_view(rest@);
        let (_k, c) = rest.remove(0);
        out.push(c);
        proof {
            assert(card_views(out@) =~= pre_out.push(pre_rest[0].1));
            assert(pairs_view(rest@) =~= pre_rest.drop_first());
            assert(records_of(pre_rest.drop_first()) =~= records_of(pre_rest).drop_first());
            assert(pre_out.push(pre_rest[0].1) + records_of(pre_rest).drop_first() =~= pre_out
                + records_of(pre_rest));
        }
    }
    proof {
        assert(records_of(pairs_view(rest@)).len() == 0);
        assert(card_views(out@) + records_of(pairs_view(rest@)) =~= card_views(out@));
    }
    out
}

/// The keyed accumulator's mathematical value.
pub open spec fn pairs_view(ps: Seq<(VcardEntry, Vcard)>) -> Seq<(Seq<Seq<char>>, CardView)> {
    Seq::new(ps.len(), |i: int| (ps[i].0@, ps[i].1@))
}

} // verus!
