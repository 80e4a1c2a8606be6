//! The serializer: each record back out in its bracketed textual form, and
//! the proof that parsing the output returns exactly the records that were
//! written.

use vstd::prelude::*;
use crate::parsing::{lemma_parse_body_bounds, parse_body, parse_card, parse_from};
use crate::text::{begin_line, end_line, is_cont, is_end, is_version};
use crate::vcard::{CardView, Vcard, card_views, entries_distinct, flatten_entries, seq_insert};

verus! {

/// The output lines for one record: opening line, version line, every
/// entry's lines in order, closing line.
pub open spec fn ser_card(c: CardView) -> Seq<Seq<char>> {
    seq![begin_line()] + seq![c.version] + flatten_entries(c.entries) + seq![end_line()]
}

/// The output lines for a record sequence, one block per record.
pub open spec fn ser_cards(cs: Seq<CardView>) -> Seq<Seq<char>>
    decreases cs.len(),
{
    if cs.len() == 0 {
        Seq::empty()
    } else {
        ser_card(cs[0]) + ser_cards(cs.drop_first())
    }
}

/// Write every record out as lines.
pub fn serialize(cards: &Vec<Vcard>) -> (out: Vec<String>)
    ensures
        out.deep_view() == ser_cards(card_views(cards@)),
{
    let ghost cv = card_views(cards@);
    let n = cards.len();
    let mut out: Vec<String> = Vec::new();
    let mut i: usize = 0;
    proof {
        assert(cv.skip(0) =~= cv);
        assert(out.deep_view() =~= Seq::<Seq<char>>::empty());
        assert(Seq::<Seq<char>>::empty() + ser_cards(cv) =~= ser_cards(cv));
    }
    while i < n
        invariant
            n == cv.len(),
            i <= n,
            cv == card_views(cards@),
            out.deep_view() + ser_cards(cv.skip(i as int)) == ser_cards(cv),
        decreases n - i,
    {
        let ghost rest = cv.skip(i as int);
        let ghost prev = out.deep_view();
        proof {
            assert(rest[0] == cv[i as int]);
            assert(rest.drop_first() =~= cv.skip(i as int + 1));
        }
        out.push("BEGIN:VCARD".to_owned());
        out.push(cards[i].version_line().clone());
        let mut body = cards[i].print();
        let ghost body_dv = body.deep_view();
        let ghost mid = out.deep_view();
        out.append(&mut body);
        proof {
            assert(out.deep_view() =~= mid + body_dv);
        }
        out.push("END:VCARD".to_owned());
        proof {
            assert(out.deep_view() =~= prev + ser_card(cv[i as int]));
            assert(prev + ser_card(cv[i as int]) + ser_cards(cv.skip(i as int + 1)) =~= prev + (
            ser_card(cv[i as int]) + ser_cards(cv.skip(i as int + 1))));
        }
        i += 1;
    }
    proof {
        assert(cv.skip(n as int) =~= Seq::<CardView>::empty());
        assert(out.deep_view() + ser_cards(Seq::<CardView>::empty()) =~= out.deep_view());
    }
    out
}

/// The shape every entry the parser builds has: at least one line, a first
/// line that is not the closing line, and only continuation lines after it.
pub open spec fn wf_entry(e: Seq<Seq<char>>) -> bool {
    &&& e.len() > 0
    &&& !is_end(e[0])
    &&& forall|k: int| 1 <= k < e.len() ==> is_cont(#[trigger] e[k])
}

/// The shape every entry list the parser builds has: distinct well-formed
/// entries, and only the first entry may open with a continuation line.
pub open spec fn wf_entry_list(es: Seq<Seq<Seq<char>>>) -> bool {
    &&& entries_distinct(es)
    &&& forall|i: int| 0 <= i < es.len() ==> wf_entry(#[trigger] es[i])
    &&& forall|i: int| 1 <= i < es.len() ==> !is_cont((#[trigger] es[i])[0])
}

/// The shape every record the parser builds has.
pub open spec fn wf_card(c: CardView) -> bool {
    is_version(c.version) && wf_entry_list(c.entries)
}

pub open spec fn wf_cards(cs: Seq<CardView>) -> bool {
    forall|i: int| 0 <= i < cs.len() ==> wf_card(#[trigger] cs[i])
}

/// A record body the parser accepts yields a well-formed entry list.
proof fn lemma_parse_body_wf(
    lines: Seq<Seq<char>>,
    i: int,
    cur: Seq<Seq<char>>,
    acc: Seq<Seq<Seq<char>>>,
)
    requires
        parse_body(lines, i, cur, acc) is Some,
        wf_entry_list(acc),
        cur.len() == 0 ==> acc.len() == 0,
        cur.len() > 0 ==> !is_end(cur[0]),
        forall|k: int| 1 <= k < cur.len() ==> is_cont(#[trigger] cur[k]),
        cur.len() > 0 && acc.len() > 0 ==> !is_cont(cur[0]),
    ensures
        wf_entry_list((parse_body(lines, i, cur, acc)->0).0),
    decreases lines.len() - i,
{
    if i < 0 || i >= lines.len() {
    } else if cur.len() > 0 && is_cont(lines[i]) {
        lemma_parse_body_wf(lines, i + 1, cur.push(lines[i]), acc);
    } else {
        let acc2 = if cur.len() > 0 {
            seq_insert(acc, cur)
        } else {
            acc
        };
        assert(wf_entry_list(acc2)) by {
            if cur.len() > 0 && !acc.contains(cur) {
                let pushed = acc.push(cur);
                assert(forall|m: int| 0 <= m < acc.len() ==> pushed[m] == acc[m]);
                assert(pushed[acc.len() as int] == cur);
            }
        }
        if is_end(lines[i]) {
        } else {
            lemma_parse_body_wf(lines, i + 1, seq![lines[i]], acc2);
        }
    }
}

/// Every record the parser accepts is well-formed.
pub proof fn lemma_parse_card_wf(lines: Seq<Seq<char>>, i: int)
    requires
        parse_card(lines, i) is Some,
    ensures
        wf_card((parse_card(lines, i)->0).0),
{
    lemma_parse_body_wf(lines, i + 2, Seq::empty(), Seq::empty());
}

/// Every record sequence the parser accepts is well-formed.
pub proof fn lemma_parse_from_wf(lines: Seq<Seq<char>>, i: int)
    requires
        parse_from(lines, i) is Some,
    ensures
        wf_cards(parse_from(lines, i)->0),
    decreases lines.len() - i,
{
    if 0 <= i < lines.len() {
        match parse_card(lines, i) {
            Some((c, j)) => {
                lemma_parse_body_bounds(lines, i + 2, Seq::empty(), Seq::empty());
                lemma_parse_card_wf(lines, i);
                lemma_parse_from_wf(lines, j);
                match parse_from(lines, j) {
                    Some(rest) => {
                        let whole = seq![c] + rest;
                        assert(whole[0] == c);
                        assert(forall|m: int| 1 <= m < whole.len() ==> whole[m] == rest[m - 1]);
                    },
                    None => {},
                }
            },
            None => {},
        }
    }
}

/// Scanning the rest of a written entry folds its continuation lines back in
/// and closes it on the first line that is not a continuation.
proof fn lemma_body_scan(
    lines: Seq<Seq<char>>,
    i: int,
    e: Seq<Seq<char>>,
    m: int,
    acc: Seq<Seq<Seq<char>>>,
)
    requires
        wf_entry(e),
        0 <= i,
        i + e.len() < lines.len(),
        forall|k: int| 0 <= k < e.len() ==> lines[i + k] == e[k],
        !is_cont(lines[i + e.len()]),
        1 <= m <= e.len(),
    ensures
        parse_body(lines, i + m, e.take(m), acc) == parse_body(
            lines,
            i + e.len(),
            Seq::empty(),
            seq_insert(acc, e),
        ),
    decreases e.len() - m,
{
    if m == e.len() {
        assert(e.take(m) =~= e);
        let j = i + e.len();
        assert(parse_body(lines, j, e, acc) == parse_body(lines, j, Seq::empty(), seq_insert(acc, e)));
    } else {
        assert(lines[i + m] == e[m]);
        assert(is_cont(e[m]));
        assert(e.take(m).push(e[m]) =~= e.take(m + 1));
        lemma_body_scan(lines, i, e, m + 1, acc);
    }
}

/// Reading a written entry from its first line adds exactly that entry.
proof fn lemma_body_reads_entry(
    lines: Seq<Seq<char>>,
    i: int,
    e: Seq<Seq<char>>,
    acc: Seq<Seq<Seq<char>>>,
)
    requires
        wf_entry(e),
        0 <= i,
        i + e.len() < lines.len(),
        forall|k: int| 0 <= k < e.len() ==> lines[i + k] == e[k],
        !is_cont(lines[i + e.len()]),
    ensures
        parse_body(lines, i, Seq::empty(), acc) == parse_body(
            lines,
            i + e.len(),
            Seq::empty(),
            seq_insert(acc, e),
        ),
{
    assert(lines[i] == e[0]);
    assert(seq![lines[i]] =~= e.take(1));
    lemma_body_scan(lines, i, e, 1, acc);
}

/// Reading a written entry list up to its closing line returns exactly those
/// entries, appended to what was already read.
proof fn lemma_body_roundtrip(
    lines: Seq<Seq<char>>,
    i: int,
    es: Seq<Seq<Seq<char>>>,
    acc: Seq<Seq<Seq<char>>>,
)
    requires
        wf_entry_list(es),
        forall|j: int| 0 <= j < es.len() ==> !acc.contains(#[trigger] es[j]),
        0 <= i,
        i + flatten_entries(es).len() < lines.len(),
        forall|k: int| 0 <= k < flatten_entries(es).len() ==> lines[i + k] == flatten_entries(
            es,
        )[k],
        lines[i + flatten_entries(es).len() as int] == end_line(),
    ensures
        parse_body(lines, i, Seq::empty(), acc) == Some(
            (acc + es, i + flatten_entries(es).len() + 1),
        ),
    decreases es.len(),
{
    reveal_strlit("END:VCARD");
    let fl = flatten_entries(es);
    if es.len() == 0 {
        assert(lines[i] == end_line());
        assert(is_end(lines[i]));
        assert(acc + es =~= acc);
        assert(parse_body(lines, i, Seq::empty(), acc) == Some((acc, i + 1)));
    } else {
        let e = es[0];
        let rest = es.drop_first();
        let flr = flatten_entries(rest);
        assert(fl == e + flr);
        assert(forall|k: int| 0 <= k < e.len() ==> fl[k] == e[k]);
        assert(forall|k: int| 0 <= k < flr.len() ==> fl[e.len() + k] == flr[k]);
        assert(!is_cont(lines[i + e.len()])) by {
            if rest.len() == 0 {
                assert(flr.len() == 0);
                assert(lines[i + e.len()] == end_line());
                assert(end_line()[0] == 'E');
            } else {
                assert(rest[0] == es[1]);
                assert(rest[0].len() > 0);
                assert(flr[0] == rest[0][0]);
                assert(lines[i + e.len()] == rest[0][0]);
                assert(!is_cont(es[1][0]));
            }
        }
        lemma_body_reads_entry(lines, i, e, acc);
        assert(!acc.contains(e));
        assert(seq_insert(acc, e) == acc.push(e));
        let acc2 = acc.push(e);
        assert(forall|j: int| 0 <= j < rest.len() ==> rest[j] == es[j + 1]);
        assert(forall|j: int| 0 <= j < rest.len() ==> !acc2.contains(#[trigger] rest[j])) by {
            assert forall|j: int| 0 <= j < rest.len() implies !acc2.contains(#[trigger] rest[j]) by {
                if acc2.contains(rest[j]) {
                    let m = choose|m: int| 0 <= m < acc2.len() && acc2[m] == rest[j];
                    if m < acc.len() {
                        assert(acc.contains(es[j + 1]));
                    } else {
                        assert(es[0] == es[j + 1]);
                    }
                }
            }
        }
        lemma_body_roundtrip(lines, i + e.len(), rest, acc2);
        assert(acc2 + rest =~= acc + es);
    }
}

/// Reading a written record returns exactly that record.
proof fn lemma_card_roundtrip(lines: Seq<Seq<char>>, i: int, c: CardView)
    requires
        wf_card(c),
        0 <= i,
        i + ser_card(c).len() <= lines.len(),
        forall|k: int| 0 <= k < ser_card(c).len() ==> lines[i + k] == ser_card(c)[k],
    ensures
        parse_card(lines, i) == Some((c, i + ser_card(c).len())),
{
    let sc = ser_card(c);
    let fl = flatten_entries(c.entries);
    assert(sc.len() == fl.len() + 3);
    assert(sc[0] == begin_line());
    assert(sc[1] == c.version);
    assert(forall|k: int| 0 <= k < fl.len() ==> sc[2 + k] == fl[k]);
    assert(sc[fl.len() as int + 2] == end_line());
    assert(lines[i] == begin_line());
    assert(lines[i + 1] == c.version);
    lemma_body_roundtrip(lines, i + 2, c.entries, Seq::empty());
    assert(parse_body(lines, i + 2, Seq::empty(), Seq::empty()) == Some(
        (Seq::<Seq<Seq<char>>>::empty() + c.entries, i + 2 + fl.len() + 1),
    ));
    assert(Seq::<Seq<Seq<char>>>::empty() + c.entries =~= c.entries);
    assert(CardView { version: lines[i + 1], entries: c.entries } == c);
}

/// Reading a written record sequence that fills the input exactly returns
/// those records.
proof fn lemma_cards_roundtrip(lines: Seq<Seq<char>>, i: int, cs: Seq<CardView>)
    requires
        wf_cards(cs),
        0 <= i,
        lines.len() == i + ser_cards(cs).len(),
        forall|k: int| 0 <= k < ser_cards(cs).len() ==> lines[i + k] == ser_cards(cs)[k],
    ensures
        parse_from(lines, i) == Some(cs),
    decreases cs.len(),
{
    if cs.len() == 0 {
        assert(i == lines.len());
        assert(cs =~= Seq::<CardView>::empty());
    } else {
        let sc = ser_card(cs[0]);
        let rest = cs.drop_first();
        let whole = ser_cards(cs);
        assert(whole == sc + ser_cards(rest));
        assert(forall|k: int| 0 <= k < sc.len() ==> whole[k] == sc[k]);
        assert(forall|k: int| 0 <= k < ser_cards(rest).len() ==> whole[sc.len() + k] == ser_cards(
            rest,
        )[k]);
        assert(wf_card(cs[0]));
        lemma_card_roundtrip(lines, i, cs[0]);
        assert(forall|m: int| 0 <= m < rest.len() ==> rest[m] == cs[m + 1]);
        lemma_cards_roundtrip(lines, i + sc.len(), rest);
        assert(sc.len() >= 3);
        assert(parse_from(lines, i) == Some(seq![cs[0]] + rest));
        assert(seq![cs[0]] + rest =~= cs);
    }
}

/// Round trip: whatever records the parser produced, writing them out and
/// parsing the output again returns exactly the same records.
pub proof fn lemma_parse_serialize_roundtrip(input_lines: Seq<Seq<char>>, cs: Seq<CardView>)
    requires
        parse_from(input_lines, 0) == Some(cs),
    ensures
        parse_from(ser_cards(cs), 0) == Some(cs),
{
    lemma_parse_from_wf(input_lines, 0);
    lemma_cards_roundtrip(ser_cards(cs), 0, cs);
}

} // verus!
