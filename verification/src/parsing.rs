//! The recursive-descent parser: a specification of the vCard grammar over
//! line sequences, and the executable parser proved against it.

use vstd::prelude::*;
use crate::Error;
use crate::entry::VcardEntry;
use crate::text::{is_begin, is_cont, is_end, is_version, split_lines};
use crate::text::{line_is_cont, split_into_lines, str_eq, str_has_prefix};
use crate::vcard::{CardView, Vcard, card_views, seq_insert};

verus! {

/// The body of a record: lines read one at a time from position `i`.
/// `cur` is the entry being gathered (empty when none is open) and `acc` the
/// entries finished so far. An `END:VCARD` line closes the record; running
/// out of lines first is a format error, given as `None`.
pub open spec fn parse_body(
    lines: Seq<Seq<char>>,
    i: int,
    cur: Seq<Seq<char>>,
    acc: Seq<Seq<Seq<char>>>,
) -> Option<(Seq<Seq<Seq<char>>>, int)>
    decreases lines.len() - i,
{
    if i < 0 || i >= lines.len() {
        None
    } else if cur.len() > 0 && is_cont(lines[i]) {
        parse_body(lines, i + 1, cur.push(lines[i]), acc)
    } else {
        let acc2 = if cur.len() > 0 {
            seq_insert(acc, cur)
        } else {
            acc
        };
        if is_end(lines[i]) {
            Some((acc2, i + 1))
        } else {
            parse_body(lines, i + 1, seq![lines[i]], acc2)
        }
    }
}

/// A record opens with exactly `BEGIN:VCARD` followed by a `VERSION:` line.
pub open spec fn header_ok(lines: Seq<Seq<char>>, i: int) -> bool {
    0 <= i < lines.len() && is_begin(lines[i]) && i + 1 < lines.len() && is_version(lines[i + 1])
}

/// One whole record starting at line `i`: header, body, closing line.
/// The result carries the record and the position just past it.
pub open spec fn parse_card(lines: Seq<Seq<char>>, i: int) -> Option<(CardView, int)> {
    if !header_ok(lines, i) {
        None
    } else {
        match parse_body(lines, i + 2, Seq::empty(), Seq::empty()) {
            None => None,
            Some((es, j)) => Some((CardView { version: lines[i + 1], entries: es }, j)),
        }
    }
}

/// A body consumes at least one line and never reads past the input.
pub proof fn lemma_parse_body_bounds(
    lines: Seq<Seq<char>>,
    i: int,
    cur: Seq<Seq<char>>,
    acc: Seq<Seq<Seq<char>>>,
)
    ensures
        parse_body(lines, i, cur, acc) matches Some(r) ==> i < r.1 <= lines.len(),
    decreases lines.len() - i,
{
    if 0 <= i < lines.len() {
        if cur.len() > 0 && is_cont(lines[i]) {
            lemma_parse_body_bounds(lines, i + 1, cur.push(lines[i]), acc);
        } else if !is_end(lines[i]) {
            let acc2 = if cur.len() > 0 {
                seq_insert(acc, cur)
            } else {
                acc
            };
            lemma_parse_body_bounds(lines, i + 1, seq![lines[i]], acc2);
        }
    }
}

/// Zero or more records from line `i` to the end of the input, in file order.
pub open spec fn parse_from(lines: Seq<Seq<char>>, i: int) -> Option<Seq<CardView>>
    decreases lines.len() - i
        via parse_from_decreases
{
    if i < 0 {
        None
    } else if i >= lines.len() {
        Some(Seq::empty())
    } else {
        match parse_card(lines, i) {
            None => None,
            Some((c, j)) => match parse_from(lines, j) {
                None => None,
                Some(rest) => Some(seq![c] + rest),
            },
        }
    }
}

#[via_fn]
proof fn parse_from_decreases(lines: Seq<Seq<char>>, i: int) {
    if 0 <= i < lines.len() {
        lemma_parse_body_bounds(lines, i + 2, Seq::empty(), Seq::empty());
    }
}

/// The parsing session: the line sequence, a cursor that only moves forward,
/// the record being read, and the records finished so far.
pub struct Parser {
    cards: Vec<Vcard>,
    cur_card: Option<Vcard>,
    lines: Vec<String>,
    cur_idx: usize,
}

impl Parser {
    /// The line sequence under the cursor.
    pub closed spec fn lines_v(&self) -> Seq<Seq<char>> {
        self.lines.deep_view()
    }

    /// The records finished so far.
    pub closed spec fn cards_v(&self) -> Seq<CardView> {
        card_views(self.cards@)
    }

    pub closed spec fn idx(&self) -> int {
        self.cur_idx as int
    }

    pub closed spec fn in_card(&self) -> bool {
        self.cur_card is Some
    }

    /// The entries of the record being read.
    pub closed spec fn open_entries(&self) -> Seq<Seq<Seq<char>>> {
        self.cur_card->0@.entries
    }

    /// The version line of the record being read.
    pub closed spec fn open_version(&self) -> Seq<char> {
        self.cur_card->0@.version
    }

    pub closed spec fn wf(&self) -> bool {
        &&& self.idx() <= self.lines_v().len()
        &&& forall|i: int| 0 <= i < self.cards@.len() ==> (#[trigger] self.cards@[i]).wf()
        &&& self.cur_card matches Some(c) ==> c.wf()
    }

    /// A session over the given text, its cursor at the first line.
    pub fn new(stream: String) -> (p: Parser)
        ensures
            p.wf(),
            p.lines_v() == split_lines(stream@),
            p.idx() == 0,
            p.cards_v() =~= Seq::<CardView>::empty(),
            !p.in_card(),
    {
        let lines = split_into_lines(stream.as_str());
        Parser { cards: Vec::new(), cur_card: None, lines, cur_idx: 0 }
    }

    /// Open a record: the current line must read `BEGIN:VCARD`, with no
    /// record already open, and the version line must follow.
    pub fn begin(&mut self) -> (r: Result<(), Error>)
        requires
            old(self).wf(),
            old(self).idx() < old(self).lines_v().len(),
        ensures
            final(self).wf(),
            final(self).lines_v() == old(self).lines_v(),
            final(self).cards_v() == old(self).cards_v(),
            match r {
                Ok(()) => {
                    &&& !old(self).in_card()
                    &&& header_ok(old(self).lines_v(), old(self).idx())
                    &&& final(self).idx() == old(self).idx() + 2
                    &&& final(self).in_card()
                    &&& final(self).open_version() == old(self).lines_v()[old(self).idx() + 1]
                    &&& final(self).open_entries() =~= Seq::<Seq<Seq<char>>>::empty()
                },
                Err(e) => {
                    &&& e == Error::Format
                    &&& !(header_ok(old(self).lines_v(), old(self).idx()) && !old(self).in_card())
                },
            },
    {
        // Reading the length as a usize bounds the cursor increment below.
        let n = self.lines.len();
        if str_eq(self.lines[self.cur_idx].as_str(), "BEGIN:VCARD") {
            if self.cur_card.is_some() {
                return Err(Error::Format);
            }
            self.cur_card = Some(Vcard::new());
            proof {
                assert(self.cur_idx < n);
            }
            self.cur_idx = self.cur_idx + 1;
            match self.version() {
                Ok(()) => Ok(()),
                Err(e) => Err(e),
            }
        } else {
            Err(Error::Format)
        }
    }

    /// Read the version line into the open record.
    pub fn version(&mut self) -> (r: Result<(), Error>)
        requires
            old(self).wf(),
            old(self).in_card(),
        ensures
            final(self).wf(),
            final(self).lines_v() == old(self).lines_v(),
            final(self).cards_v() == old(self).cards_v(),
            final(self).in_card(),
            final(self).open_entries() == old(self).open_entries(),
            match r {
                Ok(()) => {
                    &&& old(self).idx() < old(self).lines_v().len()
                    &&& is_version(old(self).lines_v()[old(self).idx()])
                    &&& final(self).idx() == old(self).idx() + 1
                    &&& final(self).open_version() == old(self).lines_v()[old(self).idx()]
                },
                Err(e) => {
                    &&& e == Error::Format
                    &&& !(old(self).idx() < old(self).lines_v().len() && is_version(
                        old(self).lines_v()[old(self).idx()],
                    ))
                    &&& final(self).idx() == old(self).idx()
                    &&& final(self).open_version() == old(self).open_version()
                },
            },
    {
        if self.cur_idx >= self.lines.len() {
            return Err(Error::Format);
        }
        if str_has_prefix(self.lines[self.cur_idx].as_str(), "VERSION:") {
            match self.cur_card.as_mut() {
                Some(c) => {
                    c.set_version(self.lines[self.cur_idx].as_str());
                },
                None => {
                    proof {
                        assert(false);
                    }
                },
            }
            self.cur_idx = self.cur_idx + 1;
            Ok(())
        } else {
            Err(Error::Format)
        }
    }

    /// Check for the closing line. `Ok(true)` closes the record and moves it
    /// to the finished output; running out of lines mid-record is a format
    /// error.
    pub fn end(&mut self) -> (r: Result<bool, Error>)
        requires
            old(self).wf(),
            old(self).in_card(),
        ensures
            final(self).wf(),
            final(self).lines_v() == old(self).lines_v(),
            match r {
                Ok(true) => {
                    &&& old(self).idx() < old(self).lines_v().len()
                    &&& is_end(old(self).lines_v()[old(self).idx()])
                    &&& final(self).idx() == old(self).idx() + 1
                    &&& !final(self).in_card()
                    &&& final(self).cards_v() =~= old(self).cards_v().push(
                        CardView {
                            version: old(self).open_version(),
                            entries: old(self).open_entries(),
                        },
                    )
                },
                Ok(false) => {
                    &&& old(self).idx() < old(self).lines_v().len()
                    &&& !is_end(old(self).lines_v()[old(self).idx()])
                    &&& final(self).idx() == old(self).idx()
                    &&& final(self).in_card()
                    &&& final(self).cards_v() == old(self).cards_v()
                    &&& final(self).open_version() == old(self).open_version()
                    &&& final(self).open_entries() == old(self).open_entries()
                },
                Err(e) => {
                    &&& e == Error::Format
                    &&& old(self).idx() >= old(self).lines_v().len()
                },
            },
    {
        if self.cur_idx >= self.lines.len() {
            return Err(Error::Format);
        }
        if str_eq(self.lines[self.cur_idx].as_str(), "END:VCARD") {
            match self.cur_card.take() {
                Some(c) => {
                    let ghost prev = card_views(self.cards@);
                    self.cards.push(c);
                    proof {
                        assert(card_views(self.cards@) =~= prev.push(c@));
                    }
                },
                None => {
                    proof {
                        assert(false);
                    }
                },
            }
            self.cur_idx = self.cur_idx + 1;
            Ok(true)
        } else {
            Ok(false)
        }
    }

    /// Read one entry: the current line opens it, and every following line
    /// that starts with a space is folded into it, greedily, so the cursor
    /// lands on the first line that is no continuation. Exactly that one
    /// entry — the raw lines from the old cursor to the new one — joins the
    /// open record's entry set (a byte-identical duplicate collapses
    /// silently). Running out of lines during the continuation scan is a
    /// format error that leaves the open record untouched.
    pub fn entry(&mut self) -> (r: Result<(), Error>)
        requires
            old(self).wf(),
            old(self).in_card(),
            old(self).idx() < old(self).lines_v().len(),
            !is_end(old(self).lines_v()[old(self).idx()]),
        ensures
            final(self).wf(),
            final(self).lines_v() == old(self).lines_v(),
            final(self).cards_v() == old(self).cards_v(),
            final(self).in_card(),
            final(self).open_version() == old(self).open_version(),
            match r {
                Ok(()) => {
                    &&& old(self).idx() < final(self).idx() < old(self).lines_v().len()
                    &&& !is_cont(old(self).lines_v()[final(self).idx()])
                    &&& forall|m: int|
                        old(self).idx() < m < final(self).idx() ==> is_cont(
                            #[trigger] old(self).lines_v()[m],
                        )
                    &&& final(self).open_entries() == seq_insert(
                        old(self).open_entries(),
                        old(self).lines_v().subrange(old(self).idx(), final(self).idx()),
                    )
                    &&& parse_body(
                        old(self).lines_v(),
                        old(self).idx(),
                        Seq::empty(),
                        old(self).open_entries(),
                    ) == parse_body(
                        final(self).lines_v(),
                        final(self).idx(),
                        Seq::empty(),
                        final(self).open_entries(),
                    )
                },
                Err(e) => {
                    &&& e == Error::Format
                    &&& final(self).idx() == old(self).lines_v().len()
                    &&& final(self).open_entries() == old(self).open_entries()
                    &&& forall|m: int|
                        old(self).idx() < m < old(self).lines_v().len() ==> is_cont(
                            #[trigger] old(self).lines_v()[m],
                        )
                    &&& parse_body(
                        old(self).lines_v(),
                        old(self).idx(),
                        Seq::empty(),
                        old(self).open_entries(),
                    ) is None
                },
            },
    {
        let ghost l = self.lines_v();
        let ghost i0 = self.idx();
        let ghost acc = self.open_entries();
        let n = self.lines.len();
        let mut e = VcardEntry::new();
        e.push(self.lines[self.cur_idx].as_str());
        self.cur_idx = self.cur_idx + 1;
        proof {
            assert(e@ =~= seq![l[i0]]);
            assert(e@ =~= l.subrange(i0, i0 + 1));
        }
        loop
            invariant
                l == old(self).lines_v(),
                i0 == old(self).idx(),
                acc == old(self).open_entries(),
                self.wf(),
                n == l.len(),
                self.lines_v() == l,
                self.cards_v() == old(self).cards_v(),
                self.in_card(),
                self.open_version() == old(self).open_version(),
                self.open_entries() == acc,
                i0 < self.idx() <= l.len(),
                e@.len() > 0,
                e@ == l.subrange(i0, self.idx()),
                forall|m: int| i0 < m < self.idx() ==> is_cont(#[trigger] l[m]),
                parse_body(l, i0, Seq::empty(), acc) == parse_body(l, self.idx(), e@, acc),
            ensures
                self.wf(),
                self.lines_v() == l,
                self.cards_v() == old(self).cards_v(),
                self.in_card(),
                self.open_version() == old(self).open_version(),
                self.open_entries() == acc,
                i0 < self.idx() < l.len(),
                !is_cont(l[self.idx()]),
                e@.len() > 0,
                e@ == l.subrange(i0, self.idx()),
                forall|m: int| i0 < m < self.idx() ==> is_cont(#[trigger] l[m]),
                parse_body(l, i0, Seq::empty(), acc) == parse_body(
                    l,
                    self.idx(),
                    Seq::empty(),
                    seq_insert(acc, e@),
                ),
            decreases l.len() - self.idx(),
        {
            if self.cur_idx >= n {
                proof {
                    assert(parse_body(l, self.idx(), e@, acc) is None);
                }
                return Err(Error::Format);
            }
            if !line_is_cont(self.lines[self.cur_idx].as_str()) {
                proof {
                    let j = self.idx();
                    assert(!is_cont(l[j]));
                    assert(parse_body(l, j, e@, acc) == parse_body(
                        l,
                        j,
                        Seq::empty(),
                        seq_insert(acc, e@),
                    ));
                }
                break ;
            }
            let ghost prev = e@;
            let ghost jb = self.idx();
            e.push(self.lines[self.cur_idx].as_str());
            self.cur_idx = self.cur_idx + 1;
            proof {
                assert(e@ =~= prev.push(l[jb]));
                assert(e@ =~= l.subrange(i0, jb + 1));
            }
        }
        match self.cur_card.as_mut() {
            Some(c) => {
                c.insert(e);
            },
            None => {
                proof {
                    assert(false);
                }
            },
        }
        Ok(())
    }

    /// Read one whole record, leaving the cursor just past its closing line.
    #[verifier::loop_isolation(false)]
    pub fn vcard(&mut self) -> (r: Result<(), Error>)
        requires
            old(self).wf(),
            !old(self).in_card(),
            old(self).idx() < old(self).lines_v().len(),
        ensures
            final(self).wf(),
            final(self).lines_v() == old(self).lines_v(),
            match r {
                Ok(()) => {
                    &&& !final(self).in_card()
                    &&& old(self).idx() < final(self).idx() <= final(self).lines_v().len()
                    &&& final(self).cards_v().len() == old(self).cards_v().len() + 1
                    &&& final(self).cards_v() =~= old(self).cards_v().push(
                        final(self).cards_v().last(),
                    )
                    &&& parse_card(old(self).lines_v(), old(self).idx()) == Some(
                        (final(self).cards_v().last(), final(self).idx()),
                    )
                },
                Err(e) => {
                    &&& e == Error::Format
                    &&& parse_card(old(self).lines_v(), old(self).idx()) is None
                },
            },
    {
        let ghost l = self.lines_v();
        let ghost i0 = self.idx();
        match self.begin() {
            Ok(()) => {},
            Err(e) => {
                return Err(e);
            },
        }
        loop
            invariant
                self.wf(),
                self.lines_v() == l,
                self.cards_v() == old(self).cards_v(),
                self.in_card(),
                self.open_version() == l[i0 + 1],
                i0 + 2 <= self.idx() <= l.len(),
                header_ok(l, i0),
                parse_body(l, i0 + 2, Seq::empty(), Seq::empty()) == parse_body(
                    l,
                    self.idx(),
                    Seq::empty(),
                    self.open_entries(),
                ),
            decreases l.len() - self.idx(),
        {
            let ghost idx_before = self.idx();
            let ghost es_before = self.open_entries();
            let ghost ver_before = self.open_version();
            match self.end() {
                Ok(true) => {
                    proof {
                        let fin = self.cards_v().last();
                        assert(fin == CardView { version: ver_before, entries: es_before });
                        assert(parse_body(l, idx_before, Seq::empty(), es_before) == Some(
                            (es_before, idx_before + 1),
                        ));
                        assert(parse_card(l, i0) == Some(
                            (CardView { version: l[i0 + 1], entries: es_before }, self.idx()),
                        ));
                        assert(CardView { version: l[i0 + 1], entries: es_before } =~= fin);
                    }
                    return Ok(());
                },
                Ok(false) => {},
                Err(e) => {
                    proof {
                        assert(parse_body(l, idx_before, Seq::empty(), es_before) is None);
                    }
                    return Err(e);
                },
            }
            match self.entry() {
                Ok(()) => {},
                Err(e) => {
                    return Err(e);
                },
            }
        }
    }

    /// Parse the whole input into its records, in file order. The input is
    /// accepted exactly when its line sequence parses as zero or more
    /// complete records.
    #[verifier::loop_isolation(false)]
    pub fn parse(self) -> (r: Result<Vec<Vcard>, Error>)
        requires
            self.wf(),
            self.idx() == 0,
            self.cards_v() == Seq::<CardView>::empty(),
            !self.in_card(),
        ensures
            match r {
                Ok(cards) => {
                    &&& parse_from(self.lines_v(), 0) == Some(card_views(cards@))
                    &&& forall|i: int| 0 <= i < cards@.len() ==> (#[trigger] cards@[i]).wf()
                },
                Err(e) => {
                    &&& e == Error::Format
                    &&& parse_from(self.lines_v(), 0) is None
                },
            },
    {
        let ghost l = self.lines_v();
        let mut this = self;
        proof {
            assert(Seq::<CardView>::empty() + parse_from(l, 0)->0 =~= parse_from(l, 0)->0);
        }
        while this.cur_idx < this.lines.len()
            invariant
                this.wf(),
                this.lines_v() == l,
                !this.in_card(),
                0 <= this.idx() <= l.len(),
                parse_from(l, 0) == (match parse_from(l, this.idx()) {
                    None => None::<Seq<CardView>>,
                    Some(rest) => Some(this.cards_v() + rest),
                }),
            decreases l.len() - this.idx(),
        {
            let ghost idx_before = this.idx();
            let ghost cards_before = this.cards_v();
            match this.vcard() {
                Ok(()) => {
                    proof {
                        let c = this.cards_v().last();
                        let j = this.idx();
                        assert(parse_from(l, idx_before) == (match parse_from(l, j) {
                            None => None::<Seq<CardView>>,
                            Some(rest) => Some(seq![c] + rest),
                        }));
                        match parse_from(l, j) {
                            Some(rest) => {
                                assert(cards_before + (seq![c] + rest) =~= this.cards_v() + rest);
                            },
                            None => {},
                        }
                    }
                },
                Err(e) => {
                    proof {
                        assert(parse_from(l, idx_before) is None);
                        assert(parse_from(l, 0) is None);
                    }
                    return Err(e);
                },
            }
        }
        proof {
            assert(parse_from(l, this.idx()) == Some(Seq::<CardView>::empty()));
            assert(this.cards_v() + Seq::<CardView>::empty() =~= this.cards_v());
        }
        Ok(this.cards)
    }
}

} // verus!
