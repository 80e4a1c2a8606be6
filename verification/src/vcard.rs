//! One vCard record: a version line plus a set of unique entries.

use vstd::prelude::*;
use crate::entry::VcardEntry;
use crate::text::has_prefix;

verus! {

/// The mathematical value of one record: the raw version line and the entry
/// sequence. Entries behave as a set (no two are equal); their order only
/// fixes the incidental output order.
#[verifier::ext_equal]
pub ghost struct CardView {
    pub version: Seq<char>,
    pub entries: Seq<Seq<Seq<char>>>,
}

/// No two entries are equal.
pub open spec fn entries_distinct(es: Seq<Seq<Seq<char>>>) -> bool {
    forall|i: int, j: int| 0 <= i < j < es.len() ==> es[i] != es[j]
}

/// Every entry holds at least one line.
pub open spec fn entries_nonempty(es: Seq<Seq<Seq<char>>>) -> bool {
    forall|i: int| 0 <= i < es.len() ==> #[trigger] es[i].len() > 0
}

/// Set-flavoured insertion: an entry already present is dropped, a new one
/// goes to the end.
pub open spec fn seq_insert(es: Seq<Seq<Seq<char>>>, e: Seq<Seq<char>>) -> Seq<Seq<Seq<char>>> {
    if es.contains(e) {
        es
    } else {
        es.push(e)
    }
}

/// Set union of two entry sequences: the left operand, then every entry of
/// the right one that is not already present, in order.
pub open spec fn union_entries(a: Seq<Seq<Seq<char>>>, b: Seq<Seq<Seq<char>>>) -> Seq<
    Seq<Seq<char>>,
>
    decreases b.len(),
{
    if b.len() == 0 {
        a
    } else {
        union_entries(seq_insert(a, b[0]), b.drop_first())
    }
}

/// The first entry whose property line starts with `p`, if any.
pub open spec fn find_by_prefix(es: Seq<Seq<Seq<char>>>, p: Seq<char>) -> Option<Seq<Seq<char>>>
    decreases es.len(),
{
    if es.len() == 0 {
        None
    } else if es[0].len() > 0 && has_prefix(es[0][0], p) {
        Some(es[0])
    } else {
        find_by_prefix(es.drop_first(), p)
    }
}

/// All raw lines of an entry sequence, in order.
pub open spec fn flatten_entries(es: Seq<Seq<Seq<char>>>) -> Seq<Seq<char>>
    decreases es.len(),
{
    if es.len() == 0 {
        Seq::empty()
    } else {
        es[0] + flatten_entries(es.drop_first())
    }
}

/// The record views of a record sequence.
pub open spec fn card_views(cs: Seq<Vcard>) -> Seq<CardView> {
    Seq::new(cs.len(), |i: int| cs[i]@)
}

/// One parsed record.
pub struct Vcard {
    version: String,
    content: Vec<VcardEntry>,
}

impl View for Vcard {
    type V = CardView;

    closed spec fn view(&self) -> CardView {
        CardView { version: self.version@, entries: self.content.deep_view() }
    }
}

impl Vcard {
    /// The record's entries form a set of non-empty entries.
    pub open spec fn wf(&self) -> bool {
        entries_distinct(self@.entries) && entries_nonempty(self@.entries)
    }

    /// A fresh record with no version and no entries.
    pub fn new() -> (c: Self)
        ensures
            c@.version =~= Seq::<char>::empty(),
            c@.entries =~= Seq::<Seq<Seq<char>>>::empty(),
            c.wf(),
    {
        let c = Vcard { version: String::new(), content: Vec::new() };
        proof {
            assert(c@.entries =~= Seq::<Seq<Seq<char>>>::empty());
        }
        c
    }

    /// Store the raw version line, verbatim.
    pub fn set_version(&mut self, s: &str)
        ensures
            final(self)@.version == s@,
            final(self)@.entries == old(self)@.entries,
            final(self).wf() == old(self).wf(),
    {
        self.version = s.to_owned();
    }

    /// The stored version line.
    pub fn version_line(&self) -> (v: &String)
        ensures
            v@ == self@.version,
    {
        &self.version
    }

    /// Add one entry; a byte-identical entry that is already present is
    /// silently dropped.
    pub fn insert(&mut self, e: VcardEntry)
        requires
            old(self).wf(),
            e@.len() > 0,
        ensures
            final(self).wf(),
            final(self)@.version == old(self)@.version,
            final(self)@.entries == seq_insert(old(self)@.entries, e@),
    {
        let n = self.content.len();
        let mut i: usize = 0;
        while i < n
            invariant
                n == self@.entries.len(),
                i <= n,
                forall|j: int| 0 <= j < i ==> self@.entries[j] != e@,
                self.wf(),
                self@ == old(self)@,
            decreases n - i,
        {
            if self.content[i] == e {
                proof {
                    assert(self@.entries[i as int] == e@);
                    assert(self@.entries.contains(e@));
                }
                return ;
            }
            i += 1;
        }
        proof {
            assert(!old(self)@.entries.contains(e@)) by {
                if old(self)@.entries.contains(e@) {
                    let j = choose|j: int|
                        0 <= j < old(self)@.entries.len() && old(self)@.entries[j] == e@;
                }
            }
        }
        let ghost prev = self@.entries;
        self.content.push(e);
        proof {
            assert(self@.entries =~= prev.push(e@));
        }
    }

    /// Union the other record's entries into this one; the version stays.
    pub fn extend(&mut self, other: &Vcard)
        requires
            old(self).wf(),
            other.wf(),
        ensures
            final(self).wf(),
            final(self)@.version == old(self)@.version,
            final(self)@.entries == union_entries(old(self)@.entries, other@.entries),
    {
        let n = other.content.len();
        let mut i: usize = 0;
        proof {
            assert(other@.entries.skip(0) =~= other@.entries);
        }
        while i < n
            invariant
                n == other@.entries.len(),
                i <= n,
                self.wf(),
                other.wf(),
                self@.version == old(self)@.version,
                union_entries(self@.entries, other@.entries.skip(i as int)) == union_entries(
                    old(self)@.entries,
                    other@.entries,
                ),
            decreases n - i,
        {
            let ghost rest = other@.entries.skip(i as int);
            proof {
                assert(rest[0] == other@.entries[i as int]);
                assert(rest.drop_first() =~= other@.entries.skip(i as int + 1));
                assert(other@.entries[i as int].len() > 0);
            }
            let e = other.content[i].clone();
            self.insert(e);
            i += 1;
        }
        proof {
            assert(other@.entries.skip(n as int) =~= Seq::<Seq<Seq<char>>>::empty());
        }
    }

    /// The first entry whose property line starts with `key`, if any.
    pub fn get(&self, key: &str) -> (r: Option<&VcardEntry>)
        requires
            self.wf(),
        ensures
            match r {
                Some(e) => find_by_prefix(self@.entries, key@) == Some(e@),
                None => find_by_prefix(self@.entries, key@) is None,
            },
    {
        let n = self.content.len();
        let mut i: usize = 0;
        proof {
            assert(self@.entries.skip(0) =~= self@.entries);
        }
        while i < n
            invariant
                n == self@.entries.len(),
                i <= n,
                self.wf(),
                find_by_prefix(self@.entries.skip(i as int), key@) == find_by_prefix(
                    self@.entries,
                    key@,
                ),
            decreases n - i,
        {
            let ghost rest = self@.entries.skip(i as int);
            proof {
                assert(rest[0] == self@.entries[i as int]);
                assert(rest.drop_first() =~= self@.entries.skip(i as int + 1));
                assert(self@.entries[i as int].len() > 0);
            }
            let e = &self.content[i];
            if crate::text::str_has_prefix(e.line_at(0).as_str(), key) {
                return Some(e);
            }
            i += 1;
        }
        proof {
            assert(self@.entries.skip(n as int) =~= Seq::<Seq<Seq<char>>>::empty());
        }
        None
    }

    /// The lines to print for this record's entries, in entry order.
    pub fn print(&self) -> (out: Vec<String>)
        ensures
            out.deep_view() == flatten_entries(self@.entries),
    {
        let n = self.content.len();
        let mut out: Vec<String> = Vec::new();
        let mut i: usize = 0;
        proof {
            assert(self@.entries.skip(0) =~= self@.entries);
            assert(out.deep_view() =~= Seq::<Seq<char>>::empty());
            assert(Seq::<Seq<char>>::empty() + flatten_entries(self@.entries) =~= flatten_entries(
                self@.entries,
            ));
        }
        while i < n
            invariant
                n == self@.entries.len(),
                i <= n,
                out.deep_view() + flatten_entries(self@.entries.skip(i as int)) == flatten_entries(
                    self@.entries,
                ),
            decreases n - i,
        {
            let ghost rest = self@.entries.skip(i as int);
            let ghost prev = out.deep_view();
            proof {
                assert(rest[0] == self@.entries[i as int]);
                assert(rest.drop_first() =~= self@.entries.skip(i as int + 1));
            }
            self.content[i].append_lines_to(&mut out);
            proof {
                assert(prev + (self@.entries[i as int] + flatten_entries(
                    self@.entries.skip(i as int + 1),
                )) =~= out.deep_view() + flatten_entries(self@.entries.skip(i as int + 1)));
            }
            i += 1;
        }
        proof {
            assert(self@.entries.skip(n as int) =~= Seq::<Seq<Seq<char>>>::empty());
            assert(out.deep_view() + flatten_entries(Seq::<Seq<Seq<char>>>::empty())
                =~= out.deep_view());
        }
        out
    }
}

} // verus!
