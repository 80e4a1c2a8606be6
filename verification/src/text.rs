//! Character-level facts about lines of vCard text, and the executable
//! string helpers the parser is built on.

use vstd::prelude::*;
use vstd::string::StrSliceExecFns;

verus! {

/// `p` is a prefix of `s`.
pub open spec fn has_prefix(s: Seq<char>, p: Seq<char>) -> bool {
    p.len() <= s.len() && s.subrange(0, p.len() as int) == p
}

/// A folded continuation line: it carries a leading space and belongs to the
/// property line that precedes it.
pub open spec fn is_cont(l: Seq<char>) -> bool {
    l.len() > 0 && l[0] == ' '
}

pub open spec fn begin_line() -> Seq<char> {
    "BEGIN:VCARD"@
}

pub open spec fn end_line() -> Seq<char> {
    "END:VCARD"@
}

pub open spec fn version_prefix() -> Seq<char> {
    "VERSION:"@
}

pub open spec fn name_prefix() -> Seq<char> {
    "N"@
}

/// The line that opens a record.
pub open spec fn is_begin(l: Seq<char>) -> bool {
    l == begin_line()
}

/// The line that closes a record.
pub open spec fn is_end(l: Seq<char>) -> bool {
    l == end_line()
}

/// A line that may serve as a record's version line.
pub open spec fn is_version(l: Seq<char>) -> bool {
    has_prefix(l, version_prefix())
}

/// String equality, decided character by character.
pub fn str_eq(a: &str, b: &str) -> (r: bool)
    ensures
        r == (a@ == b@),
{
    let an = a.unicode_len();
    let bn = b.unicode_len();
    if an != bn {
        proof {
            assert(a@ != b@) by {
                if a@ == b@ {
                    assert(a@.len() == b@.len());
                }
            }
        }
        return false;
    }
    let mut i: usize = 0;
    while i < an
        invariant
            an == a@.len(),
            bn == b@.len(),
            an == bn,
            i <= an,
            forall|j: int| 0 <= j < i ==> a@[j] == b@[j],
        decreases an - i,
    {
        if a.get_char(i) != b.get_char(i) {
            return false;
        }
        i += 1;
    }
    proof {
        assert(a@ =~= b@);
    }
    true
}

/// Whether `p` is a prefix of `s`, decided character by character.
pub fn str_has_prefix(s: &str, p: &str) -> (r: bool)
    ensures
        r == has_prefix(s@, p@),
{
    let sn = s.unicode_len();
    let pn = p.unicode_len();
    if pn > sn {
        return false;
    }
    let mut i: usize = 0;
    while i < pn
        invariant
            sn == s@.len(),
            pn == p@.len(),
            pn <= sn,
            i <= pn,
            forall|j: int| 0 <= j < i ==> s@[j] == p@[j],
        decreases pn - i,
    {
        if s.get_char(i) != p.get_char(i) {
            proof {
                assert(!has_prefix(s@, p@)) by {
                    if has_prefix(s@, p@) {
                        assert(s@.subrange(0, p@.len() as int)[i as int] == p@[i as int]);
                    }
                }
            }
            return false;
        }
        i += 1;
    }
    proof {
        assert(s@.subrange(0, p@.len() as int) =~= p@);
    }
    true
}

/// Whether a raw line is a folded continuation line.
pub fn line_is_cont(s: &str) -> (r: bool)
    ensures
        r == is_cont(s@),
{
    if s.unicode_len() == 0 {
        false
    } else {
        s.get_char(0) == ' '
    }
}

/// Strip one trailing carriage return, as happens at each newline boundary.
pub open spec fn chomp(l: Seq<char>) -> Seq<char> {
    if l.len() > 0 && l.last() == '\r' {
        l.drop_last()
    } else {
        l
    }
}

/// Split text into logical lines, one character at a time: a newline ends the
/// line gathered so far (with a trailing carriage return removed), and a final
/// fragment without a newline still counts as a line.
pub open spec fn split_rec(s: Seq<char>, cur: Seq<char>) -> Seq<Seq<char>>
    decreases s.len(),
{
    if s.len() == 0 {
        if cur.len() == 0 {
            Seq::empty()
        } else {
            seq![cur]
        }
    } else if s[0] == '\n' {
        seq![chomp(cur)] + split_rec(s.drop_first(), Seq::empty())
    } else {
        split_rec(s.drop_first(), cur.push(s[0]))
    }
}

/// The logical lines of a whole text.
pub open spec fn split_lines(s: Seq<char>) -> Seq<Seq<char>> {
    split_rec(s, Seq::empty())
}

/// Cut text into its logical lines.
pub fn split_into_lines(s: &str) -> (out: Vec<String>)
    ensures
        out.deep_view() == split_lines(s@),
{
    let n = s.unicode_len();
    let mut out: Vec<String> = Vec::new();
    let mut start: usize = 0;
    let mut i: usize = 0;
    proof {
        assert(s@.skip(0) =~= s@);
        assert(s@.subrange(0, 0) =~= Seq::<char>::empty());
        assert(out.deep_view() =~= Seq::<Seq<char>>::empty());
        assert(split_lines(s@) == out.deep_view() + split_rec(s@.skip(0), s@.subrange(0, 0)))
            by {
            assert(Seq::<Seq<char>>::empty() + split_rec(s@, Seq::<char>::empty()) =~= split_rec(
                s@,
                Seq::<char>::empty(),
            ));
        }
    }
    while i < n
        invariant
            n == s@.len(),
            start <= i <= n,
            split_lines(s@) == out.deep_view() + split_rec(
                s@.skip(i as int),
                s@.subrange(start as int, i as int),
            ),
        decreases n - i,
    {
        let ghost cur = s@.subrange(start as int, i as int);
        let ghost tail = s@.skip(i as int);
        proof {
            assert(tail[0] == s@[i as int]);
            assert(tail.drop_first() =~= s@.skip(i as int + 1));
        }
        let c = s.get_char(i);
        if c == '\n' {
            let end = if i > start && s.get_char(i - 1) == '\r' {
                i - 1
            } else {
                i
            };
            proof {
                assert(chomp(cur) =~= s@.subrange(start as int, end as int));
            }
            let line = s.substring_char(start, end).to_owned();
            let ghost prev = out.deep_view();
            out.push(line);
            proof {
                assert(out.deep_view() =~= prev.push(line@));
                assert(s@.subrange(i as int + 1, i as int + 1) =~= Seq::<char>::empty());
                assert(prev.push(line@) + split_rec(s@.skip(i as int + 1), Seq::<char>::empty())
                    =~= prev + (seq![chomp(cur)] + split_rec(
                    s@.skip(i as int + 1),
                    Seq::<char>::empty(),
                )));
            }
            start = i + 1;
        } else {
            proof {
                assert(cur.push(c) =~= s@.subrange(start as int, i as int + 1));
            }
        }
        i += 1;
    }
    proof {
        assert(s@.skip(n as int) =~= Seq::<char>::empty());
    }
    if start < n {
        let line = s.substring_char(start, n).to_owned();
        let ghost prev = out.deep_view();
        out.push(line);
        proof {
            let cur = s@.subrange(start as int, n as int);
            assert(cur.len() > 0);
            assert(out.deep_view() =~= prev.push(line@));
            assert(prev + split_rec(Seq::<char>::empty(), cur) =~= prev.push(cur));
        }
    } else {
        proof {
            let cur = s@.subrange(start as int, n as int);
            assert(cur.len() == 0);
            assert(out.deep_view() + split_rec(Seq::<char>::empty(), cur) =~= out.deep_view());
        }
    }
    out
}

} // verus!
