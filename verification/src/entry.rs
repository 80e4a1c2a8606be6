//! One logical vCard property: a property line plus any folded continuation
//! lines, compared by exact content.

use vstd::prelude::*;
use crate::text::is_cont;
use crate::text::str_eq;

verus! {

/// An entry's mathematical value is the ordered sequence of its raw lines.
pub struct VcardEntry {
    lines: Vec<String>,
}

impl View for VcardEntry {
    type V = Seq<Seq<char>>;

    closed spec fn view(&self) -> Seq<Seq<char>> {
        self.lines.deep_view()
    }
}

impl DeepView for VcardEntry {
    type V = Seq<Seq<char>>;

    open spec fn deep_view(&self) -> Seq<Seq<char>> {
        self.view()
    }
}

impl VcardEntry {
    /// A fresh entry, holding no lines yet.
    pub fn new() -> (e: Self)
        ensures
            e@ =~= Seq::<Seq<char>>::empty(),
    {
        VcardEntry { lines: Vec::new() }
    }

    /// Append one raw line. Only a continuation line may extend a non-empty
    /// entry; anything else must be the property line of an empty one.
    pub fn push(&mut self, s: &str)
        requires
            is_cont(s@) || old(self)@.len() == 0,
        ensures
            final(self)@ =~= old(self)@.push(s@),
    {
        self.lines.push(s.to_owned());
        proof {
            assert(self@ =~= old(self)@.push(s@));
        }
    }

    /// How many raw lines the entry holds.
    pub fn line_count(&self) -> (n: usize)
        ensures
            n == self@.len(),
    {
        self.lines.len()
    }

    /// The raw line at position `i`.
    pub fn line_at(&self, i: usize) -> (l: &String)
        requires
            i < self@.len(),
        ensures
            l@ == self@[i as int],
    {
        &self.lines[i]
    }

    /// Copy every line of this entry onto the end of `out`.
    pub fn append_lines_to(&self, out: &mut Vec<String>)
        ensures
            final(out).deep_view() =~= old(out).deep_view() + self@,
    {
        let n = self.lines.len();
        let mut i: usize = 0;
        proof {
            assert(old(out).deep_view() + self@.subrange(0, 0) =~= old(out).deep_view());
        }
        while i < n
            invariant
                n == self@.len(),
                i <= n,
                out.deep_view() =~= old(out).deep_view() + self@.subrange(0, i as int),
            decreases n - i,
        {
            let ghost prev = out.deep_view();
            out.push(self.lines[i].clone());
            proof {
                assert(out.deep_view() =~= prev.push(self@[i as int]));
                assert(prev.push(self@[i as int]) =~= old(out).deep_view() + self@.subrange(
                    0,
                    i as int + 1,
                ));
            }
            i += 1;
        }
        proof {
            assert(self@.subrange(0, n as int) =~= self@);
        }
    }
}

impl Clone for VcardEntry {
    /// A copy with the same line sequence.
    fn clone(&self) -> (r: Self)
        ensures
            r@ == self@,
    {
        let n = self.lines.len();
        let mut ls: Vec<String> = Vec::new();
        let mut i: usize = 0;
        while i < n
            invariant
                n == self.lines@.len(),
                i <= n,
                ls@ =~= self.lines@.subrange(0, i as int),
            decreases n - i,
        {
            ls.push(self.lines[i].clone());
            i += 1;
        }
        proof {
            assert(ls@ =~= self.lines@);
        }
        let r = VcardEntry { lines: ls };
        proof {
            assert(r@ =~= self@);
        }
        r
    }
}

impl PartialEq for VcardEntry {
    /// Exact equality: every raw line must match, folding and whitespace
    /// included.
    fn eq(&self, other: &Self) -> (r: bool) {
        let n = self.lines.len();
        if n != other.lines.len() {
            proof {
                assert(self@ != other@) by {
                    if self@ == other@ {
                        assert(self@.len() == other@.len());
                    }
                }
            }
            return false;
        }
        let mut i: usize = 0;
        while i < n
            invariant
                n == self@.len(),
                n == other@.len(),
                i <= n,
                forall|j: int| 0 <= j < i ==> self@[j] == other@[j],
        decreases n - i,
        {
            if !str_eq(self.lines[i].as_str(), other.lines[i].as_str()) {
                proof {
                    assert(self@[i as int] != other@[i as int]);
                }
                return false;
            }
            i += 1;
        }
        proof {
            assert(self@ =~= other@);
        }
        true
    }
}

impl Eq for VcardEntry {

}

impl vstd::std_specs::cmp::PartialEqSpecImpl for VcardEntry {
    open spec fn obeys_eq_spec() -> bool {
        true
    }

    open spec fn eq_spec(&self, other: &VcardEntry) -> bool {
        self@ == other@
    }
}

} // verus!
