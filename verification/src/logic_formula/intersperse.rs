//! Putting a separator between the items of a list.

use vstd::prelude::*;
use vstd::string::StringExecFns;

verus! {

/// What is still to come of the items from `at` on with the separator
/// between them; `needs_sep` says that the separator comes first.
pub open spec fn pending(
    items: Seq<Seq<char>>,
    separator: Seq<char>,
    at: int,
    needs_sep: bool,
) -> Seq<Seq<char>>
    decreases items.len() - at, if needs_sep { 1int } else { 0int },
{
    if at < 0 || at >= items.len() {
        Seq::empty()
    } else if needs_sep {
        seq![separator] + pending(items, separator, at, false)
    } else {
        seq![items[at]] + pending(items, separator, at + 1, true)
    }
}

/// The items with the separator between every two of them.
pub open spec fn interspersed(items: Seq<Seq<char>>, separator: Seq<char>) -> Seq<Seq<char>> {
    pending(items, separator, 0, false)
}

/// The texts put one after the other.
pub open spec fn concat(parts: Seq<Seq<char>>) -> Seq<char>
    decreases parts.len(),
{
    if parts.len() == 0 {
        Seq::empty()
    } else {
        parts[0] + concat(parts.skip(1))
    }
}

/// The items put one after the other with the separator between every two
/// of them.
pub open spec fn joined(items: Seq<Seq<char>>, separator: Seq<char>) -> Seq<char> {
    concat(interspersed(items, separator))
}

/// Between `n` items stand `n - 1` separators.
pub proof fn lemma_pending_len(items: Seq<Seq<char>>, separator: Seq<char>, at: int, needs_sep: bool)
    requires
        0 <= at <= items.len(),
    ensures
        pending(items, separator, at, needs_sep).len() == if at == items.len() {
            0
        } else {
            2 * (items.len() - at) - 1 + if needs_sep {
                1int
            } else {
                0int
            }
        },
    decreases items.len() - at, if needs_sep { 1int } else { 0int },
{
    if at >= items.len() {
    } else if needs_sep {
        lemma_pending_len(items, separator, at, false);
    } else {
        lemma_pending_len(items, separator, at + 1, true);
    }
}

/// Yields the items of a list with a separator between every two of them.
#[derive(Debug)]
pub struct Intersperse {
    separator: String,
    items: Vec<String>,
    at: usize,
    needs_sep: bool,
}

impl Intersperse {
    /// What is still to come.
    pub closed spec fn rest(&self) -> Seq<Seq<char>> {
        pending(
            self.items@.map_values(|s: String| s@),
            self.separator@,
            self.at as int,
            self.needs_sep,
        )
    }

    fn new(items: Vec<String>, separator: String) -> (r: Self)
        ensures
            r.rest() == interspersed(items@.map_values(|s: String| s@), separator@),
    {
        Self { separator, items, at: 0, needs_sep: false }
    }

    /// The next item or separator, if anything is still to come.
    pub fn next(&mut self) -> (r: Option<String>)
        ensures
            match r {
                Some(s) => {
                    &&& old(self).rest().len() > 0
                    &&& s@ == old(self).rest()[0]
                    &&& final(self).rest() == old(self).rest().skip(1)
                },
                None => old(self).rest().len() == 0 && final(self).rest() == old(self).rest(),
            },
    {
        let ghost items = self.items@.map_values(|s: String| s@);
        if self.at >= self.items.len() {
            None
        } else if self.needs_sep {
            self.needs_sep = false;
            proof {
                let after = pending(items, self.separator@, self.at as int, false);
                assert((seq![self.separator@] + after).skip(1) =~= after);
            }
            Some(self.separator.clone())
        } else {
            let item = self.items[self.at].clone();
            proof {
                let after = pending(items, self.separator@, self.at as int + 1, true);
                assert((seq![items[self.at as int]] + after).skip(1) =~= after);
                assert(items[self.at as int] == self.items@[self.at as int]@);
            }
            self.needs_sep = true;
            self.at = self.at + 1;
            Some(item)
        }
    }

    /// All that is still to come, appended to `init`.
    pub fn fold(self, init: String) -> (r: String)
        ensures
            r@ == init@ + concat(self.rest()),
    {
        let mut me = self;
        let mut out = init;
        let ghost all = self.rest();
        loop
            invariant
                all == self.rest(),
                out@ + concat(me.rest()) == init@ + concat(all),
            decreases me.rest().len(),
        {
            let ghost before = me.rest();
            let ghost text = out@;
            match me.next() {
                Some(part) => {
                    out.append(part.as_str());
                    proof {
                        assert(concat(before) == before[0] + concat(before.skip(1)));
                        assert(text + (before[0] + concat(before.skip(1))) =~= (text + before[0])
                            + concat(before.skip(1)));
                    }
                },
                None => {
                    proof {
                        assert(concat(before) =~= Seq::<char>::empty());
                        assert(out@ + Seq::<char>::empty() =~= out@);
                        assert(out@ == init@ + concat(all));
                    }
                    return out;
                },
            }
        }
    }
}

/// Lists whose items can be yielded with a separator between them.
pub trait MakeIntersperse: Sized {
    /// The items of the list, as the contracts see them.
    spec fn texts(&self) -> Seq<Seq<char>>;

    /// The items with the separator between every two of them.
    fn tmp_intersperse(self, separator: String) -> (r: Intersperse)
        ensures
            r.rest() == interspersed(self.texts(), separator@),
    ;
}

impl MakeIntersperse for Vec<String> {
    open spec fn texts(&self) -> Seq<Seq<char>> {
        self@.map_values(|s: String| s@)
    }

    fn tmp_intersperse(self, separator: String) -> (r: Intersperse) {
        Intersperse::new(self, separator)
    }
}

/// Puts the items one after the other with the separator between every two
/// of them.
pub fn join(items: Vec<String>, separator: &str) -> (r: String)
    ensures
        r@ == joined(items@.map_values(|s: String| s@), separator@),
{
    let r = items.tmp_intersperse(String::from_str(separator)).fold(String::new());
    proof {
        let all = joined(items@.map_values(|s: String| s@), separator@);
        assert(Seq::<char>::empty() + all =~= all);
    }
    r
}

} // verus!
