//! What the router has found out about pairs of pins.

use super::names::SitePinId;
use super::site_brute_router::{ConstrainingElement, PTPRMarker};
use crate::logic_formula::cube::DNFCube;
use crate::logic_formula::term::Term;
use vstd::prelude::*;

verus! {

/// The cubes of a list, as the contracts see them.
pub open spec fn cubes_view(cubes: Seq<DNFCube<ConstrainingElement>>) -> Seq<Seq<Term>> {
    cubes.map_values(|c: DNFCube<ConstrainingElement>| c@)
}

/// The number of leading cubes that have `len` terms at most.
pub open spec fn upper_bound(s: Seq<Seq<Term>>, len: nat) -> int
    decreases s.len(),
{
    if s.len() == 0 || s[0].len() > len {
        0
    } else {
        1 + upper_bound(s.skip(1), len)
    }
}

/// The cubes sorted by their number of terms, the shortest first; cubes of
/// the same length keep their order.
pub open spec fn sort_by_len(s: Seq<Seq<Term>>) -> Seq<Seq<Term>>
    decreases s.len(),
{
    if s.len() == 0 {
        s
    } else {
        let sorted = sort_by_len(s.drop_last());
        sorted.insert(upper_bound(sorted, s.last().len()), s.last())
    }
}

/// The cubes stand in the order of their number of terms.
pub open spec fn ordered_by_len(s: Seq<Seq<Term>>) -> bool {
    forall|i: int, j: int| 0 <= i <= j < s.len() ==> (#[trigger] s[i]).len() <= (#[trigger] s[j]).len()
}

/// The upper bound is the index `at` where every cube before it has `len`
/// terms at most and the cube at it, if any, has more.
pub proof fn lemma_upper_bound(s: Seq<Seq<Term>>, len: nat, at: int)
    requires
        0 <= at <= s.len(),
        forall|k: int| 0 <= k < at ==> (#[trigger] s[k]).len() <= len,
        at < s.len() ==> s[at].len() > len,
    ensures
        upper_bound(s, len) == at,
    decreases s.len(),
{
    if at > 0 {
        assert(s[0].len() <= len);
        let rest = s.skip(1);
        assert forall|k: int| 0 <= k < at - 1 implies (#[trigger] rest[k]).len() <= len by {
            assert(rest[k] == s[k + 1]);
        }
        if at - 1 < rest.len() {
            assert(rest[at - 1] == s[at]);
        }
        lemma_upper_bound(rest, len, at - 1);
    }
}

/// The upper bound lies within the list, behind cubes of `len` terms at
/// most and before a cube of more.
pub proof fn lemma_upper_bound_bounds(s: Seq<Seq<Term>>, len: nat)
    ensures
        0 <= upper_bound(s, len) <= s.len(),
        forall|k: int| 0 <= k < upper_bound(s, len) ==> (#[trigger] s[k]).len() <= len,
        upper_bound(s, len) < s.len() ==> s[upper_bound(s, len)].len() > len,
    decreases s.len(),
{
    if s.len() == 0 || s[0].len() > len {
    } else {
        let rest = s.skip(1);
        lemma_upper_bound_bounds(rest, len);
        let p = upper_bound(rest, len);
        assert forall|k: int| 0 <= k < p + 1 implies (#[trigger] s[k]).len() <= len by {
            if k > 0 {
                assert(rest[k - 1] == s[k]);
            }
        }
        if p + 1 < s.len() {
            assert(rest[p] == s[p + 1]);
        }
    }
}

/// Sorting gives the same cubes, as many of each, in the order of their
/// number of terms.
pub proof fn lemma_sort_by_len(s: Seq<Seq<Term>>)
    ensures
        sort_by_len(s).len() == s.len(),
        ordered_by_len(sort_by_len(s)),
        sort_by_len(s).to_multiset() == s.to_multiset(),
    decreases s.len(),
{
    broadcast use vstd::seq_lib::group_to_multiset_ensures;

    if s.len() > 0 {
        let rest = s.drop_last();
        let last = s.last();
        lemma_sort_by_len(rest);
        let sorted = sort_by_len(rest);
        lemma_upper_bound_bounds(sorted, last.len());
        let p = upper_bound(sorted, last.len());
        let r = sorted.insert(p, last);
        assert forall|i: int, j: int| 0 <= i <= j < r.len() implies (#[trigger] r[i]).len() <= (
        #[trigger] r[j]).len() by {
            let ci = if i < p {
                i
            } else {
                i - 1
            };
            let cj = if j < p {
                j
            } else {
                j - 1
            };
            if i != p {
                assert(r[i] == sorted[ci]);
            }
            if j != p {
                assert(r[j] == sorted[cj]);
            }
            if i == p && j > p {
                assert(sorted[p].len() <= sorted[cj].len());
            }
        }
        assert(r.remove(p) =~= sorted);
        assert(r.remove(p).to_multiset() =~= r.to_multiset().remove(r[p]));
        assert(r.to_multiset().count(last) > 0) by {
            assert(r.contains(r[p]));
        }
        assert(r.to_multiset() =~= sorted.to_multiset().insert(last));
        assert(rest.push(last) =~= s);
        assert(s.to_multiset() =~= rest.to_multiset().insert(last));
    }
}

/// Sorting brings in no terms: where all terms of the cubes are as `pred`
/// asks, so are all terms of the sorted cubes.
pub proof fn lemma_sort_by_len_terms(s: Seq<Seq<Term>>, pred: spec_fn(Term) -> bool)
    requires
        crate::logic_formula::form::all_terms(s, pred),
    ensures
        crate::logic_formula::form::all_terms(sort_by_len(s), pred),
    decreases s.len(),
{
    if s.len() > 0 {
        let rest = s.drop_last();
        let last = s.last();
        assert forall|i: int, j: int| 0 <= i < rest.len() && 0 <= j < rest[i].len() implies pred(
            #[trigger] rest[i][j],
        ) by {
            assert(rest[i] == s[i]);
            assert(pred(s[i][j]));
        }
        lemma_sort_by_len_terms(rest, pred);
        let sorted = sort_by_len(rest);
        lemma_upper_bound_bounds(sorted, last.len());
        let p = upper_bound(sorted, last.len());
        let r = sorted.insert(p, last);
        assert forall|i: int, j: int| 0 <= i < r.len() && 0 <= j < r[i].len() implies pred(
            #[trigger] r[i][j],
        ) by {
            if i < p {
                assert(r[i] == sorted[i]);
                assert(pred(sorted[i][j]));
            } else if i > p {
                assert(r[i] == sorted[i - 1]);
                assert(pred(sorted[i - 1][j]));
            } else {
                assert(r[i] == s[s.len() - 1]);
                assert(pred(s[s.len() - 1][j]));
            }
        }
    }
}

/// The routing relationship of a pair of pins, as the contracts see it.
pub struct PairInfo {
    pub requires: Seq<Seq<Term>>,
    pub implies: Seq<Seq<Term>>,
}

/// The routing relationship of a pair of pins: the cubes of the
/// constraints that a route requires, and the cubes of what it implies.
/// Both are empty if there is no route.
#[derive(Debug)]
pub struct PinPairRoutingInfo {
    pub requires: Vec<DNFCube<ConstrainingElement>>,
    pub implies: Vec<DNFCube<ConstrainingElement>>,
}

impl View for PinPairRoutingInfo {
    type V = PairInfo;

    open spec fn view(&self) -> PairInfo {
        PairInfo { requires: cubes_view(self.requires@), implies: cubes_view(self.implies@) }
    }
}

/// Sorts the cubes by their number of terms, the shortest first.  Cubes of
/// the same length keep their order.
pub fn sort_cubes(cubes: Vec<DNFCube<ConstrainingElement>>) -> (r: Vec<DNFCube<ConstrainingElement>>)
    ensures
        cubes_view(r@) == sort_by_len(cubes_view(cubes@)),
{
    let mut rest = cubes;
    let ghost all = cubes_view(cubes@);
    let n = rest.len();
    let mut out: Vec<DNFCube<ConstrainingElement>> = Vec::new();
    let mut i: usize = 0;
    proof {
        assert(all.take(0) =~= Seq::<Seq<Term>>::empty());
        assert(cubes_view(out@) =~= Seq::<Seq<Term>>::empty());
    }
    while i < n
        invariant
            n == rest@.len(),
            all.len() == n,
            i <= n,
            forall|k: int| i <= k < n ==> (#[trigger] rest@[k])@ == all[k],
            cubes_view(out@) == sort_by_len(all.take(i as int)),
        decreases n - i,
    {
        let mut cube: DNFCube<ConstrainingElement> = DNFCube::new();
        std::mem::swap(&mut rest[i], &mut cube);
        let ghost sorted = cubes_view(out@);
        let mut p: usize = 0;
        while p < out.len() && out[p].len() <= cube.len()
            invariant
                p <= out@.len(),
                sorted == cubes_view(out@),
                forall|k: int| 0 <= k < p ==> (#[trigger] sorted[k]).len() <= cube@.len(),
            decreases out@.len() - p,
        {
            assert(out@[p as int]@ == sorted[p as int]);
            p += 1;
        }
        proof {
            if p < out@.len() {
                assert(out@[p as int]@ == sorted[p as int]);
            }
            lemma_upper_bound(sorted, cube@.len(), p as int);
            let next = all.take(i as int + 1);
            assert(next.drop_last() =~= all.take(i as int));
            assert(next.last() == cube@);
        }
        out.insert(p, cube);
        proof {
            assert(cubes_view(out@) =~= sorted.insert(p as int, cube@));
        }
        i += 1;
    }
    proof {
        assert(all.take(n as int) =~= all);
    }
    out
}

impl PinPairRoutingInfo {
    /// A primitive heuristic for sorting constraints by number of terms.
    /// The idea is that a greedy algorithm would set value of the least
    /// constraints when placing a cell.
    pub fn default_sort(&mut self)
        ensures
            final(self)@ == (PairInfo {
                requires: sort_by_len(old(self)@.requires),
                implies: sort_by_len(old(self)@.implies),
            }),
    {
        let mut implies: Vec<DNFCube<ConstrainingElement>> = Vec::new();
        std::mem::swap(&mut self.implies, &mut implies);
        self.implies = sort_cubes(implies);
        let mut required: Vec<DNFCube<ConstrainingElement>> = Vec::new();
        std::mem::swap(&mut self.requires, &mut required);
        self.requires = sort_cubes(required);
    }

    /// The routing relationship that the formulas of a node stand for: the
    /// cubes of the constraints and of the activators, sorted.
    pub fn from_marker(marker: PTPRMarker) -> (r: Self)
        ensures
            r@ == (PairInfo {
                requires: sort_by_len(marker@.constraints),
                implies: sort_by_len(marker@.activated),
            }),
    {
        let mut me = Self { requires: marker.constraints.cubes, implies: marker.activated.cubes };
        me.default_sort();
        me
    }

    /// Is there nothing to say of the pair: neither a requirement nor an
    /// implication?
    pub fn is_empty(&self) -> (r: bool)
        ensures
            r == (self@.requires.len() == 0 && self@.implies.len() == 0),
    {
        self.requires.len() == 0 && self.implies.len() == 0
    }
}

/// The routing relationship of the pins `from` and `to`, as the contracts
/// see it.
pub struct Entry {
    pub from: int,
    pub to: int,
    pub info: PairInfo,
}

/// The routing relationship of the pins `from` and `to`.
#[derive(Debug)]
pub struct PinPairEntry {
    pub from: SitePinId,
    pub to: SitePinId,
    pub info: PinPairRoutingInfo,
}

impl View for PinPairEntry {
    type V = Entry;

    open spec fn view(&self) -> Entry {
        Entry { from: self.from.0 as int, to: self.to.0 as int, info: self.info@ }
    }
}

/// The entries of a list, as the contracts see them.
pub open spec fn entries_view(entries: Seq<PinPairEntry>) -> Seq<Entry> {
    entries.map_values(|e: PinPairEntry| e@)
}

/// The lists of pins, as the contracts see them.
pub open spec fn pin_lists_view(lists: Seq<Vec<SitePinId>>) -> Seq<Seq<int>> {
    lists.map_values(|l: Vec<SitePinId>| l@.map_values(|p: SitePinId| p.0 as int))
}

/// All that the router has found out about a site.
#[derive(Debug)]
pub struct RoutingInfo {
    /// The routing relationship of every pair of pins that has one, in the
    /// order of the source pins and then of the sink pins.
    pub pin_to_pin_routing: Vec<PinPairEntry>,
    /// For every pin the site ports that can drive it from outside of the
    /// site.
    pub out_of_site_sources: Vec<Vec<SitePinId>>,
    /// For every pin the site ports through which it can drive pins
    /// outside of the site.
    pub out_of_site_sinks: Vec<Vec<SitePinId>>,
    /// Has every expansion come to its end within the steps allowed?
    pub finished: bool,
}

impl RoutingInfo {
    /// The routing relationship of the pins `from` and `to`, if there is
    /// one.
    pub fn get(&self, from: SitePinId, to: SitePinId) -> (r: Option<&PinPairRoutingInfo>)
        ensures
            match r {
                Some(info) => exists|i: int|
                    0 <= i < self.pin_to_pin_routing@.len() && (#[trigger] self.pin_to_pin_routing@[i]).from
                        == from && self.pin_to_pin_routing@[i].to == to && *info
                        == self.pin_to_pin_routing@[i].info,
                None => forall|i: int|
                    0 <= i < self.pin_to_pin_routing@.len() ==> !((
                    #[trigger] self.pin_to_pin_routing@[i]).from == from
                        && self.pin_to_pin_routing@[i].to == to),
            },
    {
        let mut i: usize = 0;
        while i < self.pin_to_pin_routing.len()
            invariant
                i <= self.pin_to_pin_routing@.len(),
                forall|k: int|
                    0 <= k < i ==> !((#[trigger] self.pin_to_pin_routing@[k]).from == from
                        && self.pin_to_pin_routing@[k].to == to),
            decreases self.pin_to_pin_routing@.len() - i,
        {
            let entry = &self.pin_to_pin_routing[i];
            if entry.from == from && entry.to == to {
                return Some(&entry.info);
            }
            i += 1;
        }
        None
    }
}

} // verus!
