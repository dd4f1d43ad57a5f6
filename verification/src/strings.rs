//! Pool of interned strings.
//!
//! Names that the library mints itself are kept in a pool and referred to by
//! their position in it.  The pool only grows, so an identifier stays valid
//! and keeps its string for as long as the pool lives.

use vstd::prelude::*;
use vstd::string::StringExecFns;

verus! {

/// Identifies a string of the pool.
#[derive(Copy, Clone, PartialEq, Eq, Structural, Hash, Debug)]
pub struct GlobalStringId(pub usize);

/// The pool of interned strings.
pub struct GlobalStringsCtx {
    strings: Vec<String>,
}

/// A string of the pool, borrowed.
#[derive(Debug)]
pub struct GlobalStringRef<'l> {
    strings: &'l Vec<String>,
    idx: usize,
}

impl<'l> GlobalStringRef<'l> {
    #[verifier::type_invariant]
    spec fn in_pool(self) -> bool {
        self.idx < self.strings@.len()
    }

    /// The characters of the string.
    pub closed spec fn text(&self) -> Seq<char> {
        self.strings@[self.idx as int]@
    }

    /// The string as a slice.
    pub fn as_str(&self) -> (r: &str)
        ensures
            r@ == self.text(),
    {
        proof {
            use_type_invariant(self);
        }
        self.strings[self.idx].as_str()
    }
}

impl View for GlobalStringsCtx {
    type V = Seq<Seq<char>>;

    closed spec fn view(&self) -> Seq<Seq<char>> {
        self.strings@.map_values(|s: String| s@)
    }
}

impl GlobalStringsCtx {
    /// No string is in the pool twice.
    pub open spec fn wf(&self) -> bool {
        forall|i: int, j: int|
            0 <= i < self@.len() && 0 <= j < self@.len() && i != j ==> self@[i] != self@[j]
    }

    /// An empty pool.
    pub fn hold() -> (r: Self)
        ensures
            r@ == Seq::<Seq<char>>::empty(),
            r.wf(),
    {
        let r = Self { strings: Vec::new() };
        assert(r@ =~= Seq::<Seq<char>>::empty());
        r
    }

    /// Get a global identifier for a provided string. Creates a new
    /// identifier if the string was not registered. Returns an existing
    /// identifier if the string has been already registered.
    pub fn create_global_string(&mut self, s: &str) -> (id: GlobalStringId)
        requires
            old(self).wf(),
        ensures
            final(self).wf(),
            id.0 < final(self)@.len(),
            final(self)@[id.0 as int] == s@,
            old(self)@.contains(s@) ==> final(self)@ == old(self)@,
            !old(self)@.contains(s@) ==> final(self)@ == old(self)@.push(s@) && id.0 == old(
                self,
            )@.len(),
    {
        let owned = String::from_str(s);
        let mut i: usize = 0;
        while i < self.strings.len()
            invariant
                self.strings == old(self).strings,
                old(self).wf(),
                i <= self.strings.len(),
                owned@ == s@,
                forall|k: int| 0 <= k < i ==> (#[trigger] self.strings@[k])@ != s@,
            decreases self.strings.len() - i,
        {
            if self.strings[i] == owned {
                assert(self@[i as int] == s@);
                assert(self@ =~= old(self)@);
                return GlobalStringId(i);
            }
            i += 1;
        }
        assert(!old(self)@.contains(s@)) by {
            if old(self)@.contains(s@) {
                let k = choose|k: int| 0 <= k < old(self)@.len() && old(self)@[k] == s@;
                assert(self.strings@[k]@ == s@);
            }
        }
        let id = self.strings.len();
        self.strings.push(owned);
        assert(self@ =~= old(self)@.push(s@));
        GlobalStringId(id)
    }

    /// The identifier of a string, if the string is in the pool.
    pub fn find_global_string(&self, s: &str) -> (r: Option<GlobalStringId>)
        ensures
            match r {
                Some(id) => id.0 < self@.len() && self@[id.0 as int] == s@,
                None => !self@.contains(s@),
            },
    {
        let owned = String::from_str(s);
        let mut i: usize = 0;
        while i < self.strings.len()
            invariant
                i <= self.strings.len(),
                owned@ == s@,
                forall|k: int| 0 <= k < i ==> (#[trigger] self.strings@[k])@ != s@,
            decreases self.strings.len() - i,
        {
            if self.strings[i] == owned {
                assert(self@[i as int] == s@);
                return Some(GlobalStringId(i));
            }
            i += 1;
        }
        assert(!self@.contains(s@)) by {
            if self@.contains(s@) {
                let k = choose|k: int| 0 <= k < self@.len() && self@[k] == s@;
                assert(self.strings@[k]@ == s@);
            }
        }
        None
    }

    /// The string that the identifier stands for.
    pub fn get_global_string<'s>(&'s self, id: GlobalStringId) -> (r: GlobalStringRef<'s>)
        requires
            id.0 < self@.len(),
        ensures
            r.text() == self@[id.0 as int],
    {
        GlobalStringRef { strings: &self.strings, idx: id.0 }
    }

    /// The number of strings in the pool.
    pub fn len(&self) -> (r: usize)
        ensures
            r == self@.len(),
    {
        self.strings.len()
    }
}

} // verus!
