//! Choosing what is exported, and naming the files of the exports.

use vstd::prelude::*;
use vstd::string::StringExecFns;

verus! {

/// The name that selects everything for export.
pub open spec fn all_marker() -> Seq<char> {
    ":all"@
}

/// Decides which items are exported.
#[derive(Debug)]
pub struct ExportChecker {
    export: Vec<String>,
    export_all: bool,
}

impl ExportChecker {
    /// The names selected one by one.
    pub closed spec fn selected(&self) -> Seq<Seq<char>> {
        self.export@.map_values(|s: String| s@)
    }

    /// Is everything selected?
    pub closed spec fn selects_all(&self) -> bool {
        self.export_all
    }

    /// What a list of arguments selects: every argument selects the item
    /// of its name, but the argument `:all` selects all items.  Without a
    /// list nothing is selected.
    pub fn new(arg_list: &Option<Vec<String>>) -> (r: Self)
        ensures
            match arg_list {
                Some(args) => {
                    &&& r.selects_all() == args@.map_values(|s: String| s@).contains(all_marker())
                    &&& r.selected() == args@.map_values(|s: String| s@).filter(
                        |s: Seq<char>| s != all_marker(),
                    )
                },
                None => !r.selects_all() && r.selected().len() == 0,
            },
    {
        match arg_list {
            Some(args) => {
                let ghost all = args@.map_values(|s: String| s@);
                let ghost keep = |s: Seq<char>| s != all_marker();
                let marker = String::from_str(":all");
                let mut export_all = false;
                let mut export: Vec<String> = Vec::new();
                let mut i: usize = 0;
                proof {
                    reveal(Seq::filter);
                    assert(all.take(0) =~= Seq::<Seq<char>>::empty());
                    assert(export@.map_values(|s: String| s@) =~= all.take(0).filter(keep));
                }
                while i < args.len()
                    invariant
                        i <= args@.len(),
                        all == args@.map_values(|s: String| s@),
                        keep == |s: Seq<char>| s != all_marker(),
                        marker@ == all_marker(),
                        export_all == all.take(i as int).contains(all_marker()),
                        export@.map_values(|s: String| s@) == all.take(i as int).filter(keep),
                    decreases args@.len() - i,
                {
                    let ghost before = all.take(i as int);
                    let ghost after = all.take(i as int + 1);
                    let ghost listed = export@.map_values(|s: String| s@);
                    proof {
                        reveal(Seq::filter);
                        assert(after.drop_last() =~= before);
                        assert(after.last() == args@[i as int]@);
                        assert(after.contains(all_marker()) == (before.contains(all_marker())
                            || args@[i as int]@ == all_marker())) by {
                            if before.contains(all_marker()) {
                                let k = choose|k: int| 0 <= k < before.len() && before[k] == all_marker();
                                assert(after[k] == all_marker());
                            }
                            if args@[i as int]@ == all_marker() {
                                assert(after[i as int] == all_marker());
                            }
                            if after.contains(all_marker()) {
                                let k = choose|k: int| 0 <= k < after.len() && after[k] == all_marker();
                                if k < i {
                                    assert(before[k] == all_marker());
                                }
                            }
                        }
                    }
                    if args[i] == marker {
                        export_all = true;
                    } else {
                        export.push(args[i].clone());
                        proof {
                            assert(export@.map_values(|s: String| s@) =~= listed.push(
                                args@[i as int]@,
                            ));
                        }
                    }
                    i += 1;
                }
                proof {
                    assert(all.take(args@.len() as int) =~= all);
                }
                Self { export, export_all }
            },
            None => {
                let r = Self { export: Vec::new(), export_all: false };
                assert(r.selected() =~= Seq::<Seq<char>>::empty());
                r
            },
        }
    }

    /// Is the item of the given name exported?
    pub fn should_export(&self, name: &str) -> (r: bool)
        ensures
            r == (self.selects_all() || self.selected().contains(name@)),
    {
        if self.export_all {
            return true;
        }
        let wanted = String::from_str(name);
        let mut i: usize = 0;
        while i < self.export.len()
            invariant
                i <= self.export@.len(),
                wanted@ == name@,
                forall|k: int| 0 <= k < i ==> (#[trigger] self.selected()[k]) != name@,
            decreases self.export@.len() - i,
        {
            assert(self.selected()[i as int] == self.export@[i as int]@);
            if self.export[i] == wanted {
                return true;
            }
            i += 1;
        }
        false
    }
}

/// Exports every item into a file of its own.
#[derive(Debug)]
pub struct MultiFileExporter {
    prefix: String,
    suffix: String,
    checker: ExportChecker,
}

impl MultiFileExporter {
    /// The directory of the files.
    pub closed spec fn directory(&self) -> Seq<char> {
        self.prefix@
    }

    /// The ending of the names of the files.
    pub closed spec fn ending(&self) -> Seq<char> {
        self.suffix@
    }

    /// Which items are exported.
    pub closed spec fn checker(&self) -> ExportChecker {
        self.checker
    }

    /// An exporter for the items that the arguments select.  The files go
    /// to the directory `prefix`, and their names end in `suffix`.
    pub fn new(arg_list: &Option<Vec<String>>, prefix: String, suffix: String) -> (r: Self)
        ensures
            r.directory() == prefix@,
            r.ending() == suffix@,
            match arg_list {
                Some(args) => {
                    &&& r.checker().selects_all() == args@.map_values(|s: String| s@).contains(
                        all_marker(),
                    )
                    &&& r.checker().selected() == args@.map_values(|s: String| s@).filter(
                        |s: Seq<char>| s != all_marker(),
                    )
                },
                None => !r.checker().selects_all() && r.checker().selected().len() == 0,
            },
    {
        Self { prefix, suffix, checker: ExportChecker::new(arg_list) }
    }

    /// The directory of the files.
    pub fn prefix(&self) -> (r: &str)
        ensures
            r@ == self.directory(),
    {
        self.prefix.as_str()
    }

    /// The name of the file for the item of the given name, if the item is
    /// exported: the name of the item with the ending.
    pub fn file_name(&self, name: &str) -> (r: Option<String>)
        ensures
            match r {
                Some(file) => (self.checker().selects_all() || self.checker().selected().contains(
                    name@,
                )) && file@ == name@ + self.ending(),
                None => !(self.checker().selects_all() || self.checker().selected().contains(name@)),
            },
    {
        if self.checker.should_export(name) {
            let mut file = String::from_str(name);
            file.append(self.suffix.as_str());
            Some(file)
        } else {
            None
        }
    }
}

} // verus!
