//! Library records: a dependency as declared in the registry, a library
//! node with its derived name and bitness, and the holder that owns the
//! whole graph.

use vstd::prelude::*;
use crate::strutil::{basename, dirname, has_char, has_substr, rfind_char, contains_substr};

verus! {

/// A dependency as stated in the registry: a bare name, and the path under
/// which it is to be looked up (equal to the name when the registry gives
/// only a name).
pub struct DefinedDependency {
    pub name: String,
    pub path: String,
}

impl DefinedDependency {
    pub fn new(name: String, path: String) -> (d: DefinedDependency)
        ensures
            d.name@ == name@,
            d.path@ == path@,
    {
        DefinedDependency { name, path }
    }
}

/// The view of `"lib64"`: the marker that makes a directory 64-bit.
pub open spec fn lib64_marker() -> Seq<char> {
    "lib64"@
}

/// Names of base-platform libraries that are never tracked as dependencies.
pub open spec fn is_excluded_name(n: Seq<char>) -> bool {
    ||| n == "libhidlbase.so"@
    ||| n == "liblog.so"@
    ||| n == "libutils.so"@
    ||| n == "libcutils.so"@
    ||| n == "libc++.so"@
    ||| n == "libc.so"@
    ||| n == "libm.so"@
    ||| n == "libdl.so"@
}

/// The part of a library record that the locator reads: its path, its
/// derived name, and its bitness.
pub struct LibMeta {
    pub path: Seq<char>,
    pub name: Seq<char>,
    pub is_32_bit: bool,
}

/// A library record: its registry path, the name and bitness derived from
/// that path, the declared dependencies, and (after edge resolution) the
/// indices of the records satisfying them.
pub struct Library {
    pub name: String,
    pub path: String,
    pub is_32_bit: bool,
    pub defined_deps: Vec<DefinedDependency>,
    pub found_deps: Vec<usize>,
}

impl Library {
    pub open spec fn meta(self) -> LibMeta {
        LibMeta { path: self.path@, name: self.name@, is_32_bit: self.is_32_bit }
    }

    /// Invariants of a node in a graph of `n` records: the name is the last
    /// path segment, the bitness is derived from the directory portion, no
    /// declared dependency is excluded, and every resolved edge is in range.
    pub open spec fn wf_node(self, n: nat) -> bool {
        &&& has_char(self.path@, '/')
        &&& self.name@ == basename(self.path@)
        &&& self.is_32_bit == !has_substr(dirname(self.path@), lib64_marker())
        &&& forall|k: int|
            0 <= k < self.defined_deps@.len() ==> !is_excluded_name(
                #[trigger] self.defined_deps@[k].name@,
            )
        &&& forall|k: int|
            0 <= k < self.found_deps@.len() ==> (#[trigger] self.found_deps@[k]) < n
    }

    /// Builds a node from its path: the name is the segment after the last
    /// `/`, and the library is 32-bit unless the directory portion contains
    /// `lib64`.  Resolved edges start empty.
    pub fn new(path: String, deps: Vec<DefinedDependency>) -> (lib: Library)
        requires
            has_char(path@, '/'),
        ensures
            lib.path@ == path@,
            lib.name@ == basename(path@),
            lib.is_32_bit == !has_substr(dirname(path@), lib64_marker()),
            lib.defined_deps == deps,
            lib.found_deps@.len() == 0,
    {
        proof {
            crate::strutil::lemma_has_char(path@, '/');
            crate::strutil::lemma_last_idx(path@, '/');
        }
        let n = path.as_str().unicode_len();
        let slash = match rfind_char(path.as_str(), '/') {
            Some(i) => i,
            None => {
                proof {
                    assert(false);
                }
                0
            },
        };
        proof {
            assert(slash as int == crate::strutil::last_idx(path@, '/'));
        }
        let name = path.as_str().substring_char(slash + 1, n).to_owned();
        let dir = path.as_str().substring_char(0, slash);
        let is_32_bit = !contains_substr(dir, "lib64");
        Library { name, path, is_32_bit, defined_deps: deps, found_deps: Vec::new() }
    }
}

// Two libraries are the same record exactly when their paths are equal.
impl PartialEq for Library {
    fn eq(&self, other: &Library) -> (r: bool) {
        crate::strutil::str_eq(self.path.as_str(), other.path.as_str())
    }
}

impl vstd::std_specs::cmp::PartialEqSpecImpl for Library {
    open spec fn obeys_eq_spec() -> bool {
        true
    }

    open spec fn eq_spec(&self, other: &Library) -> bool {
        self.path@ == other.path@
    }
}

impl Eq for Library {

}

/// The metas of a sequence of records, index for index.
pub open spec fn metas(libs: Seq<Library>) -> Seq<LibMeta> {
    Seq::new(libs.len(), |i: int| libs[i].meta())
}

/// Views of a sequence of owned strings, index for index.
pub open spec fn views(ss: Seq<String>) -> Seq<Seq<char>> {
    Seq::new(ss.len(), |i: int| ss[i]@)
}

/// The full, order-preserving collection of library records.  Read-only
/// once built; all other components address records by index into `libs`.
pub struct LibraryHolder {
    pub libs: Vec<Library>,
}

impl LibraryHolder {
    pub open spec fn wf(self) -> bool {
        forall|i: int| 0 <= i < self.libs@.len() ==> (#[trigger] self.libs@[i]).wf_node(self.libs@.len())
    }
}

} // verus!
