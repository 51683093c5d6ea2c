//! Filesystem locations as sequences of path components.
//!
//! A location is held as the list of its components, outermost first, so that
//! two locations are the same exactly when their components are the same, the
//! parent of a location is the location without its final component, and the
//! display name of a location is its final component.

use vstd::prelude::*;

verus! {

/// The mathematical model of a location: its components, outermost first.
pub type PathView = Seq<Seq<char>>;

/// The location that contains `path`: `path` without its final component.
/// A location without components has no parent.
pub open spec fn parent_of(path: PathView) -> Option<PathView> {
    if path.len() > 0 {
        Some(path.drop_last())
    } else {
        None
    }
}

/// The parent of `path`, or `fallback` where `path` has no parent.
pub open spec fn parent_or(path: PathView, fallback: PathView) -> PathView {
    match parent_of(path) {
        Some(parent) => parent,
        None => fallback,
    }
}

/// The display name of `path`: its final component, or the empty name where
/// `path` has no component.
pub open spec fn name_of(path: PathView) -> Seq<char> {
    if path.len() > 0 {
        path.last()
    } else {
        Seq::empty()
    }
}

/// `path` lies directly inside `dir`.
pub open spec fn is_child_of(path: PathView, dir: PathView) -> bool {
    parent_of(path) == Some(dir)
}

/// `path` begins with all the components of `base`.
pub open spec fn starts_with(path: PathView, base: PathView) -> bool {
    base.len() <= path.len() && path.take(base.len() as int) == base
}

/// A location lies in `dir` or in an immediate subdirectory of `dir`
/// exactly when it begins with `dir` and has one or two components more.
pub proof fn lemma_parent_within_one_level(path: PathView, dir: PathView)
    requires
        path.len() > 0,
    ensures
        parent_of(path) == Some(dir) <==> path.len() == dir.len() + 1 && starts_with(path, dir),
        is_child_of(path.drop_last(), dir) <==> path.len() == dir.len() + 2 && starts_with(
            path,
            dir,
        ),
{
    let parent = path.drop_last();
    if path.len() == dir.len() + 1 {
        assert(path.take(dir.len() as int) =~= parent);
    }
    if path.len() == dir.len() + 2 {
        assert(path.take(dir.len() as int) =~= parent.drop_last());
    }
}

/// A filesystem location, held as its path components.
#[derive(Debug, PartialEq, Eq)]
pub struct ScanPath {
    pub parts: Vec<String>,
}

impl View for ScanPath {
    type V = PathView;

    open spec fn view(&self) -> PathView {
        Seq::new(self.parts@.len(), |i: int| self.parts@[i]@)
    }
}

impl Clone for ScanPath {
    fn clone(&self) -> (copy: Self)
        ensures
            copy@ == self@,
    {
        let copy = self.prefix(self.parts.len());
        assert(copy@ =~= self@);
        copy
    }
}

impl ScanPath {
    /// The location made of `parts`, outermost first.
    pub fn new(parts: Vec<String>) -> (path: Self)
        ensures
            path.parts == parts,
    {
        ScanPath { parts }
    }

    /// The number of components.
    pub fn len(&self) -> (n: usize)
        ensures
            n == self@.len(),
    {
        self.parts.len()
    }

    /// The location made of the first `n` components of this one.
    pub fn prefix(&self, n: usize) -> (head: Self)
        requires
            n <= self@.len(),
        ensures
            head@ == self@.take(n as int),
    {
        let mut parts: Vec<String> = Vec::new();
        let mut i: usize = 0;
        while i < n
            invariant
                i <= n <= self.parts@.len(),
                parts@.len() == i,
                forall|j: int| 0 <= j < i ==> parts@[j]@ == self.parts@[j]@,
            decreases n - i,
        {
            parts.push(self.parts[i].clone());
            i += 1;
        }
        let head = ScanPath { parts };
        assert(head@ =~= self@.take(n as int));
        head
    }

    /// Whether the two locations have the same components.
    pub fn same_as(&self, other: &ScanPath) -> (same: bool)
        ensures
            same == (self@ == other@),
    {
        if self.parts.len() != other.parts.len() {
            assert(self@.len() != other@.len());
            return false;
        }
        let mut i: usize = 0;
        while i < self.parts.len()
            invariant
                i <= self.parts@.len(),
                self.parts@.len() == other.parts@.len(),
                forall|j: int| 0 <= j < i ==> self.parts@[j]@ == other.parts@[j]@,
            decreases self.parts@.len() - i,
        {
            if self.parts[i] != other.parts[i] {
                assert(self@[i as int] != other@[i as int]);
                return false;
            }
            i += 1;
        }
        assert(self@ =~= other@);
        true
    }

    /// Whether this location begins with all the components of `base`.
    pub fn starts_with(&self, base: &ScanPath) -> (begins: bool)
        ensures
            begins == starts_with(self@, base@),
    {
        let n = base.parts.len();
        if n > self.parts.len() {
            return false;
        }
        let mut i: usize = 0;
        while i < n
            invariant
                i <= n,
                n == base.parts@.len(),
                n <= self.parts@.len(),
                forall|j: int| 0 <= j < i ==> self.parts@[j]@ == base.parts@[j]@,
            decreases n - i,
        {
            if self.parts[i] != base.parts[i] {
                assert(self@.take(n as int)[i as int] != base@[i as int]);
                return false;
            }
            i += 1;
        }
        assert(self@.take(n as int) =~= base@);
        true
    }

    /// The parent location, where there is one.
    pub fn parent(&self) -> (parent: Option<ScanPath>)
        ensures
            match parent {
                Some(p) => parent_of(self@) == Some(p@),
                None => parent_of(self@).is_none(),
            },
    {
        let n = self.parts.len();
        if n == 0 {
            None
        } else {
            Some(self.prefix(n - 1))
        }
    }

    /// The parent location, or a copy of `fallback` where there is none.
    pub fn parent_or(&self, fallback: &ScanPath) -> (parent: ScanPath)
        ensures
            parent@ == parent_or(self@, fallback@),
    {
        match self.parent() {
            Some(p) => p,
            None => fallback.clone(),
        }
    }

    /// The display name: the final component, or the empty name.
    pub fn name(&self) -> (name: String)
        ensures
            name@ == name_of(self@),
    {
        let n = self.parts.len();
        if n == 0 {
            String::new()
        } else {
            self.parts[n - 1].clone()
        }
    }

    /// Whether this location lies directly inside `dir`.
    pub fn is_child_of(&self, dir: &ScanPath) -> (inside: bool)
        ensures
            inside == is_child_of(self@, dir@),
    {
        match self.parent() {
            Some(p) => p.same_as(dir),
            None => false,
        }
    }
}

} // verus!
