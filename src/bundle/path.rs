//! Module paths and the set of module paths an entry unit uses.
use vstd::prelude::*;

verus! {

/// The views of a sequence of names.
pub open spec fn names_view(v: Seq<String>) -> Seq<Seq<char>> {
    v.map_values(|s: String| s@)
}

/// `p` is a prefix of `q`, or equal to it.
pub open spec fn is_prefix_of(p: Seq<Seq<char>>, q: Seq<Seq<char>>) -> bool {
    p.len() <= q.len() && q.subrange(0, p.len() as int) == p
}

/// A module below the library root, named by its segments (`["math", "gcd"]`).
#[derive(Debug)]
pub struct ModulePath {
    pub segments: Vec<String>,
}

impl View for ModulePath {
    type V = Seq<Seq<char>>;

    open spec fn view(&self) -> Seq<Seq<char>> {
        names_view(self.segments@)
    }
}

pub proof fn lemma_names_push(s: Seq<String>, x: String)
    ensures
        names_view(s.push(x)) == names_view(s).push(x@),
{
    assert(names_view(s.push(x)) =~= names_view(s).push(x@));
}

/// Copies a list of names.
pub fn clone_names(v: &Vec<String>) -> (r: Vec<String>)
    ensures
        names_view(r@) == names_view(v@),
{
    let mut r: Vec<String> = Vec::new();
    let mut i: usize = 0;
    while i < v.len()
        invariant
            i <= v.len(),
            names_view(r@) == names_view(v@.subrange(0, i as int)),
        decreases v.len() - i,
    {
        let ghost before = r@;
        r.push(v[i].clone());
        proof {
            assert(r@ == before.push(v@[i as int]));
            lemma_names_push(before, v@[i as int]);
            lemma_names_push(v@.subrange(0, i as int), v@[i as int]);
            assert(v@.subrange(0, i + 1) == v@.subrange(0, i as int).push(v@[i as int]));
        }
        i += 1;
    }
    proof {
        assert(v@.subrange(0, v.len() as int) == v@);
    }
    r
}

/// Whether two lists of names are equal, name by name.
pub fn names_eq(a: &Vec<String>, b: &Vec<String>) -> (r: bool)
    ensures
        r == (names_view(a@) == names_view(b@)),
{
    if a.len() != b.len() {
        proof {
            assert(names_view(a@).len() != names_view(b@).len());
        }
        return false;
    }
    let mut i: usize = 0;
    while i < a.len()
        invariant
            i <= a.len(),
            a.len() == b.len(),
            forall|j: int| 0 <= j < i ==> a@[j]@ == b@[j]@,
        decreases a.len() - i,
    {
        if a[i] != b[i] {
            proof {
                assert(names_view(a@)[i as int] != names_view(b@)[i as int]);
            }
            return false;
        }
        i += 1;
    }
    proof {
        assert(names_view(a@) =~= names_view(b@));
    }
    true
}

/// Whether the first `p.len()` names of `q` are those of `p`.
pub fn names_prefix(p: &Vec<String>, q: &Vec<String>) -> (r: bool)
    ensures
        r == is_prefix_of(names_view(p@), names_view(q@)),
{
    if p.len() > q.len() {
        return false;
    }
    let mut i: usize = 0;
    while i < p.len()
        invariant
            i <= p.len() <= q.len(),
            forall|j: int| 0 <= j < i ==> p@[j]@ == q@[j]@,
        decreases p.len() - i,
    {
        if p[i] != q[i] {
            proof {
                assert(names_view(q@).subrange(0, p.len() as int)[i as int] != names_view(p@)[i as int]);
            }
            return false;
        }
        i += 1;
    }
    proof {
        assert(names_view(q@).subrange(0, p.len() as int) =~= names_view(p@));
    }
    true
}

impl ModulePath {
    /// A path of one segment.
    pub fn single(name: String) -> (r: ModulePath)
        ensures
            r@ == seq![name@],
    {
        let mut segments: Vec<String> = Vec::new();
        segments.push(name);
        proof {
            assert(names_view(segments@) =~= seq![name@]);
        }
        ModulePath { segments }
    }

    /// This path extended by one segment.
    pub fn child(&self, name: String) -> (r: ModulePath)
        ensures
            r@ == self@.push(name@),
    {
        let mut segments = clone_names(&self.segments);
        segments.push(name);
        proof {
            assert(names_view(segments@) =~= names_view(self.segments@).push(name@));
        }
        ModulePath { segments }
    }

    pub fn len(&self) -> (r: usize)
        ensures
            r == self@.len(),
    {
        self.segments.len()
    }
}

/// Whether a module at `p` is kept: `p` is some used path or an ancestor of one.
pub open spec fn allowed(used: Set<Seq<Seq<char>>>, p: Seq<Seq<char>>) -> bool {
    exists|q: Seq<Seq<char>>| used.contains(q) && is_prefix_of(p, q)
}

/// The module paths that an entry unit names.  No path in it is empty.
pub struct UsedModuleSet {
    paths: Vec<ModulePath>,
    bound: Ghost<nat>,
}

impl View for UsedModuleSet {
    type V = Set<Seq<Seq<char>>>;

    closed spec fn view(&self) -> Set<Seq<Seq<char>>> {
        Set::new(|q: Seq<Seq<char>>| exists|i: int| 0 <= i < self.paths@.len() && self.paths@[i]@ == q)
    }
}

impl UsedModuleSet {
    /// No path in the set is empty, and none is longer than `depth_bound`.
    pub closed spec fn wf(&self) -> bool {
        forall|i: int|
            0 <= i < self.paths@.len() ==> 0 < #[trigger] self.paths@[i]@.len() <= self.bound@
    }

    /// A bound on the length of the paths in the set.
    pub closed spec fn depth_bound(&self) -> nat {
        self.bound@
    }

    pub proof fn lemma_wf(&self)
        requires
            self.wf(),
        ensures
            forall|q: Seq<Seq<char>>| #[trigger] self@.contains(q) ==> 0 < q.len() <= self.depth_bound(),
    {
        assert forall|q: Seq<Seq<char>>| #[trigger] self@.contains(q) implies 0 < q.len()
            <= self.depth_bound() by {
            let i = choose|i: int| 0 <= i < self.paths@.len() && self.paths@[i]@ == q;
            assert(0 < self.paths@[i]@.len() <= self.bound@);
        }
    }

    /// A path that is allowed is no longer than the bound.
    pub proof fn lemma_allowed_bounded(&self, p: Seq<Seq<char>>)
        requires
            self.wf(),
            allowed(self@, p),
        ensures
            p.len() <= self.depth_bound(),
    {
        self.lemma_wf();
    }

    pub fn new() -> (r: UsedModuleSet)
        ensures
            r@ == Set::<Seq<Seq<char>>>::empty(),
            r.wf(),
    {
        let r = UsedModuleSet { paths: Vec::new(), bound: Ghost(0) };
        proof {
            assert(r@ =~= Set::<Seq<Seq<char>>>::empty());
        }
        r
    }

    /// Whether `p` is in the set.
    pub fn contains(&self, p: &ModulePath) -> (r: bool)
        ensures
            r == self@.contains(p@),
    {
        let mut i: usize = 0;
        while i < self.paths.len()
            invariant
                i <= self.paths@.len(),
                forall|j: int| 0 <= j < i ==> self.paths@[j]@ != p@,
            decreases self.paths.len() - i,
        {
            if names_eq(&self.paths[i].segments, &p.segments) {
                return true;
            }
            i += 1;
        }
        false
    }

    /// Adds a path to the set.
    pub fn insert(&mut self, p: ModulePath)
        requires
            old(self).wf(),
            p@.len() > 0,
        ensures
            final(self)@ == old(self)@.insert(p@),
            final(self).wf(),
    {
        if self.contains(&p) {
            proof {
                assert(self@ =~= self@.insert(p@));
            }
            return;
        }
        let ghost before = self@;
        let ghost old_paths = self.paths@;
        let ghost pv = p@;
        let ghost new_bound = if pv.len() > self.bound@ { pv.len() } else { self.bound@ };
        self.paths.push(p);
        self.bound = Ghost(new_bound);
        proof {
            assert(self.paths@ == old_paths.push(p));
            assert forall|q: Seq<Seq<char>>| self@.contains(q) <==> before.insert(pv).contains(q) by {
                if before.contains(q) {
                    let i = choose|i: int| 0 <= i < old_paths.len() && old_paths[i]@ == q;
                    assert(self.paths@[i]@ == q);
                }
                if q == pv {
                    assert(self.paths@[self.paths@.len() - 1]@ == q);
                }
                if self@.contains(q) {
                    let i = choose|i: int| 0 <= i < self.paths@.len() && self.paths@[i]@ == q;
                    if i < old_paths.len() {
                        assert(old_paths[i]@ == q);
                    }
                }
            }
            assert(self@ =~= before.insert(pv));
        }
    }

    /// Whether the module at `p` is kept: `p` is a prefix of, or equal to, some used path.
    pub fn is_allowed(&self, p: &ModulePath) -> (r: bool)
        ensures
            r == allowed(self@, p@),
    {
        let mut i: usize = 0;
        while i < self.paths.len()
            invariant
                i <= self.paths@.len(),
                forall|j: int| 0 <= j < i ==> !is_prefix_of(p@, #[trigger] self.paths@[j]@),
            decreases self.paths.len() - i,
        {
            if names_prefix(&p.segments, &self.paths[i].segments) {
                proof {
                    assert(self@.contains(self.paths@[i as int]@));
                }
                return true;
            }
            i += 1;
        }
        proof {
            assert forall|q: Seq<Seq<char>>| self@.contains(q) implies !is_prefix_of(p@, q) by {
                let j = choose|j: int| 0 <= j < self.paths@.len() && self.paths@[j]@ == q;
                assert(!is_prefix_of(p@, self.paths@[j]@));
            }
        }
        false
    }
}

} // verus!
