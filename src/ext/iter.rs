//! Walking a vector in chunks or in overlapping pairs, and folds that may stop early.
use vstd::prelude::*;

verus! {

/// The items of a vector in chunks of `chunk_size` (the last one may be shorter).
#[derive(Debug)]
pub struct Chunks<T> {
    items: Vec<T>,
    pos: usize,
    chunk_size: usize,
}

impl<T> Chunks<T> {
    pub closed spec fn items_spec(&self) -> Seq<T> {
        self.items@
    }

    /// Where the next chunk starts.
    pub closed spec fn pos_spec(&self) -> nat {
        self.pos as nat
    }

    pub closed spec fn size_spec(&self) -> nat {
        self.chunk_size as nat
    }

    pub closed spec fn wf(&self) -> bool {
        self.pos <= self.items@.len()
    }

    pub fn new(items: Vec<T>, chunk_size: usize) -> (r: Chunks<T>)
        ensures
            r.wf(),
            r.items_spec() == items@,
            r.pos_spec() == 0,
            r.size_spec() == chunk_size,
    {
        Chunks { items, pos: 0, chunk_size }
    }
}

impl<T: Copy> Chunks<T> {
    /// The next chunk: the next `chunk_size` items, or all that are left if fewer;
    /// `None` when none are left or the chunk size is 0.
    pub fn next(&mut self) -> (r: Option<Vec<T>>)
        requires
            old(self).wf(),
        ensures
            final(self).wf(),
            final(self).items_spec() == old(self).items_spec(),
            final(self).size_spec() == old(self).size_spec(),
            ({
                let s = old(self).items_spec();
                let p = old(self).pos_spec();
                let e = if p + old(self).size_spec() < s.len() { p + old(self).size_spec() } else { s.len() as nat };
                if p < s.len() && old(self).size_spec() > 0 {
                    r matches Some(c) && c@ == s.subrange(p as int, e as int) && final(self).pos_spec() == e
                } else {
                    r is None && final(self).pos_spec() == p
                }
            }),
    {
        if self.pos >= self.items.len() || self.chunk_size == 0 {
            return None;
        }
        let n = self.items.len();
        let end = if n - self.pos > self.chunk_size { self.pos + self.chunk_size } else { n };
        let mut c: Vec<T> = Vec::new();
        let mut i = self.pos;
        while i < end
            invariant
                self.pos <= i <= end <= self.items@.len(),
                c@ == self.items@.subrange(self.pos as int, i as int),
            decreases end - i,
        {
            c.push(self.items[i]);
            proof {
                assert(self.items@.subrange(self.pos as int, i + 1) == self.items@.subrange(
                    self.pos as int,
                    i as int,
                ).push(self.items@[i as int]));
            }
            i += 1;
        }
        self.pos = end;
        Some(c)
    }
}

/// Splitting a vector into chunks.
pub trait ChunksExt<T>: Sized {
    spec fn items(&self) -> Seq<T>;

    fn chunks(self, chunk_size: usize) -> (r: Chunks<T>)
        ensures
            r.wf(),
            r.items_spec() == self.items(),
            r.pos_spec() == 0,
            r.size_spec() == chunk_size;
}

impl<T: Copy> ChunksExt<T> for Vec<T> {
    open spec fn items(&self) -> Seq<T> {
        self@
    }

    fn chunks(self, chunk_size: usize) -> (r: Chunks<T>) {
        Chunks::new(self, chunk_size)
    }
}

/// The overlapping pairs of consecutive items of a vector: `(a, b)`, `(b, c)`, ...
#[derive(Debug)]
pub struct SlidingWindow<T> {
    items: Vec<T>,
    pos: usize,
}

impl<T> SlidingWindow<T> {
    pub closed spec fn items_spec(&self) -> Seq<T> {
        self.items@
    }

    /// The index of the first item of the next pair.
    pub closed spec fn pos_spec(&self) -> nat {
        self.pos as nat
    }

    pub closed spec fn wf(&self) -> bool {
        self.pos <= self.items@.len()
    }

    pub fn new(items: Vec<T>) -> (r: SlidingWindow<T>)
        ensures
            r.wf(),
            r.items_spec() == items@,
            r.pos_spec() == 0,
    {
        SlidingWindow { items, pos: 0 }
    }
}

impl<T: Copy> SlidingWindow<T> {
    /// The next pair of consecutive items, if there is one.
    pub fn next(&mut self) -> (r: Option<(T, T)>)
        requires
            old(self).wf(),
        ensures
            final(self).wf(),
            final(self).items_spec() == old(self).items_spec(),
            ({
                let s = old(self).items_spec();
                let p = old(self).pos_spec();
                if p + 1 < s.len() {
                    r == Some((s[p as int], s[p as int + 1])) && final(self).pos_spec() == p + 1
                } else {
                    r is None && final(self).pos_spec() == p
                }
            }),
    {
        if self.pos < self.items.len() && self.items.len() - self.pos > 1 {
            let r = (self.items[self.pos], self.items[self.pos + 1]);
            self.pos = self.pos + 1;
            Some(r)
        } else {
            None
        }
    }
}

/// Walking a vector in overlapping pairs.
pub trait SlidingWindowExt<T>: Sized {
    spec fn items(&self) -> Seq<T>;

    fn sliding_window(self) -> (r: SlidingWindow<T>)
        ensures
            r.wf(),
            r.items_spec() == self.items(),
            r.pos_spec() == 0;
}

impl<T: Copy> SlidingWindowExt<T> for Vec<T> {
    open spec fn items(&self) -> Seq<T> {
        self@
    }

    fn sliding_window(self) -> (r: SlidingWindow<T>) {
        SlidingWindow::new(self)
    }
}

/// The state of a fold that may stop early.
#[derive(Debug, PartialEq, Eq)]
pub enum FoldWhile<T> {
    Continue(T),
    Break(T),
}

impl<T> FoldWhile<T> {
    /// The accumulated value, whether the fold goes on or stopped.
    pub fn into_inner(self) -> (r: T)
        ensures
            r == match self {
                FoldWhile::Continue(t) => t,
                FoldWhile::Break(t) => t,
            },
    {
        match self {
            FoldWhile::Continue(t) => t,
            FoldWhile::Break(t) => t,
        }
    }
}

} // verus!
