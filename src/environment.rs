use vstd::prelude::*;
use crate::types::{copy_strings, same, Value};

verus! {

/// One frame: its bindings, in the order they were made.
pub type Frame = Seq<(String, Value)>;

/// The value bound to `name` in one frame.
pub open spec fn frame_get(f: Frame, name: Seq<char>) -> Option<Value>
    decreases f.len(),
{
    if f.len() == 0 {
        None
    } else if f[0].0@ == name {
        Some(f[0].1)
    } else {
        frame_get(f.drop_first(), name)
    }
}

/// The texts of some strings.
pub open spec fn string_texts(v: Seq<String>) -> Seq<Seq<char>> {
    v.map_values(|s: String| s@)
}

/// A table of loaded files: each name with its top-level expressions.
pub type SourceTable = Seq<(Seq<char>, Seq<Seq<char>>)>;

/// The expressions of the first file named `name` in the table.
pub open spec fn source_get(t: SourceTable, name: Seq<char>) -> Option<Seq<Seq<char>>>
    decreases t.len(),
{
    if t.len() == 0 {
        None
    } else if t[0].0 == name {
        Some(t[0].1)
    } else {
        source_get(t.drop_first(), name)
    }
}

/// One frame of the arena: its bindings and the number of its parent frame.
pub type Cell = (Frame, Option<usize>);

/// What `name` resolves to from frame `i` of `cells`: that frame's binding,
/// else its parent's, and so on up the chain.
pub open spec fn chain_from(cells: Seq<Cell>, i: int, name: Seq<char>) -> Option<Value>
    decreases i,
{
    if !(0 <= i < cells.len()) {
        None
    } else {
        match frame_get(cells[i].0, name) {
            Some(v) => Some(v),
            None => match cells[i].1 {
                Some(p) => if 0 <= p < i {
                    chain_from(cells, p as int, name)
                } else {
                    None
                },
                None => None,
            },
        }
    }
}

/// The parent of a frame, if it has one, comes before it.
pub open spec fn parent_before(c: Cell, i: int) -> bool {
    match c.1 {
        Some(p) => p < i,
        None => true,
    }
}

/// A copy of one frame.
pub(crate) fn copy_frame(f: &Vec<(String, Value)>) -> (g: Vec<(String, Value)>)
    ensures
        g@.len() == f@.len(),
        forall|b: int| 0 <= b < f@.len() ==> (#[trigger] g@[b]).0@ == f@[b].0@ && same(g@[b].1, f@[b].1),
{
    let mut g: Vec<(String, Value)> = Vec::new();
    let mut j: usize = 0;
    while j < f.len()
        invariant
            j <= f@.len(),
            g@.len() == j,
            forall|b: int| 0 <= b < j ==> (#[trigger] g@[b]).0@ == f@[b].0@ && same(g@[b].1, f@[b].1),
        decreases f@.len() - j,
    {
        g.push((f[j].0.clone(), f[j].1.copy()));
        j = j + 1;
    }
    g
}

/// The frames of an interpreter, kept in one arena and shared by number: each
/// frame binds names and has a parent frame, except the global frame, number 0.
/// Evaluation happens in the current frame. A procedure keeps the number of
/// the frame it was made in, and a call makes a child of that frame. The
/// environment also keeps the files that the host has read for `load`.
pub struct Environment {
    frames: Vec<(Vec<(String, Value)>, Option<usize>)>,
    current: usize,
    pinned: usize,
    sources: Vec<(String, Vec<String>)>,
    missing: Option<String>,
}

impl Environment {
    /// The frames, by number.
    pub closed spec fn cells(&self) -> Seq<Cell> {
        self.frames@.map_values(|c: (Vec<(String, Value)>, Option<usize>)| (c.0@, c.1))
    }

    /// The number of the current frame.
    pub closed spec fn cur(&self) -> int {
        self.current as int
    }

    /// Frames from this number on were made since the last closure was made
    /// (no procedure refers to them).
    pub closed spec fn pin(&self) -> int {
        self.pinned as int
    }

    /// The files read for `load`, by name.
    pub closed spec fn table(&self) -> SourceTable {
        self.sources@.map_values(|p: (String, Vec<String>)| (p.0@, string_texts(p.1@)))
    }

    /// The file that a `load` last asked for and that the table lacked.
    pub closed spec fn missing(&self) -> Option<Seq<char>> {
        match self.missing {
            Some(m) => Some(m@),
            None => None,
        }
    }

    /// The global frame exists, the current frame exists, and every parent
    /// comes before its child.
    pub open spec fn wf(&self) -> bool {
        &&& self.cells().len() >= 1
        &&& 0 <= self.cur() < self.cells().len()
        &&& 0 <= self.pin() <= self.cells().len()
        &&& forall|i: int| 0 <= i < self.cells().len() ==> parent_before(#[trigger] self.cells()[i], i)
    }

    /// What a name resolves to from the current frame.
    pub open spec fn lookup(&self, name: Seq<char>) -> Option<Value> {
        chain_from(self.cells(), self.cur(), name)
    }

    /// A global frame and nothing else.
    pub fn new() -> (r: Self)
        ensures
            r.wf(),
            r.cells() == seq![(Seq::<(String, Value)>::empty(), None::<usize>)],
            r.cur() == 0,
            r.pin() == 0,
            r.table() == Seq::<(Seq<char>, Seq<Seq<char>>)>::empty(),
            r.missing() is None,
    {
        let mut frames: Vec<(Vec<(String, Value)>, Option<usize>)> = Vec::new();
        frames.push((Vec::new(), None));
        let r = Environment { frames, current: 0, pinned: 0, sources: Vec::new(), missing: None };
        proof {
            assert(r.cells() =~= seq![(Seq::<(String, Value)>::empty(), None::<usize>)]);
            assert(r.table() =~= Seq::<(Seq<char>, Seq<Seq<char>>)>::empty());
        }
        r
    }

    /// `enclosing` with a new, empty frame, a child of its current one, made
    /// current.
    pub fn new_with_enclosing(enclosing: Environment) -> (r: Self)
        requires
            enclosing.wf(),
        ensures
            r.wf(),
            r.cells() == enclosing.cells().push((Seq::empty(), Some(enclosing.cur() as usize))),
            r.cur() == enclosing.cells().len(),
            r.pin() == enclosing.pin(),
            r.table() == enclosing.table(),
            r.missing() == enclosing.missing(),
    {
        let mut r = enclosing;
        let c = r.current;
        r.push_child(c);
        r
    }

    /// Makes a new, empty frame, a child of frame `parent`, and makes it
    /// current.
    pub fn push_child(&mut self, parent: usize)
        requires
            old(self).wf(),
            parent < old(self).cells().len(),
        ensures
            final(self).wf(),
            final(self).cells() == old(self).cells().push((Seq::empty(), Some(parent))),
            final(self).cur() == old(self).cells().len(),
            final(self).pin() == old(self).pin(),
            final(self).table() == old(self).table(),
            final(self).missing() == old(self).missing(),
    {
        let n = self.frames.len();
        self.frames.push((Vec::new(), Some(parent)));
        self.current = n;
        proof {
            assert(self.cells() =~= old(self).cells().push((Seq::empty(), Some(parent))));
        }
    }

    /// Makes frame `c` current.
    pub fn set_current(&mut self, c: usize)
        requires
            old(self).wf(),
            c < old(self).cells().len(),
        ensures
            final(self).wf(),
            final(self).cells() == old(self).cells(),
            final(self).cur() == c,
            final(self).pin() == old(self).pin(),
            final(self).table() == old(self).table(),
            final(self).missing() == old(self).missing(),
    {
        self.current = c;
    }

    /// Notes that a procedure now refers to the current frame.
    pub fn pin_current(&mut self)
        requires
            old(self).wf(),
        ensures
            final(self).wf(),
            final(self).cells() == old(self).cells(),
            final(self).cur() == old(self).cur(),
            final(self).pin() == if old(self).pin() > old(self).cur() + 1 {
                old(self).pin()
            } else {
                old(self).cur() + 1
            },
            final(self).table() == old(self).table(),
            final(self).missing() == old(self).missing(),
    {
        let n = self.frames.len();
        if self.pinned <= self.current {
            assert(self.current < n);
            self.pinned = self.current + 1;
        }
    }

    /// Drops the frames from number `n` on, which no procedure refers to.
    pub fn release_from(&mut self, n: usize)
        requires
            old(self).wf(),
            old(self).cur() < n <= old(self).cells().len(),
            old(self).pin() <= n,
        ensures
            final(self).wf(),
            final(self).cells() == old(self).cells().subrange(0, n as int),
            final(self).cur() == old(self).cur(),
            final(self).pin() == old(self).pin(),
            final(self).table() == old(self).table(),
            final(self).missing() == old(self).missing(),
    {
        self.frames.truncate(n);
        proof {
            assert(self.cells() =~= old(self).cells().subrange(0, n as int));
        }
    }

    /// The number of the current frame.
    pub fn current(&self) -> (r: usize)
        ensures
            r == self.cur(),
    {
        self.current
    }

    /// The number of frames.
    pub fn frame_count(&self) -> (r: usize)
        ensures
            r == self.cells().len(),
    {
        self.frames.len()
    }

    /// Where frames may be released: see `pin`.
    pub fn pinned(&self) -> (r: usize)
        ensures
            r == self.pin(),
    {
        self.pinned
    }

    /// Adds a file's expressions to the table, after those already there.
    pub fn add_source(&mut self, name: &str, exprs: Vec<String>)
        ensures
            final(self).cells() == old(self).cells(),
            final(self).cur() == old(self).cur(),
            final(self).pin() == old(self).pin(),
            final(self).table() == old(self).table().push((name@, string_texts(exprs@))),
            final(self).missing() == old(self).missing(),
    {
        self.sources.push((name.to_owned(), exprs));
        proof {
            assert(self.cells() =~= old(self).cells());
            assert(self.table() =~= old(self).table().push((name@, string_texts(exprs@))));
        }
    }

    /// The expressions of the file `name` in the table, copied.
    pub fn find_source(&self, name: &String) -> (r: Option<Vec<String>>)
        ensures
            match (r, source_get(self.table(), name@)) {
                (Some(a), Some(b)) => string_texts(a@) == b,
                (None, None) => true,
                _ => false,
            },
    {
        let ghost t = self.table();
        let mut i: usize = 0;
        assert(t.subrange(0, t.len() as int) =~= t);
        while i < self.sources.len()
            invariant
                i <= self.sources@.len(),
                t == self.table(),
                source_get(t, name@) == source_get(t.subrange(i as int, t.len() as int), name@),
            decreases self.sources@.len() - i,
        {
            let ghost rest = t.subrange(i as int, t.len() as int);
            proof {
                assert(rest.drop_first() =~= t.subrange(i + 1, t.len() as int));
                assert(rest[0] == t[i as int]);
                assert(t[i as int].0 == self.sources@[i as int].0@);
            }
            if self.sources[i].0.eq(name) {
                return Some(copy_strings(&self.sources[i].1));
            }
            i = i + 1;
        }
        proof {
            assert(t.subrange(i as int, t.len() as int) =~= Seq::<(Seq<char>, Seq<Seq<char>>)>::empty());
        }
        None
    }

    /// Records that a `load` asked for `name`, which the table lacks.
    pub fn set_missing(&mut self, name: String)
        ensures
            final(self).cells() == old(self).cells(),
            final(self).cur() == old(self).cur(),
            final(self).pin() == old(self).pin(),
            final(self).table() == old(self).table(),
            final(self).missing() == Some(name@),
    {
        self.missing = Some(name);
    }

    /// The file that a `load` last asked for and that the table lacked.
    pub fn missing_source(&self) -> (r: Option<String>)
        ensures
            match (r, self.missing()) {
                (Some(a), Some(b)) => a@ == b,
                (None, None) => true,
                _ => false,
            },
    {
        match &self.missing {
            Some(m) => Some(m.clone()),
            None => None,
        }
    }

    /// A copy of the frames and the table, with nothing recorded as missing.
    pub fn snapshot(&self) -> (r: Environment)
        ensures
            r.cells().len() == self.cells().len(),
            forall|i: int|
                0 <= i < self.cells().len() ==> (#[trigger] r.cells()[i]).1 == self.cells()[i].1
                    && r.cells()[i].0.len() == self.cells()[i].0.len(),
            forall|i: int, j: int|
                0 <= i < self.cells().len() && 0 <= j < self.cells()[i].0.len() ==> (
                #[trigger] r.cells()[i].0[j]).0@ == self.cells()[i].0[j].0@ && same(
                    r.cells()[i].0[j].1,
                    self.cells()[i].0[j].1,
                ),
            r.cur() == self.cur(),
            r.pin() == self.pin(),
            r.table() == self.table(),
            r.missing() is None,
    {
        let mut frames: Vec<(Vec<(String, Value)>, Option<usize>)> = Vec::new();
        let mut i: usize = 0;
        while i < self.frames.len()
            invariant
                i <= self.frames@.len(),
                frames@.len() == i,
                forall|a: int|
                    0 <= a < i ==> (#[trigger] frames@[a]).1 == self.frames@[a].1
                        && frames@[a].0@.len() == self.frames@[a].0@.len(),
                forall|a: int, b: int|
                    0 <= a < i && 0 <= b < self.frames@[a].0@.len() ==> (
                    #[trigger] frames@[a].0@[b]).0@ == self.frames@[a].0@[b].0@ && same(
                        frames@[a].0@[b].1,
                        self.frames@[a].0@[b].1,
                    ),
            decreases self.frames@.len() - i,
        {
            let g = copy_frame(&self.frames[i].0);
            frames.push((g, self.frames[i].1));
            i = i + 1;
        }
        let mut sources: Vec<(String, Vec<String>)> = Vec::new();
        let mut k: usize = 0;
        while k < self.sources.len()
            invariant
                k <= self.sources@.len(),
                sources@.len() == k,
                forall|a: int|
                    0 <= a < k ==> (#[trigger] sources@[a]).0@ == self.sources@[a].0@
                        && sources@[a].1@ == self.sources@[a].1@,
            decreases self.sources@.len() - k,
        {
            sources.push((self.sources[k].0.clone(), copy_strings(&self.sources[k].1)));
            k = k + 1;
        }
        let r = Environment {
            frames,
            current: self.current,
            pinned: self.pinned,
            sources,
            missing: None,
        };
        proof {
            assert(r.table() =~= self.table());
        }
        r
    }

    /// What `str` resolves to from the current frame (see `lookup`), copied.
    pub fn get_value(&self, str: &String) -> (r: Option<Value>)
        requires
            self.wf(),
        ensures
            match (r, self.lookup(str@)) {
                (Some(a), Some(b)) => same(a, b),
                (None, None) => true,
                _ => false,
            },
    {
        let ghost cs = self.cells();
        let mut k: usize = self.current;
        loop
            invariant
                self.wf(),
                cs == self.cells(),
                k < cs.len(),
                chain_from(cs, self.cur(), str@) == chain_from(cs, k as int, str@),
            decreases k,
        {
            let frame = &self.frames[k].0;
            assert(frame@ == cs[k as int].0);
            let mut j: usize = 0;
            while j < frame.len()
                invariant
                    self.wf(),
                    cs == self.cells(),
                    k < cs.len(),
                    chain_from(cs, self.cur(), str@) == chain_from(cs, k as int, str@),
                    frame@ == cs[k as int].0,
                    j <= frame@.len(),
                    forall|i: int| 0 <= i < j ==> (#[trigger] frame@[i]).0@ != str@,
                decreases frame@.len() - j,
            {
                if frame[j].0.eq(str) {
                    proof {
                        lemma_frame_first(frame@, j as int, str@);
                    }
                    return Some(frame[j].1.copy());
                }
                j = j + 1;
            }
            proof {
                lemma_frame_first(frame@, j as int, str@);
                assert(cs[k as int].1 == self.frames@[k as int].1);
            }
            match self.frames[k].1 {
                Some(p) => {
                    assert(parent_before(cs[k as int], k as int));
                    assert(p < k);
                    k = p;
                },
                None => {
                    return None;
                },
            }
        }
    }

    /// Binds `s` to `val` in the current frame, in place of an earlier binding
    /// of `s` there; every other frame is untouched.
    pub fn add_value(&mut self, s: &str, val: Value)
        requires
            old(self).wf(),
        ensures
            final(self).wf(),
            final(self).table() == old(self).table(),
            final(self).missing() == old(self).missing(),
            final(self).cur() == old(self).cur(),
            final(self).pin() == old(self).pin(),
            final(self).cells().len() == old(self).cells().len(),
            forall|i: int|
                0 <= i < old(self).cells().len() && i != old(self).cur() ==> #[trigger] final(self).cells()[i]
                    == old(self).cells()[i],
            final(self).cells()[old(self).cur()].1 == old(self).cells()[old(self).cur()].1,
            forall|n: Seq<char>|
                #[trigger] frame_get(final(self).cells()[old(self).cur()].0, n) == if n == s@ {
                    Some(val)
                } else {
                    frame_get(old(self).cells()[old(self).cur()].0, n)
                },
    {
        let name = s.to_owned();
        let c = self.current;
        let (mut top, parent) = self.frames.remove(c);
        assert(name@ == s@);
        let ghost old_top = top@;
        proof {
            assert(old_top == old(self).cells()[c as int].0);
        }
        let mut i: usize = 0;
        while i < top.len()
            invariant
                top@ == old_top,
                name@ == s@,
                i <= top@.len(),
                forall|j: int| 0 <= j < i ==> (#[trigger] old_top[j]).0@ != s@,
            ensures
                top@ == old_top,
                i <= top@.len(),
                i < top@.len() ==> old_top[i as int].0@ == s@,
                forall|j: int| 0 <= j < i ==> (#[trigger] old_top[j]).0@ != s@,
            decreases top@.len() - i,
        {
            if top[i].0.eq(&name) {
                break;
            }
            i = i + 1;
        }
        if i < top.len() {
            top.set(i, (name, val));
            proof {
                lemma_frame_update(old_top, i as int, name, val);
            }
        } else {
            top.push((name, val));
            proof {
                lemma_frame_push(old_top, name, val);
            }
        }
        self.frames.insert(c, (top, parent));
        proof {
            assert forall|k: int|
                0 <= k < old(self).cells().len() && k != c implies #[trigger] self.cells()[k]
                == old(self).cells()[k] by {}
            assert(self.cells()[c as int].1 == old(self).cells()[c as int].1);
        }
    }
}

proof fn lemma_frame_first(f: Frame, j: int, n: Seq<char>)
    requires
        0 <= j <= f.len(),
        forall|i: int| 0 <= i < j ==> (#[trigger] f[i]).0@ != n,
        j < f.len() ==> f[j].0@ == n,
    ensures
        frame_get(f, n) == if j < f.len() {
            Some(f[j].1)
        } else {
            None
        },
    decreases j,
{
    if j > 0 {
        assert(f[0].0@ != n);
        lemma_frame_first(f.drop_first(), j - 1, n);
    }
}

proof fn lemma_frame_update(f: Frame, i: int, key: String, val: Value)
    requires
        0 <= i < f.len(),
        f[i].0@ == key@,
        forall|j: int| 0 <= j < i ==> (#[trigger] f[j]).0@ != key@,
    ensures
        forall|n: Seq<char>|
            #[trigger] frame_get(f.update(i, (key, val)), n) == if n == key@ {
                Some(val)
            } else {
                frame_get(f, n)
            },
    decreases i,
{
    let g = f.update(i, (key, val));
    if i > 0 {
        assert(f[0].0@ != key@);
        assert(g.drop_first() =~= f.drop_first().update(i - 1, (key, val)));
        lemma_frame_update(f.drop_first(), i - 1, key, val);
    } else {
        assert(g.drop_first() =~= f.drop_first());
    }
    assert forall|n: Seq<char>|
        #[trigger] frame_get(g, n) == if n == key@ {
            Some(val)
        } else {
            frame_get(f, n)
        } by {
        assert(frame_get(g.drop_first(), n) == frame_get(g.drop_first(), n));
    }
}

proof fn lemma_frame_push(f: Frame, key: String, val: Value)
    requires
        forall|j: int| 0 <= j < f.len() ==> (#[trigger] f[j]).0@ != key@,
    ensures
        forall|n: Seq<char>|
            #[trigger] frame_get(f.push((key, val)), n) == if n == key@ {
                Some(val)
            } else {
                frame_get(f, n)
            },
    decreases f.len(),
{
    let g = f.push((key, val));
    if f.len() > 0 {
        assert(f[0].0@ != key@);
        assert(g.drop_first() =~= f.drop_first().push((key, val)));
        lemma_frame_push(f.drop_first(), key, val);
        assert forall|n: Seq<char>|
            #[trigger] frame_get(g, n) == if n == key@ {
                Some(val)
            } else {
                frame_get(f, n)
            } by {
            assert(frame_get(g.drop_first(), n) == frame_get(g.drop_first(), n));
        }
    } else {
        assert(g.drop_first() =~= Seq::<(String, Value)>::empty());
        assert forall|n: Seq<char>|
            #[trigger] frame_get(g, n) == if n == key@ {
                Some(val)
            } else {
                frame_get(f, n)
            } by {
            assert(g[0] == (key, val));
            assert(frame_get(g.drop_first(), n) == None::<Value>);
            assert(frame_get(f, n) == None::<Value>);
        }
    }
}

} // verus!
