use vstd::prelude::*;

verus! {

/// Two-bit chunk `i` of `bits`, counted from the low end.
pub open spec fn chunk(bits: u32, i: int) -> int {
    ((bits >> ((2 * i) as u32)) & 3) as int
}

/// The low `n` chunks of `bits`, highest first: the path that `bits` takes
/// from the root.
pub open spec fn chunk_path(bits: u32, n: int) -> Seq<int> {
    Seq::new(n as nat, |k: int| chunk(bits, n - 1 - k))
}

/// The low `n` chunks of `bits` are each 0, 1 or 2.
pub open spec fn chunks_valid(bits: u32, n: int) -> bool {
    forall|i: int| 0 <= i < n ==> #[trigger] chunk(bits, i) < 3
}

/// A prefix tree over 22-bit line masks read as eleven two-bit chunks,
/// highest first, with fan-out 3 since a chunk is never 3.
pub struct LineMaskTrie {
    c0: Option<Box<LineMaskTrie>>,
    c1: Option<Box<LineMaskTrie>>,
    c2: Option<Box<LineMaskTrie>>,
    is_terminal: bool,
}

impl LineMaskTrie {
    pub closed spec fn child(&self, i: int) -> Option<Box<LineMaskTrie>> {
        if i == 0 {
            self.c0
        } else if i == 1 {
            self.c1
        } else {
            self.c2
        }
    }

    /// A value whose path is `p` has been inserted.
    pub closed spec fn holds(&self, p: Seq<int>) -> bool
        decreases p.len(),
    {
        if p.len() == 0 {
            self.is_terminal
        } else if 0 <= p[0] < 3 {
            match self.child(p[0]) {
                Some(c) => c.holds(p.drop_first()),
                None => false,
            }
        } else {
            false
        }
    }

    /// A node lies at the end of path `p`.
    pub closed spec fn reaches(&self, p: Seq<int>) -> bool
        decreases p.len(),
    {
        if p.len() == 0 {
            true
        } else if 0 <= p[0] < 3 {
            match self.child(p[0]) {
                Some(c) => c.reaches(p.drop_first()),
                None => false,
            }
        } else {
            false
        }
    }

    pub fn new() -> (r: Self)
        ensures
            forall|p: Seq<int>| !#[trigger] r.holds(p),
            forall|p: Seq<int>| #[trigger] r.reaches(p) <==> p.len() == 0,
    {
        LineMaskTrie { c0: None, c1: None, c2: None, is_terminal: false }
    }

    fn take_child(&mut self, idx: usize) -> (r: Option<Box<LineMaskTrie>>)
        requires
            idx < 3,
        ensures
            r == old(self).child(idx as int),
            final(self).child(idx as int) is None,
            forall|j: int| 0 <= j < 3 && j != idx ==> final(self).child(j) == old(self).child(j),
            final(self).is_terminal == old(self).is_terminal,
    {
        if idx == 0 {
            self.c0.take()
        } else if idx == 1 {
            self.c1.take()
        } else {
            self.c2.take()
        }
    }

    fn put_child(&mut self, idx: usize, c: Box<LineMaskTrie>)
        requires
            idx < 3,
        ensures
            final(self).child(idx as int) == Some(c),
            forall|j: int| 0 <= j < 3 && j != idx ==> final(self).child(j) == old(self).child(j),
            final(self).is_terminal == old(self).is_terminal,
    {
        if idx == 0 {
            self.c0 = Some(c);
        } else if idx == 1 {
            self.c1 = Some(c);
        } else {
            self.c2 = Some(c);
        }
    }

    /// Adds the path of the low `level` chunks of `bits` below this node.
    fn insert_from(&mut self, bits: u32, level: u32)
        requires
            level <= 11,
            chunks_valid(bits, level as int),
        ensures
            forall|p: Seq<int>| #[trigger] final(self).holds(p) <==> old(self).holds(p) || p
                == chunk_path(bits, level as int),
            forall|p: Seq<int>| #[trigger] final(self).reaches(p) <==> old(self).reaches(p) || (
            p.len() <= level && p == chunk_path(bits, level as int).subrange(0, p.len() as int)),
        decreases level,
    {
        if level == 0 {
            self.is_terminal = true;
            proof {
                assert forall|p: Seq<int>| #[trigger] self.holds(p) <==> old(self).holds(p) || p
                    == chunk_path(bits, 0) by {
                    if p.len() == 0 {
                        assert(p =~= chunk_path(bits, 0));
                    }
                }
                assert forall|p: Seq<int>| #[trigger] self.reaches(p) <==> old(self).reaches(p) || (
                p.len() <= 0 && p == chunk_path(bits, 0).subrange(0, p.len() as int)) by {
                    if p.len() == 0 {
                        assert(p =~= chunk_path(bits, 0).subrange(0, 0));
                    }
                }
            }
            return;
        }
        let s: u32 = (level - 1) * 2;
        let idx = ((bits >> s) & 3) as usize;
        proof {
            assert(chunk(bits, level - 1) < 3);
            assert(idx as int == chunk(bits, level - 1));
        }
        let ghost before = *self;
        let taken = self.take_child(idx);
        let mut node = match taken {
            Some(b) => *b,
            None => LineMaskTrie::new(),
        };
        let ghost node0 = node;
        proof {
            assert(chunks_valid(bits, (level - 1) as int));
        }
        node.insert_from(bits, level - 1);
        self.put_child(idx, Box::new(node));
        proof {
            let path = chunk_path(bits, level as int);
            let rest = chunk_path(bits, (level - 1) as int);
            assert(path.drop_first() =~= rest);
            assert(path[0] == idx);
            assert forall|p: Seq<int>| #[trigger] self.holds(p) <==> before.holds(p) || p == path by {
                if p.len() > 0 && p[0] == idx {
                    let q = p.drop_first();
                    assert(self.holds(p) == node.holds(q));
                    if q == rest {
                        assert forall|k: int| 0 <= k < p.len() implies p[k] == path[k] by {
                            if k > 0 {
                                assert(p[k] == q[k - 1]);
                                assert(path[k] == path.drop_first()[k - 1]);
                            }
                        }
                        assert(p =~= path);
                    }
                    assert(p == path ==> q == rest);
                    if before.child(idx as int) is None {
                        assert(!node0.holds(q));
                        assert(!before.holds(p));
                    } else {
                        assert(before.holds(p) == node0.holds(q));
                    }
                } else if p.len() > 0 {
                    assert(p != path);
                    if 0 <= p[0] < 3 {
                        assert(self.child(p[0]) == before.child(p[0]));
                    }
                } else {
                    assert(p != path);
                }
            }
            assert forall|p: Seq<int>| #[trigger] self.reaches(p) <==> before.reaches(p) || (p.len()
                <= level && p == path.subrange(0, p.len() as int)) by {
                if p.len() > 0 && p[0] == idx {
                    let q = p.drop_first();
                    assert(self.reaches(p) == node.reaches(q));
                    assert(node.reaches(q) <==> node0.reaches(q) || (q.len() <= level - 1 && q
                        == rest.subrange(0, q.len() as int)));
                    assert(q.len() <= level - 1 <==> p.len() <= level);
                    if q.len() <= level - 1 && q == rest.subrange(0, q.len() as int) {
                        assert forall|k: int| 0 <= k < p.len() implies p[k] == path.subrange(
                            0,
                            p.len() as int,
                        )[k] by {
                            if k > 0 {
                                assert(p[k] == q[k - 1]);
                                assert(path[k] == path.drop_first()[k - 1]);
                            }
                        }
                        assert(p =~= path.subrange(0, p.len() as int));
                    }
                    if p.len() <= level && p == path.subrange(0, p.len() as int) {
                        assert forall|k: int| 0 <= k < q.len() implies q[k] == rest.subrange(
                            0,
                            q.len() as int,
                        )[k] by {
                            assert(q[k] == p[k + 1]);
                            assert(path[k + 1] == path.drop_first()[k]);
                        }
                        assert(q =~= rest.subrange(0, q.len() as int));
                    }
                    if before.child(idx as int) is None {
                        assert(node0.reaches(q) <==> q.len() == 0);
                        if q.len() == 0 {
                            assert(q =~= rest.subrange(0, 0));
                        }
                        assert(!before.reaches(p));
                    } else {
                        assert(before.reaches(p) == node0.reaches(q));
                    }
                    assert((q.len() <= level - 1 && q == rest.subrange(0, q.len() as int)) <==> (p.len()
                        <= level && p == path.subrange(0, p.len() as int)));
                } else if p.len() > 0 {
                    assert(p.len() <= level ==> path.subrange(0, p.len() as int)[0] == idx);
                    if p.len() <= level {
                        assert(p[0] != path.subrange(0, p.len() as int)[0]);
                    }
                    if 0 <= p[0] < 3 {
                        assert(self.child(p[0]) == before.child(p[0]));
                        assert(self.reaches(p) == before.reaches(p));
                    } else {
                        assert(!self.reaches(p) && !before.reaches(p));
                    }
                    assert(!(p.len() <= level && p == path.subrange(0, p.len() as int)));
                } else {
                    assert(p =~= path.subrange(0, 0));
                }
            }
        }
    }

    /// Whether the path of the low `level` chunks of `bits` is held below
    /// this node (`prefix_only`: reaches a node).
    fn walk(&self, bits: u32, level: u32, prefix_only: bool) -> (r: bool)
        requires
            level <= 11,
            chunks_valid(bits, level as int),
        ensures
            r == if prefix_only {
                self.reaches(chunk_path(bits, level as int))
            } else {
                self.holds(chunk_path(bits, level as int))
            },
        decreases level,
    {
        let ghost path = chunk_path(bits, level as int);
        if level == 0 {
            return prefix_only || self.is_terminal;
        }
        let s: u32 = (level - 1) * 2;
        let idx = ((bits >> s) & 3) as usize;
        proof {
            assert(chunk(bits, level - 1) < 3);
            assert(idx as int == chunk(bits, level - 1));
            assert(path.drop_first() =~= chunk_path(bits, (level - 1) as int));
            assert(path[0] == idx);
            assert(chunks_valid(bits, (level - 1) as int));
        }
        let next = if idx == 0 {
            &self.c0
        } else if idx == 1 {
            &self.c1
        } else {
            &self.c2
        };
        match next {
            Some(n) => n.walk(bits, level - 1, prefix_only),
            None => false,
        }
    }

    /// Inserts a 22-bit value as eleven two-bit chunks.
    pub fn insert(&mut self, bits: u32)
        requires
            chunks_valid(bits, 11),
        ensures
            forall|p: Seq<int>| #[trigger] final(self).holds(p) <==> old(self).holds(p) || p
                == chunk_path(bits, 11),
            forall|p: Seq<int>| #[trigger] final(self).reaches(p) <==> old(self).reaches(p) || (
            p.len() <= 11 && p == chunk_path(bits, 11).subrange(0, p.len() as int)),
    {
        self.insert_from(bits, 11);
    }

    /// Whether a 22-bit value has been inserted.
    pub fn contains(&self, bits: u32) -> (r: bool)
        requires
            chunks_valid(bits, 11),
        ensures
            r == self.holds(chunk_path(bits, 11)),
    {
        self.walk(bits, 11, false)
    }

    /// Whether a node lies at the end of the path of the low `chunk_count`
    /// chunks of `bits`. Nodes are made only along inserted paths, so this
    /// tells whether an inserted value starts with those chunks.
    pub fn has_prefix(&self, bits: u32, chunk_count: usize) -> (r: bool)
        requires
            chunk_count <= 11,
            chunks_valid(bits, chunk_count as int),
        ensures
            r == self.reaches(chunk_path(bits, chunk_count as int)),
    {
        self.walk(bits, chunk_count as u32, true)
    }
}

} // verus!
