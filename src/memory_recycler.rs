use vstd::prelude::*;

verus! {

/// Size and alignment of a memory chunk, in bytes.
#[derive(Clone, Copy, Debug, PartialEq, Eq, Structural)]
pub struct ChunkLayout {
    pub size: usize,
    pub align: usize,
}

/// A chunk of memory together with the layout it was allocated with.
pub struct RawMemoryChunk<C> {
    pub layout: ChunkLayout,
    pub data: C,
}

/// A pool of released memory chunks, grouped by layout, from which chunks of
/// the same layout are handed out again instead of being allocated anew.
pub struct MemoryChunkRecycler<C> {
    chunks: Vec<(ChunkLayout, Vec<C>)>,
}

impl<C> MemoryChunkRecycler<C> {
    /// No layout has two groups.
    pub closed spec fn wf(&self) -> bool {
        forall|i: int, j: int|
            0 <= i < j < self.chunks@.len() ==> self.chunks@[i].0 != self.chunks@[j].0
    }

    /// The chunks pooled under `layout`, oldest first.
    pub closed spec fn pooled(&self, layout: ChunkLayout) -> Seq<C> {
        if exists|i: int| 0 <= i < self.chunks@.len() && self.chunks@[i].0 == layout {
            self.chunks@[choose|i: int|
                0 <= i < self.chunks@.len() && self.chunks@[i].0 == layout].1@
        } else {
            Seq::empty()
        }
    }

    proof fn lemma_pooled_at(&self, i: int)
        requires
            self.wf(),
            0 <= i < self.chunks@.len(),
        ensures
            self.pooled(self.chunks@[i].0) == self.chunks@[i].1@,
    {
        let layout = self.chunks@[i].0;
        let j = choose|j: int| 0 <= j < self.chunks@.len() && self.chunks@[j].0 == layout;
        assert(j == i);
    }

    /// An empty pool.
    pub fn new() -> (r: Self)
        ensures
            r.wf(),
            forall|l: ChunkLayout| r.pooled(l) == Seq::<C>::empty(),
    {
        MemoryChunkRecycler { chunks: Vec::new() }
    }

    fn position(&self, layout: ChunkLayout) -> (r: Option<usize>)
        ensures
            r.is_none() ==> forall|i: int|
                0 <= i < self.chunks@.len() ==> self.chunks@[i].0 != layout,
            r.is_some() ==> r.unwrap() < self.chunks@.len() && self.chunks@[r.unwrap() as int].0
                == layout,
    {
        let mut i: usize = 0;
        while i < self.chunks.len()
            invariant
                i <= self.chunks@.len(),
                forall|j: int| 0 <= j < i ==> self.chunks@[j].0 != layout,
            decreases self.chunks@.len() - i,
        {
            if self.chunks[i].0 == layout {
                return Some(i);
            }
            i += 1;
        }
        None
    }

    /// Puts a released chunk into the pool of its layout.
    pub fn recycle(&mut self, chunk: RawMemoryChunk<C>)
        requires
            old(self).wf(),
        ensures
            final(self).wf(),
            forall|l: ChunkLayout|
                #![trigger final(self).pooled(l)]
                final(self).pooled(l) == if l == chunk.layout {
                    old(self).pooled(l).push(chunk.data)
                } else {
                    old(self).pooled(l)
                },
    {
        let ghost before = *self;
        match self.position(chunk.layout) {
            Some(i) => {
                proof {
                    before.lemma_pooled_at(i as int);
                }
                let (layout, mut group) = self.chunks.remove(i);
                group.push(chunk.data);
                self.chunks.insert(i, (layout, group));
                assert(self.chunks@ =~= before.chunks@.update(i as int, (layout, group)));
                assert forall|l: ChunkLayout| #[trigger]
                    self.pooled(l) == if l == chunk.layout {
                        before.pooled(l).push(chunk.data)
                    } else {
                        before.pooled(l)
                    } by {
                    self.lemma_pooled_at(i as int);
                    if l != chunk.layout {
                        if exists|j: int| 0 <= j < self.chunks@.len() && self.chunks@[j].0 == l {
                            let j = choose|j: int|
                                0 <= j < self.chunks@.len() && self.chunks@[j].0 == l;
                            self.lemma_pooled_at(j);
                            before.lemma_pooled_at(j);
                        }
                        if exists|j: int| 0 <= j < before.chunks@.len() && before.chunks@[j].0 == l {
                            let j = choose|j: int|
                                0 <= j < before.chunks@.len() && before.chunks@[j].0 == l;
                            assert(self.chunks@[j].0 == l);
                            self.lemma_pooled_at(j);
                            before.lemma_pooled_at(j);
                        }
                    }
                }
            },
            None => {
                let mut group: Vec<C> = Vec::new();
                group.push(chunk.data);
                self.chunks.push((chunk.layout, group));
                let n = self.chunks.len() - 1;
                assert(self.chunks@ =~= before.chunks@.push((chunk.layout, group)));
                assert forall|l: ChunkLayout| #[trigger]
                    self.pooled(l) == if l == chunk.layout {
                        before.pooled(l).push(chunk.data)
                    } else {
                        before.pooled(l)
                    } by {
                    self.lemma_pooled_at(n as int);
                    assert(before.pooled(chunk.layout) == Seq::<C>::empty());
                    assert(group@ =~= Seq::<C>::empty().push(chunk.data));
                    if l != chunk.layout {
                        if exists|j: int| 0 <= j < self.chunks@.len() && self.chunks@[j].0 == l {
                            let j = choose|j: int|
                                0 <= j < self.chunks@.len() && self.chunks@[j].0 == l;
                            self.lemma_pooled_at(j);
                            before.lemma_pooled_at(j);
                        }
                        if exists|j: int| 0 <= j < before.chunks@.len() && before.chunks@[j].0 == l {
                            let j = choose|j: int|
                                0 <= j < before.chunks@.len() && before.chunks@[j].0 == l;
                            assert(self.chunks@[j].0 == l);
                            self.lemma_pooled_at(j);
                            before.lemma_pooled_at(j);
                        }
                    }
                }
            },
        }
    }

    /// Takes the most recently pooled chunk of `layout`, if there is one.
    pub fn take(&mut self, layout: ChunkLayout) -> (r: Option<C>)
        requires
            old(self).wf(),
        ensures
            final(self).wf(),
            old(self).pooled(layout).len() == 0 ==> r.is_none(),
            old(self).pooled(layout).len() > 0 ==> r == Some(old(self).pooled(layout).last()),
            forall|l: ChunkLayout|
                #![trigger final(self).pooled(l)]
                final(self).pooled(l) == if l == layout && old(self).pooled(layout).len() > 0 {
                    old(self).pooled(l).drop_last()
                } else {
                    old(self).pooled(l)
                },
    {
        let ghost before = *self;
        match self.position(layout) {
            Some(i) => {
                proof {
                    before.lemma_pooled_at(i as int);
                }
                let (key, mut group) = self.chunks.remove(i);
                let r = group.pop();
                self.chunks.insert(i, (key, group));
                assert(self.chunks@ =~= before.chunks@.update(i as int, (key, group)));
                assert forall|l: ChunkLayout| #[trigger]
                    self.pooled(l) == if l == layout && before.pooled(layout).len() > 0 {
                        before.pooled(l).drop_last()
                    } else {
                        before.pooled(l)
                    } by {
                    self.lemma_pooled_at(i as int);
                    if l != layout {
                        if exists|j: int| 0 <= j < self.chunks@.len() && self.chunks@[j].0 == l {
                            let j = choose|j: int|
                                0 <= j < self.chunks@.len() && self.chunks@[j].0 == l;
                            self.lemma_pooled_at(j);
                            before.lemma_pooled_at(j);
                        }
                        if exists|j: int| 0 <= j < before.chunks@.len() && before.chunks@[j].0 == l {
                            let j = choose|j: int|
                                0 <= j < before.chunks@.len() && before.chunks@[j].0 == l;
                            assert(self.chunks@[j].0 == l);
                            self.lemma_pooled_at(j);
                            before.lemma_pooled_at(j);
                        }
                    }
                }
                r
            },
            None => None,
        }
    }

    /// Keeps every pooled chunk; the pool only grows as chunks come back.
    pub fn cleanup(&self) {
    }
}

} // verus!
