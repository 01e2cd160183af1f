use vstd::prelude::*;

use std::marker::PhantomData;

verus! {

/// A store of values addressed by keys that carry a generation, so that a key
/// to a removed value never reaches the value that later takes its slot.
pub struct GenArena<T> {
    slots: Vec<Slot<T>>,
    next_free: usize,
    /// The chain of empty slots, starting at `next_free`.
    free: Ghost<Seq<int>>,
}

/// A handle into a `GenArena`: slot index and generation.
pub struct Key<T> {
    gen: u32,
    index: u32,
    _type: PhantomData<T>,
}

impl<T> Clone for Key<T> {
    fn clone(&self) -> (r: Key<T>)
        ensures
            r.spec_gen() == self.spec_gen(),
            r.spec_index() == self.spec_index(),
    {
        Key { gen: self.gen, index: self.index, _type: PhantomData }
    }
}

impl<T> Copy for Key<T> {
}

impl<T> Key<T> {
    pub closed spec fn spec_index(&self) -> int {
        self.index as int
    }

    pub closed spec fn spec_gen(&self) -> u32 {
        self.gen
    }
}

enum Content<T> {
    Filled(T),
    /// The next empty slot.
    Empty(usize),
}

struct Slot<T> {
    gen: u32,
    content: Content<T>,
}

spec fn slot_view<T>(s: Slot<T>) -> (u32, Option<T>) {
    (s.gen, match s.content {
        Content::Filled(x) => Some(x),
        Content::Empty(_) => None,
    })
}

/// The values of the filled slots, in slot order.
pub open spec fn filled_values<T>(s: Seq<(u32, Option<T>)>) -> Seq<T>
    decreases s.len(),
{
    if s.len() == 0 {
        seq![]
    } else {
        let rest = filled_values(s.drop_last());
        match s.last().1 {
            Some(x) => rest.push(x),
            None => rest,
        }
    }
}

/// The indices of the filled slots, in slot order.
pub open spec fn filled_indices<T>(s: Seq<(u32, Option<T>)>) -> Seq<int>
    decreases s.len(),
{
    if s.len() == 0 {
        seq![]
    } else {
        let rest = filled_indices(s.drop_last());
        match s.last().1 {
            Some(x) => rest.push(s.len() - 1),
            None => rest,
        }
    }
}

proof fn lemma_filled_indices_bound<T>(s: Seq<(u32, Option<T>)>)
    ensures
        forall|k: int| 0 <= k < filled_indices(s).len() ==> 0 <= #[trigger] filled_indices(s)[k] < s.len(),
    decreases s.len(),
{
    if s.len() > 0 {
        lemma_filled_indices_bound(s.drop_last());
        let rest = filled_indices(s.drop_last());
        assert forall|k: int| 0 <= k < filled_indices(s).len() implies 0 <= #[trigger] filled_indices(s)[k] < s.len() by {
            if k < rest.len() {
                assert(filled_indices(s)[k] == rest[k]);
            }
        }
    }
}

impl<T> View for GenArena<T> {
    /// Each slot as its generation and its value, if it holds one.
    type V = Seq<(u32, Option<T>)>;

    closed spec fn view(&self) -> Seq<(u32, Option<T>)> {
        self.slots@.map_values(|s: Slot<T>| slot_view(s))
    }
}

impl<T> GenArena<T> {
    /// The free chain runs through exactly the empty slots and ends past the last slot.
    pub closed spec fn wf(&self) -> bool {
        let free = self.free@;
        let n = self.slots@.len() as int;
        &&& forall|k: int| 0 <= k < free.len() ==> 0 <= #[trigger] free[k] < n
        &&& forall|a: int, b: int| 0 <= a < b < free.len() ==> free[a] != free[b]
        &&& forall|i: int|
            0 <= i < n ==> ((#[trigger] self.slots@[i]).content is Empty <==> free.contains(i))
        &&& forall|k: int|
            0 <= k < free.len() - 1 ==> self.slots@[#[trigger] free[k]].content == Content::<T>::Empty(
                free[k + 1] as usize,
            )
        &&& free.len() > 0 ==> self.slots@[free.last()].content == Content::<T>::Empty(n as usize)
        &&& self.next_free == if free.len() == 0 { n } else { free[0] }
        &&& n <= u32::MAX
    }

    pub fn new() -> (r: GenArena<T>)
        ensures
            r.wf(),
            r@.len() == 0,
    {
        GenArena { slots: Vec::new(), next_free: 0, free: Ghost(Seq::empty()) }
    }

    /// Stores `x` in a free slot, or in a new one when none is free.
    pub fn push(&mut self, x: T) -> (r: Key<T>)
        requires
            old(self).wf(),
            old(self)@.len() < u32::MAX,
        ensures
            final(self).wf(),
            r.spec_index() < final(self)@.len(),
            final(self)@[r.spec_index()] == (r.spec_gen(), Some(x)),
            forall|i: int| 0 <= i < old(self)@.len() && i != r.spec_index() ==> #[trigger] final(self)@[i] == old(self)@[i],
            (forall|i: int| 0 <= i < old(self)@.len() ==> (#[trigger] old(self)@[i]).1.is_some()) ==> {
                &&& final(self)@.len() == old(self)@.len() + 1
                &&& r.spec_index() == old(self)@.len()
                &&& r.spec_gen() == 0
            },
            !(forall|i: int| 0 <= i < old(self)@.len() ==> (#[trigger] old(self)@[i]).1.is_some()) ==> {
                &&& final(self)@.len() == old(self)@.len()
                &&& old(self)@[r.spec_index()].1.is_none()
                &&& r.spec_gen() == old(self)@[r.spec_index()].0.wrapping_add(1)
            },
    {
        if self.next_free >= self.slots.len() {
            let index = self.slots.len();
            proof {
                if self.free@.len() > 0 {
                    assert(self.free@[0] < self.slots@.len());
                }
                assert forall|i: int| 0 <= i < self@.len() implies (#[trigger] old(self)@[i]).1.is_some() by {
                    if self.slots@[i].content is Empty {
                        let k = choose|k: int| 0 <= k < self.free@.len() && self.free@[k] == i;
                    }
                }
            }
            self.slots.push(Slot { gen: 0, content: Content::Filled(x) });
            self.next_free = self.next_free + 1;
            proof {
                assert(self@ =~= old(self)@.push((0u32, Some(x))));
            }
            Key { gen: 0, index: index as u32, _type: PhantomData }
        } else {
            let index = self.next_free;
            let ghost free = self.free@;
            proof {
                assert(self.slots@[free[0]].content is Empty);
                if free.len() > 1 {
                    assert(self.slots@[free[0]].content == Content::<T>::Empty(free[1] as usize));
                }
            }
            let next = match &self.slots[index].content {
                Content::Empty(next) => *next,
                Content::Filled(_) => vstd::pervasive::unreached(),
            };
            let gen = self.slots[index].gen.wrapping_add(1);
            self.slots.set(index, Slot { gen, content: Content::Filled(x) });
            self.next_free = next;
            self.free = Ghost(free.drop_first());
            proof {
                assert(self@ =~= old(self)@.update(index as int, (gen, Some(x))));
                assert(!(forall|i: int| 0 <= i < old(self)@.len() ==> (#[trigger] old(self)@[i]).1.is_some())) by {
                    assert(old(self)@[index as int].1.is_none());
                }
                let nf = self.free@;
                assert forall|i: int| 0 <= i < self.slots@.len() implies ((#[trigger] self.slots@[i]).content is Empty
                    <==> nf.contains(i)) by {
                    if i == index {
                        if nf.contains(i) {
                            let k = choose|k: int| 0 <= k < nf.len() && nf[k] == i;
                            assert(free[k + 1] == free[0]);
                        }
                    } else {
                        if old(self).slots@[i].content is Empty {
                            let k = choose|k: int| 0 <= k < free.len() && free[k] == i;
                            assert(k != 0);
                            assert(nf[k - 1] == i);
                        }
                        if nf.contains(i) {
                            let k = choose|k: int| 0 <= k < nf.len() && nf[k] == i;
                            assert(free[k + 1] == i);
                        }
                    }
                }
                assert forall|k: int| 0 <= k < nf.len() - 1 implies self.slots@[#[trigger] nf[k]].content
                    == Content::<T>::Empty(nf[k + 1] as usize) by {
                    assert(nf[k] == free[k + 1]);
                    assert(free[k + 1] != free[0]);
                }
                if nf.len() > 0 {
                    assert(nf.last() == free.last());
                    assert(free.last() != free[0]);
                }
            }
            Key { index: index as u32, gen, _type: PhantomData }
        }
    }

    /// Empties the slot of `key` if `key` still refers to a value there;
    /// otherwise nothing happens, so removing twice is harmless.
    pub fn remove(&mut self, key: Key<T>)
        requires
            old(self).wf(),
            key.spec_index() < old(self)@.len(),
        ensures
            final(self).wf(),
            old(self)@[key.spec_index()].0 == key.spec_gen() && old(self)@[key.spec_index()].1.is_some() ==> final(self)@
                == old(self)@.update(key.spec_index(), (key.spec_gen().wrapping_add(1), None)),
            !(old(self)@[key.spec_index()].0 == key.spec_gen() && old(self)@[key.spec_index()].1.is_some())
                ==> final(self)@ == old(self)@,
    {
        let index = key.index as usize;
        if self.slots[index].gen != key.gen {
            return;
        }
        let filled = match &self.slots[index].content {
            Content::Filled(_) => true,
            Content::Empty(_) => false,
        };
        if !filled {
            return;
        }
        let ghost free = self.free@;
        let gen = self.slots[index].gen.wrapping_add(1);
        self.slots.set(index, Slot { gen, content: Content::Empty(self.next_free) });
        self.next_free = index;
        self.free = Ghost(seq![index as int] + free);
        proof {
            assert(self@ =~= old(self)@.update(index as int, (gen, None)));
            let nf = self.free@;
            assert(!free.contains(index as int));
            assert forall|i: int| 0 <= i < self.slots@.len() implies ((#[trigger] self.slots@[i]).content is Empty
                <==> nf.contains(i)) by {
                if i == index {
                    assert(nf[0] == i);
                } else {
                    if old(self).slots@[i].content is Empty {
                        let k = choose|k: int| 0 <= k < free.len() && free[k] == i;
                        assert(nf[k + 1] == i);
                    }
                    if nf.contains(i) {
                        let k = choose|k: int| 0 <= k < nf.len() && nf[k] == i;
                        assert(free[k - 1] == i);
                    }
                }
            }
            assert forall|k: int| 0 <= k < nf.len() - 1 implies self.slots@[#[trigger] nf[k]].content
                == Content::<T>::Empty(nf[k + 1] as usize) by {
                if k > 0 {
                    assert(nf[k] == free[k - 1]);
                }
            }
            assert forall|a: int, b: int| 0 <= a < b < nf.len() implies nf[a] != nf[b] by {
                if a == 0 {
                    assert(nf[b] == free[b - 1]);
                }
            }
        }
    }

    /// The value of `key`, if `key` still refers to one.
    pub fn get(&self, key: Key<T>) -> (r: Option<&T>)
        requires
            self.wf(),
            key.spec_index() < self@.len(),
        ensures
            r.is_some() == (self@[key.spec_index()].0 == key.spec_gen() && self@[key.spec_index()].1.is_some()),
            r.is_some() ==> *r.unwrap() == self@[key.spec_index()].1.unwrap(),
    {
        let slot = &self.slots[key.index as usize];
        if slot.gen != key.gen {
            return None;
        }
        match &slot.content {
            Content::Empty(_) => None,
            Content::Filled(x) => Some(x),
        }
    }

    /// The value of `key` for changing in place, if `key` still refers to one.
    pub fn get_mut(&mut self, key: Key<T>) -> (r: Option<&mut T>)
        requires
            old(self).wf(),
            key.spec_index() < old(self)@.len(),
        ensures
            r.is_some() == (old(self)@[key.spec_index()].0 == key.spec_gen() && old(self)@[key.spec_index()].1.is_some()),
            match r {
                Some(m) => {
                    &&& *m == old(self)@[key.spec_index()].1.unwrap()
                    &&& final(self)@ == old(self)@.update(key.spec_index(), (key.spec_gen(), Some(*final(m))))
                    &&& final(self).wf()
                },
                None => *final(self) == *old(self),
            },
    {
        let index = key.index as usize;
        if self.slots[index].gen != key.gen {
            return None;
        }
        let filled = match &self.slots[index].content {
            Content::Filled(_) => true,
            Content::Empty(_) => false,
        };
        if !filled {
            return None;
        }
        let slot = &mut self.slots[index];
        match &mut slot.content {
            Content::Filled(x) => Some(x),
            Content::Empty(_) => vstd::pervasive::unreached(),
        }
    }

    /// The stored values, in slot order.
    pub fn iter(&self) -> (r: Vec<&T>)
        ensures
            r@.len() == filled_values(self@).len(),
            forall|i: int| 0 <= i < r@.len() ==> *(#[trigger] r@[i]) == filled_values(self@)[i],
    {
        let mut r: Vec<&T> = Vec::new();
        let mut i: usize = 0;
        while i < self.slots.len()
            invariant
                i <= self@.len(),
                self@.len() == self.slots@.len(),
                r@.len() == filled_values(self@.subrange(0, i as int)).len(),
                forall|k: int| 0 <= k < r@.len() ==> *(#[trigger] r@[k]) == filled_values(self@.subrange(0, i as int))[k],
            decreases self@.len() - i,
        {
            proof {
                assert(self@.subrange(0, i + 1).drop_last() =~= self@.subrange(0, i as int));
            }
            match &self.slots[i].content {
                Content::Filled(x) => {
                    r.push(x);
                },
                Content::Empty(_) => {},
            }
            i += 1;
        }
        proof {
            assert(self@.subrange(0, self@.len() as int) =~= self@);
        }
        r
    }

    /// The keys of the stored values with the values, in slot order.
    pub fn iter_keys(&self) -> (r: Vec<(Key<T>, &T)>)
        requires
            self.wf(),
        ensures
            r@.len() == filled_indices(self@).len(),
            forall|i: int|
                0 <= i < r@.len() ==> {
                    let idx = filled_indices(self@)[i];
                    &&& (#[trigger] r@[i]).0.spec_index() == idx
                    &&& r@[i].0.spec_gen() == self@[idx].0
                    &&& self@[idx].1 == Some(*r@[i].1)
                },
    {
        let mut r: Vec<(Key<T>, &T)> = Vec::new();
        let mut i: usize = 0;
        proof {
            lemma_filled_indices_bound(self@);
        }
        while i < self.slots.len()
            invariant
                i <= self@.len(),
                self@.len() == self.slots@.len(),
                self@.len() <= u32::MAX,
                r@.len() == filled_indices(self@.subrange(0, i as int)).len(),
                forall|k: int|
                    0 <= k < r@.len() ==> {
                        let idx = filled_indices(self@.subrange(0, i as int))[k];
                        &&& (#[trigger] r@[k]).0.spec_index() == idx
                        &&& 0 <= idx < i
                        &&& r@[k].0.spec_gen() == self@[idx].0
                        &&& self@[idx].1 == Some(*r@[k].1)
                    },
            decreases self@.len() - i,
        {
            proof {
                assert(self@.subrange(0, i + 1).drop_last() =~= self@.subrange(0, i as int));
                lemma_filled_indices_bound(self@.subrange(0, i as int));
            }
            let slot = &self.slots[i];
            match &slot.content {
                Content::Filled(x) => {
                    r.push((Key { index: i as u32, gen: slot.gen, _type: PhantomData }, x));
                },
                Content::Empty(_) => {},
            }
            i += 1;
        }
        proof {
            assert(self@.subrange(0, self@.len() as int) =~= self@);
        }
        r
    }

    /// The number of slots, filled or not.
    pub fn len(&self) -> (r: usize)
        ensures
            r == self@.len(),
    {
        self.slots.len()
    }
}

} // verus!
