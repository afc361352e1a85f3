use vstd::prelude::*;

verus! {

/// Capacity of a buffer made by `CVec::new`.
pub const DEFAULT_CVEC_CAPACITY: usize = 8;

/// Growable owned buffer of elements.
pub struct CVec<T> {
    data: Vec<T>,
}

/// A byte buffer.
pub type Buf = CVec<u8>;

/// Little-endian value of the four bytes of `s` that start at `i`.
pub open spec fn le_u32(s: Seq<u8>, i: int) -> nat {
    s[i] as nat + 256 * (s[i + 1] as nat) + 65536 * (s[i + 2] as nat) + 16777216 * (s[i + 3] as nat)
}

/// `n` is `s` extended by `length` elements, each a copy of the element
/// `distance` places before it.
pub open spec fn copied_back<T>(s: Seq<T>, n: Seq<T>, distance: int, length: int) -> bool {
    &&& n.len() == s.len() + length
    &&& n.subrange(0, s.len() as int) == s
    &&& forall|k: int| s.len() <= k < n.len() ==> #[trigger] n[k] == n[k - distance]
}

impl<T> View for CVec<T> {
    type V = Seq<T>;

    closed spec fn view(&self) -> Seq<T> {
        self.data@
    }
}

impl<T> CVec<T> {
    /// An empty buffer with the default capacity; `None` when it cannot be allocated.
    pub fn new() -> (r: Option<CVec<T>>)
        ensures
            r matches Some(c) ==> c@ == Seq::<T>::empty(),
    {
        CVec::<T>::with_capacity(DEFAULT_CVEC_CAPACITY)
    }

    /// An empty buffer with room for `capacity` elements (the default when
    /// zero); `None` when that much cannot be allocated.
    pub fn with_capacity(capacity: usize) -> (r: Option<CVec<T>>)
        ensures
            r matches Some(c) ==> c@ == Seq::<T>::empty(),
    {
        let cap = if capacity > 0 { capacity } else { DEFAULT_CVEC_CAPACITY };
        let mut data: Vec<T> = Vec::new();
        match data.try_reserve(cap) {
            Ok(()) => Some(CVec { data }),
            Err(_) => None,
        }
    }

    /// A buffer holding the elements of `v`.
    pub fn from_vec(v: Vec<T>) -> (r: CVec<T>)
        ensures
            r@ == v@,
    {
        CVec { data: v }
    }

    /// Number of elements held.
    pub fn len(&self) -> (r: usize)
        ensures
            r == self@.len(),
    {
        self.data.len()
    }

    /// Appends one element.
    pub fn push(&mut self, value: T)
        ensures
            final(self)@ == old(self)@.push(value),
    {
        self.data.push(value);
    }

    /// Removes and returns the last element, `None` when empty.
    pub fn pop(&mut self) -> (r: Option<T>)
        ensures
            old(self)@.len() == 0 ==> r is None && final(self)@ == old(self)@,
            old(self)@.len() > 0 ==> r == Some(old(self)@.last()) && final(self)@
                == old(self)@.drop_last(),
    {
        self.data.pop()
    }

    /// The element at `index`, `None` past the end.
    pub fn get(&self, index: usize) -> (r: Option<&T>)
        ensures
            index < self@.len() ==> r == Some(&self@[index as int]),
            index >= self@.len() ==> r is None,
    {
        if index < self.data.len() {
            Some(&self.data[index])
        } else {
            None
        }
    }

    /// Iterator over all elements.
    pub fn iter(&self) -> (r: Iter<'_, T>)
        ensures
            r.wf(),
            r.source() == self@,
            r.pos() == 0,
            r.end() == self@.len(),
    {
        Iter { cvec: self, index: 0, end: self.data.len() }
    }

    /// Iterator that starts at `index` and stops before `limit` (or at the
    /// end of the buffer, when that comes first).
    pub fn limit_iter(&self, index: usize, limit: usize) -> (r: Iter<'_, T>)
        ensures
            r.wf(),
            r.source() == self@,
            r.end() == if limit <= self@.len() { limit as int } else { self@.len() as int },
            r.pos() == index,
    {
        let end = if limit <= self.data.len() { limit } else { self.data.len() };
        Iter { cvec: self, index, end }
    }

    /// Removes every element.
    pub fn clear(&mut self)
        ensures
            final(self)@ == Seq::<T>::empty(),
    {
        self.data.clear();
    }

    /// Consumes the buffer, handing out its elements.
    pub fn into_vec(self) -> (r: Vec<T>)
        ensures
            r@ == self@,
    {
        self.data
    }
}

impl<T: Copy> CVec<T> {
    /// Appends `length` elements, each a copy of the element `distance`
    /// places before it; later copies read earlier ones, so a distance
    /// shorter than the length repeats the last `distance` elements.
    pub fn copy_back_pointer(&mut self, distance: usize, length: usize)
        requires
            1 <= distance <= old(self)@.len(),
            old(self)@.len() + length <= usize::MAX,
        ensures
            copied_back(old(self)@, final(self)@, distance as int, length as int),
    {
        let ghost s0 = self@;
        let mut k: usize = 0;
        assert(self@.subrange(0, s0.len() as int) =~= s0);
        while k < length
            invariant
                k <= length,
                1 <= distance <= s0.len(),
                s0.len() + length <= usize::MAX,
                copied_back(s0, self@, distance as int, k as int),
            decreases length - k,
        {
            let back = self.data.len() - distance;
            let c = self.data[back];
            self.data.push(c);
            k = k + 1;
            proof {
                assert(self@.subrange(0, s0.len() as int) =~= s0);
            }
        }
    }
}

impl CVec<u8> {
    /// The little-endian `u32` at byte offset `index`, `None` unless four
    /// bytes stand there.
    pub fn get_wide(&self, index: usize) -> (r: Option<u32>)
        ensures
            index + 4 <= self@.len() ==> r == Some(le_u32(self@, index as int) as u32),
            index + 4 > self@.len() ==> r is None,
    {
        if index > self.data.len() || self.data.len() - index < 4 {
            None
        } else {
            let v = self.data[index] as u32 + 256 * (self.data[index + 1] as u32) + 65536 * (
            self.data[index + 2] as u32) + 16777216 * (self.data[index + 3] as u32);
            Some(v)
        }
    }
}

/// A cursor over a range of a buffer.
#[derive(Clone, Copy)]
pub struct Iter<'a, T> {
    cvec: &'a CVec<T>,
    index: usize,
    end: usize,
}

impl<'a, T> Iter<'a, T> {
    /// Everything in the underlying buffer.
    pub closed spec fn source(&self) -> Seq<T> {
        self.cvec@
    }

    /// Position of the next element.
    pub closed spec fn pos(&self) -> int {
        self.index as int
    }

    /// Position where the range ends.
    pub closed spec fn end(&self) -> int {
        self.end as int
    }

    /// The elements that are still to come: none once the position has
    /// reached the end of the range.
    pub open spec fn rest(&self) -> Seq<T> {
        if self.pos() < self.end() {
            self.source().subrange(self.pos(), self.end())
        } else {
            Seq::empty()
        }
    }

    /// The range lies within the buffer.
    pub open spec fn wf(&self) -> bool {
        0 <= self.pos() && 0 <= self.end() <= self.source().len()
    }

    /// The next element, advancing past it; `None`, with the cursor
    /// unmoved, at the end of the range.
    pub fn next(&mut self) -> (r: Option<&'a T>)
        requires
            old(self).wf(),
        ensures
            final(self).wf(),
            final(self).source() == old(self).source(),
            final(self).end() == old(self).end(),
            old(self).pos() <= old(self).end() ==> final(self).pos() <= final(self).end(),
            old(self).rest().len() == 0 ==> r is None && final(self).pos() == old(self).pos(),
            old(self).rest().len() > 0 ==> r == Some(&old(self).rest()[0]) && final(self).pos()
                == old(self).pos() + 1 && final(self).rest() == old(self).rest().drop_first(),
    {
        if self.index < self.end {
            let c: &'a CVec<T> = self.cvec;
            let i = self.index;
            self.index = self.index + 1;
            let r = c.get(i);
            assert(r == Some(&old(self).rest()[0]));
            assert(self.rest() =~= old(self).rest().drop_first());
            r
        } else {
            None
        }
    }

    /// Position of the next element.
    pub fn index(&self) -> (r: usize)
        ensures
            r == self.pos(),
    {
        self.index
    }

    /// A cursor `n` elements further on.
    pub fn skip(&self, n: usize) -> (r: Iter<'a, T>)
        requires
            self.wf(),
            self.pos() + n <= usize::MAX,
        ensures
            r.wf(),
            r.source() == self.source(),
            r.end() == self.end(),
            r.pos() == self.pos() + n,
    {
        Iter { cvec: self.cvec, index: self.index + n, end: self.end }
    }
}

impl<'a> Iter<'a, u8> {
    /// The little-endian `u32` in the next four bytes, `None` when fewer
    /// remain; the cursor moves four bytes on either way.
    pub fn next_wide(&mut self) -> (r: Option<u32>)
        requires
            old(self).wf(),
            old(self).pos() + 4 <= usize::MAX,
        ensures
            final(self).wf(),
            final(self).source() == old(self).source(),
            final(self).end() == old(self).end(),
            final(self).pos() == old(self).pos() + 4,
            old(self).pos() + 4 > old(self).end() ==> r is None,
            old(self).pos() + 4 <= old(self).end() ==> r == Some(
                le_u32(old(self).source(), old(self).pos()) as u32,
            ),
    {
        let i = self.index;
        self.index = self.index + 4;
        if self.index > self.end {
            None
        } else {
            self.cvec.get_wide(i)
        }
    }
}

} // verus!
