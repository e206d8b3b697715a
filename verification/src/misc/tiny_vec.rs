use vstd::prelude::*;

verus! {

/// A vector of at most `N` elements stored inline, so that values that hold
/// one stay `Copy`.
#[derive(Debug)]
pub struct TinyVec<T: Copy, const N: usize> {
    buf: [Option<T>; N],
    len: u8,
}

impl<T: Copy, const N: usize> Clone for TinyVec<T, N> {
    fn clone(&self) -> (c: Self)
        ensures
            c == *self,
    {
        *self
    }
}

impl<T: Copy, const N: usize> Copy for TinyVec<T, N> {

}

impl<T: Copy, const N: usize> View for TinyVec<T, N> {
    type V = Seq<T>;

    /// The stored elements, oldest first.
    closed spec fn view(&self) -> Seq<T> {
        Seq::new(self.len as nat, |i: int| self.buf@[i]->Some_0)
    }
}

impl<T: Copy, const N: usize> TinyVec<T, N> {
    /// Every slot below `len` is filled and `len` does not exceed the capacity.
    #[verifier::type_invariant]
    closed spec fn inv(&self) -> bool {
        &&& self.len as int <= N <= 255
        &&& forall|i: int| 0 <= i < self.len ==> (#[trigger] self.buf@[i]) is Some
    }

    /// The empty vector.
    pub fn new() -> (v: Self)
        requires
            N <= 255,
        ensures
            v@ == Seq::<T>::empty(),
    {
        let v = TinyVec { buf: [None; N], len: 0 };
        assert(v@ =~= Seq::<T>::empty());
        v
    }

    /// The vector of the first `len` slots of `buf`, which are filled.
    pub fn from_raw(buf: [Option<T>; N], len: u8) -> (v: Self)
        requires
            len as int <= N <= 255,
            forall|i: int| 0 <= i < len ==> (#[trigger] buf@[i]) is Some,
        ensures
            v@ == Seq::new(len as nat, |i: int| buf@[i]->Some_0),
    {
        TinyVec { buf, len }
    }

    /// Appends `val`.
    pub fn push(&mut self, val: T)
        requires
            old(self)@.len() < N,
        ensures
            final(self)@ == old(self)@.push(val),
    {
        proof {
            use_type_invariant(&*self);
        }
        let ghost before = self@;
        self.buf[self.len as usize] = Some(val);
        self.len = self.len + 1;
        assert(self@ =~= before.push(val));
    }

    /// The number of stored elements.
    pub fn len(&self) -> (n: u8)
        ensures
            n as int == self@.len(),
    {
        self.len
    }

    /// Whether nothing is stored.
    pub fn is_empty(&self) -> (b: bool)
        ensures
            b == (self@.len() == 0),
    {
        self.len == 0
    }

    /// Takes the newest element off, if there is one.
    pub fn pop(&mut self) -> (r: Option<T>)
        ensures
            old(self)@.len() == 0 ==> r is None && final(self)@ == old(self)@,
            old(self)@.len() > 0 ==> r == Some(old(self)@.last()) && final(self)@ == old(
                self,
            )@.drop_last(),
    {
        proof {
            use_type_invariant(&*self);
        }
        if self.len == 0 {
            return None;
        }
        let ghost before = self@;
        self.len = self.len - 1;
        let r = self.buf[self.len as usize];
        assert(self@ =~= before.drop_last());
        r
    }

    /// The element at `idx`, if there is one.
    pub fn get(&self, idx: usize) -> (r: Option<&T>)
        ensures
            r == (if idx < self@.len() { Some(&self@[idx as int]) } else { None }),
    {
        proof {
            use_type_invariant(self);
        }
        if idx < self.len as usize {
            self.buf[idx].as_ref()
        } else {
            None
        }
    }
}

} // verus!
