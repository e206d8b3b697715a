use vstd::prelude::*;
use vstd::std_specs::cmp::PartialEqSpec;

verus! {

/// A vector of at most `N` elements stored inline.
#[derive(Debug)]
pub struct TinyVector<T: Copy, const N: usize> {
    data: [Option<T>; N],
    len: u8,
}

impl<T: Copy, const N: usize> Clone for TinyVector<T, N> {
    fn clone(&self) -> (c: Self)
        ensures
            c == *self,
    {
        *self
    }
}

impl<T: Copy, const N: usize> Copy for TinyVector<T, N> {

}

impl<T: Copy, const N: usize> View for TinyVector<T, N> {
    type V = Seq<T>;

    /// The stored elements, oldest first.
    closed spec fn view(&self) -> Seq<T> {
        Seq::new(self.len as nat, |i: int| self.data@[i]->Some_0)
    }
}

/// `s` without its first element that `hit` accepts; `s` itself where there
/// is none.
pub open spec fn without_first<T>(s: Seq<T>, hit: spec_fn(T) -> bool) -> Seq<T>
    decreases s.len(),
{
    if s.len() == 0 {
        s
    } else if hit(s[0]) {
        s.drop_first()
    } else {
        seq![s[0]] + without_first(s.drop_first(), hit)
    }
}

/// Cutting out the element at `pos`, the first hit, is `without_first`.
pub proof fn lemma_without_first<T>(s: Seq<T>, hit: spec_fn(T) -> bool, pos: int)
    requires
        0 <= pos <= s.len(),
        forall|i: int| 0 <= i < pos ==> !hit(s[i]),
        pos < s.len() ==> hit(s[pos]),
    ensures
        without_first(s, hit) == (if pos < s.len() {
            s.remove(pos)
        } else {
            s
        }),
    decreases s.len(),
{
    if s.len() == 0 {
    } else if pos == 0 {
        assert(s.remove(0) =~= s.drop_first());
    } else {
        let t = s.drop_first();
        lemma_without_first(t, hit, pos - 1);
        if pos < s.len() {
            assert(seq![s[0]] + t.remove(pos - 1) =~= s.remove(pos));
        } else {
            assert(seq![s[0]] + t =~= s);
        }
    }
}

impl<T: Copy, const N: usize> TinyVector<T, N> {
    /// The slots below `len` are filled, and `len` fits the capacity.
    #[verifier::type_invariant]
    closed spec fn inv(&self) -> bool {
        &&& self.len as int <= N <= 255
        &&& forall|i: int| 0 <= i < self.len ==> (#[trigger] self.data@[i]) is Some
    }

    /// The empty vector.
    pub fn new() -> (v: Self)
        requires
            N <= 255,
        ensures
            v@ == Seq::<T>::empty(),
    {
        let v = TinyVector { data: [None; N], len: 0 };
        assert(v@ =~= Seq::<T>::empty());
        v
    }

    /// The vector of the first `len` slots of `array`, which are filled.
    pub fn from_raw(array: [Option<T>; N], len: u8) -> (v: Self)
        requires
            len as int <= N <= 255,
            forall|i: int| 0 <= i < len ==> (#[trigger] array@[i]) is Some,
        ensures
            v@ == Seq::new(len as nat, |i: int| array@[i]->Some_0),
    {
        TinyVector { data: array, len }
    }

    /// Appends `value`.
    pub fn push(&mut self, value: T)
        requires
            old(self)@.len() < N,
        ensures
            final(self)@ == old(self)@.push(value),
    {
        proof {
            use_type_invariant(&*self);
        }
        let ghost before = self@;
        self.data[self.len as usize] = Some(value);
        self.len = self.len + 1;
        assert(self@ =~= before.push(value));
    }

    /// Whether nothing is stored.
    pub fn is_empty(&self) -> (b: bool)
        ensures
            b == (self@.len() == 0),
    {
        self.len == 0
    }

    /// The number of stored elements.
    pub fn len(&self) -> (n: u8)
        ensures
            n as int == self@.len(),
            n as int <= N,
    {
        proof {
            use_type_invariant(self);
        }
        self.len
    }

    /// The stored elements, oldest first.
    pub fn iter(&self) -> (all: Vec<T>)
        ensures
            all@ == self@,
    {
        proof {
            use_type_invariant(self);
        }
        let mut all: Vec<T> = Vec::new();
        let mut i: usize = 0;
        while i < self.len as usize
            invariant
                i <= self.len,
                self.len as int <= N,
                forall|j: int| 0 <= j < self.len ==> (#[trigger] self.data@[j]) is Some,
                all@ == self@.take(i as int),
            decreases self.len - i,
        {
            all.push(self.data[i].unwrap());
            i = i + 1;
            assert(all@ =~= self@.take(i as int));
        }
        assert(all@ =~= self@);
        all
    }

    /// The element at `index`, if there is one.
    pub fn get(&self, index: usize) -> (r: Option<&T>)
        ensures
            r == (if index < self@.len() {
                Some(&self@[index as int])
            } else {
                None
            }),
    {
        proof {
            use_type_invariant(self);
        }
        if index < self.len as usize {
            self.data[index].as_ref()
        } else {
            None
        }
    }

    /// Cuts out the element at `index`; the later ones move up.
    pub fn remove_at(&mut self, index: usize)
        requires
            index < old(self)@.len(),
        ensures
            final(self)@ == old(self)@.remove(index as int),
    {
        proof {
            use_type_invariant(&*self);
        }
        let ghost before = self@;
        let last = self.len as usize - 1;
        let mut i: usize = index;
        while i < last
            invariant
                index <= i <= last,
                last + 1 == self.len,
                self.len as int <= N <= 255,
                before.len() == self.len,
                forall|j: int| 0 <= j < self.len ==> (#[trigger] self.data@[j]) is Some,
                forall|j: int| 0 <= j < index ==> (#[trigger] self.data@[j])->Some_0 == before[j],
                forall|j: int|
                    index <= j < i ==> (#[trigger] self.data@[j])->Some_0 == before[j + 1],
                forall|j: int|
                    i <= j < self.len ==> (#[trigger] self.data@[j])->Some_0 == before[j],
            decreases last - i,
        {
            self.data[i] = self.data[i + 1];
            i = i + 1;
        }
        self.len = self.len - 1;
        self.data[last] = None;
        assert(self@ =~= before.remove(index as int));
    }

    /// Cuts out the first element equal to `element`, if there is one.
    pub fn remove(&mut self, element: &T) where T: PartialEq
        ensures
            T::obeys_eq_spec() ==> final(self)@ == without_first(
                old(self)@,
                |x: T| x.eq_spec(element),
            ),
            final(self)@.len() <= old(self)@.len(),
    {
        proof {
            use_type_invariant(&*self);
        }
        let ghost before = self@;
        let ghost hit = |x: T| x.eq_spec(element);
        let mut pos: usize = 0;
        while pos < self.len as usize
            invariant
                pos <= self.len,
                self@ == before,
                self.len as int <= N,
                forall|j: int| 0 <= j < self.len ==> (#[trigger] self.data@[j]) is Some,
                T::obeys_eq_spec() ==> forall|j: int|
                    0 <= j < pos ==> !(#[trigger] before[j]).eq_spec(element),
            ensures
                pos <= self.len,
                T::obeys_eq_spec() ==> forall|j: int|
                    0 <= j < pos ==> !(#[trigger] before[j]).eq_spec(element),
                T::obeys_eq_spec() && pos < self.len ==> before[pos as int].eq_spec(element),
            decreases self.len - pos,
        {
            let x = self.data[pos].unwrap();
            assert(x == before[pos as int]);
            if x == *element {
                break ;
            }
            pos = pos + 1;
        }
        proof {
            if T::obeys_eq_spec() {
                lemma_without_first(before, hit, pos as int);
            }
        }
        if pos < self.len as usize {
            self.remove_at(pos);
        }
    }
}

} // verus!
