use vstd::prelude::*;

verus! {

/// Largest number of elements a stack holds.
pub const MAX_STACK_SIZE: usize = 256;

/// A last-in-first-out stack of at most `MAX_STACK_SIZE` elements. Its view is the
/// sequence of elements from the bottom; the last one is the top.
pub struct CustomStack<T> {
    data: Vec<T>,
}

impl<T> View for CustomStack<T> {
    type V = Seq<T>;

    closed spec fn view(&self) -> Seq<T> {
        self.data@
    }
}

/// The `n` topmost elements of `s` (all of them when there are fewer), topmost first.
pub open spec fn top_first<T>(s: Seq<T>, n: nat) -> Seq<T> {
    let k = if n < s.len() {
        n as int
    } else {
        s.len() as int
    };
    s.subrange(s.len() - k, s.len() as int).reverse()
}

/// The `n` topmost elements of `s` (all of them when there are fewer), in stack order.
pub open spec fn top_slice<T>(s: Seq<T>, n: nat) -> Seq<T> {
    let k = if n < s.len() {
        n as int
    } else {
        s.len() as int
    };
    s.subrange(s.len() - k, s.len() as int)
}

impl<T> CustomStack<T> {
    /// The stack never holds more than its capacity.
    pub open spec fn wf(&self) -> bool {
        self@.len() <= MAX_STACK_SIZE
    }

    /// An empty stack.
    pub fn new() -> (r: Self)
        ensures
            r@ == Seq::<T>::empty(),
            r.wf(),
    {
        CustomStack { data: Vec::new() }
    }

    /// Pushes `value` on top. A full stack is left unchanged and hands `value` back.
    pub fn push(&mut self, value: T) -> (r: Result<(), T>)
        requires
            old(self).wf(),
        ensures
            final(self).wf(),
            old(self)@.len() < MAX_STACK_SIZE ==> r is Ok && final(self)@ == old(self)@.push(value),
            old(self)@.len() >= MAX_STACK_SIZE ==> r == Err::<(), T>(value) && final(self)@ == old(
                self,
            )@,
    {
        if self.data.len() >= MAX_STACK_SIZE {
            return Err(value);
        }
        self.data.push(value);
        Ok(())
    }

    /// Pushes all of `values`, the last one ending on top, or none of them when they
    /// do not all fit; the capacity is checked whatever `check_hint` says.
    pub fn push_iterator(&mut self, values: Vec<T>, check_hint: bool) -> (r: Result<(), ()>)
        requires
            old(self).wf(),
        ensures
            final(self).wf(),
            old(self)@.len() + values@.len() <= MAX_STACK_SIZE ==> r is Ok && final(self)@ == old(
                self,
            )@ + values@,
            old(self)@.len() + values@.len() > MAX_STACK_SIZE ==> r is Err && final(self)@ == old(
                self,
            )@,
    {
        self.push_exact_iterator(values)
    }

    /// Pushes all of `values`, the last one ending on top, or none of them when they
    /// do not all fit.
    pub fn push_exact_iterator(&mut self, values: Vec<T>) -> (r: Result<(), ()>)
        requires
            old(self).wf(),
        ensures
            final(self).wf(),
            old(self)@.len() + values@.len() <= MAX_STACK_SIZE ==> r is Ok && final(self)@ == old(
                self,
            )@ + values@,
            old(self)@.len() + values@.len() > MAX_STACK_SIZE ==> r is Err && final(self)@ == old(
                self,
            )@,
    {
        if values.len() > MAX_STACK_SIZE - self.data.len() {
            return Err(());
        }
        let mut values = values;
        self.data.append(&mut values);
        Ok(())
    }

    /// Removes and returns the top element; `None` when the stack is empty.
    pub fn pop(&mut self) -> (r: Option<T>)
        requires
            old(self).wf(),
        ensures
            final(self).wf(),
            old(self)@.len() == 0 ==> r is None && final(self)@ == old(self)@,
            old(self)@.len() > 0 ==> r == Some(old(self)@.last()) && final(self)@ == old(
                self,
            )@.drop_last(),
    {
        self.data.pop()
    }

    /// Removes up to `n` elements from the top and returns them topmost first;
    /// `None` when the stack is empty.
    pub fn multipop(&mut self, n: usize) -> (r: Option<Vec<T>>)
        requires
            old(self).wf(),
        ensures
            final(self).wf(),
            old(self)@.len() == 0 ==> r is None && final(self)@ == old(self)@,
            old(self)@.len() > 0 ==> r is Some && r->0@ == top_first(old(self)@, n as nat)
                && final(self)@ == old(self)@.subrange(
                0,
                old(self)@.len() - top_first(old(self)@, n as nat).len(),
            ),
    {
        if self.data.len() == 0 {
            return None;
        }
        let keep = if n < self.data.len() {
            self.data.len() - n
        } else {
            0
        };
        let ghost start = self@;
        let mut out: Vec<T> = Vec::new();
        while self.data.len() > keep
            invariant
                keep <= self.data@.len() <= start.len(),
                self.data@ == start.subrange(0, self.data@.len() as int),
                out@ == start.subrange(self.data@.len() as int, start.len() as int).reverse(),
                start.len() <= MAX_STACK_SIZE,
            decreases self.data@.len(),
        {
            match self.data.pop() {
                Some(v) => {
                    out.push(v);
                },
                None => {},
            }
            assert(self.data@ =~= start.subrange(0, self.data@.len() as int));
            assert(out@ =~= start.subrange(self.data@.len() as int, start.len() as int).reverse());
        }
        Some(out)
    }

    /// The top element, left in place; `None` when the stack is empty.
    pub fn peek(&self) -> (r: Option<&T>)
        ensures
            self@.len() == 0 ==> r is None,
            self@.len() > 0 ==> r == Some(&self@.last()),
    {
        if self.data.len() == 0 {
            None
        } else {
            Some(&self.data[self.data.len() - 1])
        }
    }

    /// The up to `n` topmost elements, in stack order (the top is last), left in place;
    /// `None` when the stack is empty.
    pub fn multipeek(&self, n: usize) -> (r: Option<&[T]>)
        ensures
            self@.len() == 0 ==> r is None,
            self@.len() > 0 ==> r is Some && r->0@ == top_slice(self@, n as nat),
    {
        let len = self.data.len();
        if len == 0 {
            return None;
        }
        let start = if n < len {
            len - n
        } else {
            0
        };
        let all = self.data.as_slice();
        Some(&all[start..len])
    }

    /// Every element, bottom first.
    pub fn peek_all(&self) -> (r: &[T])
        ensures
            r@ == self@,
    {
        self.data.as_slice()
    }

    /// Removes every element.
    pub fn clear(&mut self)
        ensures
            final(self)@ == Seq::<T>::empty(),
            final(self).wf(),
    {
        self.data.clear();
    }

    pub fn len(&self) -> (r: usize)
        ensures
            r == self@.len(),
    {
        self.data.len()
    }

    pub fn is_empty(&self) -> (r: bool)
        ensures
            r == (self@.len() == 0),
    {
        self.data.len() == 0
    }
}

impl<T: Copy> CustomStack<T> {
    /// Pushes copies of all of `slice`, the last one ending on top, or none of them
    /// when they do not all fit.
    pub fn push_slice(&mut self, slice: &[T]) -> (r: Result<(), ()>)
        requires
            old(self).wf(),
        ensures
            final(self).wf(),
            old(self)@.len() + slice@.len() <= MAX_STACK_SIZE ==> r is Ok && final(self)@ == old(
                self,
            )@ + slice@,
            old(self)@.len() + slice@.len() > MAX_STACK_SIZE ==> r is Err && final(self)@ == old(
                self,
            )@,
    {
        if slice.len() > MAX_STACK_SIZE - self.data.len() {
            return Err(());
        }
        let ghost start = self@;
        let mut i: usize = 0;
        while i < slice.len()
            invariant
                i <= slice@.len(),
                start.len() + slice@.len() <= MAX_STACK_SIZE,
                self.data@ == start + slice@.subrange(0, i as int),
            decreases slice@.len() - i,
        {
            self.data.push(slice[i]);
            assert(self.data@ =~= start + slice@.subrange(0, i + 1));
            i = i + 1;
        }
        assert(slice@.subrange(0, slice@.len() as int) =~= slice@);
        Ok(())
    }
}

// ---------------------------------------------------------------------------
// Laws

/// The contents after pushing each of `vs` in turn onto `s`.
pub open spec fn pushed_all<T>(s: Seq<T>, vs: Seq<T>) -> Seq<T>
    decreases vs.len(),
{
    if vs.len() == 0 {
        s
    } else {
        pushed_all(s, vs.drop_last()).push(vs.last())
    }
}

/// The values that `n` successive pops of `s` return, in the order returned.
pub open spec fn popped<T>(s: Seq<T>, n: nat) -> Seq<T>
    decreases n,
{
    if n == 0 || s.len() == 0 {
        Seq::empty()
    } else {
        seq![s.last()] + popped(s.drop_last(), (n - 1) as nat)
    }
}

/// The contents left after `n` successive pops of `s`.
pub open spec fn after_pops<T>(s: Seq<T>, n: nat) -> Seq<T>
    decreases n,
{
    if n == 0 || s.len() == 0 {
        s
    } else {
        after_pops(s.drop_last(), (n - 1) as nat)
    }
}

proof fn lemma_pushed_all_is_concat<T>(s: Seq<T>, vs: Seq<T>)
    ensures
        pushed_all(s, vs) == s + vs,
    decreases vs.len(),
{
    if vs.len() > 0 {
        lemma_pushed_all_is_concat(s, vs.drop_last());
        assert(s + vs =~= (s + vs.drop_last()).push(vs.last()));
    } else {
        assert(s + vs =~= s);
    }
}

/// Last in, first out: after pushing `vs` onto `s` (all within capacity), popping as
/// many times returns `vs` in reverse order and leaves `s`; `multipop` of that many
/// returns the same values.
pub proof fn lemma_lifo<T>(s: Seq<T>, vs: Seq<T>)
    requires
        s.len() + vs.len() <= MAX_STACK_SIZE,
    ensures
        pushed_all(s, vs).len() <= MAX_STACK_SIZE,
        popped(pushed_all(s, vs), vs.len()) == vs.reverse(),
        after_pops(pushed_all(s, vs), vs.len()) == s,
        top_first(pushed_all(s, vs), vs.len()) == vs.reverse(),
    decreases vs.len(),
{
    lemma_pushed_all_is_concat(s, vs);
    if vs.len() > 0 {
        let t = pushed_all(s, vs);
        lemma_lifo(s, vs.drop_last());
        lemma_pushed_all_is_concat(s, vs.drop_last());
        assert(t.drop_last() =~= pushed_all(s, vs.drop_last()));
        assert(t.last() == vs.last());
        assert(vs.reverse() =~= seq![vs.last()] + vs.drop_last().reverse());
        assert(t.subrange(t.len() - vs.len(), t.len() as int) =~= vs);
    } else {
        assert(vs.reverse() =~= Seq::<T>::empty());
        assert(pushed_all(s, vs).subrange(s.len() as int, s.len() as int) =~= Seq::<T>::empty());
    }
}

/// Filling an empty stack with one value more than its capacity: each of the first
/// `MAX_STACK_SIZE` pushes finds room, and the last finds the stack full, so `push`
/// refuses it and the length stays at the capacity.
pub proof fn lemma_fill_past_capacity<T>(vs: Seq<T>)
    requires
        vs.len() == MAX_STACK_SIZE + 1,
    ensures
        forall|i: int|
            0 <= i < MAX_STACK_SIZE ==> #[trigger] pushed_all(Seq::<T>::empty(), vs.take(i)).len()
                < MAX_STACK_SIZE,
        pushed_all(Seq::<T>::empty(), vs.take(MAX_STACK_SIZE as int)).len() == MAX_STACK_SIZE,
{
    assert forall|i: int| 0 <= i <= MAX_STACK_SIZE implies #[trigger] pushed_all(
        Seq::<T>::empty(),
        vs.take(i),
    ).len() == i by {
        lemma_pushed_all_is_concat(Seq::<T>::empty(), vs.take(i));
    }
}

} // verus!
