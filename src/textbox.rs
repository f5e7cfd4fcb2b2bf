use vstd::prelude::*;
use vstd::string::StringSliceAdditionalSpecFns;
use vstd::utf8::*;

use crate::custom_error::CustomError;

verus! {

broadcast use vstd::utf8::char_is_scalar;

/// Byte budget of the input line.
pub const TEXT_BUFFER_SIZE: usize = 32;

// ---------------------------------------------------------------------------
// Storage: a heapless string of `TEXT_BUFFER_SIZE` bytes

#[verifier::external_type_specification]
#[verifier::external_body]
pub struct ExCapacityError(heapless::CapacityError);

/// The bytes of the line, kept in a fixed-capacity heapless string.
#[verifier::external_body]
pub struct LineStore {
    text: heapless::String<TEXT_BUFFER_SIZE>,
}

/// The characters that a `LineStore` holds.
pub uninterp spec fn store_chars(store: LineStore) -> Seq<char>;

/// Number of bytes of the UTF-8 encoding of `s`.
pub open spec fn text_bytes(s: Seq<char>) -> nat {
    encode_utf8(s).len()
}

/// Number of bytes taken by the first `k` characters of `s`.
pub open spec fn prefix_bytes(s: Seq<char>, k: int) -> nat {
    encode_utf8(s.take(k)).len()
}

/// `idx` is the byte offset at which some character of `s` starts, or its end.
pub open spec fn is_boundary(s: Seq<char>, idx: int) -> bool {
    exists|k: int| 0 <= k <= s.len() && #[trigger] prefix_bytes(s, k) == idx
}

impl LineStore {
    /// Relies on `heapless::String::new`: the string starts empty.
    #[verifier::external_body]
    fn new() -> (r: LineStore)
        ensures
            store_chars(r) == Seq::<char>::empty(),
    {
        LineStore { text: heapless::String::new() }
    }

    /// Relies on `heapless::String::push`: the character is appended when its bytes fit
    /// in the capacity; otherwise an error and no change.
    #[verifier::external_body]
    fn push(&mut self, c: char) -> (r: Result<(), heapless::CapacityError>)
        ensures
            text_bytes(store_chars(*old(self)).push(c)) <= TEXT_BUFFER_SIZE ==> r is Ok
                && store_chars(*final(self)) == store_chars(*old(self)).push(c),
            text_bytes(store_chars(*old(self)).push(c)) > TEXT_BUFFER_SIZE ==> r is Err
                && store_chars(*final(self)) == store_chars(*old(self)),
    {
        self.text.push(c)
    }

    /// Relies on `heapless::String::push_str`: all of `s` is appended when it fits,
    /// otherwise an error and no change.
    #[verifier::external_body]
    fn push_str(&mut self, s: &str) -> (r: Result<(), heapless::CapacityError>)
        ensures
            text_bytes(store_chars(*old(self)) + s@) <= TEXT_BUFFER_SIZE ==> r is Ok
                && store_chars(*final(self)) == store_chars(*old(self)) + s@,
            text_bytes(store_chars(*old(self)) + s@) > TEXT_BUFFER_SIZE ==> r is Err
                && store_chars(*final(self)) == store_chars(*old(self)),
    {
        self.text.push_str(s)
    }

    /// Relies on `heapless::String::pop`: removes and returns the last character.
    #[verifier::external_body]
    fn pop(&mut self) -> (r: Option<char>)
        ensures
            store_chars(*old(self)).len() == 0 ==> r is None && store_chars(*final(self))
                == store_chars(*old(self)),
            store_chars(*old(self)).len() > 0 ==> r == Some(store_chars(*old(self)).last())
                && store_chars(*final(self)) == store_chars(*old(self)).drop_last(),
    {
        self.text.pop()
    }

    /// Relies on `heapless::String::insert`: puts `c` at the byte offset `idx`, which
    /// must start a character (or be the end), when its bytes fit; otherwise an error
    /// and no change.
    #[verifier::external_body]
    fn insert(&mut self, idx: usize, c: char) -> (r: Result<(), heapless::CapacityError>)
        requires
            is_boundary(store_chars(*old(self)), idx as int),
        ensures
            text_bytes(store_chars(*old(self)).push(c)) <= TEXT_BUFFER_SIZE ==> r is Ok,
            text_bytes(store_chars(*old(self)).push(c)) > TEXT_BUFFER_SIZE ==> r is Err
                && store_chars(*final(self)) == store_chars(*old(self)),
            forall|k: int|
                0 <= k <= store_chars(*old(self)).len() && #[trigger] prefix_bytes(
                    store_chars(*old(self)),
                    k,
                ) == idx && r is Ok ==> store_chars(*final(self)) == store_chars(*old(self)).take(
                    k,
                ).push(c) + store_chars(*old(self)).skip(k),
    {
        self.text.insert(idx, c)
    }

    /// Relies on `heapless::String::insert_str`: puts `s` at the byte offset `idx`, which
    /// must start a character (or be the end), when it fits; otherwise an error and no
    /// change.
    #[verifier::external_body]
    fn insert_str(&mut self, idx: usize, s: &str) -> (r: Result<(), heapless::CapacityError>)
        requires
            is_boundary(store_chars(*old(self)), idx as int),
        ensures
            text_bytes(store_chars(*old(self)) + s@) <= TEXT_BUFFER_SIZE ==> r is Ok,
            text_bytes(store_chars(*old(self)) + s@) > TEXT_BUFFER_SIZE ==> r is Err
                && store_chars(*final(self)) == store_chars(*old(self)),
            forall|k: int|
                0 <= k <= store_chars(*old(self)).len() && #[trigger] prefix_bytes(
                    store_chars(*old(self)),
                    k,
                ) == idx && r is Ok ==> store_chars(*final(self)) == store_chars(*old(self)).take(
                    k,
                ) + s@ + store_chars(*old(self)).skip(k),
    {
        self.text.insert_str(idx, s)
    }

    /// Relies on `heapless::String::remove`: removes and returns the character that
    /// starts at byte offset `idx`.
    #[verifier::external_body]
    fn remove(&mut self, idx: usize) -> (r: char)
        requires
            exists|k: int|
                0 <= k < store_chars(*old(self)).len() && #[trigger] prefix_bytes(
                    store_chars(*old(self)),
                    k,
                ) == idx,
        ensures
            forall|k: int|
                0 <= k < store_chars(*old(self)).len() && #[trigger] prefix_bytes(
                    store_chars(*old(self)),
                    k,
                ) == idx ==> r == store_chars(*old(self))[k] && store_chars(*final(self))
                    == store_chars(*old(self)).remove(k),
    {
        self.text.remove(idx)
    }

    /// Relies on `heapless::String::clear`: the string becomes empty.
    #[verifier::external_body]
    fn clear(&mut self)
        ensures
            store_chars(*final(self)) == Seq::<char>::empty(),
    {
        self.text.clear()
    }

    /// Relies on `heapless::String::as_str`: the characters held, as a string slice;
    /// they never take more bytes than the capacity.
    #[verifier::external_body]
    fn as_str(&self) -> (r: &str)
        ensures
            r@ == store_chars(*self),
            text_bytes(r@) <= TEXT_BUFFER_SIZE,
    {
        self.text.as_str()
    }
}

// ---------------------------------------------------------------------------
// UTF-8 lengths

pub(crate) proof fn lemma_encode_concat(a: Seq<char>, b: Seq<char>)
    ensures
        encode_utf8(a + b) == encode_utf8(a) + encode_utf8(b),
    decreases a.len(),
{
    if a.len() == 0 {
        assert(a + b =~= b);
        assert(encode_utf8(a) =~= Seq::<u8>::empty());
        assert(encode_utf8(a) + encode_utf8(b) =~= encode_utf8(b));
    } else {
        assert((a + b).drop_first() =~= a.drop_first() + b);
        assert((a + b)[0] == a[0]);
        lemma_encode_concat(a.drop_first(), b);
        assert(encode_utf8(a + b) =~= encode_utf8(a) + encode_utf8(b));
    }
}

proof fn lemma_prefix_step(s: Seq<char>, k: int)
    requires
        0 <= k < s.len(),
    ensures
        prefix_bytes(s, k + 1) == prefix_bytes(s, k) + encode_utf8(seq![s[k]]).len(),
{
    assert(s.take(k + 1) =~= s.take(k) + seq![s[k]]);
    lemma_encode_concat(s.take(k), seq![s[k]]);
}

proof fn lemma_prefix_monotonic(s: Seq<char>, i: int, j: int)
    requires
        0 <= i <= j <= s.len(),
    ensures
        prefix_bytes(s, i) <= prefix_bytes(s, j),
        i < j ==> prefix_bytes(s, i) < prefix_bytes(s, j),
    decreases j - i,
{
    if i < j {
        lemma_prefix_monotonic(s, i, j - 1);
        lemma_prefix_step(s, j - 1);
        assert(seq![s[j - 1]].drop_first() =~= Seq::<char>::empty());
    }
}

/// Bytes in the UTF-8 encoding of `c`.
fn char_width(c: char) -> (r: usize)
    ensures
        r == encode_utf8(seq![c]).len(),
        1 <= r <= 4,
{
    proof {
        let s = seq![c];
        assert(s.drop_first() =~= Seq::<char>::empty());
        assert(encode_utf8(s.drop_first()) =~= Seq::<u8>::empty());
        assert(encode_utf8(s) =~= encode_scalar(c as u32));
    }
    let v = c as u32;
    if v <= 0x7f {
        1
    } else if v <= 0x7ff {
        2
    } else if v <= 0xffff {
        3
    } else {
        4
    }
}

/// The character index at which byte offset `idx` of `s` falls on a boundary.
fn locate(s: &str, idx: usize) -> (r: Option<usize>)
    ensures
        r matches Some(k) ==> k <= s@.len() && prefix_bytes(s@, k as int) == idx,
        r is None ==> !is_boundary(s@, idx as int),
{
    let n = s.unicode_len();
    let mut k: usize = 0;
    let mut b: u128 = 0;
    assert(s@.take(0) =~= Seq::<char>::empty());
    while k < n && b < idx as u128
        invariant
            n == s@.len(),
            k <= n,
            b == prefix_bytes(s@, k as int),
            forall|j: int| 0 <= j < k ==> #[trigger] prefix_bytes(s@, j) < idx,
        decreases n - k,
    {
        let w = char_width(s.get_char(k));
        proof {
            lemma_prefix_step(s@, k as int);
        }
        b = b + w as u128;
        k = k + 1;
    }
    if b == idx as u128 {
        Some(k)
    } else {
        proof {
            assert forall|j: int| 0 <= j <= s@.len() implies #[trigger] prefix_bytes(s@, j)
                != idx by {
                if j > k {
                    lemma_prefix_monotonic(s@, k as int, j);
                } else if j == k {
                } else if k == n {
                }
                if k == n && j <= k {
                    lemma_prefix_monotonic(s@, j, k as int);
                }
            }
        }
        None
    }
}

/// Whether `pat` occurs in `s` starting at position `i`.
pub open spec fn occurs_at(s: Seq<char>, pat: Seq<char>, i: int) -> bool {
    0 <= i && i + pat.len() <= s.len() && s.subrange(i, i + pat.len()) == pat
}

fn matches_at(s: &str, n: usize, pat: &str, m: usize, i: usize) -> (r: bool)
    requires
        n == s@.len(),
        m == pat@.len(),
        i + m <= n,
    ensures
        r == occurs_at(s@, pat@, i as int),
{
    let mut j: usize = 0;
    while j < m
        invariant
            n == s@.len(),
            m == pat@.len(),
            i + m <= n,
            j <= m,
            forall|t: int| 0 <= t < j ==> s@[i + t] == pat@[t],
        decreases m - j,
    {
        if s.get_char(i + j) != pat.get_char(j) {
            assert(s@.subrange(i as int, i + m)[j as int] != pat@[j as int]);
            return false;
        }
        j = j + 1;
    }
    assert(s@.subrange(i as int, i + m) =~= pat@);
    true
}

// ---------------------------------------------------------------------------
// The input line

/// The editable line of input: a sequence of characters whose UTF-8 encoding takes
/// at most `TEXT_BUFFER_SIZE` bytes. Its view is that sequence.
pub struct CustomTextbox {
    store: LineStore,
}

impl View for CustomTextbox {
    type V = Seq<char>;

    closed spec fn view(&self) -> Seq<char> {
        store_chars(self.store)
    }
}

impl CustomTextbox {
    /// An empty line.
    pub fn new() -> (r: Self)
        ensures
            r@ == Seq::<char>::empty(),
    {
        CustomTextbox { store: LineStore::new() }
    }

    /// Appends `string` when it fits in the byte budget; otherwise `CapacityError`
    /// and no change.
    pub fn append_str(&mut self, string: &str) -> (r: Result<(), CustomError>)
        ensures
            text_bytes(old(self)@ + string@) <= TEXT_BUFFER_SIZE ==> r is Ok && final(self)@ == old(self)@ + string@,
            text_bytes(old(self)@ + string@) > TEXT_BUFFER_SIZE ==> r == Err::<(), CustomError>(
                CustomError::CapacityError,
            ) && final(self)@ == old(self)@,
    {
        match self.store.push_str(string) {
            Ok(()) => Ok(()),
            Err(_) => Err(CustomError::CapacityError),
        }
    }

    /// Appends `c` when its bytes fit in the budget; otherwise `CapacityError` and no
    /// change.
    pub fn append_char(&mut self, c: char) -> (r: Result<(), CustomError>)
        ensures
            text_bytes(old(self)@.push(c)) <= TEXT_BUFFER_SIZE ==> r is Ok && final(self)@ == old(self)@.push(c),
            text_bytes(old(self)@.push(c)) > TEXT_BUFFER_SIZE ==> r == Err::<(), CustomError>(
                CustomError::CapacityError,
            ) && final(self)@ == old(self)@,
    {
        match self.store.push(c) {
            Ok(()) => Ok(()),
            Err(_) => Err(CustomError::CapacityError),
        }
    }

    /// A copy of the text.
    pub fn get_text(&self) -> (r: String)
        ensures
            r@ == self@,
    {
        String::from_str(self.store.as_str())
    }

    /// The text, borrowed.
    pub fn get_text_str(&self) -> (r: &str)
        ensures
            r@ == self@,
    {
        self.store.as_str()
    }

    /// Removes the last `count` characters; `BadInput` and no change when there are
    /// fewer.
    pub fn backspace(&mut self, count: usize) -> (r: Result<(), CustomError>)
        ensures
            old(self)@.len() < count ==> r == Err::<(), CustomError>(CustomError::BadInput)
                && final(self)@ == old(self)@,
            old(self)@.len() >= count ==> r is Ok && final(self)@ == old(self)@.take(
                old(self)@.len() - count,
            ),
    {
        let n = self.store.as_str().unicode_len();
        if n < count {
            return Err(CustomError::BadInput);
        }
        let ghost start = self@;
        let mut i: usize = 0;
        while i < count
            invariant
                i <= count <= start.len(),
                self@ == start.take(start.len() - i),
            decreases count - i,
        {
            let _ = self.store.pop();
            assert(start.take(start.len() - i).drop_last() =~= start.take(start.len() - (i + 1)));
            i = i + 1;
        }
        Ok(())
    }

    pub fn contains(&self, pat: char) -> (r: bool)
        ensures
            r == self@.contains(pat),
    {
        let s = self.store.as_str();
        let n = s.unicode_len();
        let mut i: usize = 0;
        while i < n
            invariant
                n == s@.len(),
                s@ == self@,
                i <= n,
                forall|j: int| 0 <= j < i ==> s@[j] != pat,
            decreases n - i,
        {
            if s.get_char(i) == pat {
                return true;
            }
            i = i + 1;
        }
        false
    }

    pub fn contains_str(&self, pat: &str) -> (r: bool)
        ensures
            r == exists|i: int| occurs_at(self@, pat@, i),
    {
        let s = self.store.as_str();
        let n = s.unicode_len();
        let m = pat.unicode_len();
        if m > n {
            return false;
        }
        let last = n - m;
        let mut i: usize = 0;
        while i < last
            invariant
                n == s@.len(),
                m == pat@.len(),
                last == n - m,
                s@ == self@,
                i <= last,
                forall|j: int| 0 <= j < i ==> !occurs_at(s@, pat@, j),
            decreases last - i,
        {
            if matches_at(s, n, pat, m, i) {
                return true;
            }
            i = i + 1;
        }
        matches_at(s, n, pat, m, last)
    }

    pub fn starts_with(&self, pat: char) -> (r: bool)
        ensures
            r == (self@.len() > 0 && self@[0] == pat),
    {
        let s = self.store.as_str();
        s.unicode_len() > 0 && s.get_char(0) == pat
    }

    pub fn starts_with_str(&self, pat: &str) -> (r: bool)
        ensures
            r == occurs_at(self@, pat@, 0),
    {
        let s = self.store.as_str();
        let n = s.unicode_len();
        let m = pat.unicode_len();
        if m > n {
            return false;
        }
        matches_at(s, n, pat, m, 0)
    }

    pub fn ends_with(&self, pat: char) -> (r: bool)
        ensures
            r == (self@.len() > 0 && self@.last() == pat),
    {
        let s = self.store.as_str();
        let n = s.unicode_len();
        n > 0 && s.get_char(n - 1) == pat
    }

    pub fn ends_with_str(&self, pat: &str) -> (r: bool)
        ensures
            r == occurs_at(self@, pat@, self@.len() - pat@.len()),
    {
        let s = self.store.as_str();
        let n = s.unicode_len();
        let m = pat.unicode_len();
        if m > n {
            return false;
        }
        matches_at(s, n, pat, m, n - m)
    }

    /// Inserts `c` at byte offset `index`, which must be a character boundary within
    /// the text (else `BadInput`); `CapacityError` when it does not fit.
    pub fn insert_at(&mut self, index: usize, c: char) -> (r: Result<(), CustomError>)
        ensures
            !is_boundary(old(self)@, index as int) ==> r == Err::<(), CustomError>(
                CustomError::BadInput,
            ) && final(self)@ == old(self)@,
            is_boundary(old(self)@, index as int) && text_bytes(old(self)@.push(c))
                > TEXT_BUFFER_SIZE ==> r == Err::<(), CustomError>(CustomError::CapacityError)
                && final(self)@ == old(self)@,
            forall|k: int|
                0 <= k <= old(self)@.len() && #[trigger] prefix_bytes(old(self)@, k) == index
                    && text_bytes(old(self)@.push(c)) <= TEXT_BUFFER_SIZE ==> r is Ok && final(self)@ == old(self)@.take(k).push(c) + old(self)@.skip(k),
    {
        match locate(self.store.as_str(), index) {
            None => Err(CustomError::BadInput),
            Some(_) => match self.store.insert(index, c) {
                Ok(()) => Ok(()),
                Err(_) => Err(CustomError::CapacityError),
            },
        }
    }

    /// Inserts `string` at byte offset `index`, which must be a character boundary
    /// within the text (else `BadInput`); `CapacityError` when it does not fit.
    pub fn insert_str_at(&mut self, index: usize, string: &str) -> (r: Result<(), CustomError>)
        ensures
            !is_boundary(old(self)@, index as int) ==> r == Err::<(), CustomError>(
                CustomError::BadInput,
            ) && final(self)@ == old(self)@,
            is_boundary(old(self)@, index as int) && text_bytes(old(self)@ + string@)
                > TEXT_BUFFER_SIZE ==> r == Err::<(), CustomError>(CustomError::CapacityError)
                && final(self)@ == old(self)@,
            forall|k: int|
                0 <= k <= old(self)@.len() && #[trigger] prefix_bytes(old(self)@, k) == index
                    && text_bytes(old(self)@ + string@) <= TEXT_BUFFER_SIZE ==> r is Ok && final(self)@ == old(self)@.take(k) + string@ + old(self)@.skip(k),
    {
        match locate(self.store.as_str(), index) {
            None => Err(CustomError::BadInput),
            Some(_) => match self.store.insert_str(index, string) {
                Ok(()) => Ok(()),
                Err(_) => Err(CustomError::CapacityError),
            },
        }
    }

    /// Removes and returns the character that starts at byte offset `index`; `BadInput`
    /// and no change when no character starts there.
    pub fn remove_at(&mut self, index: usize) -> (r: Result<char, CustomError>)
        ensures
            !(exists|k: int| 0 <= k < old(self)@.len() && #[trigger] prefix_bytes(old(self)@, k) == index)
                ==> r == Err::<char, CustomError>(CustomError::BadInput) && final(self)@ == old(self)@,
            forall|k: int|
                0 <= k < old(self)@.len() && #[trigger] prefix_bytes(old(self)@, k) == index
                    ==> r == Ok::<char, CustomError>(old(self)@[k]) && final(self)@ == old(self)@.remove(k),
    {
        let s = self.store.as_str();
        let n = s.unicode_len();
        match locate(s, index) {
            None => {
                proof {
                    assert forall|j: int| 0 <= j < n implies #[trigger] prefix_bytes(self@, j)
                        != index by {
                        assert(0 <= j <= s@.len());
                    }
                }
                Err(CustomError::BadInput)
            },
            Some(k) => {
                if k >= n {
                    proof {
                        assert forall|j: int| 0 <= j < n implies #[trigger] prefix_bytes(self@, j)
                            != index by {
                            lemma_prefix_monotonic(self@, j, k as int);
                        }
                    }
                    return Err(CustomError::BadInput);
                }
                assert(prefix_bytes(self@, k as int) == index);
                Ok(self.store.remove(index))
            },
        }
    }

    /// Removes all the text.
    pub fn clear(&mut self)
        ensures
            final(self)@ == Seq::<char>::empty(),
    {
        self.store.clear();
    }

    /// Length of the text in bytes.
    pub fn len(&self) -> (r: usize)
        ensures
            r == text_bytes(self@),
    {
        let s = self.store.as_str();
        assert(s.spec_bytes() == encode_utf8(s@));
        s.len()
    }

    pub fn is_empty(&self) -> (r: bool)
        ensures
            r == (self@.len() == 0),
    {
        self.store.as_str().unicode_len() == 0
    }
}

} // verus!
