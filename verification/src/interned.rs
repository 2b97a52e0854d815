//! Interned strings: each distinct string is stored once, in an arena, and handed out as a
//! compact index. Two handles are equal exactly when their strings are.

use vstd::prelude::*;
use std::borrow::Cow;

verus! {

/// A handle to an interned string: one more than its index in the arena.
#[derive(Copy, Clone, Debug, PartialEq, Eq, Structural, PartialOrd, Ord, Hash)]
pub struct InternedStr(pub u16);

/// The arena of interned strings.
pub struct Interner {
    arena: Vec<String>,
}

impl Interner {
    /// The interned strings, by index.
    pub closed spec fn strings(&self) -> Seq<Seq<char>> {
        self.arena@.map_values(|s: String| s@)
    }

    /// An arena without strings.
    pub fn new() -> (r: Self)
        ensures
            r.strings() == Seq::<Seq<char>>::empty(),
    {
        let r = Interner { arena: Vec::new() };
        assert(r.strings() =~= Seq::<Seq<char>>::empty());
        r
    }

    /// The number of interned strings.
    pub fn len(&self) -> (r: usize)
        ensures
            r == self.strings().len(),
    {
        self.arena.len()
    }

    /// The handle of `s`, if it is interned.
    pub fn lookup(&self, s: &str) -> (r: Option<InternedStr>)
        requires
            self.strings().len() <= u16::MAX,
        ensures
            r == handle_of(self.strings(), s@),
    {
        let owned = s.to_owned();
        let mut i: usize = 0;
        while i < self.arena.len()
            invariant
                0 <= i <= self.arena@.len(),
                self.arena@.len() <= u16::MAX,
                owned@ == s@,
                forall|j: int| 0 <= j < i ==> self.arena@[j]@ != s@,
            decreases self.arena@.len() - i,
        {
            if self.arena[i] == owned {
                proof {
                    assert(self.strings()[i as int] == s@);
                    assert(first_index(self.strings(), s@) == i) by {
                        assert(self.strings().contains(s@));
                        let k = first_index(self.strings(), s@);
                        if k < i {
                            assert(self.strings()[k] == self.arena@[k]@);
                        }
                        if k > i {
                            assert(self.strings()[i as int] == s@);
                        }
                    }
                }
                return Some(InternedStr((i + 1) as u16));
            }
            i += 1;
        }
        proof {
            assert forall|j: int| 0 <= j < self.strings().len() implies self.strings()[j] != s@ by {
                assert(self.strings()[j] == self.arena@[j]@);
            }
        }
        None
    }

    /// Interns `s`: the handle of the string, added to the arena when it is new.
    pub fn intern(&mut self, s: &str) -> (r: InternedStr)
        requires
            old(self).strings().len() <= u16::MAX,
            old(self).strings().contains(s@) || old(self).strings().len() < u16::MAX,
        ensures
            final(self).strings().len() <= u16::MAX,
            old(self).strings().contains(s@) ==> final(self).strings() == old(self).strings(),
            !old(self).strings().contains(s@) ==> final(self).strings() == old(
                self,
            ).strings().push(s@),
            handle_of(final(self).strings(), s@) == Some(r),
    {
        match self.lookup(s) {
            Some(idx) => idx,
            None => {
                let i = self.arena.len();
                let ghost before = self.strings();
                self.arena.push(s.to_owned());
                proof {
                    assert(self.strings() =~= before.push(s@));
                    assert(self.strings()[i as int] == s@);
                    assert(first_index(self.strings(), s@) == i) by {
                        assert(self.strings().contains(s@));
                        let k = first_index(self.strings(), s@);
                        if k < i {
                            assert(self.strings()[k] == before[k]);
                        }
                    }
                }
                InternedStr((i + 1) as u16)
            },
        }
    }

    /// The string of `id`.
    pub fn as_str(&self, id: InternedStr) -> (r: &str)
        requires
            1 <= id.0 <= self.strings().len(),
        ensures
            r@ == self.strings()[id.0 - 1],
    {
        self.arena[(id.0 - 1) as usize].as_str()
    }
}

/// Interning `s` took the strings `before` to `after` and returned `r`: a new string is
/// appended, and `r` is the handle of `s` afterwards.
pub open spec fn interned(
    before: Seq<Seq<char>>,
    after: Seq<Seq<char>>,
    s: Seq<char>,
    r: InternedStr,
) -> bool {
    &&& before.contains(s) ==> after == before
    &&& !before.contains(s) ==> after == before.push(s)
    &&& handle_of(after, s) == Some(r)
}

impl InternedStr {
    /// Interns a static string.
    pub fn from_static(interner: &mut Interner, s: &'static str) -> (r: Self)
        requires
            old(interner).strings().len() <= u16::MAX,
            old(interner).strings().contains(s@) || old(interner).strings().len() < u16::MAX,
        ensures
            interned(old(interner).strings(), final(interner).strings(), s@, r),
    {
        interner.intern(s)
    }

    /// Interns an owned string.
    pub fn from_string(interner: &mut Interner, s: String) -> (r: Self)
        requires
            old(interner).strings().len() <= u16::MAX,
            old(interner).strings().contains(s@) || old(interner).strings().len() < u16::MAX,
        ensures
            interned(old(interner).strings(), final(interner).strings(), s@, r),
    {
        interner.intern(s.as_str())
    }

    /// Interns a borrowed string.
    pub fn from_ref(interner: &mut Interner, s: &str) -> (r: Self)
        requires
            old(interner).strings().len() <= u16::MAX,
            old(interner).strings().contains(s@) || old(interner).strings().len() < u16::MAX,
        ensures
            interned(old(interner).strings(), final(interner).strings(), s@, r),
    {
        interner.intern(s)
    }

    /// Interns a borrowed or owned string.
    pub fn from_cow(interner: &mut Interner, s: Cow<'_, str>) -> (r: Self)
        requires
            old(interner).strings().len() <= u16::MAX,
            old(interner).strings().contains(s@) || old(interner).strings().len() < u16::MAX,
        ensures
            interned(old(interner).strings(), final(interner).strings(), s@, r),
    {
        match s {
            Cow::Borrowed(b) => Self::from_ref(interner, b),
            Cow::Owned(o) => Self::from_string(interner, o),
        }
    }

    /// Interns each of the static strings of `arr` in turn: the handles, by position.
    pub fn from_static_array(interner: &mut Interner, arr: &[&'static str]) -> (r: Vec<Self>)
        requires
            old(interner).strings().len() <= u16::MAX,
            interned_all(old(interner).strings(), arr@.map_values(|s: &str| s@)).len() <= u16::MAX,
        ensures
            final(interner).strings() == interned_all(
                old(interner).strings(),
                arr@.map_values(|s: &str| s@),
            ),
            r@.len() == arr@.len(),
            forall|i: int|
                0 <= i < arr@.len() ==> handle_of(final(interner).strings(), arr@[i]@) == Some(
                    #[trigger] r@[i],
                ),
    {
        let ghost before = interner.strings();
        let ghost items = arr@.map_values(|s: &str| s@);
        let mut result: Vec<Self> = Vec::new();
        let mut i: usize = 0;
        while i < arr.len()
            invariant
                0 <= i <= arr@.len(),
                before.len() <= u16::MAX,
                interned_all(before, items).len() <= u16::MAX,
                items == arr@.map_values(|s: &str| s@),
                interner.strings() == interned_all(before, items.take(i as int)),
                result@.len() == i,
                forall|j: int|
                    0 <= j < i ==> handle_of(interner.strings(), arr@[j]@) == Some(
                        #[trigger] result@[j],
                    ),
            decreases arr@.len() - i,
        {
            let ghost prev = interner.strings();
            proof {
                lemma_interned_all_grows(before, items, i + 1);
                assert(items.take(i + 1).drop_last() =~= items.take(i as int));
                assert(items.take(i + 1).last() == arr@[i as int]@);
                assert(items.take(items.len() as int) =~= items);
            }
            let h = interner.intern(arr[i]);
            proof {
                assert(items.take(i + 1).drop_last() =~= items.take(i as int));
                assert(items.take(i + 1).last() == arr@[i as int]@);
                assert forall|j: int| 0 <= j < i implies handle_of(
                    interner.strings(),
                    arr@[j]@,
                ) == Some(#[trigger] result@[j]) by {
                    assert(handle_of(prev, arr@[j]@) == Some(result@[j]));
                    lemma_handle_kept(prev, arr@[i as int]@, arr@[j]@);
                }
            }
            result.push(h);
            i += 1;
        }
        proof {
            assert(items.take(arr@.len() as int) =~= items);
        }
        result
    }

    /// The string of the handle.
    pub fn as_str(self, interner: &Interner) -> (r: &str)
        requires
            1 <= self.0 <= interner.strings().len(),
        ensures
            r@ == interner.strings()[self.0 - 1],
    {
        interner.as_str(self)
    }
}

/// A string that is there has a first index.
proof fn lemma_first_index(strings: Seq<Seq<char>>, s: Seq<char>)
    requires
        strings.contains(s),
    ensures
        0 <= first_index(strings, s) < strings.len(),
        strings[first_index(strings, s)] == s,
        forall|j: int| 0 <= j < first_index(strings, s) ==> strings[j] != s,
    decreases strings.len(),
{
    if strings[0] == s {
        assert(0 <= 0 < strings.len() && strings[0] == s && forall|j: int|
            0 <= j < 0 ==> strings[j] != s);
    } else {
        let rest = strings.drop_first();
        let i = choose|i: int| 0 <= i < strings.len() && strings[i] == s;
        assert(rest[i - 1] == s);
        lemma_first_index(rest, s);
        let k = first_index(rest, s);
        assert(strings[k + 1] == s);
        assert forall|j: int| 0 <= j < k + 1 implies strings[j] != s by {
            if j > 0 {
                assert(strings[j] == rest[j - 1]);
            }
        }
    }
}

/// Equal handles name equal strings.
pub proof fn lemma_handles_distinct(strings: Seq<Seq<char>>, s: Seq<char>, t: Seq<char>)
    requires
        strings.len() <= u16::MAX,
        handle_of(strings, s) is Some,
        handle_of(strings, s) == handle_of(strings, t),
    ensures
        s == t,
{
    assert(strings.contains(s));
    assert(strings.contains(t));
    lemma_first_index(strings, s);
    lemma_first_index(strings, t);
}

/// Interning a string twice gives the same handle and leaves the strings as the first time.
pub proof fn lemma_intern_twice(
    before: Seq<Seq<char>>,
    mid: Seq<Seq<char>>,
    after: Seq<Seq<char>>,
    s: Seq<char>,
    r1: InternedStr,
    r2: InternedStr,
)
    requires
        interned(before, mid, s, r1),
        interned(mid, after, s, r2),
    ensures
        after == mid,
        r1 == r2,
{
}

/// The strings after interning each of `items` in turn, starting from `before`.
pub open spec fn interned_all(before: Seq<Seq<char>>, items: Seq<Seq<char>>) -> Seq<Seq<char>>
    decreases items.len(),
{
    if items.len() == 0 {
        before
    } else {
        let prev = interned_all(before, items.drop_last());
        if prev.contains(items.last()) {
            prev
        } else {
            prev.push(items.last())
        }
    }
}

/// Interning `t` keeps the handle of every string that was already there.
proof fn lemma_handle_kept(strings: Seq<Seq<char>>, t: Seq<char>, s: Seq<char>)
    requires
        strings.contains(s),
    ensures
        handle_of(if strings.contains(t) { strings } else { strings.push(t) }, s) == handle_of(
            strings,
            s,
        ),
{
    if !strings.contains(t) {
        let after = strings.push(t);
        lemma_first_index(strings, s);
        let k = first_index(strings, s);
        assert(after[k] == s);
        assert(after.contains(s));
        lemma_first_index(after, s);
        let m = first_index(after, s);
        if m < k {
            assert(after[m] == strings[m]);
        }
        if m > k {
            assert(after[k] == s);
        }
    }
}

/// The first index of `s` in `strings`.
pub open spec fn first_index(strings: Seq<Seq<char>>, s: Seq<char>) -> int {
    choose|i: int|
        0 <= i < strings.len() && strings[i] == s && forall|j: int|
            0 <= j < i ==> strings[j] != s
}

/// The handle of `s` among `strings`: one more than its first index, if it is there.
pub open spec fn handle_of(strings: Seq<Seq<char>>, s: Seq<char>) -> Option<InternedStr> {
    if strings.contains(s) {
        Some(InternedStr((first_index(strings, s) + 1) as u16))
    } else {
        None
    }
}

/// Handles and strings go together: among interned `strings`, the handle of a string there
/// names that string (what `as_str` gives back), and two strings there have equal handles
/// exactly when they are equal.
pub proof fn lemma_handles_name_strings(strings: Seq<Seq<char>>, s: Seq<char>, t: Seq<char>)
    requires
        strings.len() <= u16::MAX,
        strings.contains(s),
        strings.contains(t),
    ensures
        handle_of(strings, s) is Some,
        1 <= (handle_of(strings, s)->0).0 <= strings.len(),
        strings[(handle_of(strings, s)->0).0 - 1] == s,
        handle_of(strings, s) == handle_of(strings, t) <==> s == t,
{
    lemma_first_index(strings, s);
    if handle_of(strings, s) == handle_of(strings, t) {
        lemma_handles_distinct(strings, s, t);
    }
}

/// A handle stays: interning any string keeps the strings already there at their places, so
/// every handle handed out before names the same string afterwards.
pub proof fn lemma_handle_stable(
    before: Seq<Seq<char>>,
    after: Seq<Seq<char>>,
    t: Seq<char>,
    r: InternedStr,
    s: Seq<char>,
)
    requires
        interned(before, after, t, r),
        before.contains(s),
    ensures
        handle_of(after, s) == handle_of(before, s),
        before.len() <= after.len(),
        forall|i: int| 0 <= i < before.len() ==> #[trigger] after[i] == before[i],
{
    lemma_handle_kept(before, t, s);
}

/// Interning more items never shrinks the strings.
proof fn lemma_interned_all_grows(before: Seq<Seq<char>>, items: Seq<Seq<char>>, k: int)
    requires
        0 <= k <= items.len(),
    ensures
        interned_all(before, items.take(k)).len() <= interned_all(before, items).len(),
        before.len() <= interned_all(before, items.take(k)).len(),
    decreases items.len() - k,
{
    if k < items.len() {
        lemma_interned_all_grows(before, items, k + 1);
        assert(items.take(k + 1).drop_last() =~= items.take(k));
    } else {
        assert(items.take(k) =~= items);
    }
    lemma_interned_all_base(before, items.take(k));
}

/// Interning never shrinks the strings.
proof fn lemma_interned_all_base(before: Seq<Seq<char>>, items: Seq<Seq<char>>)
    ensures
        before.len() <= interned_all(before, items).len(),
    decreases items.len(),
{
    if items.len() > 0 {
        lemma_interned_all_base(before, items.drop_last());
    }
}

} // verus!
