//! Interning of styles behind stable keys, with reference counts.
//!
//! A key is the index of a slot. A slot holds a style and the number of its
//! references, or nothing once that number has dropped to zero; an empty slot
//! is used again by the next new style.
use vstd::prelude::*;

use crate::error::Error;
use crate::style::{Style, StyleView};

verus! {

/// A held style and the number of its references.
pub struct Entry {
    pub style: StyleView,
    pub refs: nat,
}

/// Slot by slot: what is held, or nothing.
pub type Entries = Seq<Option<Entry>>;

pub open spec fn is_live(t: Entries, k: int) -> bool {
    0 <= k < t.len() && t[k] is Some
}

/// The reference count under `k`; zero when nothing is held there.
pub open spec fn refs_in(t: Entries, k: int) -> nat {
    if is_live(t, k) {
        t[k]->0.refs
    } else {
        0
    }
}

/// Every held style has a reference, and no style is held twice.
pub open spec fn entries_wf(t: Entries) -> bool {
    &&& forall|k: int| #[trigger] is_live(t, k) ==> t[k]->0.refs >= 1
    &&& forall|i: int, j: int|
        #[trigger] is_live(t, i) && #[trigger] is_live(t, j) && i != j ==> t[i]->0.style != t[j]->0.style
}

/// The first slot from `i` on that holds `s`; the length when there is none.
pub open spec fn find_style(t: Entries, s: StyleView, i: int) -> int
    decreases t.len() - i,
{
    if i < 0 || i >= t.len() {
        t.len() as int
    } else if t[i] matches Some(e) && e.style == s {
        i
    } else {
        find_style(t, s, i + 1)
    }
}

/// The first empty slot from `i` on; the length when there is none.
pub open spec fn find_free(t: Entries, i: int) -> int
    decreases t.len() - i,
{
    if i < 0 || i >= t.len() {
        t.len() as int
    } else if t[i] is None {
        i
    } else {
        find_free(t, i + 1)
    }
}

/// Interning `s` with `n` references: the slot that holds `s` gains them;
/// otherwise `s` goes to the first empty slot, or to a new one at the end.
/// Gives the new slots and the key.
pub open spec fn intern_spec(t: Entries, s: StyleView, n: nat) -> (Entries, int) {
    let f = find_style(t, s, 0);
    if f < t.len() {
        (t.update(f, Some(Entry { style: s, refs: t[f]->0.refs + n })), f)
    } else {
        let g = find_free(t, 0);
        if g < t.len() {
            (t.update(g, Some(Entry { style: s, refs: n })), g)
        } else {
            (t.push(Some(Entry { style: s, refs: n })), t.len() as int)
        }
    }
}

/// Releasing one reference of `k`: the slot is emptied when it was the last.
pub open spec fn release_spec(t: Entries, k: int) -> Entries {
    if is_live(t, k) {
        if t[k]->0.refs <= 1 {
            t.update(k, None)
        } else {
            t.update(k, Some(Entry { style: t[k]->0.style, refs: (t[k]->0.refs - 1) as nat }))
        }
    } else {
        t
    }
}

proof fn lemma_find_style_absent(t: Entries, s: StyleView, i: int)
    requires
        0 <= i,
        find_style(t, s, i) >= t.len(),
    ensures
        forall|k: int| i <= k < t.len() && #[trigger] is_live(t, k) ==> t[k]->0.style != s,
    decreases t.len() - i,
{
    if i < t.len() {
        lemma_find_style_absent(t, s, i + 1);
    }
}

proof fn lemma_find_style_found(t: Entries, s: StyleView, i: int)
    requires
        0 <= i,
        find_style(t, s, i) < t.len(),
    ensures
        i <= find_style(t, s, i),
        is_live(t, find_style(t, s, i)),
        t[find_style(t, s, i)]->0.style == s,
    decreases t.len() - i,
{
    if i < t.len() && !(t[i] matches Some(e) && e.style == s) {
        lemma_find_style_found(t, s, i + 1);
    }
}

proof fn lemma_find_style_unique(t: Entries, s: StyleView, k: int)
    requires
        entries_wf(t),
        is_live(t, k),
        t[k]->0.style == s,
    ensures
        find_style(t, s, 0) == k,
{
    if find_style(t, s, 0) >= t.len() {
        lemma_find_style_absent(t, s, 0);
    } else {
        lemma_find_style_found(t, s, 0);
    }
}

proof fn lemma_find_free_found(t: Entries, i: int)
    requires
        0 <= i,
        find_free(t, i) < t.len(),
    ensures
        i <= find_free(t, i),
        t[find_free(t, i)] is None,
    decreases t.len() - i,
{
    if i < t.len() && t[i] is Some {
        lemma_find_free_found(t, i + 1);
    }
}

/// Interning adds `n` references to the returned key and changes no other slot.
pub proof fn lemma_intern_refs(t: Entries, s: StyleView, n: nat)
    requires
        entries_wf(t),
    ensures
        ({
            let (t1, key) = intern_spec(t, s, n);
            &&& 0 <= key <= t.len()
            &&& t1[key]->0.style == s
            &&& t1[key] is Some
            &&& t1.len() >= t.len()
            &&& refs_in(t1, key) == refs_in(t, key) + n
            &&& forall|k: int| k != key ==> #[trigger] refs_in(t1, k) == refs_in(t, k)
            &&& forall|k: int| k != key ==> (#[trigger] is_live(t1, k) <==> is_live(t, k))
            &&& forall|k: int| k != key && is_live(t1, k) ==> #[trigger] t1[k] == t[k]
        }),
{
    if find_style(t, s, 0) < t.len() {
        lemma_find_style_found(t, s, 0);
    } else if find_free(t, 0) < t.len() {
        lemma_find_free_found(t, 0);
    }
}

/// Interning keeps the entries well formed and leaves the style held under
/// the returned key.
pub proof fn lemma_intern_wf(t: Entries, s: StyleView, n: nat)
    requires
        entries_wf(t),
        n >= 1,
    ensures
        ({
            let (t1, key) = intern_spec(t, s, n);
            &&& entries_wf(t1)
            &&& is_live(t1, key)
            &&& t1[key]->0.style == s
        }),
{
    let (t1, key) = intern_spec(t, s, n);
    lemma_intern_refs(t, s, n);
    if find_style(t, s, 0) >= t.len() {
        lemma_find_style_absent(t, s, 0);
    }
    assert forall|i: int, j: int|
        #[trigger] is_live(t1, i) && #[trigger] is_live(t1, j) && i != j implies t1[i]->0.style
        != t1[j]->0.style by {
        if i != key && j != key {
            assert(t1[i] == t[i] && t1[j] == t[j]);
        } else if i == key {
            assert(t1[j] == t[j] && is_live(t, j));
            if find_style(t, s, 0) < t.len() {
                lemma_find_style_found(t, s, 0);
            }
        } else {
            assert(t1[i] == t[i] && is_live(t, i));
            if find_style(t, s, 0) < t.len() {
                lemma_find_style_found(t, s, 0);
            }
        }
    }
    assert forall|k: int| #[trigger] is_live(t1, k) implies t1[k]->0.refs >= 1 by {
        if k != key {
            assert(t1[k] == t[k]);
        } else {
            assert(refs_in(t1, key) == refs_in(t, key) + n);
        }
    }
}

/// Interning a style twice, whatever the counts, gives the same key both
/// times; that key is then the only one holding the style, with both counts
/// added.
pub proof fn lemma_intern_again(t: Entries, s: StyleView, n1: nat, n2: nat)
    requires
        entries_wf(t),
        n1 >= 1,
        n2 >= 1,
    ensures
        ({
            let (t1, k1) = intern_spec(t, s, n1);
            let (t2, k2) = intern_spec(t1, s, n2);
            &&& k1 == k2
            &&& refs_in(t2, k2) == refs_in(t, k1) + n1 + n2
            &&& entries_wf(t2)
            &&& forall|k: int| #[trigger] is_live(t2, k) && t2[k]->0.style == s ==> k == k2
        }),
{
    let (t1, k1) = intern_spec(t, s, n1);
    lemma_intern_wf(t, s, n1);
    lemma_intern_refs(t, s, n1);
    lemma_find_style_unique(t1, s, k1);
    lemma_intern_wf(t1, s, n2);
    lemma_intern_refs(t1, s, n2);
}

/// Interning a style that the table does not hold, and then interning it
/// again, gives the same key twice, with two references; releasing that key
/// twice leaves the table without it.
pub proof fn lemma_intern_twice_release_twice(t: Entries, s: StyleView)
    requires
        entries_wf(t),
        forall|k: int| #[trigger] is_live(t, k) ==> t[k]->0.style != s,
    ensures
        ({
            let (t1, k1) = intern_spec(t, s, 1);
            let (t2, k2) = intern_spec(t1, s, 1);
            &&& k1 == k2
            &&& refs_in(t2, k2) == 2
            &&& !is_live(release_spec(release_spec(t2, k2), k2), k2)
        }),
{
    let (t1, k1) = intern_spec(t, s, 1);
    if find_style(t, s, 0) < t.len() {
        lemma_find_style_found(t, s, 0);
        assert(false);
    }
    if find_free(t, 0) < t.len() {
        lemma_find_free_found(t, 0);
    }
    assert(is_live(t1, k1) && t1[k1]->0.style == s && t1[k1]->0.refs == 1);
    assert(entries_wf(t1)) by {
        assert forall|i: int, j: int|
            #[trigger] is_live(t1, i) && #[trigger] is_live(t1, j) && i != j implies t1[i]->0.style
            != t1[j]->0.style by {
            if i != k1 {
                assert(is_live(t, i));
            }
            if j != k1 {
                assert(is_live(t, j));
            }
        }
        assert forall|k: int| #[trigger] is_live(t1, k) implies t1[k]->0.refs >= 1 by {
            if k != k1 {
                assert(is_live(t, k));
            }
        }
    }
    lemma_find_style_unique(t1, s, k1);
}

/// Styles held under keys, each with the number of its references.
pub struct StyleTable {
    styles: Vec<Option<Style>>,
    refs: Vec<usize>,
}

impl View for StyleTable {
    type V = Entries;

    closed spec fn view(&self) -> Entries {
        Seq::new(
            self.styles@.len(),
            |i: int|
                match self.styles@[i] {
                    Some(s) => Some(Entry { style: s@, refs: self.refs@[i] as nat }),
                    None => None,
                },
        )
    }
}

impl StyleTable {
    /// The slots and their counts line up.
    pub closed spec fn aligned(&self) -> bool {
        self.styles@.len() == self.refs@.len()
    }

    /// The slots and their counts line up, and the entries are well formed.
    pub open spec fn wf(&self) -> bool {
        &&& self.aligned()
        &&& entries_wf(self@)
    }

    /// An empty table.
    pub fn new() -> (r: StyleTable)
        ensures
            r.wf(),
            r@ == Seq::<Option<Entry>>::empty(),
    {
        let r = StyleTable { styles: Vec::new(), refs: Vec::new() };
        assert(r@ =~= Seq::<Option<Entry>>::empty());
        r
    }

    fn find(&self, style: &Style) -> (r: usize)
        requires
            self.wf(),
        ensures
            r == find_style(self@, style@, 0),
    {
        let mut i: usize = 0;
        while i < self.styles.len()
            invariant
                self.wf(),
                i <= self.styles@.len(),
                find_style(self@, style@, 0) == find_style(self@, style@, i as int),
            decreases self.styles@.len() - i,
        {
            match &self.styles[i] {
                Some(s) => {
                    if s.equals(style) {
                        return i;
                    }
                },
                None => {},
            }
            i = i + 1;
        }
        i
    }

    fn first_free(&self) -> (r: usize)
        requires
            self.wf(),
        ensures
            r == find_free(self@, 0),
    {
        let mut i: usize = 0;
        while i < self.styles.len()
            invariant
                self.wf(),
                i <= self.styles@.len(),
                find_free(self@, 0) == find_free(self@, i as int),
            decreases self.styles@.len() - i,
        {
            if self.styles[i].is_none() {
                return i;
            }
            i = i + 1;
        }
        i
    }

    /// Interns `style` with `count` references at once.
    pub(crate) fn intern_counted(&mut self, style: Style, count: usize) -> (key: usize)
        requires
            old(self).wf(),
            count >= 1,
            forall|k: int|
                #[trigger] is_live(old(self)@, k) && old(self)@[k]->0.style == style@ ==> old(
                    self,
                )@[k]->0.refs + count <= usize::MAX,
        ensures
            final(self).wf(),
            (final(self)@, key as int) == intern_spec(old(self)@, style@, count as nat),
    {
        let ghost t = self@;
        let f = self.find(&style);
        if f < self.styles.len() {
            proof {
                lemma_find_style_found(t, style@, 0);
            }
            let r = self.refs[f];
            self.refs.set(f, r + count);
            assert(self@ =~= t.update(f as int, Some(Entry { style: style@, refs: t[f as int]->0.refs + count as nat })));
            assert(entries_wf(self@)) by {
                assert forall|i: int, j: int|
                    #[trigger] is_live(self@, i) && #[trigger] is_live(self@, j) && i != j implies self@[i]->0.style
                    != self@[j]->0.style by {
                    assert(is_live(t, i) && is_live(t, j));
                }
                assert forall|k: int| #[trigger] is_live(self@, k) implies self@[k]->0.refs >= 1 by {
                    assert(is_live(t, k));
                }
            }
            return f;
        }
        proof {
            lemma_find_style_absent(t, style@, 0);
        }
        let g = self.first_free();
        let key = if g < self.styles.len() {
            proof {
                lemma_find_free_found(t, 0);
            }
            self.styles.set(g, Some(style));
            self.refs.set(g, count);
            assert(self@ =~= t.update(g as int, Some(Entry { style: style@, refs: count as nat })));
            g
        } else {
            let n = self.styles.len();
            self.styles.push(Some(style));
            self.refs.push(count);
            assert(self@ =~= t.push(Some(Entry { style: style@, refs: count as nat })));
            n
        };
        assert(entries_wf(self@)) by {
            assert forall|i: int, j: int|
                #[trigger] is_live(self@, i) && #[trigger] is_live(self@, j) && i != j implies self@[i]->0.style
                != self@[j]->0.style by {
                if i != key {
                    assert(is_live(t, i));
                }
                if j != key {
                    assert(is_live(t, j));
                }
            }
            assert forall|k: int| #[trigger] is_live(self@, k) implies self@[k]->0.refs >= 1 by {
                if k != key {
                    assert(is_live(t, k));
                }
            }
        }
        key
    }

    /// Interns `style`: the key of an equal style already held, with one more
    /// reference; otherwise a new key with one reference.
    pub fn intern(&mut self, style: Style) -> (key: usize)
        requires
            old(self).wf(),
            refs_in(old(self)@, find_style(old(self)@, style@, 0)) < usize::MAX,
        ensures
            final(self).wf(),
            (final(self)@, key as int) == intern_spec(old(self)@, style@, 1),
    {
        proof {
            assert forall|k: int|
                #[trigger] is_live(self@, k) && self@[k]->0.style == style@ implies self@[k]->0.refs + 1
                <= usize::MAX by {
                lemma_find_style_unique(self@, style@, k);
            }
        }
        self.intern_counted(style, 1)
    }

    /// Drops one reference of `key`, emptying its slot when it was the last;
    /// fails with `UnknownKey` when nothing is held under `key`.
    pub fn release(&mut self, key: usize) -> (r: Result<(), Error>)
        requires
            old(self).wf(),
        ensures
            final(self).wf(),
            final(self)@ == release_spec(old(self)@, key as int),
            r is Ok <==> is_live(old(self)@, key as int),
            r is Err ==> r == Err::<(), Error>(Error::UnknownKey),
    {
        let ghost t = self@;
        if key >= self.styles.len() || self.styles[key].is_none() {
            return Err(Error::UnknownKey);
        }
        let r = self.refs[key];
        if r <= 1 {
            self.styles.set(key, None);
            self.refs.set(key, 0);
            assert(self@ =~= t.update(key as int, None));
        } else {
            self.refs.set(key, r - 1);
            assert(self@ =~= t.update(key as int, Some(Entry { style: t[key as int]->0.style, refs: (r - 1) as nat })));
        }
        assert(entries_wf(self@)) by {
            assert forall|i: int, j: int|
                #[trigger] is_live(self@, i) && #[trigger] is_live(self@, j) && i != j implies self@[i]->0.style
                != self@[j]->0.style by {
                assert(is_live(t, i) && is_live(t, j));
            }
            assert forall|k: int| #[trigger] is_live(self@, k) implies self@[k]->0.refs >= 1 by {
                assert(is_live(t, k));
            }
        }
        Ok(())
    }

    /// The style held under `key`; fails with `UnknownKey` when there is none.
    pub fn resolve(&self, key: usize) -> (r: Result<&Style, Error>)
        requires
            self.wf(),
        ensures
            r matches Ok(s) ==> is_live(self@, key as int) && s@ == self@[key as int]->0.style,
            r is Err <==> !is_live(self@, key as int),
            r is Err ==> r == Err::<&Style, Error>(Error::UnknownKey),
    {
        if key >= self.styles.len() {
            return Err(Error::UnknownKey);
        }
        match &self.styles[key] {
            Some(s) => Ok(s),
            None => Err(Error::UnknownKey),
        }
    }

    /// The number of references of `key`; zero when nothing is held there.
    pub fn refs(&self, key: usize) -> (r: usize)
        requires
            self.wf(),
        ensures
            r == refs_in(self@, key as int),
    {
        if key >= self.styles.len() || self.styles[key].is_none() {
            0
        } else {
            self.refs[key]
        }
    }

    /// Whether a style is held under `key`.
    pub fn contains(&self, key: usize) -> (r: bool)
        requires
            self.wf(),
        ensures
            r == is_live(self@, key as int),
    {
        key < self.styles.len() && self.styles[key].is_some()
    }
}

} // verus!
