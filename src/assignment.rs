use vstd::prelude::*;

verus! {

/// The value bound to `c` by the first entry of `entries` whose symbol is `c`.
pub open spec fn lookup(entries: Seq<(char, i32)>, c: char) -> Option<i32>
    decreases entries.len(),
{
    if entries.len() == 0 {
        None
    } else if entries[0].0 == c {
        Some(entries[0].1)
    } else {
        lookup(entries.drop_first(), c)
    }
}

/// The symbols of `entries`, in order.
pub open spec fn symbols(entries: Seq<(char, i32)>) -> Seq<char> {
    entries.map_values(|p: (char, i32)| p.0)
}

/// A binding of variable symbols to values: one entry per symbol, kept in
/// the order in which the symbols were first bound.
#[derive(Debug)]
pub struct Assignment {
    entries: Vec<(char, i32)>,
}

impl View for Assignment {
    type V = Seq<(char, i32)>;

    closed spec fn view(&self) -> Seq<(char, i32)> {
        self.entries@
    }
}

proof fn lemma_lookup_absent(entries: Seq<(char, i32)>, c: char)
    requires
        !symbols(entries).contains(c),
    ensures
        lookup(entries, c) is None,
    decreases entries.len(),
{
    if entries.len() > 0 {
        assert(symbols(entries)[0] == entries[0].0);
        assert(symbols(entries.drop_first()) =~= symbols(entries).drop_first());
        lemma_lookup_absent(entries.drop_first(), c);
    }
}

proof fn lemma_lookup_at(entries: Seq<(char, i32)>, i: int, c: char)
    requires
        0 <= i < entries.len(),
        forall|j: int| 0 <= j < i ==> entries[j].0 != c,
    ensures
        lookup(entries, c) == lookup(entries.subrange(i, entries.len() as int), c),
    decreases i,
{
    if i > 0 {
        assert(entries.drop_first().subrange(i - 1, entries.len() - 1) =~= entries.subrange(
            i,
            entries.len() as int,
        ));
        lemma_lookup_at(entries.drop_first(), i - 1, c);
    } else {
        assert(entries.subrange(0, entries.len() as int) =~= entries);
    }
}

proof fn lemma_lookup_after_push(entries: Seq<(char, i32)>, c: char, v: i32, d: char)
    ensures
        lookup(entries.push((c, v)), d) == match lookup(entries, d) {
            Some(x) => Some(x),
            None => if d == c {
                Some(v)
            } else {
                None
            },
        },
    decreases entries.len(),
{
    let pushed = entries.push((c, v));
    if entries.len() > 0 {
        assert(pushed[0] == entries[0]);
        assert(pushed.drop_first() =~= entries.drop_first().push((c, v)));
        lemma_lookup_after_push(entries.drop_first(), c, v, d);
        if entries[0].0 != d {
            assert(lookup(pushed, d) == lookup(pushed.drop_first(), d));
            assert(lookup(entries, d) == lookup(entries.drop_first(), d));
        }
    } else {
        assert(pushed[0] == (c, v));
        assert(pushed.drop_first() =~= entries);
    }
}

proof fn lemma_lookup_after_update(entries: Seq<(char, i32)>, i: int, c: char, v: i32, d: char)
    requires
        0 <= i < entries.len(),
        entries[i].0 == c,
        symbols(entries).no_duplicates(),
    ensures
        lookup(entries.update(i, (c, v)), d) == if d == c {
            Some(v)
        } else {
            lookup(entries, d)
        },
    decreases entries.len(),
{
    let s = symbols(entries);
    assert(s[0] == entries[0].0);
    if i == 0 {
        assert(entries.update(i, (c, v)).drop_first() =~= entries.drop_first());
    } else {
        assert(entries.update(i, (c, v)).drop_first() =~= entries.drop_first().update(
            i - 1,
            (c, v),
        ));
        assert(symbols(entries.drop_first()) =~= s.drop_first());
        assert(s[i] == c);
        assert(entries[0].0 != c);
        lemma_lookup_after_update(entries.drop_first(), i - 1, c, v, d);
    }
}

impl Assignment {
    /// Each symbol has at most one entry.
    pub open spec fn wf(&self) -> bool {
        symbols(self@).no_duplicates()
    }

    /// The empty assignment.
    pub fn new() -> (r: Assignment)
        ensures
            r@ == Seq::<(char, i32)>::empty(),
            r.wf(),
    {
        Assignment { entries: Vec::new() }
    }

    /// Binds `names[i]` to `values[i]` for each `i`.
    pub(crate) fn from_parts(names: &Vec<char>, values: &Vec<i32>) -> (r: Assignment)
        requires
            names@.no_duplicates(),
            names@.len() == values@.len(),
        ensures
            r@ == Seq::new(names@.len(), |i: int| (names@[i], values@[i])),
            r.wf(),
    {
        let mut entries: Vec<(char, i32)> = Vec::new();
        let mut i: usize = 0;
        while i < names.len()
            invariant
                names@.len() == values@.len(),
                i <= names@.len(),
                entries@ == Seq::new(i as nat, |j: int| (names@[j], values@[j])),
            decreases names@.len() - i,
        {
            entries.push((names[i], values[i]));
            i += 1;
            assert(entries@ =~= Seq::new(i as nat, |j: int| (names@[j], values@[j])));
        }
        let r = Assignment { entries };
        assert(symbols(r@) =~= names@);
        r
    }

    /// The value bound to `c`, if any.
    pub fn get(&self, c: char) -> (r: Option<i32>)
        ensures
            r == lookup(self@, c),
    {
        let mut i: usize = 0;
        while i < self.entries.len()
            invariant
                i <= self@.len(),
                forall|j: int| 0 <= j < i ==> self@[j].0 != c,
            decreases self@.len() - i,
        {
            if self.entries[i].0 == c {
                proof {
                    lemma_lookup_at(self@, i as int, c);
                }
                return Some(self.entries[i].1);
            }
            i += 1;
        }
        proof {
            assert forall|k: int| 0 <= k < symbols(self@).len() implies symbols(self@)[k] != c by {
                assert(symbols(self@)[k] == self@[k].0);
            }
            lemma_lookup_absent(self@, c);
        }
        None
    }

    /// Binds `c` to `v`: the entry of `c` is replaced where there is one, and
    /// a new entry is appended otherwise.
    pub fn bind(&mut self, c: char, v: i32)
        requires
            old(self).wf(),
        ensures
            final(self).wf(),
            symbols(final(self)@) == if symbols(old(self)@).contains(c) {
                symbols(old(self)@)
            } else {
                symbols(old(self)@).push(c)
            },
            lookup(final(self)@, c) == Some(v),
            forall|d: char| d != c ==> lookup(final(self)@, d) == lookup(old(self)@, d),
    {
        let ghost before = self@;
        let mut i: usize = 0;
        while i < self.entries.len()
            invariant
                self@ == before,
                before == old(self)@,
                symbols(before).no_duplicates(),
                i <= before.len(),
                forall|j: int| 0 <= j < i ==> before[j].0 != c,
            decreases before.len() - i,
        {
            if self.entries[i].0 == c {
                self.entries.set(i, (c, v));
                proof {
                    assert(symbols(before)[i as int] == c);
                    assert(symbols(before).contains(c));
                    assert(symbols(self@) =~= symbols(before));
                    lemma_lookup_after_update(before, i as int, c, v, c);
                    assert forall|d: char| d != c implies lookup(self@, d) == lookup(before, d) by {
                        lemma_lookup_after_update(before, i as int, c, v, d);
                    }
                }
                return;
            }
            i += 1;
        }
        self.entries.push((c, v));
        proof {
            assert forall|k: int| 0 <= k < symbols(before).len() implies symbols(before)[k]
                != c by {
                assert(symbols(before)[k] == before[k].0);
            }
            assert(symbols(self@) =~= symbols(before).push(c));
            lemma_lookup_absent(before, c);
            lemma_lookup_after_push(before, c, v, c);
            assert forall|d: char| d != c implies lookup(self@, d) == lookup(before, d) by {
                lemma_lookup_after_push(before, c, v, d);
            }
        }
    }

    /// The entries, in order.
    pub fn entries(&self) -> (r: Vec<(char, i32)>)
        ensures
            r@ == self@,
    {
        let mut r: Vec<(char, i32)> = Vec::new();
        let mut i: usize = 0;
        while i < self.entries.len()
            invariant
                i <= self@.len(),
                r@ == self@.subrange(0, i as int),
            decreases self@.len() - i,
        {
            r.push(self.entries[i]);
            i += 1;
        }
        assert(r@ =~= self@);
        r
    }
}

} // verus!
