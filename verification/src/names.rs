//! Values by name, in the order in which the names came.

use vstd::prelude::*;

verus! {

/// The place of a name; the length of the list if it is not there.
pub open spec fn place<T>(list: Seq<(Seq<char>, T)>, name: Seq<char>) -> int
    decreases list.len(),
{
    if list.len() == 0 {
        0
    } else {
        let before = place(list.drop_last(), name);
        if before < list.len() - 1 || list.last().0 == name {
            before
        } else {
            before + 1
        }
    }
}

pub open spec fn holds<T>(list: Seq<(Seq<char>, T)>, name: Seq<char>) -> bool {
    place(list, name) < list.len()
}

/// The value of a name, if the name is there.
pub open spec fn lookup<T>(list: Seq<(Seq<char>, T)>, name: Seq<char>) -> Option<T> {
    if holds(list, name) {
        Some(list[place(list, name)].1)
    } else {
        None
    }
}

/// The list with a value for a name: in the place of the value that the name
/// had, or at the end.
pub open spec fn with<T>(list: Seq<(Seq<char>, T)>, name: Seq<char>, value: T) -> Seq<
    (Seq<char>, T),
> {
    if holds(list, name) {
        list.update(place(list, name), (name, value))
    } else {
        list.push((name, value))
    }
}

/// The list without a name.
pub open spec fn without<T>(list: Seq<(Seq<char>, T)>, name: Seq<char>) -> Seq<(Seq<char>, T)> {
    if holds(list, name) {
        list.remove(place(list, name))
    } else {
        list
    }
}

/// No name occurs twice.
pub open spec fn unique<T>(list: Seq<(Seq<char>, T)>) -> bool {
    forall|i: int, j: int|
        0 <= i < j < list.len() ==> (#[trigger] list[i]).0 != (#[trigger] list[j]).0
}

/// What the place of a name is.
pub proof fn lemma_place<T>(list: Seq<(Seq<char>, T)>, name: Seq<char>)
    ensures
        0 <= place(list, name) <= list.len(),
        holds(list, name) ==> list[place(list, name)].0 == name,
        forall|i: int| 0 <= i < place(list, name) ==> (#[trigger] list[i]).0 != name,
    decreases list.len(),
{
    if list.len() > 0 {
        let rest = list.drop_last();
        lemma_place(rest, name);
        assert forall|i: int| 0 <= i < place(list, name) implies (#[trigger] list[i]).0 != name by {
            if i < rest.len() {
                assert(rest[i] == list[i]);
            }
        }
    }
}

/// A place with the name, and without the name before it, is the place of the
/// name.
pub proof fn lemma_place_is<T>(list: Seq<(Seq<char>, T)>, name: Seq<char>, k: int)
    requires
        0 <= k <= list.len(),
        k < list.len() ==> list[k].0 == name,
        forall|i: int| 0 <= i < k ==> (#[trigger] list[i]).0 != name,
    ensures
        place(list, name) == k,
{
    lemma_place(list, name);
    if place(list, name) < k {
        assert(list[place(list, name)].0 != name);
    }
}

/// A list holds the names that occur in it.
pub proof fn lemma_holds<T>(list: Seq<(Seq<char>, T)>, name: Seq<char>)
    ensures
        holds(list, name) <==> exists|i: int| 0 <= i < list.len() && (#[trigger] list[i]).0 == name,
{
    lemma_place(list, name);
    if exists|i: int| 0 <= i < list.len() && (#[trigger] list[i]).0 == name {
        let i = choose|i: int| 0 <= i < list.len() && (#[trigger] list[i]).0 == name;
        assert(i >= place(list, name));
    }
}

/// Two lists hold together what each of them holds.
pub proof fn lemma_holds_either<T>(
    a: Seq<(Seq<char>, T)>,
    b: Seq<(Seq<char>, T)>,
    name: Seq<char>,
)
    ensures
        holds(a + b, name) <==> holds(a, name) || holds(b, name),
{
    lemma_place(a, name);
    lemma_place(b, name);
    lemma_holds(a + b, name);
    if holds(a, name) {
        assert((a + b)[place(a, name)].0 == name);
    }
    if holds(b, name) {
        assert((a + b)[a.len() + place(b, name)].0 == name);
    }
    if holds(a + b, name) {
        let i = choose|i: int| 0 <= i < (a + b).len() && (#[trigger] (a + b)[i]).0 == name;
        if i < a.len() {
            assert(a[i].0 == name);
        } else {
            assert(b[i - a.len()].0 == name);
        }
    }
}

/// A name has the value that it was given last, and no other name is touched.
pub proof fn law_insert_then_lookup<T>(
    list: Seq<(Seq<char>, T)>,
    name: Seq<char>,
    value: T,
    other: Seq<char>,
)
    ensures
        lookup(with(list, name, value), other) == if other == name {
            Some(value)
        } else {
            lookup(list, other)
        },
{
    let after = with(list, name, value);
    lemma_place(list, name);
    lemma_place(list, other);
    let k = place(list, name);
    if other == name {
        assert forall|i: int| 0 <= i < k implies (#[trigger] after[i]).0 != name by {
            assert(after[i] == list[i]);
        }
        lemma_place_is(after, name, k);
    } else {
        let p = place(list, other);
        if p < list.len() {
            assert(p != k);
            assert forall|i: int| 0 <= i < p implies (#[trigger] after[i]).0 != other by {
                if i != k {
                    assert(after[i] == list[i]);
                }
            }
            lemma_place_is(after, other, p);
        } else {
            assert forall|i: int| 0 <= i < after.len() implies (#[trigger] after[i]).0 != other by {
                if i != k {
                    assert(after[i] == list[i]);
                }
            }
            lemma_place_is(after, other, after.len() as int);
        }
    }
}

/// A name that was removed has no value, and no other name is touched.
pub proof fn law_remove_then_lookup<T>(
    list: Seq<(Seq<char>, T)>,
    name: Seq<char>,
    other: Seq<char>,
)
    requires
        unique(list),
    ensures
        lookup(without(list, name), other) == if other == name {
            None
        } else {
            lookup(list, other)
        },
{
    let after = without(list, name);
    lemma_place(list, name);
    lemma_place(list, other);
    let k = place(list, name);
    if k < list.len() {
        let p = place(list, other);
        if other == name {
            assert forall|i: int| 0 <= i < after.len() implies (#[trigger] after[i]).0 != name by {
                if i < k {
                    assert(after[i] == list[i]);
                } else {
                    assert(after[i] == list[i + 1]);
                    assert(list[k].0 != list[i + 1].0);
                }
            }
            lemma_place_is(after, name, after.len() as int);
        } else {
            let q = if p < k {
                p
            } else {
                p - 1
            };
            assert(p != k);
            assert forall|i: int| 0 <= i < q implies (#[trigger] after[i]).0 != other by {
                if i < k {
                    assert(after[i] == list[i]);
                } else {
                    assert(after[i] == list[i + 1]);
                }
            }
            if p < list.len() {
                if p < k {
                    assert(after[p] == list[p]);
                } else {
                    assert(after[q] == list[p]);
                }
            }
            lemma_place_is(after, other, q);
        }
    }
}

/// Names stay unique.
pub proof fn law_names_stay_unique<T>(list: Seq<(Seq<char>, T)>, name: Seq<char>, value: T)
    requires
        unique(list),
    ensures
        unique(with(list, name, value)),
        unique(without(list, name)),
{
    lemma_place(list, name);
    let k = place(list, name);
    let a = with(list, name, value);
    assert forall|i: int, j: int| 0 <= i < j < a.len() implies (#[trigger] a[i]).0 != (
    #[trigger] a[j]).0 by {
        if i < list.len() && j < list.len() {
            assert(list[i].0 != list[j].0);
        }
    }
    let b = without(list, name);
    assert forall|i: int, j: int| 0 <= i < j < b.len() implies (#[trigger] b[i]).0 != (
    #[trigger] b[j]).0 by {
        if k < list.len() {
            let x = if i < k {
                i
            } else {
                i + 1
            };
            let y = if j < k {
                j
            } else {
                j + 1
            };
            assert(list[x].0 != list[y].0);
        }
    }
}

/// Values by name.
#[derive(Debug)]
pub struct NameMap<V> {
    pub entries: Vec<(String, V)>,
}

impl<V: View> View for NameMap<V> {
    type V = Seq<(Seq<char>, V::V)>;

    open spec fn view(&self) -> Seq<(Seq<char>, V::V)> {
        Seq::new(self.entries@.len(), |i: int| (self.entries@[i].0@, self.entries@[i].1@))
    }
}

impl<V: View> NameMap<V> {
    pub fn new() -> (r: Self)
        ensures
            r@ == Seq::<(Seq<char>, V::V)>::empty(),
    {
        let r = NameMap { entries: Vec::new() };
        assert(r@ =~= Seq::<(Seq<char>, V::V)>::empty());
        r
    }

    /// The place of a name; the number of the entries if it is not there.
    pub fn find(&self, name: &String) -> (r: usize)
        ensures
            r == place(self@, name@),
            r <= self.entries@.len(),
    {
        for i in 0..self.entries.len()
            invariant
                forall|j: int| 0 <= j < i ==> (#[trigger] self@[j]).0 != name@,
        {
            if self.entries[i].0 == *name {
                proof {
                    lemma_place_is(self@, name@, i as int);
                }
                return i;
            }
            assert(self@[i as int].0 != name@);
        }
        proof {
            lemma_place_is(self@, name@, self@.len() as int);
        }
        self.entries.len()
    }

    pub fn contains(&self, name: &String) -> (r: bool)
        ensures
            r == holds(self@, name@),
    {
        self.find(name) < self.entries.len()
    }

    pub fn get(&self, name: &String) -> (r: Option<&V>)
        ensures
            match r {
                Some(v) => lookup(self@, name@) == Some(v@),
                None => lookup(self@, name@) is None,
            },
    {
        let k: usize = self.find(name);
        if k < self.entries.len() {
            assert(self@[k as int].1 == self.entries@[k as int].1@);
            Some(&self.entries[k].1)
        } else {
            None
        }
    }

    pub fn insert(&mut self, name: String, value: V)
        ensures
            final(self)@ == with(old(self)@, name@, value@),
    {
        let ghost before = self@;
        let k: usize = self.find(&name);
        if k < self.entries.len() {
            self.entries.set(k, (name, value));
            assert(self@ =~= before.update(k as int, (name@, value@)));
        } else {
            self.entries.push((name, value));
            assert(self@ =~= before.push((name@, value@)));
        }
    }

    pub fn remove(&mut self, name: &String)
        ensures
            final(self)@ == without(old(self)@, name@),
    {
        let ghost before = self@;
        let k: usize = self.find(name);
        if k < self.entries.len() {
            let _ = self.entries.remove(k);
            assert(self@ =~= before.remove(k as int));
        }
    }
}

} // verus!
