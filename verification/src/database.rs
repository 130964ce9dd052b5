//! The key-value store: text keys to byte-sequence values, overwriting on
//! insertion, viewed as a mathematical map.

use vstd::prelude::*;

verus! {

/// The store: a list of entries with pairwise distinct keys.
pub struct Database {
    entries: Vec<(String, Vec<u8>)>,
}

/// The map an entry list denotes; later entries would win, and the
/// invariant keeps keys distinct.
pub open spec fn entries_map(s: Seq<(String, Vec<u8>)>) -> Map<Seq<char>, Seq<u8>>
    decreases s.len(),
{
    if s.len() == 0 {
        Map::empty()
    } else {
        entries_map(s.drop_last()).insert(s.last().0@, s.last().1@)
    }
}

/// A key is in the map exactly when some entry carries it, and then the
/// map holds the value of the last such entry.
proof fn lemma_entries_map_get(s: Seq<(String, Vec<u8>)>, k: Seq<char>)
    ensures
        entries_map(s).contains_key(k) <==> exists|i: int| 0 <= i < s.len() && (#[trigger] s[i]).0@
            == k,
        forall|i: int|
            0 <= i < s.len() && (#[trigger] s[i]).0@ == k && (forall|j: int|
                i < j < s.len() ==> (#[trigger] s[j]).0@ != k) ==> entries_map(s).contains_key(k)
                && entries_map(s)[k] == s[i].1@,
    decreases s.len(),
{
    if s.len() > 0 {
        lemma_entries_map_get(s.drop_last(), k);
        let last = s.len() - 1;
        assert forall|i: int| 0 <= i < s.drop_last().len() implies s.drop_last()[i] == s[i] by {}
        if s[last].0@ == k {
            assert(entries_map(s)[k] == s[last].1@);
        }
    }
}

impl Database {
    /// No two entries share a key.
    pub closed spec fn distinct_keys(&self) -> bool {
        forall|i: int, j: int|
            0 <= i < j < self.entries@.len() ==> (#[trigger] self.entries@[i]).0@
                != (#[trigger] self.entries@[j]).0@
    }
}

impl View for Database {
    type V = Map<Seq<char>, Seq<u8>>;

    closed spec fn view(&self) -> Map<Seq<char>, Seq<u8>> {
        entries_map(self.entries@)
    }
}

impl Database {
    /// An empty store.
    pub fn new() -> (db: Database)
        ensures
            db@ == Map::<Seq<char>, Seq<u8>>::empty(),
            db.distinct_keys(),
    {
        Database { entries: Vec::new() }
    }

    /// Position of the entry carrying `key`, if any.
    fn find(&self, key: &String) -> (r: Option<usize>)
        ensures
            match r {
                Some(i) => i < self.entries@.len() && self.entries@[i as int].0@ == key@,
                None => forall|i: int|
                    0 <= i < self.entries@.len() ==> (#[trigger] self.entries@[i]).0@ != key@,
            },
    {
        let mut i: usize = 0;
        while i < self.entries.len()
            invariant
                i <= self.entries@.len(),
                forall|j: int| 0 <= j < i ==> (#[trigger] self.entries@[j]).0@ != key@,
            decreases self.entries@.len() - i,
        {
            if self.entries[i].0 == *key {
                return Some(i);
            }
            i = i + 1;
        }
        None
    }

    /// Looks a key up, returning a copy of its value; no side effect.
    pub fn get(&self, key: &String) -> (r: Option<Vec<u8>>)
        requires
            self.distinct_keys(),
        ensures
            match r {
                Some(v) => self@.contains_key(key@) && v@ == self@[key@],
                None => !self@.contains_key(key@),
            },
    {
        proof {
            lemma_entries_map_get(self.entries@, key@);
        }
        match self.find(key) {
            Some(i) => {
                proof {
                    assert forall|j: int|
                        i < j < self.entries@.len() implies (#[trigger] self.entries@[j]).0@
                        != key@ by {}
                }
                Some(copy_bytes(&self.entries[i].1))
            },
            None => None,
        }
    }

    /// Binds `key` to `val`, overwriting unconditionally, and returns the
    /// previous value if the key was already bound.
    pub fn set(&mut self, key: String, val: Vec<u8>) -> (prev: Option<Vec<u8>>)
        requires
            old(self).distinct_keys(),
        ensures
            final(self)@ == old(self)@.insert(key@, val@),
            final(self).distinct_keys(),
            match prev {
                Some(v) => old(self)@.contains_key(key@) && v@ == old(self)@[key@],
                None => !old(self)@.contains_key(key@),
            },
    {
        proof {
            lemma_entries_map_get(self.entries@, key@);
        }
        match self.find(&key) {
            Some(i) => {
                proof {
                    assert forall|j: int|
                        i < j < self.entries@.len() implies (#[trigger] self.entries@[j]).0@
                        != key@ by {}
                }
                let ghost pre = self.entries@;
                let prev = self.entries.remove(i);
                self.entries.push((key, val));
                proof {
                    assert(self.entries@.drop_last() =~= pre.remove(i as int));
                    lemma_set_entry(pre, i as int, self.entries@);
                }
                Some(prev.1)
            },
            None => {
                let ghost pre = self.entries@;
                self.entries.push((key, val));
                proof {
                    assert(self.entries@.drop_last() =~= pre);
                }
                None
            },
        }
    }
}

/// Copies a byte vector.
fn copy_bytes(v: &Vec<u8>) -> (r: Vec<u8>)
    ensures
        r@ == v@,
{
    vstd::slice::slice_to_vec(v.as_slice())
}

/// Removing the one entry that carried a key and appending a fresh binding
/// for it denotes insertion into the map, and keeps keys distinct.
proof fn lemma_set_entry(pre: Seq<(String, Vec<u8>)>, i: int, post: Seq<(String, Vec<u8>)>)
    requires
        0 <= i < pre.len(),
        post.len() == pre.len(),
        post.drop_last() == pre.remove(i),
        post.last().0@ == pre[i].0@,
        forall|p: int, q: int| 0 <= p < q < pre.len() ==> (#[trigger] pre[p]).0@ != (#[trigger] pre[q]).0@,
    ensures
        entries_map(post) == entries_map(pre).insert(pre[i].0@, post.last().1@),
        forall|p: int, q: int|
            0 <= p < q < post.len() ==> (#[trigger] post[p]).0@ != (#[trigger] post[q]).0@,
{
    let k = pre[i].0@;
    let v = post.last().1@;
    lemma_entries_map_remove(pre, i);
    assert(entries_map(post) == entries_map(pre.remove(i)).insert(k, v));
    let m1 = entries_map(pre.remove(i)).insert(k, v);
    let m2 = entries_map(pre).insert(k, v);
    assert forall|k2: Seq<char>| m1.contains_key(k2) == m2.contains_key(k2) by {
        if k2 != k {
            assert(entries_map(pre.remove(i)).contains_key(k2) == entries_map(pre).contains_key(
                k2,
            ));
        }
    }
    assert forall|k2: Seq<char>| m1.contains_key(k2) implies m1[k2] == m2[k2] by {
        if k2 != k {
            assert(entries_map(pre.remove(i)).contains_key(k2));
            assert(entries_map(pre.remove(i))[k2] == entries_map(pre)[k2]);
        }
    }
    assert(m1 =~= m2);
    assert forall|p: int, q: int|
        0 <= p < q < post.len() implies (#[trigger] post[p]).0@ != (#[trigger] post[q]).0@ by {
        if q < post.len() - 1 {
            assert(post[p] == pre.remove(i)[p]);
            assert(post[q] == pre.remove(i)[q]);
            assert(pre.remove(i)[p] == if p < i {
                pre[p]
            } else {
                pre[p + 1]
            });
            assert(pre.remove(i)[q] == if q < i {
                pre[q]
            } else {
                pre[q + 1]
            });
        } else {
            assert(post[p] == pre.remove(i)[p]);
            assert(pre.remove(i)[p] == if p < i {
                pre[p]
            } else {
                pre[p + 1]
            });
        }
    }
}

/// Dropping the entry that carries `k` leaves a list whose map differs
/// from the whole list's only at `k`.
proof fn lemma_entries_map_remove(s: Seq<(String, Vec<u8>)>, i: int)
    requires
        0 <= i < s.len(),
        forall|p: int, q: int| 0 <= p < q < s.len() ==> (#[trigger] s[p]).0@ != (#[trigger] s[q]).0@,
    ensures
        forall|k2: Seq<char>|
            k2 != s[i].0@ ==> #[trigger] entries_map(s.remove(i)).contains_key(k2) == entries_map(
                s,
            ).contains_key(k2),
        forall|k2: Seq<char>|
            k2 != s[i].0@ && entries_map(s).contains_key(k2) ==> #[trigger] entries_map(
                s.remove(i),
            )[k2] == entries_map(s)[k2],
        !entries_map(s.remove(i)).contains_key(s[i].0@),
    decreases s.len(),
{
    let k = s[i].0@;
    if i == s.len() - 1 {
        assert(s.remove(i) =~= s.drop_last());
        lemma_entries_map_get(s.drop_last(), k);
        assert forall|j: int| 0 <= j < s.drop_last().len() implies s.drop_last()[j] == s[j] by {}
        assert(!entries_map(s.drop_last()).contains_key(k));
    } else {
        let t = s.drop_last();
        lemma_entries_map_remove(t, i);
        assert(s.remove(i).drop_last() =~= t.remove(i));
        assert(s.remove(i).last() == s.last());
        assert(entries_map(s.remove(i)) == entries_map(t.remove(i)).insert(
            s.last().0@,
            s.last().1@,
        ));
        assert(entries_map(s) == entries_map(t).insert(s.last().0@, s.last().1@));
        assert(t[i] == s[i]);
        assert(s.last().0@ != k);
        assert forall|k2: Seq<char>|
            k2 != k implies #[trigger] entries_map(s.remove(i)).contains_key(k2) == entries_map(
            s,
        ).contains_key(k2) by {
            if k2 != s.last().0@ {
                assert(entries_map(t.remove(i)).contains_key(k2) == entries_map(t).contains_key(
                    k2,
                ));
            }
        }
        assert forall|k2: Seq<char>|
            k2 != k && entries_map(s).contains_key(k2) implies #[trigger] entries_map(
            s.remove(i),
        )[k2] == entries_map(s)[k2] by {
            if k2 != s.last().0@ {
                assert(entries_map(t.remove(i)).contains_key(k2) == entries_map(t).contains_key(
                    k2,
                ));
                assert(entries_map(s)[k2] == entries_map(t)[k2]);
                assert(entries_map(t.remove(i))[k2] == entries_map(t)[k2]);
                assert(entries_map(s.remove(i))[k2] == entries_map(t.remove(i))[k2]);
            }
        }
        assert(!entries_map(s.remove(i)).contains_key(k));
    }
}

} // verus!
