//! The variable environment: a mapping from variable name to the value last
//! assigned to it, owned by the caller across lines and threaded by value
//! through each evaluation.

use vstd::prelude::*;

verus! {

/// The map an association list stands for; a later entry wins.
pub open spec fn as_map(s: Seq<(String, i32)>) -> Map<Seq<char>, i32>
    decreases s.len(),
{
    if s.len() == 0 {
        Map::empty()
    } else {
        as_map(s.drop_last()).insert(s.last().0@, s.last().1)
    }
}

/// No two entries bind the same name.
pub open spec fn unique_keys(s: Seq<(String, i32)>) -> bool {
    forall|a: int, b: int| 0 <= a < b < s.len() ==> s[a].0@ != s[b].0@
}

/// The variable environment. Its view is the map from each bound name to its
/// value; a name is never bound twice.
pub struct Env {
    pairs: Vec<(String, i32)>,
}

impl View for Env {
    type V = Map<Seq<char>, i32>;

    closed spec fn view(&self) -> Map<Seq<char>, i32> {
        as_map(self.pairs@)
    }
}

impl Env {
    #[verifier::type_invariant]
    spec fn wf(self) -> bool {
        unique_keys(self.pairs@)
    }

    /// An environment with no bindings.
    pub fn new() -> (e: Env)
        ensures
            e@ == Map::<Seq<char>, i32>::empty(),
    {
        Env { pairs: Vec::new() }
    }

    /// The value bound to `name`, if any.
    pub fn get(&self, name: &String) -> (r: Option<i32>)
        ensures
            r == if self@.contains_key(name@) {
                Some(self@[name@])
            } else {
                None::<i32>
            },
    {
        proof {
            use_type_invariant(self);
        }
        let n = self.pairs.len();
        let mut idx: usize = 0;
        while idx < n
            invariant
                0 <= idx <= n,
                n == self.pairs@.len(),
                unique_keys(self.pairs@),
                forall|k: int| 0 <= k < idx ==> (#[trigger] self.pairs@[k]).0@ != name@,
            decreases n - idx,
        {
            if string_eq(&self.pairs[idx].0, name) {
                proof {
                    lemma_as_map_found(self.pairs@, idx as int);
                }
                return Some(self.pairs[idx].1);
            }
            idx = idx + 1;
        }
        proof {
            lemma_as_map_absent(self.pairs@, name@);
        }
        None
    }

    /// Binds `name` to `value`, replacing any earlier binding.
    pub fn insert(&mut self, name: String, value: i32)
        ensures
            final(self)@ == old(self)@.insert(name@, value),
    {
        proof {
            use_type_invariant(&*self);
        }
        let mut pairs: Vec<(String, i32)> = Vec::new();
        std::mem::swap(&mut pairs, &mut self.pairs);
        let ghost s = pairs@;
        let n = pairs.len();
        let mut idx: usize = 0;
        let mut pos: usize = n;
        while idx < n
            invariant
                0 <= idx <= n,
                n == pairs@.len(),
                pairs@ == s,
                pos == n || (pos < idx && pairs@[pos as int].0@ == name@),
                pos == n ==> forall|k: int| 0 <= k < idx ==> (#[trigger] pairs@[k]).0@ != name@,
            decreases n - idx,
        {
            if pos == n {
                if string_eq(&pairs[idx].0, &name) {
                    pos = idx;
                }
            }
            idx = idx + 1;
        }
        if pos < n {
            let ghost key = s[pos as int].0@;
            let _ = pairs.remove(pos);
            pairs.push((name, value));
            proof {
                lemma_unique_keys_remove(s, pos as int);
                assert forall|k: int| 0 <= k < s.remove(pos as int).len() implies (
                #[trigger] s.remove(pos as int)[k]).0@ != key by {
                    if k < pos {
                        assert(s.remove(pos as int)[k] == s[k]);
                    } else {
                        assert(s.remove(pos as int)[k] == s[k + 1]);
                    }
                }
                assert(unique_keys(pairs@)) by {
                    assert(pairs@.drop_last() =~= s.remove(pos as int));
                    assert(pairs@.last().0@ == key);
                }
                lemma_as_map_remove(s, pos as int);
                assert(pairs@.drop_last() =~= s.remove(pos as int));
                assert(as_map(pairs@) == as_map(s.remove(pos as int)).insert(name@, value));
                assert(as_map(pairs@) =~= as_map(s).insert(name@, value));
            }
        } else {
            pairs.push((name, value));
            proof {
                assert(pairs@.drop_last() =~= s);
                assert(unique_keys(pairs@));
                assert(as_map(pairs@) == as_map(s).insert(name@, value));
            }
        }
        self.pairs = pairs;
    }
}

/// Relies on String's `==`: strings are equal exactly when their characters
/// are.
fn string_eq(a: &String, b: &String) -> (r: bool)
    ensures
        r == (a@ == b@),
{
    a.eq(b)
}

/// A name bound by no entry is not in the map.
proof fn lemma_as_map_absent(s: Seq<(String, i32)>, name: Seq<char>)
    requires
        forall|k: int| 0 <= k < s.len() ==> (#[trigger] s[k]).0@ != name,
    ensures
        !as_map(s).contains_key(name),
    decreases s.len(),
{
    if s.len() > 0 {
        assert forall|k: int| 0 <= k < s.drop_last().len() implies (
        #[trigger] s.drop_last()[k]).0@ != name by {
            assert(s.drop_last()[k] == s[k]);
        }
        lemma_as_map_absent(s.drop_last(), name);
    }
}

/// With unique keys, the map carries each entry's own binding.
proof fn lemma_as_map_found(s: Seq<(String, i32)>, idx: int)
    requires
        unique_keys(s),
        0 <= idx < s.len(),
    ensures
        as_map(s).contains_key(s[idx].0@),
        as_map(s)[s[idx].0@] == s[idx].1,
    decreases s.len(),
{
    if idx < s.len() - 1 {
        assert forall|a: int, b: int| 0 <= a < b < s.drop_last().len() implies (
        #[trigger] s.drop_last()[a]).0@ != (#[trigger] s.drop_last()[b]).0@ by {
            assert(s.drop_last()[a] == s[a]);
            assert(s.drop_last()[b] == s[b]);
        }
        assert(s.drop_last()[idx] == s[idx]);
        lemma_as_map_found(s.drop_last(), idx);
        assert(s[idx].0@ != s.last().0@);
    }
}

/// Removing an entry keeps the other keys unique.
proof fn lemma_unique_keys_remove(s: Seq<(String, i32)>, pos: int)
    requires
        unique_keys(s),
        0 <= pos < s.len(),
    ensures
        unique_keys(s.remove(pos)),
{
    assert forall|a: int, b: int| 0 <= a < b < s.remove(pos).len() implies (
    #[trigger] s.remove(pos)[a]).0@ != (#[trigger] s.remove(pos)[b]).0@ by {
        let a0 = if a < pos {
            a
        } else {
            a + 1
        };
        let b0 = if b < pos {
            b
        } else {
            b + 1
        };
        assert(s.remove(pos)[a] == s[a0]);
        assert(s.remove(pos)[b] == s[b0]);
    }
}

/// With unique keys, dropping an entry from the list drops exactly its
/// binding from the map.
proof fn lemma_as_map_remove(s: Seq<(String, i32)>, pos: int)
    requires
        unique_keys(s),
        0 <= pos < s.len(),
    ensures
        as_map(s.remove(pos)) == as_map(s).remove(s[pos].0@),
    decreases s.len(),
{
    let key = s[pos].0@;
    if pos == s.len() - 1 {
        assert(s.remove(pos) =~= s.drop_last());
        assert forall|k: int| 0 <= k < s.drop_last().len() implies (
        #[trigger] s.drop_last()[k]).0@ != key by {
            assert(s.drop_last()[k] == s[k]);
        }
        lemma_as_map_absent(s.drop_last(), key);
        assert(as_map(s.drop_last()) =~= as_map(s).remove(key));
    } else {
        let t = s.drop_last();
        let p = s.last();
        assert forall|a: int, b: int| 0 <= a < b < t.len() implies (#[trigger] t[a]).0@ != (
        #[trigger] t[b]).0@ by {
            assert(t[a] == s[a]);
            assert(t[b] == s[b]);
        }
        assert(t[pos] == s[pos]);
        lemma_as_map_remove(t, pos);
        assert(s.remove(pos).drop_last() =~= t.remove(pos));
        assert(s.remove(pos).last() == p);
        assert(as_map(s.remove(pos)) == as_map(t.remove(pos)).insert(p.0@, p.1));
        assert(p.0@ != key);
        assert(as_map(t.remove(pos)).insert(p.0@, p.1) =~= as_map(s).remove(key));
    }
}

} // verus!
