use vstd::prelude::*;

use crate::value::Value;

verus! {

/// The globals that a list of bindings leaves, later bindings of a name
/// overriding earlier ones.
pub open spec fn bound(entries: Seq<(String, Value)>) -> Map<Seq<char>, Value>
    decreases entries.len(),
{
    if entries.len() == 0 {
        Map::empty()
    } else {
        bound(entries.drop_last()).insert(entries.last().0@, entries.last().1)
    }
}

/// Every name that a list of bindings binds is bound.
pub proof fn lemma_bound_keys(entries: Seq<(String, Value)>, i: int)
    requires
        0 <= i < entries.len(),
    ensures
        bound(entries).dom().contains(entries[i].0@),
    decreases entries.len(),
{
    if i < entries.len() - 1 {
        lemma_bound_keys(entries.drop_last(), i);
    }
}

/// The helper routines loaded into every render, in load order. `each` repeats
/// `data` once per item, replacing each `$name` token by the item's `name`
/// field; a token whose field is absent is kept as written.
pub open spec fn prelude() -> Seq<Seq<char>> {
    seq![
        "function show(v) if (v or '') == '' then data = '' end end"@,
        "function hide(v) if (v or '') ~= '' then data = '' end end"@,
        "function maybe(v, o) return v or o end"@,
        "function format(...) data = string.format(data, ...) end"@,
        "function each(k) local template = data; data = ''; for _, post in ipairs(k) do data = data .. template:gsub('%$([a-zA-Z_]+)', post) end end"@,
    ]
}

/// The named values bound as globals in every render, and the helper
/// routines loaded before them.
pub struct Environment {
    pub values: Vec<(String, Value)>,
    pub functions: Vec<String>,
}

impl Environment {
    /// The globals that the values bind.
    pub open spec fn globals(&self) -> Map<Seq<char>, Value> {
        bound(self.values@)
    }

    /// No name is bound twice.
    pub open spec fn keys_unique(&self) -> bool {
        forall|a: int, b: int|
            0 <= a < b < self.values@.len() ==> #[trigger] self.values@[a].0@ != #[trigger] self.values@[b].0@
    }

    /// An environment with no values and the five helper routines.
    pub fn new() -> (r: Environment)
        ensures
            r.globals() == Map::<Seq<char>, Value>::empty(),
            r.functions.deep_view() == prelude(),
            r.keys_unique(),
    {
        let mut functions: Vec<String> = Vec::new();
        functions.push("function show(v) if (v or '') == '' then data = '' end end".to_owned());
        functions.push("function hide(v) if (v or '') ~= '' then data = '' end end".to_owned());
        functions.push("function maybe(v, o) return v or o end".to_owned());
        functions.push("function format(...) data = string.format(data, ...) end".to_owned());
        functions.push(
            "function each(k) local template = data; data = ''; for _, post in ipairs(k) do data = data .. template:gsub('%$([a-zA-Z_]+)', post) end end".to_owned(),
        );
        let r = Environment { values: Vec::new(), functions };
        assert(r.functions.deep_view() =~= prelude());
        assert(r.globals() =~= Map::<Seq<char>, Value>::empty());
        r
    }

    /// Binds `key` to `value`, replacing what it was bound to.
    pub fn insert(&mut self, key: &str, value: Value)
        ensures
            final(self).globals() == old(self).globals().insert(key@, value),
            final(self).functions == old(self).functions,
            old(self).keys_unique() ==> final(self).keys_unique(),
    {
        self.remove(key);
        let ghost before = self.values@;
        self.values.push((key.to_owned(), value));
        assert(self.values@.drop_last() =~= before);
        assert forall|a: int, b: int|
            old(self).keys_unique() && 0 <= a < b < self.values@.len() implies #[trigger] self.values@[a].0@
            != #[trigger] self.values@[b].0@ by {
            assert(self.values@[a] == before[a]);
            assert(before[a].0@ != key@);
            if b < before.len() {
                assert(self.values@[b] == before[b]);
            }
        }
    }

    /// Unbinds `key`; nothing happens where it is not bound.
    pub fn remove(&mut self, key: &str)
        ensures
            final(self).globals() == old(self).globals().remove(key@),
            final(self).functions == old(self).functions,
            forall|a: int| 0 <= a < final(self).values@.len() ==> #[trigger] final(self).values@[a].0@ != key@,
            old(self).keys_unique() ==> final(self).keys_unique(),
    {
        let key = key.to_owned();
        let ghost o = self.values@;
        let mut i: usize = 0;
        let ghost mut j: int = 0;
        while i < self.values.len()
            invariant
                self.functions == old(self).functions,
                o == old(self).values@,
                0 <= i <= j <= o.len(),
                self.values@.len() - i == o.len() - j,
                forall|a: int| 0 <= a < i ==> #[trigger] self.values@[a].0@ != key@,
                old(self).keys_unique() ==> self.keys_unique(),
                bound(self.values@.subrange(0, i as int)) == bound(o.subrange(0, j)).remove(key@),
                self.values@.subrange(i as int, self.values@.len() as int) == o.subrange(
                    j,
                    o.len() as int,
                ),
            decreases self.values@.len() - i,
        {
            let ghost cur = self.values@;
            assert(cur[i as int] == o[j]) by {
                assert(cur.subrange(i as int, cur.len() as int)[0] == cur[i as int]);
            }
            assert(o.subrange(0, j + 1).drop_last() =~= o.subrange(0, j));
            assert forall|x: int| i <= x < cur.len() implies #[trigger] cur[x] == o[x - i + j] by {
                assert(cur.subrange(i as int, cur.len() as int)[x - i] == cur[x]);
                assert(o.subrange(j, o.len() as int)[x - i] == o[x - i + j]);
            }
            if self.values[i].0 == key {
                self.values.remove(i);
                assert forall|a: int, b: int| old(self).keys_unique() && 0 <= a < b < self.values@.len() implies
                    #[trigger] self.values@[a].0@ != #[trigger] self.values@[b].0@ by {
                    let a2 = if a < i { a } else { a + 1 };
                    let b2 = if b < i { b } else { b + 1 };
                    assert(self.values@[a] == cur[a2]);
                    assert(self.values@[b] == cur[b2]);
                    assert(cur[a2].0@ != cur[b2].0@);
                }
                assert(self.values@.subrange(0, i as int) =~= cur.subrange(0, i as int));
                assert(self.values@.subrange(i as int, self.values@.len() as int) =~= o.subrange(
                    j + 1,
                    o.len() as int,
                ));
                assert(bound(o.subrange(0, j + 1)).remove(key@) =~= bound(o.subrange(0, j)).remove(
                    key@,
                ));
            } else {
                assert(self.values@.subrange(0, i + 1).drop_last() =~= self.values@.subrange(
                    0,
                    i as int,
                ));
                assert(self.values@.subrange(i + 1, self.values@.len() as int) =~= o.subrange(
                    j + 1,
                    o.len() as int,
                ));
                assert(bound(o.subrange(0, j + 1)).remove(key@) =~= bound(o.subrange(
                    0,
                    j,
                )).remove(key@).insert(o[j].0@, o[j].1));
                i = i + 1;
            }
            proof {
                j = j + 1;
            }
        }
        assert(self.values@.subrange(0, i as int) =~= self.values@);
        assert(o.subrange(0, j) =~= o);
    }
}

} // verus!
