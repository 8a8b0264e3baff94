use vstd::prelude::*;

verus! {

/// Context handed to every hook callback: string keys with string values.
/// Kept as a list of entries whose keys are distinct: vstd specifies
/// `HashMap` only for key types with a proven hash model, which `String`
/// does not have, so a `HashMap` here would leave lookups unproved.
#[derive(Debug)]
pub struct HookContext {
    data: Vec<(String, String)>,
}

/// The map that a list of keyed entries stands for, when no key repeats:
/// each key's characters to the view of its value.
pub open spec fn entries_map<V: View>(data: Seq<(String, V)>) -> Map<Seq<char>, V::V> {
    Map::new(
        |k: Seq<char>| exists|i: int| 0 <= i < data.len() && (#[trigger] data[i]).0@ == k,
        |k: Seq<char>| data[choose|i: int| 0 <= i < data.len() && (#[trigger] data[i]).0@ == k].1@,
    )
}

pub open spec fn distinct_keys<V>(data: Seq<(String, V)>) -> bool {
    forall|i: int, j: int| 0 <= i < j < data.len() ==> (#[trigger] data[i]).0@ != (#[trigger] data[j]).0@
}

/// In a list without repeated keys, entry `i` is what the map gives for
/// its key.
proof fn lemma_entry<V: View>(data: Seq<(String, V)>, i: int)
    requires
        distinct_keys(data),
        0 <= i < data.len(),
    ensures
        entries_map(data).contains_key(data[i].0@),
        entries_map(data)[data[i].0@] == data[i].1@,
{
    let k = data[i].0@;
    assert(entries_map(data).contains_key(k));
    let j = choose|j: int| 0 <= j < data.len() && (#[trigger] data[j]).0@ == k;
    if j < i {
        assert(data[j].0@ != data[i].0@);
    } else if i < j {
        assert(data[i].0@ != data[j].0@);
    }
}

/// A list without repeated keys stands for a finite map with one key per
/// entry.
proof fn lemma_entries_len<V: View>(data: Seq<(String, V)>)
    requires
        distinct_keys(data),
    ensures
        entries_map(data).dom().finite(),
        entries_map(data).len() == data.len(),
{
    let keys = data.map_values(|e: (String, V)| e.0@);
    assert forall|a: int, b: int| 0 <= a < b < keys.len() implies keys[a] != keys[b] by {
        assert(data[a].0@ != data[b].0@);
    }
    assert forall|k: Seq<char>| entries_map(data).dom().contains(k) <==> keys.to_set().contains(k) by {
        if entries_map(data).dom().contains(k) {
            let i = choose|i: int| 0 <= i < data.len() && (#[trigger] data[i]).0@ == k;
            assert(keys[i] == k);
        }
        if keys.to_set().contains(k) {
            let i = choose|i: int| 0 <= i < keys.len() && keys[i] == k;
            assert(data[i].0@ == k);
        }
    }
    assert(entries_map(data).dom() =~= keys.to_set());
    keys.unique_seq_to_set();
}

/// Replacing the value of entry `i` updates its key in the map.
proof fn lemma_set_entry<V: View>(data: Seq<(String, V)>, i: int, entry: (String, V))
    requires
        distinct_keys(data),
        0 <= i < data.len(),
        entry.0@ == data[i].0@,
    ensures
        distinct_keys(data.update(i, entry)),
        entries_map(data.update(i, entry)) == entries_map(data).insert(entry.0@, entry.1@),
{
    let d2 = data.update(i, entry);
    let key = entry.0@;
    assert forall|a: int, b: int| 0 <= a < b < d2.len() implies (#[trigger] d2[a]).0@ != (#[trigger] d2[b]).0@ by {
        assert(data[a].0@ != data[b].0@);
    }
    assert forall|k: Seq<char>| #[trigger] entries_map(d2).contains_key(k) <==> entries_map(data).insert(key, entry.1@).contains_key(k) by {
        if entries_map(data).contains_key(k) {
            let j = choose|j: int| 0 <= j < data.len() && (#[trigger] data[j]).0@ == k;
            assert(d2[j].0@ == k);
        }
        if entries_map(d2).contains_key(k) && k != key {
            let j = choose|j: int| 0 <= j < d2.len() && (#[trigger] d2[j]).0@ == k;
            assert(data[j].0@ == k);
        }
        assert(d2[i].0@ == key);
    }
    assert forall|k: Seq<char>| #[trigger] entries_map(d2).contains_key(k) implies entries_map(d2)[k]
        == entries_map(data).insert(key, entry.1@)[k] by {
        let j = choose|j: int| 0 <= j < d2.len() && (#[trigger] d2[j]).0@ == k;
        lemma_entry(d2, j);
        if j != i {
            lemma_entry(data, j);
        }
    }
    assert(entries_map(d2) =~= entries_map(data).insert(key, entry.1@));
}

/// Appending an entry with a new key adds that key to the map.
proof fn lemma_push_entry<V: View>(data: Seq<(String, V)>, entry: (String, V))
    requires
        distinct_keys(data),
        forall|i: int| 0 <= i < data.len() ==> (#[trigger] data[i]).0@ != entry.0@,
    ensures
        distinct_keys(data.push(entry)),
        entries_map(data.push(entry)) == entries_map(data).insert(entry.0@, entry.1@),
{
    let d2 = data.push(entry);
    let key = entry.0@;
    let n = data.len() as int;
    assert forall|a: int, b: int| 0 <= a < b < d2.len() implies (#[trigger] d2[a]).0@ != (#[trigger] d2[b]).0@ by {
        if b == n {
            assert(data[a] == d2[a]);
        } else {
            assert(data[a].0@ != data[b].0@);
        }
    }
    assert forall|k: Seq<char>| #[trigger] entries_map(d2).contains_key(k) <==> entries_map(data).insert(key, entry.1@).contains_key(k) by {
        if entries_map(data).contains_key(k) {
            let j = choose|j: int| 0 <= j < data.len() && (#[trigger] data[j]).0@ == k;
            assert(d2[j].0@ == k);
        }
        if entries_map(d2).contains_key(k) && k != key {
            let j = choose|j: int| 0 <= j < d2.len() && (#[trigger] d2[j]).0@ == k;
            assert(data[j].0@ == k);
        }
        assert(d2[n].0@ == key);
    }
    assert forall|k: Seq<char>| #[trigger] entries_map(d2).contains_key(k) implies entries_map(d2)[k]
        == entries_map(data).insert(key, entry.1@)[k] by {
        let j = choose|j: int| 0 <= j < d2.len() && (#[trigger] d2[j]).0@ == k;
        lemma_entry(d2, j);
        if j != n {
            assert(data[j] == d2[j]);
            lemma_entry(data, j);
        }
    }
    assert(entries_map(d2) =~= entries_map(data).insert(key, entry.1@));
}

/// Position of `key` among the keys of `data`, if it is there.
fn find_key<V>(data: &Vec<(String, V)>, key: &String) -> (r: Option<usize>)
    ensures
        match r {
            Some(i) => i < data@.len() && data@[i as int].0@ == key@,
            None => forall|i: int| 0 <= i < data@.len() ==> (#[trigger] data@[i]).0@ != key@,
        },
{
    let mut i: usize = 0;
    while i < data.len()
        invariant
            i <= data@.len(),
            forall|j: int| 0 <= j < i ==> (#[trigger] data@[j]).0@ != key@,
        decreases data@.len() - i,
    {
        if data[i].0 == *key {
            return Some(i);
        }
        i = i + 1;
    }
    None
}

impl View for HookContext {
    type V = Map<Seq<char>, Seq<char>>;

    closed spec fn view(&self) -> Map<Seq<char>, Seq<char>> {
        entries_map(self.data@)
    }
}

impl HookContext {
    #[verifier::type_invariant]
    closed spec fn keys_distinct(self) -> bool {
        distinct_keys(self.data@)
    }

    pub fn new() -> (c: Self)
        ensures
            c@ == Map::<Seq<char>, Seq<char>>::empty(),
            c@.dom().finite(),
    {
        let c = HookContext { data: Vec::new() };
        assert(c@ =~= Map::<Seq<char>, Seq<char>>::empty());
        c
    }

    /// The context with `key` set to `value`, replacing an earlier value of
    /// `key`.
    pub fn with(self, key: &str, value: &str) -> (c: Self)
        ensures
            c@ == self@.insert(key@, value@),
            c@.dom().finite(),
            c@.len() == self@.len() + if self@.contains_key(key@) {
                0int
            } else {
                1int
            },
    {
        proof {
            use_type_invariant(&self);
            lemma_entries_len(self.data@);
        }
        let HookContext { mut data } = self;
        let key_string = key.to_owned();
        let value_string = value.to_owned();
        match find_key(&data, &key_string) {
            Some(i) => {
                proof {
                    lemma_set_entry(data@, i as int, (key_string, value_string));
                }
                data.set(i, (key_string, value_string));
            },
            None => {
                proof {
                    lemma_push_entry(data@, (key_string, value_string));
                }
                data.push((key_string, value_string));
            },
        }
        proof {
            lemma_entries_len(data@);
        }
        HookContext { data }
    }

    /// Number of entries of the context.
    pub fn len(&self) -> (n: usize)
        ensures
            self@.dom().finite(),
            n == self@.len(),
    {
        proof {
            use_type_invariant(self);
            lemma_entries_len(self.data@);
        }
        self.data.len()
    }

    /// The entries of the context, each key once.
    pub fn entries(&self) -> (r: &Vec<(String, String)>)
        ensures
            distinct_keys(r@),
            entries_map(r@) == self@,
    {
        proof {
            use_type_invariant(self);
        }
        &self.data
    }

    /// The value of `key`, if the context has one.
    pub fn get(&self, key: &str) -> (r: Option<&String>)
        ensures
            match r {
                Some(v) => self@.contains_key(key@) && v@ == self@[key@],
                None => !self@.contains_key(key@),
            },
    {
        proof {
            use_type_invariant(self);
        }
        let key_string = key.to_owned();
        match find_key(&self.data, &key_string) {
            Some(i) => {
                proof {
                    lemma_entry(self.data@, i as int);
                }
                Some(&self.data[i].1)
            },
            None => None,
        }
    }
}

impl Clone for HookContext {
    fn clone(&self) -> (c: Self)
        ensures
            c@ == self@,
    {
        proof {
            use_type_invariant(self);
        }
        let mut data: Vec<(String, String)> = Vec::new();
        let mut i: usize = 0;
        while i < self.data.len()
            invariant
                distinct_keys(self.data@),
                i <= self.data@.len(),
                data@ == self.data@.take(i as int),
            decreases self.data@.len() - i,
        {
            let entry = (self.data[i].0.clone(), self.data[i].1.clone());
            data.push(entry);
            proof {
                assert(self.data@.take(i as int + 1) =~= self.data@.take(i as int).push(self.data@[i as int]));
            }
            i = i + 1;
        }
        proof {
            assert(self.data@.take(i as int) =~= self.data@);
        }
        HookContext { data }
    }
}

impl Default for HookContext {
    fn default() -> (c: Self)
        ensures
            c@ == Map::<Seq<char>, Seq<char>>::empty(),
    {
        HookContext::new()
    }
}

/// Hook-agnostic registry: callbacks kept per hook name, in registration
/// order. A name is written `":event"` or `"MetaMod.id:event"`. The names
/// are kept in a list with distinct keys rather than a `HashMap`, for the
/// same reason as in `HookContext`.
pub struct HookRegistry<C> {
    hooks: Vec<(String, Vec<C>)>,
}

impl<C> View for HookRegistry<C> {
    type V = Map<Seq<char>, Seq<C>>;

    closed spec fn view(&self) -> Map<Seq<char>, Seq<C>> {
        entries_map(self.hooks@)
    }
}

/// The callbacks registered under `name`; none for an unknown name.
pub open spec fn callbacks_of<C>(hooks: Map<Seq<char>, Seq<C>>, name: Seq<char>) -> Seq<C> {
    if hooks.contains_key(name) {
        hooks[name]
    } else {
        Seq::empty()
    }
}

/// Registering appends: the callback becomes the last one fired for its
/// name, the earlier ones keep their order, and other names are untouched.
pub proof fn law_register_appends<C>(hooks: Map<Seq<char>, Seq<C>>, name: Seq<char>, callback: C, other: Seq<char>)
    ensures
        ({
            let after = hooks.insert(name, callbacks_of(hooks, name).push(callback));
            &&& callbacks_of(after, name).len() == callbacks_of(hooks, name).len() + 1
            &&& callbacks_of(after, name).last() == callback
            &&& callbacks_of(after, name).drop_last() == callbacks_of(hooks, name)
            &&& other != name ==> callbacks_of(after, other) == callbacks_of(hooks, other)
        }),
{
    let after = hooks.insert(name, callbacks_of(hooks, name).push(callback));
    assert(callbacks_of(after, name).drop_last() =~= callbacks_of(hooks, name));
}

/// Reading back a context entry: after setting `key` to `value`, `key`
/// reads `value` and every other key reads what it read before.
pub proof fn law_with_then_get(ctx: Map<Seq<char>, Seq<char>>, key: Seq<char>, value: Seq<char>, other: Seq<char>)
    ensures
        ctx.insert(key, value).contains_key(key),
        ctx.insert(key, value)[key] == value,
        other != key ==> (ctx.insert(key, value).contains_key(other) == ctx.contains_key(other)),
        other != key && ctx.contains_key(other) ==> ctx.insert(key, value)[other] == ctx[other],
{
}

impl<C> HookRegistry<C> {
    #[verifier::type_invariant]
    closed spec fn names_distinct(self) -> bool {
        distinct_keys(self.hooks@)
    }
}

impl<C: Fn(&HookContext)> HookRegistry<C> {
    pub fn new() -> (r: Self)
        ensures
            r@ == Map::<Seq<char>, Seq<C>>::empty(),
    {
        let r = HookRegistry { hooks: Vec::new() };
        assert(r@ =~= Map::<Seq<char>, Seq<C>>::empty());
        r
    }

    /// Adds `callback` after the callbacks already registered under `name`.
    pub fn register(&mut self, name: &str, callback: C)
        ensures
            final(self)@ == old(self)@.insert(name@, callbacks_of(old(self)@, name@).push(callback)),
    {
        proof {
            use_type_invariant(&*self);
        }
        let mut hooks: Vec<(String, Vec<C>)> = Vec::new();
        std::mem::swap(&mut hooks, &mut self.hooks);
        let ghost before = hooks@;
        let name_string = name.to_owned();
        match find_key(&hooks, &name_string) {
            Some(i) => {
                let (key, mut callbacks) = hooks.remove(i);
                proof {
                    assert(before[i as int] == (key, callbacks));
                    lemma_entry(before, i as int);
                }
                callbacks.push(callback);
                let ghost entry = (key, callbacks);
                hooks.insert(i, (key, callbacks));
                proof {
                    lemma_set_entry(before, i as int, entry);
                    assert(hooks@ =~= before.update(i as int, entry));
                }
            },
            None => {
                let mut callbacks: Vec<C> = Vec::new();
                callbacks.push(callback);
                proof {
                    lemma_push_entry(before, (name_string, callbacks));
                    assert(callbacks@ =~= Seq::<C>::empty().push(callback));
                }
                hooks.push((name_string, callbacks));
            },
        }
        self.hooks = hooks;
    }

    /// Calls the callbacks registered under `name` with `ctx`; afterwards
    /// the postcondition of each of them holds for `ctx`. An unknown name
    /// has no callbacks.
    pub fn fire(&self, name: &str, ctx: &HookContext)
        requires
            forall|i: int|
                0 <= i < callbacks_of(self@, name@).len() ==> call_requires(
                    #[trigger] callbacks_of(self@, name@)[i],
                    (ctx,),
                ),
        ensures
            forall|i: int|
                0 <= i < callbacks_of(self@, name@).len() ==> call_ensures(
                    #[trigger] callbacks_of(self@, name@)[i],
                    (ctx,),
                    (),
                ),
    {
        proof {
            use_type_invariant(self);
        }
        let name_string = name.to_owned();
        if let Some(idx) = find_key(&self.hooks, &name_string) {
            proof {
                lemma_entry(self.hooks@, idx as int);
            }
            let callbacks = &self.hooks[idx].1;
            let mut j: usize = 0;
            while j < callbacks.len()
                invariant
                    callbacks@ == callbacks_of(self@, name@),
                    j <= callbacks@.len(),
                    forall|i: int|
                        0 <= i < callbacks_of(self@, name@).len() ==> call_requires(
                            #[trigger] callbacks_of(self@, name@)[i],
                            (ctx,),
                        ),
                    forall|i: int|
                        0 <= i < j ==> call_ensures(#[trigger] callbacks_of(self@, name@)[i], (ctx,), ()),
                decreases callbacks@.len() - j,
            {
                let cb = &callbacks[j];
                assert(call_requires(callbacks_of(self@, name@)[j as int], (ctx,)));
                cb(ctx);
                j = j + 1;
            }
        }
    }
}

impl<C: Fn(&HookContext)> Default for HookRegistry<C> {
    fn default() -> (r: Self)
        ensures
            r@ == Map::<Seq<char>, Seq<C>>::empty(),
    {
        HookRegistry::new()
    }
}

} // verus!
