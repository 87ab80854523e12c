//! A collection of methods, addressable by id or alias.
//!
//! Every method is filed under its id and each of its aliases, in ASCII lower
//! case, so `RK4`, `rk4` and `Rk4` find the same method. A key names one
//! method only: a method whose id or alias is already taken is refused.

use vstd::prelude::*;
use crate::method::MethodError;
use crate::text::{ascii_lower, chars_of, lower, same_chars};

verus! {

/// The key a name is filed under: the name in ASCII lower case.
pub open spec fn key_of(name: Seq<char>) -> Seq<char> {
    name.map_values(|c: char| ascii_lower(c))
}

/// The keys of a method with this id and these aliases, id first.
pub open spec fn keys_of(id: Seq<char>, aliases: Seq<String>) -> Seq<Seq<char>> {
    seq![key_of(id)] + aliases.map_values(|a: String| key_of(a@))
}

/// `format!("{:?}", s)`: the string in double quotes, with quotes,
/// backslashes and characters that do not print escaped.
pub uninterp spec fn debug_text(s: Seq<char>) -> Seq<char>;

/// `format!("{:?}", s)`, how a key is quoted in a message. What it returns is
/// the `Debug` form of a string, which depends on the string alone; the
/// escaping rules are not restated here, only named.
#[verifier::external_body]
fn debug_quoted(s: &str) -> (r: String)
    ensures
        r@ == debug_text(s@),
{
    format!("{:?}", s)
}

/// The characters of a list as a string, as `collect::<String>()` gives
/// them.
#[verifier::external_body]
fn string_of(cs: &Vec<char>) -> (s: String)
    ensures
        s@ == cs@,
{
    cs.iter().collect::<String>()
}

/// A name in ASCII lower case, as a list of characters.
fn lower_key(name: &str) -> (key: Vec<char>)
    ensures
        key@ == key_of(name@),
{
    let cs = chars_of(name);
    let mut out: Vec<char> = Vec::new();
    let mut i: usize = 0;
    while i < cs.len()
        invariant
            i <= cs@.len(),
            cs@ == name@,
            out@ == key_of(cs@.take(i as int)),
        decreases cs@.len() - i,
    {
        out.push(lower(cs[i]));
        proof {
            assert(key_of(cs@.take(i + 1)) =~= key_of(cs@.take(i as int)).push(ascii_lower(cs@[i as int])));
        }
        i = i + 1;
    }
    assert(cs@.take(i as int) =~= cs@);
    out
}

/// A copy of a list of characters.
fn copy_key(key: &Vec<char>) -> (c: Vec<char>)
    ensures
        c@ == key@,
{
    let mut out: Vec<char> = Vec::new();
    let mut i: usize = 0;
    while i < key.len()
        invariant
            i <= key@.len(),
            out@ == key@.take(i as int),
        decreases key@.len() - i,
    {
        out.push(key[i]);
        assert(key@.take(i + 1) =~= key@.take(i as int).push(key@[i as int]));
        i = i + 1;
    }
    assert(key@.take(i as int) =~= key@);
    out
}

/// What a library holds: its methods in the order they were added, the id of
/// each, and the method each key is filed under.
pub struct LibraryModel<M> {
    pub methods: Seq<M>,
    pub ids: Seq<Seq<char>>,
    pub index: Map<Seq<char>, int>,
}

/// The first of `keys` that `index` already holds, or the number of keys.
pub open spec fn first_taken(keys: Seq<Seq<char>>, index: Map<Seq<char>, int>, from: int) -> int
    decreases keys.len() - from,
{
    if from < 0 || from >= keys.len() {
        keys.len() as int
    } else if index.contains_key(keys[from]) {
        from
    } else {
        first_taken(keys, index, from + 1)
    }
}

/// The index once every key in `keys` files the method at `position`.
pub open spec fn filed(index: Map<Seq<char>, int>, keys: Seq<Seq<char>>, position: int) -> Map<
    Seq<char>,
    int,
> {
    index.union_prefer_right(Map::new(|k: Seq<char>| keys.contains(k), |k: Seq<char>| position))
}

/// A method that was filed is found again under its id and under each of its
/// aliases, in any case, and every other key still finds what it found
/// before.
pub proof fn law_filed_method_is_found<M>(
    before: LibraryModel<M>,
    after: LibraryModel<M>,
    id: Seq<char>,
    aliases: Seq<String>,
    method: M,
    name: Seq<char>,
)
    requires
        after.methods == before.methods.push(method),
        after.index == filed(before.index, keys_of(id, aliases), before.methods.len() as int),
    ensures
        keys_of(id, aliases).contains(key_of(id)),
        forall|a: int| 0 <= a < aliases.len() ==> keys_of(id, aliases).contains(key_of(#[trigger] aliases[a]@)),
        keys_of(id, aliases).contains(key_of(name)) ==> after.index.contains_key(key_of(name))
            && after.methods[after.index[key_of(name)]] == method,
        !keys_of(id, aliases).contains(key_of(name)) ==> (after.index.contains_key(key_of(name))
            == before.index.contains_key(key_of(name)) && (before.index.contains_key(key_of(name))
            ==> after.index[key_of(name)] == before.index[key_of(name)])),
{
    let keys = keys_of(id, aliases);
    assert(keys[0] == key_of(id));
    assert forall|a: int| 0 <= a < aliases.len() implies keys.contains(key_of(#[trigger] aliases[a]@)) by {
        assert(keys[a + 1] == key_of(aliases[a]@));
    }
}

/// A collection of methods, addressable by id or alias.
///
/// The index from normalised key to method is held as two parallel lists,
/// the keys and the position of the method each one names, searched in
/// order. vstd specifies a hash map well enough only for integer keys, and
/// the keys here are strings.
pub struct MethodLibrary<M> {
    methods: Vec<M>,
    ids: Vec<String>,
    keys: Vec<Vec<char>>,
    owners: Vec<usize>,
}

impl<M> View for MethodLibrary<M> {
    type V = LibraryModel<M>;

    closed spec fn view(&self) -> LibraryModel<M> {
        LibraryModel {
            methods: self.methods@,
            ids: self.ids@.map_values(|s: String| s@),
            index: Map::new(
                |k: Seq<char>| exists|i: int| 0 <= i < self.keys@.len() && #[trigger] self.keys@[i]@ == k,
                |k: Seq<char>|
                    self.owners@[choose|i: int|
                        0 <= i < self.keys@.len() && #[trigger] self.keys@[i]@ == k] as int,
            ),
        }
    }
}

impl<M> MethodLibrary<M> {
    /// The library is consistent: one id per method, every key files a method
    /// that is there, and equal keys file the same method.
    pub closed spec fn wf(&self) -> bool {
        &&& self.ids@.len() == self.methods@.len()
        &&& self.keys@.len() == self.owners@.len()
        &&& forall|i: int| 0 <= i < self.owners@.len() ==> #[trigger] self.owners@[i] < self.methods@.len()
        &&& forall|i: int, j: int|
            0 <= i < self.keys@.len() && 0 <= j < self.keys@.len() && #[trigger] self.keys@[i]@
                == #[trigger] self.keys@[j]@ ==> self.owners@[i] == self.owners@[j]
    }

    /// Every key files a method that is there.
    pub proof fn lemma_index_bounds(&self)
        requires
            self.wf(),
        ensures
            self@.ids.len() == self@.methods.len(),
            forall|k: Seq<char>| #[trigger] self@.index.contains_key(k) ==> 0 <= self@.index[k] < self@.methods.len(),
    {
        assert forall|k: Seq<char>| #[trigger] self@.index.contains_key(k) implies 0 <= self@.index[k]
            < self@.methods.len() by {
            let i = choose|i: int| 0 <= i < self.keys@.len() && #[trigger] self.keys@[i]@ == k;
            assert(self.owners@[i] < self.methods@.len());
        }
    }

    /// An empty library.
    pub fn new() -> (l: MethodLibrary<M>)
        ensures
            l.wf(),
            l@.methods == Seq::<M>::empty(),
            l@.ids == Seq::<Seq<char>>::empty(),
            l@.index == Map::<Seq<char>, int>::empty(),
    {
        let l = MethodLibrary { methods: Vec::new(), ids: Vec::new(), keys: Vec::new(), owners: Vec::new() };
        assert(l@.index =~= Map::<Seq<char>, int>::empty());
        assert(l@.ids =~= Seq::<Seq<char>>::empty());
        l
    }

    /// Where the key `key` (already in lower case) is filed, if anywhere.
    fn position_of(&self, key: &Vec<char>) -> (p: Option<usize>)
        requires
            self.wf(),
        ensures
            p is Some <==> self@.index.contains_key(key@),
            p matches Some(i) ==> i == self@.index[key@] && i < self.methods@.len(),
    {
        let mut i: usize = 0;
        while i < self.keys.len()
            invariant
                self.wf(),
                i <= self.keys@.len(),
                forall|j: int| 0 <= j < i ==> #[trigger] self.keys@[j]@ != key@,
            decreases self.keys@.len() - i,
        {
            if same_chars(&self.keys[i], key) {
                let ghost c = choose|c: int| 0 <= c < self.keys@.len() && #[trigger] self.keys@[c]@ == key@;
                assert(self.keys@[i as int]@ == key@);
                assert(self.owners@[c] == self.owners@[i as int]);
                return Some(self.owners[i]);
            }
            i = i + 1;
        }
        None
    }

    /// File a method under its id and each of its aliases. Refused, with the
    /// library unchanged, when one of those keys already files a method.
    pub fn insert(&mut self, id: &str, aliases: &Vec<String>, method: M) -> (r: Result<(), MethodError>)
        requires
            old(self).wf(),
            old(self)@.methods.len() < usize::MAX,
        ensures
            final(self).wf(),
            ({
                let keys = keys_of(id@, aliases@);
                let taken = first_taken(keys, old(self)@.index, 0);
                if taken < keys.len() {
                    &&& r matches Err(MethodError::Invalid(m)) && m@ == "duplicate method key "@
                        + debug_text(keys[taken]) + ", already used by "@
                        + old(self)@.ids[old(self)@.index[keys[taken]]]
                    &&& final(self)@ == old(self)@
                } else {
                    &&& r is Ok
                    &&& final(self)@.methods == old(self)@.methods.push(method)
                    &&& final(self)@.ids == old(self)@.ids.push(id@)
                    &&& final(self)@.index == filed(
                        old(self)@.index,
                        keys,
                        old(self)@.methods.len() as int,
                    )
                }
            }),
    {
        let ghost keys = keys_of(id@, aliases@);
        let ghost before = self@;
        let mut new_keys: Vec<Vec<char>> = Vec::new();
        new_keys.push(lower_key(id));
        let mut a: usize = 0;
        while a < aliases.len()
            invariant
                a <= aliases@.len(),
                new_keys@.len() == a + 1,
                forall|j: int| 0 <= j < new_keys@.len() ==> #[trigger] new_keys@[j]@ == keys[j],
                keys == keys_of(id@, aliases@),
            decreases aliases@.len() - a,
        {
            new_keys.push(lower_key(aliases[a].as_str()));
            a = a + 1;
        }
        assert(keys.len() == new_keys@.len());
        let mut k: usize = 0;
        while k < new_keys.len()
            invariant
                self.wf(),
                self@ == before,
                keys == keys_of(id@, aliases@),
                k <= new_keys@.len(),
                keys.len() == new_keys@.len(),
                forall|j: int| 0 <= j < new_keys@.len() ==> #[trigger] new_keys@[j]@ == keys[j],
                first_taken(keys, before.index, 0) == first_taken(keys, before.index, k as int),
                forall|l: int| 0 <= l < k ==> !#[trigger] before.index.contains_key(keys[l]),
            decreases new_keys@.len() - k,
        {
            match self.position_of(&new_keys[k]) {
                Some(existing) => {
                    assert(first_taken(keys, before.index, k as int) == k);
                    proof {
                        self.lemma_index_bounds();
                    }
                    let mut m = String::from_str("duplicate method key ");
                    let quoted = debug_quoted(string_of(&new_keys[k]).as_str());
                    m.append(quoted.as_str());
                    m.append(", already used by ");
                    m.append(self.ids[existing].as_str());
                    assert(new_keys@[k as int]@ == keys[k as int]);
                    assert(self@.ids[existing as int] == self.ids@[existing as int]@);
                    assert(first_taken(keys, before.index, 0) == k as int);
                    assert(existing == before.index[keys[k as int]]);
                    assert(m@ == "duplicate method key "@ + debug_text(keys[k as int]) + ", already used by "@
                        + before.ids[before.index[keys[k as int]]]);
                    return Err(MethodError::Invalid(m));
                },
                None => {},
            }
            k = k + 1;
        }
        let position = self.methods.len();
        let ghost old_keys = self.keys@;
        let ghost old_owners = self.owners@;
        let mut j: usize = 0;
        while j < new_keys.len()
            invariant
                j <= new_keys@.len(),
                self.methods@ == before.methods,
                self.ids@.map_values(|s: String| s@) == before.ids,
                self.ids@.len() == self.methods@.len(),
                position == self.methods@.len(),
                self.keys@.len() == self.owners@.len(),
                self.keys@.len() == old_keys.len() + j,
                self.keys@.take(old_keys.len() as int) == old_keys,
                self.owners@.take(old_owners.len() as int) == old_owners,
                old_keys.len() == old_owners.len(),
                forall|i: int| 0 <= i < old_owners.len() ==> #[trigger] old_owners[i] < position,
                forall|i: int, l: int|
                    0 <= i < old_keys.len() && 0 <= l < old_keys.len() && #[trigger] old_keys[i]@
                        == #[trigger] old_keys[l]@ ==> old_owners[i] == old_owners[l],
                forall|i: int|
                    old_keys.len() <= i < self.keys@.len() ==> #[trigger] self.owners@[i] == position
                        && self.keys@[i]@ == keys[i - old_keys.len()],
                keys.len() == new_keys@.len(),
                forall|l: int| 0 <= l < new_keys@.len() ==> #[trigger] new_keys@[l]@ == keys[l],
                forall|l: int| 0 <= l < keys.len() ==> !#[trigger] before.index.contains_key(keys[l]),
                forall|k2: Seq<char>| #[trigger] before.index.contains_key(k2) <==> exists|i: int|
                    0 <= i < old_keys.len() && #[trigger] old_keys[i]@ == k2,
            decreases new_keys@.len() - j,
        {
            self.keys.push(copy_key(&new_keys[j]));
            self.owners.push(position);
            proof {
                assert(self.keys@.take(old_keys.len() as int) =~= old_keys);
                assert(self.owners@.take(old_owners.len() as int) =~= old_owners);
            }
            j = j + 1;
        }
        self.methods.push(method);
        self.ids.push(String::from_str(id));
        proof {
            let n = old_keys.len();
            let ks = self.keys@;
            let os = self.owners@;
            assert(ks.len() == n + keys.len());
            assert forall|i: int| 0 <= i < n implies #[trigger] ks[i] == old_keys[i] && os[i] == old_owners[i] by {
                assert(ks.take(n as int)[i] == old_keys[i]);
                assert(os.take(n as int)[i] == old_owners[i]);
            }
            assert(self.ids@.map_values(|s: String| s@) =~= before.ids.push(id@));
            // Equal keys file the same method.
            assert forall|i: int, l: int|
                0 <= i < ks.len() && 0 <= l < ks.len() && #[trigger] ks[i]@ == #[trigger] ks[l]@ implies os[i] == os[l] by {
                if i < n && l >= n {
                    assert(os[l] == position);
                    assert(old_keys[i]@ == ks[i]@);
                    assert(before.index.contains_key(ks[i]@));
                    assert(ks[l]@ == keys[l - n]);
                } else if i >= n && l < n {
                    assert(os[i] == position);
                    assert(old_keys[l]@ == ks[l]@);
                    assert(before.index.contains_key(ks[l]@));
                    assert(ks[i]@ == keys[i - n]);
                } else if i >= n && l >= n {
                    assert(os[i] == position);
                    assert(os[l] == position);
                } else {
                    assert(old_keys[i]@ == ks[i]@);
                    assert(old_keys[l]@ == ks[l]@);
                }
            }
            assert forall|i: int| 0 <= i < os.len() implies #[trigger] os[i] < self.methods@.len() by {
                if i < n {
                    assert(os[i] == old_owners[i]);
                } else {
                    assert(os[i] == position);
                }
            }
            assert(self.wf());
            let target = filed(before.index, keys, position as int);
            assert forall|key: Seq<char>| #[trigger] self@.index.contains_key(key) <==> target.contains_key(key) by {
                if self@.index.contains_key(key) {
                    let i = choose|i: int| 0 <= i < ks.len() && #[trigger] ks[i]@ == key;
                    if i < n {
                        assert(old_keys[i]@ == key);
                        assert(before.index.contains_key(key));
                    } else {
                        assert(os[i] == position);
                        assert(keys[i - n] == key);
                        assert(keys.contains(key));
                    }
                }
                if target.contains_key(key) {
                    if before.index.contains_key(key) {
                        let i = choose|i: int| 0 <= i < n && #[trigger] old_keys[i]@ == key;
                        assert(ks[i]@ == key);
                    } else {
                        let l = choose|l: int| 0 <= l < keys.len() && keys[l] == key;
                        assert(os[n + l] == position);
                        assert(ks[n + l]@ == key);
                    }
                }
            }
            assert forall|key: Seq<char>| #[trigger] self@.index.contains_key(key) implies self@.index[key] == target[key] by {
                let i = choose|i: int| 0 <= i < ks.len() && #[trigger] ks[i]@ == key;
                if keys.contains(key) {
                    let l = choose|l: int| 0 <= l < keys.len() && keys[l] == key;
                    assert(!before.index.contains_key(keys[l]));
                    if i < n {
                        assert(old_keys[i]@ == key);
                        assert(before.index.contains_key(key));
                    }
                    assert(os[i] == position);
                } else {
                    if i >= n {
                        assert(os[i] == position);
                        assert(keys[i - n] == key);
                    }
                    assert(old_keys[i]@ == key);
                    let c = choose|c: int| 0 <= c < n && #[trigger] old_keys[c]@ == key;
                    assert(ks[c]@ == key);
                    assert(os[i] == os[c]);
                }
            }
            assert(self@.index =~= target);
        }
        Ok(())
    }

    /// The method filed under `key`, in any case.
    pub fn get(&self, key: &str) -> (m: Option<&M>)
        requires
            self.wf(),
        ensures
            m is Some <==> self@.index.contains_key(key_of(key@)),
            m matches Some(x) ==> *x == self@.methods[self@.index[key_of(key@)]],
    {
        let k = lower_key(key);
        match self.position_of(&k) {
            Some(i) => Some(&self.methods[i]),
            None => None,
        }
    }

    /// The number of methods.
    pub fn len(&self) -> (n: usize)
        ensures
            n == self@.methods.len(),
    {
        self.methods.len()
    }

    /// Whether there are no methods.
    pub fn is_empty(&self) -> (b: bool)
        ensures
            b == (self@.methods.len() == 0),
    {
        self.methods.len() == 0
    }

    /// The ids of the methods, in the order they were added.
    pub fn ids(&self) -> (ids: Vec<&str>)
        requires
            self.wf(),
        ensures
            ids@.map_values(|s: &str| s@) == self@.ids,
    {
        let mut out: Vec<&str> = Vec::new();
        let mut i: usize = 0;
        while i < self.ids.len()
            invariant
                i <= self.ids@.len(),
                out@.map_values(|s: &str| s@) == self@.ids.take(i as int),
            decreases self.ids@.len() - i,
        {
            let ghost before = out@;
            let id = self.ids[i].as_str();
            out.push(id);
            proof {
                assert(self@.ids[i as int] == self.ids@[i as int]@);
                assert(id@ == self.ids@[i as int]@);
                assert(out@ == before.push(id));
                assert(out@.map_values(|s: &str| s@) =~= before.map_values(|s: &str| s@).push(self@.ids[i as int]));
                assert(self@.ids.take(i + 1) =~= self@.ids.take(i as int).push(self@.ids[i as int]));
            }
            i = i + 1;
        }
        proof {
            assert(self@.ids.take(i as int) =~= self@.ids);
        }
        out
    }

    /// The methods, in the order they were added.
    pub fn methods(&self) -> (v: &Vec<M>)
        ensures
            v@ == self@.methods,
    {
        &self.methods
    }
}

} // verus!
