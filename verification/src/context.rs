//! The rendering context: an order-irrelevant mapping from string keys to
//! string values. Keys are unique; the abstract view is a `Map` from key
//! characters to value characters. A stable content hash over the stored
//! pairs serves as a cache-key component.

use std::hash::Hasher;
use vstd::prelude::*;

verus! {

use vstd::string::StringExecFns;
use vstd::string::StrSliceExecFns;
use vstd::wrapping::u64_specs;

/// No two stored pairs share a key (compared by their characters).
pub open spec fn unique_keys(s: Seq<(String, String)>) -> bool {
    forall|i: int, j: int|
        0 <= i < j < s.len() ==> (#[trigger] s[i].0@) != (#[trigger] s[j].0@)
}

/// The mapping described by a sequence of pairs; a later pair wins over an
/// earlier one with the same key.
pub open spec fn map_of_pairs(s: Seq<(String, String)>) -> Map<Seq<char>, Seq<char>>
    decreases s.len(),
{
    if s.len() == 0 {
        Map::empty()
    } else {
        map_of_pairs(s.drop_last()).insert(s.last().0@, s.last().1@)
    }
}

/// A key is in the mapping exactly when some pair holds it.
pub proof fn lemma_map_of_pairs_dom(s: Seq<(String, String)>, k: Seq<char>)
    ensures
        map_of_pairs(s).contains_key(k) <==> (exists|i: int|
            0 <= i < s.len() && (#[trigger] s[i].0@) == k),
    decreases s.len(),
{
    if s.len() == 0 {
    } else {
        lemma_map_of_pairs_dom(s.drop_last(), k);
        if s.last().0@ == k {
            assert(s[s.len() - 1].0@ == k);
        } else {
            if map_of_pairs(s).contains_key(k) {
                let i = choose|i: int| 0 <= i < s.drop_last().len() && (#[trigger] s.drop_last()[i].0@)
                    == k;
                assert(s[i].0@ == k);
            }
            if exists|i: int| 0 <= i < s.len() && (#[trigger] s[i].0@) == k {
                let i = choose|i: int| 0 <= i < s.len() && (#[trigger] s[i].0@) == k;
                assert(s.drop_last()[i].0@ == k);
            }
        }
    }
}

/// With unique keys, the mapping sends each stored key to its stored value.
pub proof fn lemma_map_of_pairs_value(s: Seq<(String, String)>, i: int)
    requires
        unique_keys(s),
        0 <= i < s.len(),
    ensures
        map_of_pairs(s).contains_key(s[i].0@),
        map_of_pairs(s)[s[i].0@] == s[i].1@,
    decreases s.len(),
{
    if i == s.len() - 1 {
    } else {
        assert(s.drop_last()[i] == s[i]);
        lemma_map_of_pairs_value(s.drop_last(), i);
        assert(s[i].0@ != s[s.len() - 1].0@);
    }
}

/// Updating the value of the pair that holds a key updates the mapping at
/// that key.
pub proof fn lemma_map_of_pairs_update(s: Seq<(String, String)>, i: int, p: (String, String))
    requires
        unique_keys(s),
        0 <= i < s.len(),
        p.0@ == s[i].0@,
    ensures
        map_of_pairs(s.update(i, p)) == map_of_pairs(s).insert(p.0@, p.1@),
    decreases s.len(),
{
    let t = s.update(i, p);
    if i == s.len() - 1 {
        assert(t.drop_last() =~= s.drop_last());
        assert(map_of_pairs(s).insert(p.0@, p.1@) =~= map_of_pairs(s.drop_last()).insert(
            p.0@,
            p.1@,
        ));
    } else {
        assert(t.drop_last() =~= s.drop_last().update(i, p));
        assert(s.drop_last()[i] == s[i]);
        lemma_map_of_pairs_update(s.drop_last(), i, p);
        assert(s[i].0@ != s[s.len() - 1].0@);
        assert(t.last() == s.last());
        assert(map_of_pairs(t) =~= map_of_pairs(s).insert(p.0@, p.1@));
    }
}

/// Removing the pair that holds a key removes that key from the mapping.
pub proof fn lemma_map_of_pairs_remove(s: Seq<(String, String)>, i: int)
    requires
        unique_keys(s),
        0 <= i < s.len(),
    ensures
        map_of_pairs(s.remove(i)) == map_of_pairs(s).remove(s[i].0@),
    decreases s.len(),
{
    let t = s.remove(i);
    if i == s.len() - 1 {
        assert(t =~= s.drop_last());
        lemma_map_of_pairs_dom(s.drop_last(), s[i].0@);
        assert(forall|j: int| 0 <= j < s.drop_last().len() ==> (#[trigger] s.drop_last()[j].0@)
            != s[i].0@) by {
            assert(forall|j: int| 0 <= j < s.len() - 1 ==> (#[trigger] s[j].0@) != s[i].0@);
        }
        assert(!map_of_pairs(s.drop_last()).contains_key(s[i].0@));
        assert(map_of_pairs(t) =~= map_of_pairs(s).remove(s[i].0@));
    } else {
        assert(t.drop_last() =~= s.drop_last().remove(i));
        assert(s.drop_last()[i] == s[i]);
        lemma_map_of_pairs_remove(s.drop_last(), i);
        assert(t.last() == s.last());
        assert(s[i].0@ != s[s.len() - 1].0@);
        assert(map_of_pairs(t) =~= map_of_pairs(s).remove(s[i].0@));
    }
}

/// The mapping after setting each pair of `s` in turn.
pub open spec fn spec_extend(m: Map<Seq<char>, Seq<char>>, s: Seq<(String, String)>) -> Map<
    Seq<char>,
    Seq<char>,
>
    decreases s.len(),
{
    if s.len() == 0 {
        m
    } else {
        spec_extend(m, s.drop_last()).insert(s.last().0@, s.last().1@)
    }
}

/// A mutable reference to one element of a vector.
fn vec_index_mut<T>(v: &mut Vec<T>, i: usize) -> (element: &mut T)
    requires
        i < old(v)@.len(),
    ensures
        *element == old(v)@[i as int],
        final(v)@ == old(v)@.update(i as int, *final(element)),
{
    &mut v[i]
}

/// A mutable reference to the second component of a pair.
fn pair_second_mut<A, B>(p: &mut (A, B)) -> (r: &mut B)
    ensures
        *r == old(p).1,
        *final(p) == (old(p).0, *final(r)),
{
    &mut p.1
}

/// Relies on `Vec::capacity`: the capacity of a vector is at least its
/// length.
#[verifier::external_body]
fn vec_capacity<T>(v: &Vec<T>) -> (c: usize)
    ensures
        c >= v@.len(),
{
    v.capacity()
}

/// One step of the 64-bit FNV-1a hash: xor the byte in, then multiply
/// (wrapping) by the FNV prime.
pub open spec fn fnv_step(h: u64, b: u8) -> u64 {
    u64_specs::wrapping_mul(h ^ (b as u64), 0x100000001b3)
}

/// The FNV-1a state after absorbing `bytes`, starting from `h`.
pub open spec fn fnv_fold(h: u64, bytes: Seq<u8>) -> u64
    decreases bytes.len(),
{
    if bytes.len() == 0 {
        h
    } else {
        fnv_fold(fnv_step(h, bytes[0]), bytes.drop_first())
    }
}

/// The 64-bit FNV-1a hash of a byte sequence.
pub open spec fn fnv64_of(bytes: Seq<u8>) -> u64 {
    fnv_fold(0xcbf29ce484222325, bytes)
}

/// Relies on `fnv::FnvHasher`: writing `bytes` into a fresh hasher and
/// finishing yields the 64-bit FNV-1a hash of `bytes` (start from the offset
/// basis; for each byte, xor it in and multiply, wrapping, by the prime).
#[verifier::external_body]
fn fnv64(bytes: &[u8]) -> (r: u64)
    ensures
        r == fnv64_of(bytes@),
{
    let mut h = fnv::FnvHasher::default();
    h.write(bytes);
    h.finish()
}

/// A character as four little-endian bytes of its scalar value.
pub open spec fn char_bytes(c: char) -> Seq<u8> {
    seq![
        ((c as u32) % 256) as u8,
        (((c as u32) / 256) % 256) as u8,
        (((c as u32) / 65536) % 256) as u8,
        (((c as u32) / 16777216) % 256) as u8,
    ]
}

/// The characters of `s`, each as four little-endian bytes.
pub open spec fn chars_bytes(s: Seq<char>) -> Seq<u8>
    decreases s.len(),
{
    if s.len() == 0 {
        Seq::empty()
    } else {
        chars_bytes(s.drop_last()) + char_bytes(s.last())
    }
}

/// A 64-bit number as eight little-endian bytes.
pub open spec fn le8_bytes(x: u64) -> Seq<u8> {
    seq![
        (x % 256) as u8,
        ((x / 256) % 256) as u8,
        ((x / 0x10000) % 256) as u8,
        ((x / 0x1000000) % 256) as u8,
        ((x / 0x100000000) % 256) as u8,
        ((x / 0x10000000000) % 256) as u8,
        ((x / 0x1000000000000) % 256) as u8,
        ((x / 0x100000000000000) % 256) as u8,
    ]
}

/// The unambiguous byte encoding of a pair: the key length, then the key's
/// characters, then the value's characters.
pub open spec fn pair_bytes(k: Seq<char>, v: Seq<char>) -> Seq<u8> {
    le8_bytes(k.len() as u64) + chars_bytes(k) + chars_bytes(v)
}

/// The hash contribution of one key-value pair.
pub open spec fn pair_hash(k: Seq<char>, v: Seq<char>) -> u64 {
    fnv64_of(pair_bytes(k, v))
}

/// The context hash: the wrapping sum of the pair hashes. Addition commutes,
/// so the result depends only on which pairs are present, not on their order.
pub open spec fn hash_of_views(vs: Seq<(Seq<char>, Seq<char>)>) -> u64
    decreases vs.len(),
{
    if vs.len() == 0 {
        0
    } else {
        u64_specs::wrapping_add(
            hash_of_views(vs.drop_last()),
            pair_hash(vs.last().0, vs.last().1),
        )
    }
}

/// The stored pairs reduced to their character sequences.
pub open spec fn view_pairs(s: Seq<(String, String)>) -> Seq<(Seq<char>, Seq<char>)> {
    s.map_values(|p: (String, String)| (p.0@, p.1@))
}

/// Holds key-value pairs used to fill the placeholders of a template.
#[derive(Debug, Clone, PartialEq, Eq)]
pub struct Context {
    elements: Vec<(String, String)>,
}

impl View for Context {
    type V = Map<Seq<char>, Seq<char>>;

    open spec fn view(&self) -> Map<Seq<char>, Seq<char>> {
        map_of_pairs(self.pairs())
    }
}

impl Context {
    /// The stored pairs, in storage order.
    pub closed spec fn pairs(self) -> Seq<(String, String)> {
        self.elements@
    }

    /// Well-formed: no two pairs share a key.
    pub open spec fn wf(self) -> bool {
        unique_keys(self.pairs())
    }

    /// Creates an empty context.
    pub fn new() -> (r: Self)
        ensures
            r.wf(),
            r.pairs() == Seq::<(String, String)>::empty(),
            r@ == Map::<Seq<char>, Seq<char>>::empty(),
    {
        Context { elements: Vec::new() }
    }

    /// The index of the pair holding `key`, if any.
    fn find_key(&self, key: &str) -> (r: Option<usize>)
        ensures
            match r {
                Some(i) => i < self.pairs().len() && self.pairs()[i as int].0@ == key@,
                None => forall|i: int|
                    0 <= i < self.pairs().len() ==> (#[trigger] self.pairs()[i].0@) != key@,
            },
    {
        let k = String::from_str(key);
        let mut i: usize = 0;
        while i < self.elements.len()
            invariant
                0 <= i <= self.elements@.len(),
                k@ == key@,
                forall|j: int| 0 <= j < i ==> (#[trigger] self.elements@[j].0@) != key@,
            decreases self.elements@.len() - i,
        {
            let e = &self.elements[i];
            if e.0 == k {
                return Some(i);
            }
            i = i + 1;
        }
        None
    }

    /// Sets `key` to `value`, replacing any previous value for that key.
    pub fn set(&mut self, key: String, value: String)
        requires
            old(self).wf(),
        ensures
            final(self).wf(),
            final(self)@ == old(self)@.insert(key@, value@),
            final(self).pairs() == (if exists|i: int|
                0 <= i < old(self).pairs().len() && (#[trigger] old(self).pairs()[i].0@) == key@ {
                old(self).pairs().update(
                    choose|i: int|
                        0 <= i < old(self).pairs().len() && (#[trigger] old(self).pairs()[i].0@)
                            == key@,
                    (old(self).pairs()[choose|i: int|
                        0 <= i < old(self).pairs().len() && (#[trigger] old(self).pairs()[i].0@)
                            == key@].0, value),
                )
            } else {
                old(self).pairs().push((key, value))
            }),
    {
        let ghost s0 = self.pairs();
        match self.find_key(key.as_str()) {
            Some(i) => {
                let (k0, _old_value) = self.elements.remove(i);
                self.elements.insert(i, (k0, value));
                proof {
                    let gi = choose|j: int| 0 <= j < s0.len() && (#[trigger] s0[j].0@) == key@;
                    assert(gi == i) by {
                        if gi != i {
                            if gi < i {
                                assert(s0[gi].0@ != s0[i as int].0@);
                            } else {
                                assert(s0[i as int].0@ != s0[gi].0@);
                            }
                        }
                    }
                    assert(self.pairs() =~= s0.update(i as int, (s0[i as int].0, value)));
                    assert(self.wf());
                    lemma_map_of_pairs_update(s0, i as int, (s0[i as int].0, value));
                    assert(s0[i as int].0@ == key@);
                }
            },
            None => {
                self.elements.push((key, value));
                proof {
                    assert(self.pairs() =~= s0.push((key, value)));
                    assert(self.pairs().drop_last() =~= s0);
                    assert(self.wf());
                }
            },
        }
    }

    /// The value stored for `key`, if any.
    pub fn get(&self, key: &str) -> (r: Option<&String>)
        requires
            self.wf(),
        ensures
            match r {
                Some(v) => self@.contains_key(key@) && self@[key@] == v@,
                None => !self@.contains_key(key@),
            },
    {
        match self.find_key(key) {
            Some(i) => {
                proof {
                    lemma_map_of_pairs_value(self.pairs(), i as int);
                }
                let e = &self.elements[i];
                Some(&e.1)
            },
            None => {
                proof {
                    lemma_map_of_pairs_dom(self.pairs(), key@);
                }
                None
            },
        }
    }

    /// The number of stored pairs.
    pub fn len(&self) -> (r: usize)
        ensures
            r == self.pairs().len(),
    {
        self.elements.len()
    }

    /// Whether the context holds no pairs.
    pub fn is_empty(&self) -> (r: bool)
        ensures
            r == (self.pairs().len() == 0),
    {
        self.elements.is_empty()
    }

    /// A mutable reference to the value stored for `key`, if any.
    pub fn get_mut(&mut self, key: &str) -> (r: Option<&mut String>)
        requires
            old(self).wf(),
        ensures
            final(self).wf(),
            match r {
                Some(v) => {
                    &&& old(self)@.contains_key(key@)
                    &&& (*v)@ == old(self)@[key@]
                    &&& final(self)@ == old(self)@.insert(key@, final(v)@)
                },
                None => {
                    &&& !old(self)@.contains_key(key@)
                    &&& *final(self) == *old(self)
                },
            },
    {
        let ghost s0 = self.pairs();
        match self.find_key(key) {
            Some(i) => {
                proof {
                    lemma_map_of_pairs_value(s0, i as int);
                }
                let e = vec_index_mut(&mut self.elements, i);
                let r = pair_second_mut(e);
                proof {
                    assert(unique_keys(s0.update(i as int, (s0[i as int].0, *final(r))))) by {
                        assert(forall|j: int|
                            0 <= j < s0.len() ==> (#[trigger] s0.update(
                                i as int,
                                (s0[i as int].0, *final(r)),
                            )[j].0@) == s0[j].0@);
                    }
                    lemma_map_of_pairs_update(s0, i as int, (s0[i as int].0, *final(r)));
                }
                Some(r)
            },
            None => {
                proof {
                    lemma_map_of_pairs_dom(s0, key@);
                }
                None
            },
        }
    }

    /// Removes the pair holding `key` and returns its value, if any.
    pub fn remove(&mut self, key: &str) -> (r: Option<String>)
        requires
            old(self).wf(),
        ensures
            final(self).wf(),
            match r {
                Some(v) => {
                    &&& old(self)@.contains_key(key@)
                    &&& v@ == old(self)@[key@]
                    &&& final(self)@ == old(self)@.remove(key@)
                },
                None => {
                    &&& !old(self)@.contains_key(key@)
                    &&& *final(self) == *old(self)
                },
            },
    {
        let ghost s0 = self.pairs();
        match self.find_key(key) {
            Some(i) => {
                proof {
                    lemma_map_of_pairs_value(s0, i as int);
                    lemma_map_of_pairs_remove(s0, i as int);
                }
                let (_k, v) = self.elements.remove(i);
                proof {
                    assert(self.pairs() =~= s0.remove(i as int));
                    assert(self.wf());
                }
                Some(v)
            },
            None => {
                proof {
                    lemma_map_of_pairs_dom(s0, key@);
                }
                None
            },
        }
    }

    /// The stored pairs, in storage order.
    pub fn iter(&self) -> (r: Vec<(&String, &String)>)
        ensures
            r@.len() == self.pairs().len(),
            forall|i: int|
                0 <= i < r@.len() ==> *(#[trigger] r@[i]).0 == self.pairs()[i].0 && *r@[i].1
                    == self.pairs()[i].1,
    {
        let mut r: Vec<(&String, &String)> = Vec::new();
        let mut i: usize = 0;
        while i < self.elements.len()
            invariant
                0 <= i <= self.elements@.len(),
                r@.len() == i,
                forall|j: int|
                    0 <= j < i ==> *(#[trigger] r@[j]).0 == self.elements@[j].0 && *r@[j].1
                        == self.elements@[j].1,
            decreases self.elements@.len() - i,
        {
            let e = &self.elements[i];
            r.push((&e.0, &e.1));
            i = i + 1;
        }
        r
    }

    /// Sets every pair of `pairs` in turn; later pairs win over earlier ones
    /// with the same key.
    pub fn extend(&mut self, pairs: Vec<(String, String)>)
        requires
            old(self).wf(),
        ensures
            final(self).wf(),
            final(self)@ == spec_extend(old(self)@, pairs@),
    {
        let mut rest = pairs;
        let ghost all = rest@;
        let ghost m0 = self@;
        proof {
            assert(all.subrange(0, 0) =~= Seq::<(String, String)>::empty());
            assert(all.subrange(0, all.len() as int) =~= all);
        }
        while rest.len() > 0
            invariant
                self.wf(),
                rest@.len() <= all.len(),
                rest@ == all.subrange(all.len() - rest@.len(), all.len() as int),
                self@ == spec_extend(m0, all.subrange(0, all.len() - rest@.len())),
            decreases rest@.len(),
        {
            let ghost k = all.len() - rest@.len();
            let (key, value) = rest.remove(0);
            self.set(key, value);
            proof {
                assert(all.subrange(k, all.len() as int)[0] == all[k]);
                assert(rest@ =~= all.subrange(k + 1, all.len() as int));
                assert(all.subrange(0, k + 1).drop_last() =~= all.subrange(0, k));
                assert(all.subrange(0, k + 1).last() == all[k]);
            }
        }
        proof {
            assert(all.subrange(0, all.len() as int) =~= all);
        }
    }

    /// Builds a context from a vector of pairs; later pairs win over earlier
    /// ones with the same key.
    pub fn from_pairs(pairs: Vec<(String, String)>) -> (r: Self)
        ensures
            r.wf(),
            r@ == spec_extend(Map::<Seq<char>, Seq<char>>::empty(), pairs@),
    {
        let mut r = Context::new();
        r.extend(pairs);
        r
    }

    /// Creates an empty context whose storage is laid out for at least
    /// `capacity` pairs.
    pub fn with_capacity(capacity: usize) -> (r: Self)
        ensures
            r.wf(),
            r.pairs() == Seq::<(String, String)>::empty(),
            r@ == Map::<Seq<char>, Seq<char>>::empty(),
    {
        Context { elements: Vec::with_capacity(capacity) }
    }

    /// How many pairs the context can hold before its storage grows.
    pub fn capacity(&self) -> (r: usize)
        ensures
            r >= self.pairs().len(),
    {
        vec_capacity(&self.elements)
    }

    /// A stable content hash of the context: the wrapping sum of the FNV-1a
    /// hashes of the stored pairs, a pure function of the pair multiset.
    pub fn hash(&self) -> (r: u64)
        ensures
            r == hash_of_views(view_pairs(self.pairs())),
    {
        let mut acc: u64 = 0;
        let mut i: usize = 0;
        proof {
            assert(view_pairs(self.pairs().take(0)) =~= Seq::<(Seq<char>, Seq<char>)>::empty());
        }
        while i < self.elements.len()
            invariant
                0 <= i <= self.elements@.len(),
                acc == hash_of_views(view_pairs(self.pairs().take(i as int))),
            decreases self.elements@.len() - i,
        {
            let e = &self.elements[i];
            let ph = hash_pair(&e.0, &e.1);
            acc = acc.wrapping_add(ph);
            proof {
                let s = self.pairs();
                assert(view_pairs(s.take(i + 1)).drop_last() =~= view_pairs(s.take(i as int)));
                assert(view_pairs(s.take(i + 1)).last() == (s[i as int].0@, s[i as int].1@));
            }
            i = i + 1;
        }
        proof {
            assert(self.pairs().take(self.pairs().len() as int) =~= self.pairs());
        }
        acc
    }

    /// Removes every pair.
    pub fn clear(&mut self)
        ensures
            final(self).wf(),
            final(self).pairs() == Seq::<(String, String)>::empty(),
            final(self)@ == Map::<Seq<char>, Seq<char>>::empty(),
    {
        self.elements.clear();
    }
}

/// The FNV-1a hash of one pair's encoding.
fn hash_pair(k: &String, v: &String) -> (r: u64)
    ensures
        r == pair_hash(k@, v@),
{
    let mut bytes: Vec<u8> = Vec::new();
    let klen = k.as_str().unicode_len();
    push_le8(&mut bytes, klen as u64);
    push_chars_bytes(&mut bytes, k.as_str());
    push_chars_bytes(&mut bytes, v.as_str());
    assert(bytes@ =~= pair_bytes(k@, v@));
    fnv64(bytes.as_slice())
}

/// Appends the eight little-endian bytes of `x` to `out`.
fn push_le8(out: &mut Vec<u8>, x: u64)
    ensures
        final(out)@ == old(out)@ + le8_bytes(x),
{
    out.push((x % 256) as u8);
    out.push(((x / 256) % 256) as u8);
    out.push(((x / 0x10000) % 256) as u8);
    out.push(((x / 0x1000000) % 256) as u8);
    out.push(((x / 0x100000000) % 256) as u8);
    out.push(((x / 0x10000000000) % 256) as u8);
    out.push(((x / 0x1000000000000) % 256) as u8);
    out.push(((x / 0x100000000000000) % 256) as u8);
    assert(out@ =~= old(out)@ + le8_bytes(x));
}

/// Appends the four little-endian bytes of each character of `s` to `out`.
fn push_chars_bytes(out: &mut Vec<u8>, s: &str)
    ensures
        final(out)@ == old(out)@ + chars_bytes(s@),
{
    let cs = crate::chars::to_chars(s);
    let mut i: usize = 0;
    proof {
        assert(chars_bytes(s@.take(0)) =~= Seq::<u8>::empty());
        assert(out@ =~= old(out)@ + chars_bytes(s@.take(0)));
    }
    while i < cs.len()
        invariant
            0 <= i <= cs@.len(),
            cs@ == s@,
            out@ == old(out)@ + chars_bytes(s@.take(i as int)),
        decreases cs@.len() - i,
    {
        let c = cs[i];
        let x: u32 = c as u32;
        out.push((x % 256) as u8);
        out.push(((x / 256) % 256) as u8);
        out.push(((x / 65536) % 256) as u8);
        out.push(((x / 16777216) % 256) as u8);
        proof {
            assert(s@.take(i + 1).drop_last() =~= s@.take(i as int));
            assert(s@.take(i + 1).last() == c);
            assert(out@ =~= old(out)@ + chars_bytes(s@.take(i + 1)));
        }
        i = i + 1;
    }
    assert(s@.take(s@.len() as int) =~= s@);
}

/// Wrapping 64-bit addition associates.
proof fn lemma_wrapping_add_assoc(a: u64, b: u64, c: u64)
    ensures
        u64_specs::wrapping_add(u64_specs::wrapping_add(a, b), c) == u64_specs::wrapping_add(
            a,
            u64_specs::wrapping_add(b, c),
        ),
{
}

/// Removing one pair takes its contribution out of the hash sum.
proof fn lemma_hash_of_views_remove(vs: Seq<(Seq<char>, Seq<char>)>, i: int)
    requires
        0 <= i < vs.len(),
    ensures
        hash_of_views(vs) == u64_specs::wrapping_add(
            hash_of_views(vs.remove(i)),
            pair_hash(vs[i].0, vs[i].1),
        ),
    decreases vs.len(),
{
    if i == vs.len() - 1 {
        assert(vs.remove(i) =~= vs.drop_last());
    } else {
        let t = vs.remove(i);
        assert(t.drop_last() =~= vs.drop_last().remove(i));
        assert(vs.drop_last()[i] == vs[i]);
        lemma_hash_of_views_remove(vs.drop_last(), i);
        assert(t.last() == vs.last());
        lemma_wrapping_add_assoc(
            hash_of_views(vs.drop_last().remove(i)),
            pair_hash(vs[i].0, vs[i].1),
            pair_hash(vs.last().0, vs.last().1),
        );
        lemma_wrapping_add_assoc(
            hash_of_views(vs.drop_last().remove(i)),
            pair_hash(vs.last().0, vs.last().1),
            pair_hash(vs[i].0, vs[i].1),
        );
    }
}

/// The hash is a pure function of the multiset of pairs: any two sequences
/// holding the same pairs, in any order, hash alike.
pub proof fn lemma_hash_order_independent(vs1: Seq<(Seq<char>, Seq<char>)>, vs2: Seq<
    (Seq<char>, Seq<char>),
>)
    requires
        vs1.to_multiset() == vs2.to_multiset(),
    ensures
        hash_of_views(vs1) == hash_of_views(vs2),
    decreases vs1.len(),
{
    broadcast use vstd::seq_lib::group_to_multiset_ensures;

    if vs1.len() == 0 {
        assert(vs1.to_multiset().len() == vs1.len());
        assert(vs2.to_multiset().len() == vs2.len());
        assert(vs2.len() == 0);
    } else {
        let e = vs1.last();
        assert(vs1.contains(e));
        assert(vs2.to_multiset().count(e) > 0);
        assert(vs2.contains(e));
        let j = choose|j: int| 0 <= j < vs2.len() && vs2[j] == e;
        assert(vs1.drop_last() =~= vs1.remove(vs1.len() - 1));
        assert(vs1.remove(vs1.len() - 1).to_multiset() =~= vs1.to_multiset().remove(e));
        assert(vs2.remove(j).to_multiset() =~= vs2.to_multiset().remove(e));
        lemma_hash_order_independent(vs1.drop_last(), vs2.remove(j));
        lemma_hash_of_views_remove(vs2, j);
    }
}

} // verus!
