//! A mutable dictionary with copied keys: the bookkeeping model of the
//! keyed mutable container the runtime offers. Keys are compared by a
//! mathematical key view; at most one entry per key view ever exists.

use vstd::prelude::*;
use vstd::string::StringExecFns;
use vstd::string::StringSliceAdditionalSpecFns;

use crate::encoding::dec_digits;

verus! {

/// Types usable as dictionary keys: a mathematical view that equality and
/// copying respect.
pub trait DictKey: Sized {
    /// The key's mathematical view.
    spec fn kview(&self) -> Seq<char>;

    /// Whether two keys are the same key.
    fn key_equal(&self, other: &Self) -> (r: bool)
        ensures
            r == (self.kview() == other.kview()),
    ;

    /// An owned copy of the key.
    fn duplicate(&self) -> (k: Self)
        ensures
            k.kview() == self.kview(),
    ;
}

/// A plain object: the model of a generic object reference.
#[derive(Clone, Copy, Debug, PartialEq, Eq, Hash, Structural)]
pub struct NSObject {
    id: u64,
}

impl NSObject {
    /// The object's identity.
    pub closed spec fn spec_id(&self) -> u64 {
        self.id
    }

    /// A fresh object.
    pub fn new() -> (o: NSObject)
        ensures
            o.spec_id() == 0,
    {
        NSObject { id: 0 }
    }

    /// An object with the given identity.
    pub fn with_id(id: u64) -> (o: NSObject)
        ensures
            o.spec_id() == id,
    {
        NSObject { id }
    }
}

impl DictKey for NSObject {
    open spec fn kview(&self) -> Seq<char> {
        dec_digits(self.spec_id() as nat)
    }

    fn key_equal(&self, other: &Self) -> (r: bool)
        ensures
            r == (self.kview() == other.kview()),
    {
        proof {
            if self.id != other.id {
                crate::roundtrip::lemma_dec_digits_injective(
                    self.id as nat,
                    other.id as nat,
                );
            }
        }
        self.id == other.id
    }

    fn duplicate(&self) -> (k: Self)
        ensures
            k.kview() == self.kview(),
    {
        NSObject { id: self.id }
    }
}

/// A boxed number: the model of a numeric object.
#[derive(Clone, Copy, Debug, PartialEq, Eq, Hash, Structural)]
pub struct NSNumber {
    value: i32,
}

impl NSNumber {
    /// The number's value.
    pub closed spec fn spec_value(&self) -> i32 {
        self.value
    }

    /// A number holding the given value.
    pub fn new_i32(value: i32) -> (n: NSNumber)
        ensures
            n.spec_value() == value,
    {
        NSNumber { value }
    }

    /// The number's value.
    pub fn as_i32(&self) -> (v: i32)
        ensures
            v == self.spec_value(),
    {
        self.value
    }
}

impl DictKey for NSNumber {
    open spec fn kview(&self) -> Seq<char> {
        dec_digits((self.spec_value() as int + 0x8000_0000) as nat)
    }

    fn key_equal(&self, other: &Self) -> (r: bool)
        ensures
            r == (self.kview() == other.kview()),
    {
        proof {
            if self.value != other.value {
                crate::roundtrip::lemma_dec_digits_injective(
                    (self.value as int + 0x8000_0000) as nat,
                    (other.value as int + 0x8000_0000) as nat,
                );
            }
        }
        self.value == other.value
    }

    fn duplicate(&self) -> (k: Self)
        ensures
            k.kview() == self.kview(),
    {
        NSNumber { value: self.value }
    }
}

/// An owned string object: the model of a string reference.
#[derive(Debug, PartialEq, Eq, Hash)]
pub struct NSString {
    value: String,
}

impl NSString {
    /// The string's characters.
    pub closed spec fn spec_chars(&self) -> Seq<char> {
        self.value@
    }

    /// A string object spelling the given characters.
    pub fn from_str(s: &str) -> (r: NSString)
        ensures
            r.spec_chars() == s@,
    {
        NSString { value: s.to_owned() }
    }

    /// The string's characters.
    pub fn as_str(&self) -> (s: &str)
        ensures
            s@ == self.spec_chars(),
    {
        self.value.as_str()
    }
}

impl DictKey for NSString {
    open spec fn kview(&self) -> Seq<char> {
        self.spec_chars()
    }

    fn key_equal(&self, other: &Self) -> (r: bool)
        ensures
            r == (self.kview() == other.kview()),
    {
        self.value.eq(&other.value)
    }

    fn duplicate(&self) -> (k: Self)
        ensures
            k.kview() == self.kview(),
    {
        NSString { value: self.value.as_str().to_owned() }
    }
}

/// Whether no later key in the list, up to the given bound, has the same
/// view as the key at position `i`.
pub open spec fn last_occurrence<K: DictKey>(keys: Seq<K>, i: int, upto: int) -> bool {
    forall|m: int| i < m < upto ==> (#[trigger] keys[m]).kview() != keys[i].kview()
}

/// A mutable dictionary: parallel keys and values, with at most one entry
/// per key view. Inserting copies the key.
#[derive(Debug)]
pub struct NSMutableDictionary<K, V> {
    keys: Vec<K>,
    values: Vec<V>,
}

impl<K: DictKey, V> NSMutableDictionary<K, V> {
    /// The stored keys.
    pub closed spec fn spec_keys(&self) -> Seq<K> {
        self.keys@
    }

    /// The stored values, in the order of the keys.
    pub closed spec fn spec_values(&self) -> Seq<V> {
        self.values@
    }

    /// As many values as keys, and no two keys with the same view.
    pub open spec fn wf(&self) -> bool {
        self.spec_keys().len() == self.spec_values().len() && forall|i: int, j: int|
            0 <= i < j < self.spec_keys().len() ==> (#[trigger] self.spec_keys()[i]).kview() != (
            #[trigger] self.spec_keys()[j]).kview()
    }

    /// How many entries the dictionary holds.
    pub open spec fn spec_len(&self) -> nat {
        self.spec_keys().len()
    }

    /// Whether some entry's key has the given view.
    pub open spec fn spec_contains(&self, kv: Seq<char>) -> bool {
        exists|i: int|
            0 <= i < self.spec_keys().len() && (#[trigger] self.spec_keys()[i]).kview() == kv
    }

    /// The value stored under the given key view.
    pub open spec fn spec_get(&self, kv: Seq<char>) -> V {
        self.spec_values()[choose|i: int|
            0 <= i < self.spec_keys().len() && (#[trigger] self.spec_keys()[i]).kview() == kv]
    }

    /// The value at a known index is the value its key maps to.
    proof fn lemma_get_at(&self, i: int)
        requires
            self.wf(),
            0 <= i < self.spec_keys().len(),
        ensures
            self.spec_get(self.spec_keys()[i].kview()) == self.spec_values()[i],
            self.spec_contains(self.spec_keys()[i].kview()),
    {
        let kv = self.spec_keys()[i].kview();
        let j = choose|m: int|
            0 <= m < self.spec_keys().len() && (#[trigger] self.spec_keys()[m]).kview() == kv;
        assert(0 <= j < self.spec_keys().len() && self.spec_keys()[j].kview() == kv);
        if i != j {
            assert(false);
        }
    }

    /// An empty dictionary.
    pub fn new() -> (d: NSMutableDictionary<K, V>)
        ensures
            d.wf(),
            d.spec_len() == 0,
    {
        NSMutableDictionary { keys: Vec::new(), values: Vec::new() }
    }

    /// How many entries the dictionary holds.
    pub fn len(&self) -> (n: usize)
        ensures
            n == self.spec_len(),
    {
        self.keys.len()
    }

    /// Whether the dictionary holds no entry.
    pub fn is_empty(&self) -> (r: bool)
        ensures
            r == (self.spec_len() == 0),
    {
        self.keys.len() == 0
    }

    /// The index of the entry whose key has the given key's view, if any.
    fn index_of(&self, key: &K) -> (r: Option<usize>)
        requires
            self.wf(),
        ensures
            match r {
                Option::Some(i) => i < self.spec_keys().len() && self.spec_keys()[
                    i as int
                ].kview() == key.kview(),
                Option::None => !self.spec_contains(key.kview()),
            },
    {
        let n = self.keys.len();
        let mut i: usize = 0;
        while i < n
            invariant
                0 <= i <= n,
                n == self.spec_keys().len(),
                forall|m: int|
                    0 <= m < i ==> (#[trigger] self.spec_keys()[m]).kview() != key.kview(),
            decreases n - i,
        {
            if self.keys[i].key_equal(key) {
                return Option::Some(i);
            }
            i = i + 1;
        }
        Option::None
    }

    /// The value under the key, if any.
    pub fn get(&self, key: &K) -> (r: Option<&V>)
        requires
            self.wf(),
        ensures
            r is Some <==> self.spec_contains(key.kview()),
            match r {
                Option::Some(v) => *v == self.spec_get(key.kview()),
                Option::None => true,
            },
    {
        match self.index_of(key) {
            Option::Some(i) => {
                proof {
                    self.lemma_get_at(i as int);
                }
                Option::Some(&self.values[i])
            },
            Option::None => Option::None,
        }
    }

    /// Insert a value under a copy of the key: the value previously under
    /// the same key comes back, if there was one.
    pub fn insert_id(&mut self, key: &K, value: V) -> (r: Option<V>)
        requires
            old(self).wf(),
        ensures
            final(self).wf(),
            r is Some <==> old(self).spec_contains(key.kview()),
            final(self).spec_contains(key.kview()),
            final(self).spec_get(key.kview()) == value,
            forall|kv: Seq<char>|
                #[trigger] final(self).spec_contains(kv) <==> (old(self).spec_contains(kv) || kv
                    == key.kview()),
            forall|kv: Seq<char>|
                old(self).spec_contains(kv) && kv != key.kview() ==> final(self).spec_contains(kv)
                    && #[trigger] final(self).spec_get(kv) == old(self).spec_get(kv),
            match r {
                Option::Some(v) => v == old(self).spec_get(key.kview()) && final(self).spec_len()
                    == old(self).spec_len(),
                Option::None => final(self).spec_len() == old(self).spec_len() + 1,
            },
    {
        match self.index_of(key) {
            Option::Some(i) => {
                proof {
                    old(self).lemma_get_at(i as int);
                }
                let prev = self.values.remove(i);
                self.values.insert(i, value);
                proof {
                    assert(self.keys@ == old(self).keys@);
                    assert(self.values@ =~= old(self).values@.update(i as int, value));
                    assert forall|kv: Seq<char>|
                        #[trigger] self.spec_contains(kv) <==> (old(self).spec_contains(kv) || kv
                            == key.kview()) by {
                        if old(self).spec_contains(kv) || kv == key.kview() {
                            let w = choose|m: int|
                                0 <= m < old(self).spec_keys().len() && (#[trigger] old(
                                    self,
                                ).spec_keys()[m]).kview() == kv;
                            if kv == key.kview() {
                                assert(self.spec_keys()[i as int].kview() == kv);
                            } else {
                                assert(self.spec_keys()[w].kview() == kv);
                            }
                        }
                    }
                    self.lemma_get_at(i as int);
                    assert forall|kv: Seq<char>|
                        old(self).spec_contains(kv) && kv != key.kview() implies self.spec_contains(
                        kv,
                    ) && #[trigger] self.spec_get(kv) == old(self).spec_get(kv) by {
                        let w = choose|m: int|
                            0 <= m < old(self).spec_keys().len() && (#[trigger] old(
                                self,
                            ).spec_keys()[m]).kview() == kv;
                        assert(self.spec_keys()[w].kview() == kv);
                        self.lemma_get_at(w);
                        old(self).lemma_get_at(w);
                    }
                }
                Option::Some(prev)
            },
            Option::None => {
                let kcopy = key.duplicate();
                self.keys.push(kcopy);
                self.values.push(value);
                proof {
                    let n = old(self).spec_keys().len() as int;
                    assert(self.spec_keys()[n].kview() == key.kview());
                    assert forall|i: int, j: int|
                        0 <= i < j < self.spec_keys().len() implies (
                    #[trigger] self.spec_keys()[i]).kview() != (
                    #[trigger] self.spec_keys()[j]).kview() by {
                        if j < n {
                            assert(old(self).spec_keys()[i].kview() != old(
                                self,
                            ).spec_keys()[j].kview());
                        } else {
                            assert(self.spec_keys()[j].kview() == key.kview());
                            assert(old(self).spec_keys()[i].kview() != key.kview());
                        }
                    }
                    assert forall|kv: Seq<char>|
                        #[trigger] self.spec_contains(kv) <==> (old(self).spec_contains(kv) || kv
                            == key.kview()) by {
                        if self.spec_contains(kv) {
                            let w = choose|m: int|
                                0 <= m < self.spec_keys().len() && (
                                #[trigger] self.spec_keys()[m]).kview() == kv;
                            if w < n {
                                assert(old(self).spec_keys()[w].kview() == kv);
                            }
                        }
                        if old(self).spec_contains(kv) {
                            let w = choose|m: int|
                                0 <= m < old(self).spec_keys().len() && (#[trigger] old(
                                    self,
                                ).spec_keys()[m]).kview() == kv;
                            assert(self.spec_keys()[w].kview() == kv);
                        }
                        if kv == key.kview() {
                            assert(self.spec_keys()[n].kview() == kv);
                        }
                    }
                    self.lemma_get_at(n);
                    assert forall|kv: Seq<char>|
                        old(self).spec_contains(kv) && kv != key.kview() implies self.spec_contains(
                        kv,
                    ) && #[trigger] self.spec_get(kv) == old(self).spec_get(kv) by {
                        let w = choose|m: int|
                            0 <= m < old(self).spec_keys().len() && (#[trigger] old(
                                self,
                            ).spec_keys()[m]).kview() == kv;
                        assert(self.spec_keys()[w].kview() == kv);
                        self.lemma_get_at(w);
                        old(self).lemma_get_at(w);
                    }
                }
                Option::None
            },
        }
    }

    /// Remove the entry under the key, handing its value back.
    pub fn remove(&mut self, key: &K) -> (r: Option<V>)
        requires
            old(self).wf(),
        ensures
            final(self).wf(),
            r is Some <==> old(self).spec_contains(key.kview()),
            !final(self).spec_contains(key.kview()),
            forall|kv: Seq<char>|
                #[trigger] final(self).spec_contains(kv) <==> (old(self).spec_contains(kv) && kv
                    != key.kview()),
            match r {
                Option::Some(v) => v == old(self).spec_get(key.kview()) && final(self).spec_len()
                    + 1 == old(self).spec_len(),
                Option::None => final(self).spec_len() == old(self).spec_len(),
            },
    {
        match self.index_of(key) {
            Option::Some(i) => {
                proof {
                    old(self).lemma_get_at(i as int);
                }
                let _k = self.keys.remove(i);
                let v = self.values.remove(i);
                proof {
                    let n = old(self).spec_keys().len() as int;
                    assert forall|a: int, b: int|
                        0 <= a < b < self.spec_keys().len() implies (
                    #[trigger] self.spec_keys()[a]).kview() != (
                    #[trigger] self.spec_keys()[b]).kview() by {
                        let oa = if a < i as int {
                            a
                        } else {
                            a + 1
                        };
                        let ob = if b < i as int {
                            b
                        } else {
                            b + 1
                        };
                        assert(self.spec_keys()[a] == old(self).spec_keys()[oa]);
                        assert(self.spec_keys()[b] == old(self).spec_keys()[ob]);
                        assert(old(self).spec_keys()[oa].kview() != old(
                            self,
                        ).spec_keys()[ob].kview());
                    }
                    assert forall|kv: Seq<char>|
                        #[trigger] self.spec_contains(kv) <==> (old(self).spec_contains(kv) && kv
                            != key.kview()) by {
                        if self.spec_contains(kv) {
                            let w = choose|m: int|
                                0 <= m < self.spec_keys().len() && (
                                #[trigger] self.spec_keys()[m]).kview() == kv;
                            let ow = if w < i as int {
                                w
                            } else {
                                w + 1
                            };
                            assert(old(self).spec_keys()[ow].kview() == kv);
                            assert(old(self).spec_keys()[i as int].kview() == key.kview());
                            assert(ow != i as int);
                        }
                        if old(self).spec_contains(kv) && kv != key.kview() {
                            let w = choose|m: int|
                                0 <= m < old(self).spec_keys().len() && (#[trigger] old(
                                    self,
                                ).spec_keys()[m]).kview() == kv;
                            assert(w != i as int);
                            let nw = if w < i as int {
                                w
                            } else {
                                w - 1
                            };
                            assert(self.spec_keys()[nw] == old(self).spec_keys()[w]);
                            assert(self.spec_keys()[nw].kview() == kv);
                        }
                    }
                }
                Option::Some(v)
            },
            Option::None => Option::None,
        }
    }

    /// Remove every entry.
    #[allow(non_snake_case)]
    pub fn removeAllObjects(&mut self)
        ensures
            final(self).wf(),
            final(self).spec_len() == 0,
            forall|kv: Seq<char>| !final(self).spec_contains(kv),
    {
        self.keys = Vec::new();
        self.values = Vec::new();
    }

    /// Build a dictionary from parallel keys and values: entries are
    /// inserted in order, later entries replacing earlier ones under the
    /// same key.
    pub fn from_id_slice(keys: &Vec<K>, values: Vec<V>) -> (d: NSMutableDictionary<K, V>)
        requires
            keys@.len() == values@.len(),
        ensures
            d.wf(),
            forall|kv: Seq<char>|
                #[trigger] d.spec_contains(kv) <==> exists|i: int|
                    0 <= i < keys@.len() && (#[trigger] keys@[i]).kview() == kv,
            forall|i: int|
                0 <= i < keys@.len() && last_occurrence(keys@, i, keys@.len() as int)
                    ==> d.spec_get((#[trigger] keys@[i]).kview()) == values@[i],
    {
        let mut d = NSMutableDictionary::<K, V>::new();
        let n = keys.len();
        let mut vals = values;
        let mut i: usize = 0;
        while i < n
            invariant
                0 <= i <= n,
                n == keys@.len(),
                n == values@.len(),
                vals@ == values@.subrange(i as int, n as int),
                d.wf(),
                forall|kv: Seq<char>|
                    #[trigger] d.spec_contains(kv) <==> exists|m: int|
                        0 <= m < i && (#[trigger] keys@[m]).kview() == kv,
                forall|m: int|
                    0 <= m < i && last_occurrence(keys@, m, i as int) ==> d.spec_get(
                        (#[trigger] keys@[m]).kview(),
                    ) == values@[m],
            decreases n - i,
        {
            let ghost d0 = d;
            let k = &keys[i];
            let v = vals.remove(0);
            proof {
                assert(v == values@[i as int]);
                assert(vals@ =~= values@.subrange((i + 1) as int, n as int));
            }
            let _prev = d.insert_id(k, v);
            proof {
                assert forall|m: int|
                    0 <= m < i + 1 && last_occurrence(keys@, m, i + 1) implies d.spec_get(
                    (#[trigger] keys@[m]).kview(),
                ) == values@[m] by {
                    if m == i {
                        assert(d.spec_get(k.kview()) == v);
                    } else {
                        assert(keys@[i as int].kview() != keys@[m].kview());
                        assert(last_occurrence(keys@, m, i as int));
                        assert(d0.spec_get(keys@[m].kview()) == values@[m]);
                        assert(d0.spec_contains(keys@[m].kview())) by {
                            assert(0 <= m < i && keys@[m].kview() == keys@[m].kview());
                        }
                        assert(d.spec_get(keys@[m].kview()) == d0.spec_get(keys@[m].kview()));
                    }
                }
                assert forall|kv: Seq<char>|
                    #[trigger] d.spec_contains(kv) <==> exists|m: int|
                        0 <= m < i + 1 && (#[trigger] keys@[m]).kview() == kv by {
                    if d.spec_contains(kv) {
                        if kv == keys@[i as int].kview() {
                            assert(0 <= i < i + 1 && keys@[i as int].kview() == kv);
                        }
                    }
                    if exists|m: int| 0 <= m < i + 1 && (#[trigger] keys@[m]).kview() == kv {
                        let m = choose|m: int|
                            0 <= m < i + 1 && (#[trigger] keys@[m]).kview() == kv;
                        if m < i {
                            assert(exists|m2: int|
                                0 <= m2 < i && (#[trigger] keys@[m2]).kview() == kv);
                        }
                    }
                }
            }
            i = i + 1;
        }
        d
    }
}

impl<K: DictKey, V: Copy> NSMutableDictionary<K, V> {
    /// The values, as an array in entry order.
    pub fn to_array(&self) -> (r: Vec<V>)
        ensures
            r@ == self.spec_values(),
    {
        let n = self.values.len();
        let mut out: Vec<V> = Vec::new();
        let mut i: usize = 0;
        while i < n
            invariant
                0 <= i <= n,
                n == self.spec_values().len(),
                out@ =~= self.spec_values().subrange(0, i as int),
            decreases n - i,
        {
            out.push(self.values[i]);
            proof {
                assert(out@ =~= self.spec_values().subrange(0, (i + 1) as int));
            }
            i = i + 1;
        }
        proof {
            assert(self.spec_values().subrange(0, n as int) =~= self.spec_values());
        }
        out
    }
}

} // verus!
