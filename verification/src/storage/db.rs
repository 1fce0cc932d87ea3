//! The database proper: unique text keys mapped to typed values.

use vstd::prelude::*;

verus! {

use std::collections::VecDeque;
use crate::storage::DBError;
use crate::text::str_eq;

/// The mathematical value of one store entry.
pub enum StoredVal {
    /// A plain text value.
    Str(Seq<char>),
    /// An ordered list of text values.
    List(Seq<Seq<char>>),
}

/// The data stored at a key: a plain string or a list.
#[derive(Debug, Clone)]
pub enum Value {
    String(String),
    List(VecDeque<String>),
}

/// The abstract value of a stored value.
pub open spec fn value_val_of(v: Value) -> StoredVal {
    match v {
        Value::String(s) => StoredVal::Str(s@),
        Value::List(l) => StoredVal::List(l.deep_view()),
    }
}

impl View for Value {
    type V = StoredVal;

    open spec fn view(&self) -> StoredVal {
        value_val_of(*self)
    }
}

/// The value associated with one key.
#[derive(Debug, Clone)]
pub struct Entry {
    value: Value,
}

impl View for Entry {
    type V = StoredVal;

    closed spec fn view(&self) -> StoredVal {
        self.value@
    }
}

/// The store: a mapping from text keys to typed values, with unique keys.
pub struct DB {
    data: Vec<(String, Entry)>,
}

/// The mapping described by an association list; later entries win.
pub closed spec fn assoc_map(s: Seq<(String, Entry)>) -> Map<Seq<char>, StoredVal>
    decreases s.len(),
{
    if s.len() == 0 {
        Map::empty()
    } else {
        assoc_map(s.drop_last()).insert(s.last().0@, s.last().1@)
    }
}

impl View for DB {
    type V = Map<Seq<char>, StoredVal>;

    closed spec fn view(&self) -> Map<Seq<char>, StoredVal> {
        assoc_map(self.data@)
    }
}

impl DB {
    /// Each key occurs at most once in the underlying list.
    pub closed spec fn wf(&self) -> bool {
        forall|i: int, j: int|
            0 <= i < j < self.data@.len() ==> self.data@[i].0@ != self.data@[j].0@
    }

    /// Creates an empty store.
    pub fn new() -> (r: DB)
        ensures
            r.wf(),
            r@ == Map::<Seq<char>, StoredVal>::empty(),
    {
        DB { data: Vec::new() }
    }

    /// Get the string value associated with a key.
    ///
    /// Returns the stored text on a string entry, `None` on an absent key,
    /// and `WrongType` on a list entry.
    pub fn get(&self, key: &str) -> (r: Result<Option<String>, DBError>)
        requires
            self.wf(),
        ensures
            match r {
                Ok(None) => !self@.contains_key(key@),
                Ok(Some(s)) => self@.contains_key(key@) && self@[key@] == StoredVal::Str(s@),
                Err(e) => e is WrongType && self@.contains_key(key@) && self@[key@] is List,
            },
    {
        match self.find(key) {
            None => Ok(None),
            Some(i) => {
                match &self.data[i].1.value {
                    Value::String(s) => Ok(Some(s.clone())),
                    Value::List(_) => Err(DBError::WrongType),
                }
            },
        }
    }

    /// Set the value associated with a key, replacing any prior entry.
    pub fn set(&mut self, key: String, value: Value) -> (r: Result<(), DBError>)
        requires
            old(self).wf(),
        ensures
            final(self).wf(),
            r is Ok,
            final(self)@ == old(self)@.insert(key@, value@),
    {
        let entry = Entry { value };
        match self.find(key.as_str()) {
            None => {
                proof {
                    assert forall|j: int|
                        0 <= j < self.data@.len() implies self.data@[j].0@ != key@ by {
                        if self.data@[j].0@ == key@ {
                            lemma_assoc_map_found(self.data@, j);
                        }
                    }
                    lemma_assoc_map_push(self.data@, (key, entry));
                }
                self.data.push((key, entry));
            },
            Some(i) => {
                proof {
                    lemma_assoc_map_update(self.data@, i as int, (key, entry));
                }
                self.data.set(i, (key, entry));
            },
        }
        Ok(())
    }

    /// Left-push values onto the list at a key, creating an empty list on
    /// absence.  The values are inserted at the head one at a time in the
    /// order given, so the first value ends up deepest.
    pub fn lpush(&mut self, key: String, value: Vec<String>) -> (r: Result<usize, DBError>)
        requires
            old(self).wf(),
        ensures
            final(self).wf(),
            match r {
                Ok(n) => {
                    let updated = value.deep_view().reverse() + db_list(old(self)@, key@);
                    &&& (old(self)@.contains_key(key@) ==> old(self)@[key@] is List)
                    &&& n == updated.len()
                    &&& final(self)@ == old(self)@.insert(key@, StoredVal::List(updated))
                },
                Err(e) => {
                    &&& e is WrongType
                    &&& old(self)@.contains_key(key@)
                    &&& old(self)@[key@] is Str
                    &&& final(self)@ == old(self)@
                },
            },
    {
        let mut list: VecDeque<String> = match self.find(key.as_str()) {
            None => VecDeque::new(),
            Some(i) => {
                match &self.data[i].1.value {
                    Value::String(_) => {
                        return Err(DBError::WrongType);
                    },
                    Value::List(l) => {
                        let c = l.clone();
                        proof {
                            assert(c.deep_view() =~~= l.deep_view());
                        }
                        c
                    },
                }
            },
        };
        let ghost prior = list.deep_view();
        let ghost vals = value.deep_view();
        let mut j: usize = 0;
        while j < value.len()
            invariant
                0 <= j <= value.len(),
                vals == value.deep_view(),
                list.deep_view() == vals.take(j as int).reverse() + prior,
            decreases value.len() - j,
        {
            list.push_front(value[j].clone());
            proof {
                assert(vals.take(j + 1).reverse() =~= seq![vals[j as int]] + vals.take(
                    j as int,
                ).reverse());
                assert(list.deep_view() =~~= seq![vals[j as int]] + (vals.take(
                    j as int,
                ).reverse() + prior));
                assert(seq![vals[j as int]] + (vals.take(j as int).reverse() + prior) =~= vals.take(
                    j + 1,
                ).reverse() + prior);
            }
            j += 1;
        }
        proof {
            assert(vals.take(value.len() as int) =~= vals);
        }
        let n = list.len();
        let _ = self.set(key, Value::List(list));
        Ok(n)
    }

    /// Right-push values onto the list at a key, creating an empty list on
    /// absence.  The values are appended at the tail in the order given.
    pub fn rpush(&mut self, key: String, value: Vec<String>) -> (r: Result<usize, DBError>)
        requires
            old(self).wf(),
        ensures
            final(self).wf(),
            match r {
                Ok(n) => {
                    let updated = db_list(old(self)@, key@) + value.deep_view();
                    &&& (old(self)@.contains_key(key@) ==> old(self)@[key@] is List)
                    &&& n == updated.len()
                    &&& final(self)@ == old(self)@.insert(key@, StoredVal::List(updated))
                },
                Err(e) => {
                    &&& e is WrongType
                    &&& old(self)@.contains_key(key@)
                    &&& old(self)@[key@] is Str
                    &&& final(self)@ == old(self)@
                },
            },
    {
        let mut list: VecDeque<String> = match self.find(key.as_str()) {
            None => VecDeque::new(),
            Some(i) => {
                match &self.data[i].1.value {
                    Value::String(_) => {
                        return Err(DBError::WrongType);
                    },
                    Value::List(l) => {
                        let c = l.clone();
                        proof {
                            assert(c.deep_view() =~~= l.deep_view());
                        }
                        c
                    },
                }
            },
        };
        let ghost prior = list.deep_view();
        let ghost vals = value.deep_view();
        let mut j: usize = 0;
        while j < value.len()
            invariant
                0 <= j <= value.len(),
                vals == value.deep_view(),
                list.deep_view() == prior + vals.take(j as int),
            decreases value.len() - j,
        {
            list.push_back(value[j].clone());
            proof {
                assert(prior + vals.take(j + 1) =~= (prior + vals.take(j as int)).push(
                    vals[j as int],
                ));
                assert(list.deep_view() =~~= prior + vals.take(j + 1));
            }
            j += 1;
        }
        proof {
            assert(vals.take(value.len() as int) =~= vals);
        }
        let n = list.len();
        let _ = self.set(key, Value::List(list));
        Ok(n)
    }

    /// The inclusive subrange `[start..=stop]` of the list at a key, with
    /// negative indices counted from the end.  An absent key reads as an
    /// empty list; any out-of-bounds or inverted range is empty.
    pub fn lrange(&self, key: String, start: i64, stop: i64) -> (r: Result<Vec<String>, DBError>)
        requires
            self.wf(),
        ensures
            match r {
                Ok(v) => {
                    &&& (self@.contains_key(key@) ==> self@[key@] is List)
                    &&& v.deep_view() == lrange_spec(
                        db_list(self@, key@),
                        start as int,
                        stop as int,
                    )
                },
                Err(e) => {
                    &&& e is WrongType
                    &&& self@.contains_key(key@)
                    &&& self@[key@] is Str
                },
            },
    {
        let i = match self.find(key.as_str()) {
            None => {
                return Ok(Vec::new());
            },
            Some(i) => i,
        };
        let list = match &self.data[i].1.value {
            Value::String(_) => {
                return Err(DBError::WrongType);
            },
            Value::List(l) => l,
        };
        let len = list.len();
        let nstart: i128 = if start < 0 {
            len as i128 + start as i128
        } else {
            start as i128
        };
        let nstop: i128 = if stop < 0 {
            len as i128 + stop as i128
        } else {
            stop as i128
        };
        if nstart < 0 || nstop < 0 || nstart >= len as i128 || nstop >= len as i128 || nstart
            > nstop {
            return Ok(Vec::new());
        }
        let lo = nstart as usize;
        let hi = nstop as usize;
        let mut out: Vec<String> = Vec::new();
        let mut k = lo;
        while k <= hi
            invariant
                0 <= lo <= k <= hi + 1,
                hi < list.len(),
                out.deep_view() == list.deep_view().subrange(lo as int, k as int),
            decreases hi + 1 - k,
        {
            out.push(list[k].clone());
            proof {
                assert(list.deep_view().subrange(lo as int, k + 1) =~= list.deep_view().subrange(
                    lo as int,
                    k as int,
                ).push(list.deep_view()[k as int]));
                assert(out.deep_view() =~~= list.deep_view().subrange(lo as int, k + 1));
            }
            k += 1;
        }
        Ok(out)
    }

    /// The index of the entry holding `key`, if any.
    fn find(&self, key: &str) -> (r: Option<usize>)
        requires
            self.wf(),
        ensures
            match r {
                None => !self@.contains_key(key@),
                Some(i) => {
                    &&& 0 <= i < self.data@.len()
                    &&& self.data@[i as int].0@ == key@
                    &&& self@.contains_key(key@)
                    &&& self@[key@] == self.data@[i as int].1@
                },
            },
    {
        let n = self.data.len();
        let mut i: usize = 0;
        while i < n
            invariant
                self.wf(),
                n == self.data@.len(),
                0 <= i <= n,
                forall|j: int| 0 <= j < i ==> self.data@[j].0@ != key@,
            decreases n - i,
        {
            if str_eq(self.data[i].0.as_str(), key) {
                proof {
                    lemma_assoc_map_found(self.data@, i as int);
                }
                return Some(i);
            }
            i += 1;
        }
        proof {
            lemma_assoc_map_absent(self.data@, key@);
        }
        None
    }
}

/// The list a store maps `k` to; an absent key or a string entry reads as
/// an empty list.
pub open spec fn db_list(m: Map<Seq<char>, StoredVal>, k: Seq<char>) -> Seq<Seq<char>> {
    if m.contains_key(k) {
        match m[k] {
            StoredVal::List(l) => l,
            StoredVal::Str(_) => Seq::empty(),
        }
    } else {
        Seq::empty()
    }
}

/// The inclusive subrange `[start..=stop]` of `l`, after normalizing
/// negative indices from the end; empty when the normalized range is
/// out of bounds or inverted.
pub open spec fn lrange_spec(l: Seq<Seq<char>>, start: int, stop: int) -> Seq<Seq<char>> {
    let len = l.len() as int;
    let nstart = if start < 0 {
        len + start
    } else {
        start
    };
    let nstop = if stop < 0 {
        len + stop
    } else {
        stop
    };
    if nstart < 0 || nstop < 0 || nstart >= len || nstop >= len || nstart > nstop {
        Seq::empty()
    } else {
        l.subrange(nstart, nstop + 1)
    }
}

/// An association list without `k` maps no value to `k`.
proof fn lemma_assoc_map_absent(s: Seq<(String, Entry)>, k: Seq<char>)
    requires
        forall|i: int| 0 <= i < s.len() ==> s[i].0@ != k,
    ensures
        !assoc_map(s).contains_key(k),
    decreases s.len(),
{
    if s.len() > 0 {
        lemma_assoc_map_absent(s.drop_last(), k);
    }
}

/// With unique keys, the entry at any index gives the mapped value.
proof fn lemma_assoc_map_found(s: Seq<(String, Entry)>, i: int)
    requires
        0 <= i < s.len(),
        forall|p: int, q: int| 0 <= p < q < s.len() ==> s[p].0@ != s[q].0@,
    ensures
        assoc_map(s).contains_key(s[i].0@),
        assoc_map(s)[s[i].0@] == s[i].1@,
    decreases s.len(),
{
    if i < s.len() - 1 {
        lemma_assoc_map_found(s.drop_last(), i);
    }
}

/// Appending a pair updates the mapping at its key.
proof fn lemma_assoc_map_push(s: Seq<(String, Entry)>, p: (String, Entry))
    ensures
        assoc_map(s.push(p)) == assoc_map(s).insert(p.0@, p.1@),
{
    assert(s.push(p).drop_last() =~= s);
}

/// With unique keys, replacing the entry at an index whose key is `p.0`
/// updates the mapping at that key alone.
proof fn lemma_assoc_map_update(s: Seq<(String, Entry)>, i: int, p: (String, Entry))
    requires
        0 <= i < s.len(),
        forall|x: int, y: int| 0 <= x < y < s.len() ==> s[x].0@ != s[y].0@,
        p.0@ == s[i].0@,
    ensures
        assoc_map(s.update(i, p)) == assoc_map(s).insert(p.0@, p.1@),
    decreases s.len(),
{
    let t = s.update(i, p);
    if i == s.len() - 1 {
        assert(t.drop_last() =~= s.drop_last());
        assert(assoc_map(t) =~= assoc_map(s).insert(p.0@, p.1@));
    } else {
        assert(t.drop_last() =~= s.drop_last().update(i, p));
        lemma_assoc_map_update(s.drop_last(), i, p);
        assert(assoc_map(t) =~= assoc_map(s).insert(p.0@, p.1@));
    }
}

} // verus!
