//! Cells that are filled on the first request and read ever after.
use vstd::prelude::*;
use vstd::hash_map::StringHashMap;

verus! {

/// One value, computed when it is first asked for.
pub struct SimpleCache<T> {
    /// `None` until the value has been computed.
    pub data: Option<T>,
}

impl<T> SimpleCache<T> {
    /// An empty cell.
    pub fn new() -> (c: Self)
        ensures
            c.data is None,
    {
        SimpleCache { data: None }
    }

    /// The value of the cell. An empty cell is first filled with what `f`
    /// computes; a full one is left as it is, and `f` is not called.
    pub fn get_or_insert_with<F: FnOnce() -> T>(&mut self, f: F) -> (r: &T)
        requires
            old(self).data is None ==> f.requires(()),
        ensures
            final(self).data == Some(*r),
            old(self).data is Some ==> final(self).data == old(self).data,
            old(self).data is None ==> f.ensures((), *r),
    {
        if self.data.is_none() {
            let v: T = f();
            self.data = Some(v);
        }
        self.data.as_ref().unwrap()
    }

    /// The value, if the cell has been filled.
    pub fn get(&self) -> (r: Option<&T>)
        ensures
            match r {
                Some(v) => self.data == Some(*v),
                None => self.data is None,
            },
    {
        self.data.as_ref()
    }
}

/// One value for each name, computed when it is first asked for.
#[verifier::reject_recursive_types(V)]
pub struct MappingCache<V> {
    /// Empty at first, and filled on demand.
    pub map: StringHashMap<V>,
}

impl<V> View for MappingCache<V> {
    type V = Map<Seq<char>, V>;

    open spec fn view(&self) -> Map<Seq<char>, V> {
        self.map@
    }
}

impl<V> MappingCache<V> {
    /// A cache without entries.
    pub fn new() -> (c: Self)
        ensures
            c@ == Map::<Seq<char>, V>::empty(),
    {
        MappingCache { map: StringHashMap::new() }
    }

    /// Whether a value has been computed for `key`.
    pub fn contains(&self, key: &str) -> (r: bool)
        ensures
            r == self@.contains_key(key@),
    {
        self.map.contains_key(key)
    }

    /// The value for `key`, if it has been computed.
    pub fn get(&self, key: &str) -> (r: Option<&V>)
        ensures
            match r {
                Some(v) => self@.contains_key(key@) && *v == self@[key@],
                None => !self@.contains_key(key@),
            },
    {
        self.map.get(key)
    }

    /// The value for `key`. Where there is none yet, it is what `f`
    /// computes, and is kept; where there is one, nothing changes and `f`
    /// is not called.
    pub fn get_or_insert_with<F: FnOnce() -> V>(&mut self, key: &str, f: F) -> (r: &V)
        requires
            !old(self)@.contains_key(key@) ==> f.requires(()),
        ensures
            final(self)@.contains_key(key@),
            final(self)@[key@] == *r,
            old(self)@.contains_key(key@) ==> final(self)@ == old(self)@,
            !old(self)@.contains_key(key@) ==> f.ensures((), *r) && final(self)@ == old(self)@.insert(
                key@,
                *r,
            ),
    {
        if !self.map.contains_key(key) {
            let v: V = f();
            self.map.insert(key.to_owned(), v);
        }
        self.map.get(key).unwrap()
    }
}

} // verus!
