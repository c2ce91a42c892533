use crate::object::FunctionMetadata;
use vstd::prelude::*;

verus! {

/// A hash set of address pairs.
#[verifier::external_body]
pub struct PairSet {
    inner: hashbrown::HashSet<(u64, u64)>,
}

/// The pairs a [`PairSet`] holds.
pub uninterp spec fn pair_set_contents(s: PairSet) -> Set<(u64, u64)>;

/// A set without pairs.
pub open spec fn no_pairs() -> Set<(u64, u64)> {
    Set::empty()
}

impl PairSet {
    /// Relies on `hashbrown::HashSet::new`: the new set is empty.
    #[verifier::external_body]
    pub fn new() -> (r: Self)
        ensures
            pair_set_contents(r) == no_pairs(),
    {
        PairSet { inner: hashbrown::HashSet::new() }
    }

    /// Relies on `hashbrown::HashSet::insert`: afterwards the set holds the pair too.
    #[verifier::external_body]
    pub fn insert(&mut self, p: (u64, u64))
        ensures
            pair_set_contents(*final(self)) == pair_set_contents(*old(self)).insert(p),
    {
        self.inner.insert(p);
    }

    /// Relies on `hashbrown::HashSet::contains`: whether the set holds the pair.
    #[verifier::external_body]
    pub fn contains(&self, p: (u64, u64)) -> (r: bool)
        ensures
            r == pair_set_contents(*self).contains(p),
    {
        self.inner.contains(&p)
    }
}

/// A hash set of addresses.
#[verifier::external_body]
pub struct AddrSet {
    inner: hashbrown::HashSet<u64>,
}

/// The addresses an [`AddrSet`] holds.
pub uninterp spec fn addr_set_contents(s: AddrSet) -> Set<u64>;

impl AddrSet {
    /// Relies on `hashbrown::HashSet::new`: the new set is empty.
    #[verifier::external_body]
    pub fn new() -> (r: Self)
        ensures
            addr_set_contents(r) == Set::<u64>::empty(),
    {
        AddrSet { inner: hashbrown::HashSet::new() }
    }

    /// Relies on `hashbrown::HashSet::insert`: afterwards the set holds the address too.
    #[verifier::external_body]
    pub fn insert(&mut self, a: u64)
        ensures
            addr_set_contents(*final(self)) == addr_set_contents(*old(self)).insert(a),
    {
        self.inner.insert(a);
    }

    /// Relies on `hashbrown::HashSet::contains`: whether the set holds the address.
    #[verifier::external_body]
    pub fn contains(&self, a: u64) -> (r: bool)
        ensures
            r == addr_set_contents(*self).contains(a),
    {
        self.inner.contains(&a)
    }
}

/// A hash map from function addresses to their metadata.
#[verifier::external_body]
pub struct FunctionTable {
    inner: hashbrown::HashMap<u64, FunctionMetadata>,
}

/// For each address in a [`FunctionTable`], the number of opcodes of its function.
pub uninterp spec fn function_sizes(t: FunctionTable) -> Map<u64, nat>;

/// A table without functions.
pub open spec fn no_functions() -> Map<u64, nat> {
    Map::empty()
}

impl FunctionTable {
    /// Relies on `hashbrown::HashMap::new`: the new map is empty.
    #[verifier::external_body]
    pub fn new() -> (r: Self)
        ensures
            function_sizes(r) == no_functions(),
    {
        FunctionTable { inner: hashbrown::HashMap::new() }
    }

    /// Relies on `hashbrown::HashMap::insert`: the address now maps to the given function,
    /// replacing what it mapped to before.
    #[verifier::external_body]
    pub fn insert(&mut self, addr: u64, f: FunctionMetadata)
        ensures
            function_sizes(*final(self)) == function_sizes(*old(self)).insert(addr, f@.len()),
    {
        self.inner.insert(addr, f);
    }

    /// Relies on `hashbrown::HashMap::get`: the function stored for the address, if any.
    #[verifier::external_body]
    pub fn get(&self, addr: u64) -> (r: Option<&FunctionMetadata>)
        ensures
            r.is_some() == function_sizes(*self).dom().contains(addr),
            r.is_some() ==> r.unwrap()@.len() == function_sizes(*self)[addr],
    {
        self.inner.get(&addr)
    }
}

} // verus!
