//! Environment-variable values and an insertion-ordered map of them.
//!
//! The map keeps its entries in insertion order and is modeled as a sequence
//! of key/value pairs; the backing store is `indexmap::IndexMap`, reached
//! only through the trusted wrappers below.

use vstd::prelude::*;

use indexmap::IndexMap;

verus! {

/// An environment value: an unexpanded literal, or a plain string.
#[derive(Debug, Clone)]
pub enum EnvValue {
    Literal(String),
    String(String),
}

impl EnvValue {
    /// The characters carried by the value.
    pub open spec fn chars(self) -> Seq<char> {
        match self {
            EnvValue::Literal(s) => s@,
            EnvValue::String(s) => s@,
        }
    }

    /// Only a plain string can be handed out as an environment string; the
    /// caller must not ask it of a literal.
    pub fn to_str(&self) -> (r: &str)
        requires
            *self is String,
        ensures
            r@ == self.chars(),
    {
        match self {
            EnvValue::String(s) => s.as_str(),
            EnvValue::Literal(_) => "",
        }
    }

    /// A structural copy.
    pub fn dup(&self) -> (r: EnvValue)
        ensures
            r == *self,
    {
        match self {
            EnvValue::Literal(s) => EnvValue::Literal(s.clone()),
            EnvValue::String(s) => EnvValue::String(s.clone()),
        }
    }
}

/// An optional environment value.
pub struct OptionEnvValue(pub Option<EnvValue>);

/// The declared shape of `indexmap`'s ordered map.
#[verifier::external_type_specification]
#[verifier::external_body]
#[verifier::reject_recursive_types(K)]
#[verifier::reject_recursive_types(V)]
#[verifier::reject_recursive_types(S)]
pub struct ExIndexMap<K, V, S>(IndexMap<K, V, S>);

/// What an ordered environment map holds: its key/value pairs, in their
/// stored order.
pub uninterp spec fn imap_entries(m: IndexMap<String, EnvValue>) -> Seq<(Seq<char>, EnvValue)>;

/// The first position holding key `k`, or -1 when absent.
pub open spec fn find_key(es: Seq<(Seq<char>, EnvValue)>, k: Seq<char>) -> int
    decreases es.len(),
{
    if es.len() == 0 {
        -1
    } else if es[0].0 == k {
        0
    } else {
        let r = find_key(es.skip(1), k);
        if r < 0 {
            -1
        } else {
            r + 1
        }
    }
}

/// Map insertion on the entry model: an existing key keeps its position and
/// takes the new value; a new key is appended last.
pub open spec fn insert_entry(
    es: Seq<(Seq<char>, EnvValue)>,
    p: (Seq<char>, EnvValue),
) -> Seq<(Seq<char>, EnvValue)> {
    let i = find_key(es, p.0);
    if i >= 0 {
        es.update(i, p)
    } else {
        es.push(p)
    }
}

/// Lookup on the entry model.
pub open spec fn lookup(es: Seq<(Seq<char>, EnvValue)>, k: Seq<char>) -> Option<EnvValue> {
    let i = find_key(es, k);
    if i >= 0 {
        Some(es[i].1)
    } else {
        None
    }
}

/// Relies on indexmap::IndexMap::new: creates an empty map.
#[verifier::external_body]
fn imap_new() -> (m: IndexMap<String, EnvValue>)
    ensures
        imap_entries(m).len() == 0,
{
    IndexMap::new()
}

/// Relies on indexmap::IndexMap::insert: an existing key retains its place
/// and its value is updated, the older value returned; a new key is inserted
/// last in order.
#[verifier::external_body]
fn imap_insert(m: &mut IndexMap<String, EnvValue>, k: String, v: EnvValue) -> (prev: Option<
    EnvValue,
>)
    ensures
        imap_entries(*final(m)) == insert_entry(imap_entries(*old(m)), (k@, v)),
        prev == lookup(imap_entries(*old(m)), k@),
{
    m.insert(k, v)
}

/// Relies on indexmap::IndexMap::get: returns a reference to the value
/// stored for the key, if present.
#[verifier::external_body]
fn imap_get<'a>(m: &'a IndexMap<String, EnvValue>, k: &str) -> (r: Option<&'a EnvValue>)
    ensures
        match r {
            Some(v) => find_key(imap_entries(*m), k@) >= 0 && *v == imap_entries(*m)[find_key(
                imap_entries(*m),
                k@,
            )].1,
            None => find_key(imap_entries(*m), k@) < 0,
        },
{
    m.get(k)
}

/// Relies on indexmap::IndexMap::len: the number of stored pairs.
#[verifier::external_body]
fn imap_len(m: &IndexMap<String, EnvValue>) -> (n: usize)
    ensures
        n == imap_entries(*m).len(),
{
    m.len()
}

/// Relies on indexmap::IndexMap::iter: yields the pairs in their stored
/// order; the closure only clones them.
#[verifier::external_body]
fn imap_pairs(m: &IndexMap<String, EnvValue>) -> (r: Vec<(String, EnvValue)>)
    ensures
        r@.len() == imap_entries(*m).len(),
        forall|i: int|
            0 <= i < r@.len() ==> (#[trigger] r@[i]).0@ == imap_entries(*m)[i].0 && r@[i].1
                == imap_entries(*m)[i].1,
{
    m.iter().map(|(k, v)| (k.clone(), v.clone())).collect()
}

/// Relies on indexmap::IndexMap::clone: an equal map.
#[verifier::external_body]
fn imap_clone(m: &IndexMap<String, EnvValue>) -> (r: IndexMap<String, EnvValue>)
    ensures
        imap_entries(r) == imap_entries(*m),
{
    m.clone()
}

/// An insertion-ordered map from environment-variable names to values.
pub struct EnvMap {
    map: IndexMap<String, EnvValue>,
}

impl EnvMap {
    /// The key/value pairs, in stored order.
    pub closed spec fn entries(self) -> Seq<(Seq<char>, EnvValue)> {
        imap_entries(self.map)
    }

    /// An empty map.
    pub fn empty() -> (m: EnvMap)
        ensures
            m.entries().len() == 0,
    {
        EnvMap { map: imap_new() }
    }

    /// Number of stored pairs.
    pub fn len(&self) -> (n: usize)
        ensures
            n == self.entries().len(),
    {
        imap_len(&self.map)
    }

    /// Insert a pair: an existing key keeps its position and takes the new
    /// value (the older one is returned); a new key goes last.
    pub fn insert(&mut self, key: String, value: EnvValue) -> (prev: Option<EnvValue>)
        ensures
            final(self).entries() == insert_entry(old(self).entries(), (key@, value)),
            prev == lookup(old(self).entries(), key@),
    {
        imap_insert(&mut self.map, key, value)
    }

    /// Look a key up.
    pub fn get(&self, key: &str) -> (r: Option<&EnvValue>)
        ensures
            match r {
                Some(v) => lookup(self.entries(), key@) == Some(*v),
                None => lookup(self.entries(), key@) is None,
            },
    {
        let r = imap_get(&self.map, key);
        proof {
            match r {
                Some(v) => {
                    assert(lookup(self.entries(), key@) is Some);
                },
                None => {},
            }
        }
        r
    }

    /// The pairs as a vector, in stored order.
    pub fn pairs(&self) -> (r: Vec<(String, EnvValue)>)
        ensures
            r@.len() == self.entries().len(),
            forall|i: int|
                0 <= i < r@.len() ==> (#[trigger] r@[i]).0@ == self.entries()[i].0 && r@[i].1
                    == self.entries()[i].1,
    {
        imap_pairs(&self.map)
    }

    /// A structural copy.
    pub fn dup(&self) -> (r: EnvMap)
        ensures
            r.entries() == self.entries(),
    {
        EnvMap { map: imap_clone(&self.map) }
    }
}

/// What `str::to_uppercase` computes: a function of the characters alone.
pub uninterp spec fn upper_of(s: Seq<char>) -> Seq<char>;

/// Relies on str::to_uppercase: the result depends on the characters alone.
#[verifier::external_body]
pub fn to_uppercase_str(s: &str) -> (r: String)
    ensures
        r@ == upper_of(s@),
{
    s.to_uppercase()
}

/// The entry model of a map whose every key has been uppercased, built by
/// inserting the uppercased pairs in order.
pub open spec fn upper_entries(es: Seq<(Seq<char>, EnvValue)>) -> Seq<(Seq<char>, EnvValue)>
    decreases es.len(),
{
    if es.len() == 0 {
        Seq::empty()
    } else {
        insert_entry(upper_entries(es.drop_last()), (upper_of(es.last().0), es.last().1))
    }
}

/// Rebuild a map with every key uppercased, keeping each value and the
/// insertion order of the uppercased keys.
pub fn to_uppercase_map(map: &EnvMap) -> (r: EnvMap)
    ensures
        r.entries() == upper_entries(map.entries()),
{
    let pairs = map.pairs();
    let ghost es = map.entries();
    let mut out = EnvMap::empty();
    proof {
        assert(out.entries() =~= upper_entries(es.take(0)));
    }
    let mut i: usize = 0;
    while i < pairs.len()
        invariant
            pairs@.len() == es.len(),
            forall|j: int|
                0 <= j < es.len() ==> (#[trigger] pairs@[j]).0@ == es[j].0 && pairs@[j].1
                    == es[j].1,
            i <= es.len(),
            out.entries() == upper_entries(es.take(i as int)),
        decreases es.len() - i,
    {
        let upper = to_uppercase_str(pairs[i].0.as_str());
        let value = pairs[i].1.dup();
        out.insert(upper, value);
        proof {
            assert(es.take(i + 1).drop_last() =~= es.take(i as int));
            assert(es.take(i + 1).last() == es[i as int]);
        }
        i += 1;
    }
    proof {
        assert(es.take(es.len() as int) =~= es);
    }
    out
}

/// A source of environment variables.  An implementation hands the whole
/// environment out as a map; single reads go through the uppercased view, so
/// casing is ignored.
pub trait ProcessEnv {
    /// The entries the source holds, in order.
    spec fn env_entries(&self) -> Seq<(Seq<char>, EnvValue)>;

    /// Reads all env variables into a map.
    fn read_all(&self) -> (m: EnvMap)
        ensures
            m.entries() == self.env_entries(),
    ;

    /// Reads a single env variable, ignoring casing.
    fn read(&self, name: &str) -> (r: OptionEnvValue)
        ensures
            r.0 == lookup(upper_entries(self.env_entries()), upper_of(name@)),
    {
        let all = self.read_all();
        let upper = to_uppercase_map(&all);
        let key = to_uppercase_str(name);
        match upper.get(key.as_str()) {
            Some(v) => OptionEnvValue(Some(v.dup())),
            None => OptionEnvValue(None),
        }
    }
}

/// A fixed snapshot of environment variables, read entirely up front.
pub struct StaticProcessEnv {
    map: EnvMap,
}

impl StaticProcessEnv {
    /// Wrap a snapshot.
    pub fn new(map: EnvMap) -> (r: StaticProcessEnv)
        ensures
            r.env_entries() == map.entries(),
    {
        StaticProcessEnv { map }
    }
}

impl ProcessEnv for StaticProcessEnv {
    closed spec fn env_entries(&self) -> Seq<(Seq<char>, EnvValue)> {
        self.map.entries()
    }

    fn read_all(&self) -> (m: EnvMap) {
        self.map.dup()
    }
}

} // verus!
