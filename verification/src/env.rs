//! The environment snapshot: a case-normalized key-to-value map.

use vstd::prelude::*;
use crate::chars::{lower, lower_string};
use crate::value::str_eq;

verus! {

/// The model of a key-value pair list.
pub open spec fn pairs_view(pairs: Seq<(String, String)>) -> Seq<(Seq<char>, Seq<char>)> {
    Seq::new(pairs.len(), |i: int| (pairs[i].0@, pairs[i].1@))
}

/// First value bound to `key`, if any.
pub open spec fn assoc(pairs: Seq<(Seq<char>, Seq<char>)>, key: Seq<char>) -> Option<Seq<char>>
    decreases pairs.len(),
{
    if pairs.len() == 0 {
        None
    } else if pairs[0].0 == key {
        Some(pairs[0].1)
    } else {
        assoc(pairs.drop_first(), key)
    }
}

/// Executable first-match lookup in a pair list.
pub fn assoc_get<'a>(pairs: &'a Vec<(String, String)>, key: &str) -> (r: Option<&'a String>)
    ensures
        match r {
            Some(v) => assoc(pairs_view(pairs@), key@) == Some(v@),
            None => assoc(pairs_view(pairs@), key@) is None,
        },
{
    proof {
        assert(pairs_view(pairs@).skip(0) =~= pairs_view(pairs@));
    }
    let mut i: usize = 0;
    while i < pairs.len()
        invariant
            i <= pairs.len(),
            assoc(pairs_view(pairs@), key@) == assoc(
                pairs_view(pairs@).skip(i as int),
                key@,
            ),
        decreases pairs.len() - i,
    {
        proof {
            let s = pairs_view(pairs@).skip(i as int);
            assert(s[0] == pairs_view(pairs@)[i as int]);
            assert(s.drop_first() =~= pairs_view(pairs@).skip(i as int + 1));
        }
        let hit = {
            let ek: &String = &pairs[i].0;
            str_eq(ek.as_str(), key)
        };
        if hit {
            return Some(&pairs[i].1);
        }
        i = i + 1;
    }
    proof {
        assert(pairs_view(pairs@).skip(i as int) =~= Seq::<(Seq<char>, Seq<char>)>::empty());
    }
    None
}

/// The environment snapshot.  Keys are stored as the producer supplied
/// them; they are expected to be already case-folded, as
/// [`EnvData::normalized`] does.
pub struct EnvData {
    inner: Vec<(String, String)>,
}

impl View for EnvData {
    type V = Seq<(Seq<char>, Seq<char>)>;

    closed spec fn view(&self) -> Seq<(Seq<char>, Seq<char>)> {
        pairs_view(self.inner@)
    }
}

/// The case-insensitive lookup the snapshot offers: the query is folded
/// and compared against the stored keys.
pub open spec fn env_lookup(env: Seq<(Seq<char>, Seq<char>)>, query: Seq<char>) -> Option<
    Seq<char>,
> {
    assoc(env, lower(query))
}

impl EnvData {
    /// Wraps a pair list as a snapshot, verbatim.
    pub fn from(inner: Vec<(String, String)>) -> (r: Self)
        ensures
            r@ == pairs_view(inner@),
    {
        EnvData { inner }
    }

    /// Builds a snapshot whose keys are case-folded copies of the given
    /// ones, in order.
    pub fn normalized(pairs: &Vec<(String, String)>) -> (r: Self)
        ensures
            r@.len() == pairs@.len(),
            forall|i: int|
                0 <= i < pairs@.len() ==> r@[i] == (
                    lower((#[trigger] pairs@[i]).0@),
                    pairs@[i].1@,
                ),
    {
        let mut inner: Vec<(String, String)> = Vec::new();
        let mut i: usize = 0;
        while i < pairs.len()
            invariant
                i <= pairs@.len(),
                inner@.len() == i,
                forall|k: int|
                    0 <= k < i ==> (#[trigger] inner@[k]).0@ == lower(pairs@[k].0@)
                        && inner@[k].1@ == pairs@[k].1@,
            decreases pairs.len() - i,
        {
            let k = lower_string(pairs[i].0.as_str());
            let v = pairs[i].1.clone();
            inner.push((k, v));
            i = i + 1;
        }
        EnvData { inner }
    }

    /// Case-insensitive lookup: the query is folded before comparison.
    ///
    /// When the snapshot holds two keys that fold to the same text, the
    /// first one wins; which key a producer lists first is its own affair.
    pub fn get<'a>(&'a self, k: &str) -> (r: Option<&'a String>)
        ensures
            match r {
                Some(v) => env_lookup(self@, k@) == Some(v@),
                None => env_lookup(self@, k@) is None,
            },
    {
        let lk = lower_string(k);
        assoc_get(&self.inner, lk.as_str())
    }
}

/// Case folding of the stored keys makes the lookup insensitive to the
/// case under which a variable was set: queries whose folded forms agree
/// read the same entry.
pub proof fn lemma_env_case_insensitive(
    env: Seq<(Seq<char>, Seq<char>)>,
    q1: Seq<char>,
    q2: Seq<char>,
)
    requires
        lower(q1) == lower(q2),
    ensures
        env_lookup(env, q1) == env_lookup(env, q2),
{
}

/// A snapshot made of one variable answers any query that folds to the
/// variable's folded name.
pub proof fn lemma_env_single_fold(key: Seq<char>, value: Seq<char>, query: Seq<char>)
    requires
        lower(query) == lower(key),
    ensures
        env_lookup(seq![(lower(key), value)], query) == Some(value),
{
    crate::chars::lemma_lower_idempotent(key);
    let env = seq![(lower(key), value)];
    assert(env[0].0 == lower(query));
}

} // verus!
