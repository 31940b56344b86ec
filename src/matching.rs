//! The result of recognizing a path.
use vstd::prelude::*;

verus! {

/// The value bound to `k` in `s`: the first pair whose name is `k`.
pub open spec fn param_value(s: Seq<(Seq<char>, Seq<char>)>, k: Seq<char>) -> Option<Seq<char>>
    decreases s.len(),
{
    if s.len() == 0 {
        None
    } else if s[0].0 == k {
        Some(s[0].1)
    } else {
        param_value(s.drop_first(), k)
    }
}

/// Parameters captured from a path: names paired with the text they bound.
#[derive(Debug)]
pub struct Params {
    entries: Vec<(String, String)>,
}

impl View for Params {
    type V = Seq<(Seq<char>, Seq<char>)>;

    closed spec fn view(&self) -> Seq<(Seq<char>, Seq<char>)> {
        self.entries@.map_values(|p: (String, String)| (p.0@, p.1@))
    }
}

impl Params {
    pub(crate) fn from_entries(entries: Vec<(String, String)>) -> (r: Params)
        ensures
            r@ == entries@.map_values(|p: (String, String)| (p.0@, p.1@)),
    {
        Params { entries }
    }

    /// The number of parameters.
    pub fn len(&self) -> (r: usize)
        ensures
            r == self@.len(),
    {
        self.entries.len()
    }

    /// The text bound to the parameter named `key`.
    pub fn get(&self, key: &str) -> (r: Option<&String>)
        ensures
            match r {
                Some(v) => param_value(self@, key@) == Some(v@),
                None => param_value(self@, key@) is None,
            },
    {
        let k = key.to_owned();
        let mut i: usize = 0;
        assert(self@.skip(0) =~= self@);
        while i < self.entries.len()
            invariant
                i <= self.entries@.len(),
                k@ == key@,
                self@.len() == self.entries@.len(),
                param_value(self@, key@) == param_value(self@.skip(i as int), key@),
            decreases self.entries.len() - i,
        {
            let ghost rest = self@.skip(i as int);
            assert(rest[0] == self@[i as int]);
            assert(self@[i as int] == (self.entries@[i as int].0@, self.entries@[i as int].1@));
            if self.entries[i].0 == k {
                return Some(&self.entries[i].1);
            }
            assert(rest.drop_first() =~= self@.skip(i + 1));
            i = i + 1;
        }
        assert(self@.skip(i as int).len() == 0);
        None
    }
}

/// A recognized route: its value and the parameters captured on the way.
#[derive(Debug)]
pub struct Match<T> {
    pub data: T,
    pub params: Params,
}

} // verus!
