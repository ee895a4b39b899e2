//! A table of environment variables, as the configuration sees them.

use crate::text::same_text;
use vstd::prelude::*;

verus! {

/// Environment variables by name.
pub struct Environment {
    vars: Vec<(String, String)>,
}

/// The table that a list of assignments leaves: for each name the last one counts.
pub open spec fn assignments(vars: Seq<(String, String)>) -> Map<Seq<char>, Seq<char>>
    decreases vars.len(),
{
    if vars.len() == 0 {
        Map::empty()
    } else {
        assignments(vars.drop_last()).insert(vars.last().0@, vars.last().1@)
    }
}

impl View for Environment {
    type V = Map<Seq<char>, Seq<char>>;

    closed spec fn view(&self) -> Map<Seq<char>, Seq<char>> {
        assignments(self.vars@)
    }
}

impl Environment {
    /// A table without variables.
    pub fn new() -> (env: Environment)
        ensures
            env@ == Map::<Seq<char>, Seq<char>>::empty(),
    {
        Environment { vars: Vec::new() }
    }

    /// Give a variable a value.
    pub fn set(&mut self, name: String, value: String)
        ensures
            final(self)@ == old(self)@.insert(name@, value@),
    {
        self.vars.push((name, value));
        assert(self.vars@.drop_last() =~= old(self).vars@);
    }

    /// The value of a variable, if it has one.
    pub fn get(&self, name: &str) -> (value: Option<String>)
        ensures
            value is Some <==> self@.contains_key(name@),
            value matches Some(v) ==> v@ == self@[name@],
    {
        let mut i: usize = self.vars.len();
        assert(self.vars@.take(i as int) =~= self.vars@);
        while i > 0
            invariant
                i <= self.vars.len(),
                self@.contains_key(name@) <==> assignments(
                    self.vars@.take(i as int),
                ).contains_key(name@),
                self@.contains_key(name@) ==> self@[name@] == assignments(
                    self.vars@.take(i as int),
                )[name@],
            decreases i,
        {
            i = i - 1;
            assert(self.vars@.take(i + 1).drop_last() =~= self.vars@.take(i as int));
            if same_text(self.vars[i].0.as_str(), name) {
                return Some(self.vars[i].1.clone());
            }
        }
        None
    }
}

} // verus!
