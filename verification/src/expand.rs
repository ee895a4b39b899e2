//! Values that refer to environment variables as `${NAME}`.

use crate::environment::Environment;
use crate::text::chars_of;
use crate::text::find;
use crate::text::string_of;
use crate::text::{contains_part, first_occurrence, lemma_first_occurrence, occurs_at, texts};
use vstd::prelude::*;

verus! {

/// Why a value could not be expanded.
#[derive(Debug)]
pub enum ExpandError {
    /// A `${` has no `}` behind it.
    Unclosed,
    /// The environment has no variable of this name.
    Missing { name: String },
}

/// The model of [`ExpandError`].
pub enum ExpandFault {
    Unclosed,
    Missing(Seq<char>),
}

impl View for ExpandError {
    type V = ExpandFault;

    open spec fn view(&self) -> ExpandFault {
        match self {
            ExpandError::Unclosed => ExpandFault::Unclosed,
            ExpandError::Missing { name } => ExpandFault::Missing(name@),
        }
    }
}

/// What opens a reference.
pub open spec fn opening() -> Seq<char> {
    seq!['$', '{']
}

/// What closes a reference.
pub open spec fn closing() -> Seq<char> {
    seq!['}']
}

/// `text` from `pos` on, with each reference replaced by the value of its variable.  A value is
/// taken as it is: what looks like a reference in it stays.
pub open spec fn expanded_from(
    text: Seq<char>,
    pos: int,
    env: Map<Seq<char>, Seq<char>>,
) -> Result<Seq<char>, ExpandFault>
    decreases text.len() - pos,
    when 0 <= pos <= text.len()
{
    match first_occurrence(text, opening(), pos) {
        None => Ok(text.skip(pos)),
        Some(start) => match first_occurrence(text, closing(), start + 2) {
            None => Err(ExpandFault::Unclosed),
            Some(end) => {
                proof {
                    lemma_first_occurrence(text, opening(), pos);
                    lemma_first_occurrence(text, closing(), start + 2);
                }
                let name = text.subrange(start + 2, end);
                if env.contains_key(name) {
                    match expanded_from(text, end + 1, env) {
                        Ok(tail) => Ok(text.subrange(pos, start) + env[name] + tail),
                        Err(fault) => Err(fault),
                    }
                } else {
                    Err(ExpandFault::Missing(name))
                }
            },
        },
    }
}

/// `text` with each reference replaced by the value of its variable.
pub open spec fn expanded(
    text: Seq<char>,
    env: Map<Seq<char>, Seq<char>>,
) -> Result<Seq<char>, ExpandFault> {
    expanded_from(text, 0, env)
}

/// The names of the variables that `text` refers to from `pos` on, in their order.
pub open spec fn names_from(text: Seq<char>, pos: int) -> Seq<Seq<char>>
    decreases text.len() - pos,
    when 0 <= pos <= text.len()
{
    match first_occurrence(text, opening(), pos) {
        None => Seq::empty(),
        Some(start) => match first_occurrence(text, closing(), start + 2) {
            None => Seq::empty(),
            Some(end) => {
                proof {
                    lemma_first_occurrence(text, opening(), pos);
                    lemma_first_occurrence(text, closing(), start + 2);
                }
                seq![text.subrange(start + 2, end)] + names_from(text, end + 1)
            },
        },
    }
}

/// The names of the variables that `text` refers to, in their order.
pub open spec fn names(text: Seq<char>) -> Seq<Seq<char>> {
    names_from(text, 0)
}

/// `front` before the text of an expansion; a failed one stays as it is.
spec fn behind(
    front: Seq<char>,
    rest: Result<Seq<char>, ExpandFault>,
) -> Result<Seq<char>, ExpandFault> {
    match rest {
        Ok(tail) => Ok(front + tail),
        Err(fault) => Err(fault),
    }
}

/// The model of what [`expand_env`] returns.
pub open spec fn outcome(result: Result<String, ExpandError>) -> Result<Seq<char>, ExpandFault> {
    match result {
        Ok(text) => Ok(text@),
        Err(error) => Err(error@),
    }
}

/// Replace each `${NAME}` in `input` by the value of the variable.
///
/// The first reference that is not closed, or whose variable is not set, is an error.  A value
/// without `${` comes back as it is.
pub fn expand_env(input: &str, env: &Environment) -> (result: Result<String, ExpandError>)
    ensures
        outcome(result) == expanded(input@, env@),
        result matches Ok(text) ==> expanded(input@, env@) == Ok::<Seq<char>, ExpandFault>(text@),
        result matches Err(error) ==> expanded(input@, env@) == Err::<Seq<char>, ExpandFault>(
            error@,
        ),
{
    let text = chars_of(input);
    let open: Vec<char> = vec!['$', '{'];
    let close: Vec<char> = vec!['}'];
    assert(open@ =~= opening());
    assert(close@ =~= closing());
    let mut out = String::new();
    let mut pos: usize = 0;
    assert(behind(out@, expanded_from(text@, 0, env@)) == expanded(text@, env@)) by {
        if let Ok(tail) = expanded(text@, env@) {
            assert(out@ + tail =~= tail);
        }
    }
    loop
        invariant
            text@ == input@,
            open@ == opening(),
            close@ == closing(),
            pos <= text.len(),
            behind(out@, expanded_from(text@, pos as int, env@)) == expanded(input@, env@),
        decreases text.len() - pos,
    {
        proof {
            lemma_first_occurrence(text@, open@, pos as int);
        }
        match find(&text, &open, pos) {
            None => {
                let rest = string_of(&text, pos, text.len());
                assert(rest@ =~= text@.skip(pos as int));
                out.append(rest.as_str());
                return Ok(out);
            },
            Some(start) => {
                assert(occurs_at(text@, open@, start as int));
                proof {
                    lemma_first_occurrence(text@, close@, start + 2);
                }
                match find(&text, &close, start + 2) {
                    None => {
                        return Err(ExpandError::Unclosed);
                    },
                    Some(end) => {
                        assert(occurs_at(text@, close@, end as int));
                        let name = string_of(&text, start + 2, end);
                        match env.get(name.as_str()) {
                            None => {
                                return Err(ExpandError::Missing { name });
                            },
                            Some(value) => {
                                let ghost before = out@;
                                let ghost tail = expanded_from(text@, end + 1, env@);
                                let front = string_of(&text, pos, start);
                                out.append(front.as_str());
                                out.append(value.as_str());
                                proof {
                                    if let Ok(t) = tail {
                                        assert(before + (front@ + value@ + t) =~= out@ + t);
                                    }
                                }
                                pos = end + 1;
                            },
                        }
                    },
                }
            },
        }
    }
}

/// The names of the variables that `input` refers to.
pub fn env_names(input: &str) -> (found: Vec<String>)
    ensures
        texts(found@) == names(input@),
{
    let text = chars_of(input);
    let open: Vec<char> = vec!['$', '{'];
    let close: Vec<char> = vec!['}'];
    assert(open@ =~= opening());
    assert(close@ =~= closing());
    let mut found: Vec<String> = Vec::new();
    let mut pos: usize = 0;
    assert(texts(found@) + names_from(text@, 0) =~= names(text@));
    loop
        invariant
            text@ == input@,
            open@ == opening(),
            close@ == closing(),
            pos <= text.len(),
            texts(found@) + names_from(text@, pos as int) == names(input@),
        decreases text.len() - pos,
    {
        proof {
            lemma_first_occurrence(text@, open@, pos as int);
        }
        let start: usize = match find(&text, &open, pos) {
            None => {
                assert(texts(found@) + names_from(text@, pos as int) =~= texts(found@));
                return found;
            },
            Some(start) => start,
        };
        assert(occurs_at(text@, open@, start as int));
        proof {
            lemma_first_occurrence(text@, close@, start + 2);
        }
        let end: usize = match find(&text, &close, start + 2) {
            None => {
                assert(texts(found@) + names_from(text@, pos as int) =~= texts(found@));
                return found;
            },
            Some(end) => end,
        };
        assert(occurs_at(text@, close@, end as int));
        let name = string_of(&text, start + 2, end);
        let ghost before = texts(found@);
        let ghost tail = names_from(text@, end + 1);
        found.push(name);
        assert(texts(found@) =~= before.push(name@));
        assert(texts(found@) + tail =~= before + (seq![name@] + tail));
        pos = end + 1;
    }
}

/// A value without `${` is its own expansion, whatever the environment holds.
pub proof fn law_plain_value_is_kept(text: Seq<char>, env: Map<Seq<char>, Seq<char>>)
    requires
        !contains_part(text, opening()),
    ensures
        expanded(text, env) == Ok::<Seq<char>, ExpandFault>(text),
        names(text) == Seq::<Seq<char>>::empty(),
{
    lemma_first_occurrence(text, opening(), 0);
    assert(text.skip(0) =~= text);
}

/// A value expands only where the environment sets every variable that it refers to.
pub proof fn law_expansion_needs_every_variable(
    text: Seq<char>,
    env: Map<Seq<char>, Seq<char>>,
)
    requires
        expanded(text, env) is Ok,
    ensures
        forall|i: int| 0 <= i < names(text).len() ==> env.contains_key(#[trigger] names(text)[i]),
{
    lemma_needs_every_variable(text, 0, env);
}

proof fn lemma_needs_every_variable(
    text: Seq<char>,
    pos: int,
    env: Map<Seq<char>, Seq<char>>,
)
    requires
        0 <= pos <= text.len(),
        expanded_from(text, pos, env) is Ok,
    ensures
        forall|i: int|
            0 <= i < names_from(text, pos).len() ==> env.contains_key(
                #[trigger] names_from(text, pos)[i],
            ),
    decreases text.len() - pos,
{
    lemma_first_occurrence(text, opening(), pos);
    if let Some(start) = first_occurrence(text, opening(), pos) {
        lemma_first_occurrence(text, closing(), start + 2);
        if let Some(end) = first_occurrence(text, closing(), start + 2) {
            lemma_needs_every_variable(text, end + 1, env);
            let later = names_from(text, end + 1);
            assert forall|i: int| 0 <= i < names_from(text, pos).len() implies env.contains_key(
                #[trigger] names_from(text, pos)[i],
            ) by {
                if i > 0 {
                    assert(names_from(text, pos)[i] == later[i - 1]);
                }
            }
        }
    }
}

/// What a value expands to rests on the variables that it refers to and on no others.
pub proof fn law_expansion_rests_on_its_names(
    text: Seq<char>,
    env: Map<Seq<char>, Seq<char>>,
    other: Map<Seq<char>, Seq<char>>,
)
    requires
        forall|i: int|
            0 <= i < names(text).len() ==> env.get(#[trigger] names(text)[i]) == other.get(
                names(text)[i],
            ),
    ensures
        expanded(text, env) == expanded(text, other),
{
    assert forall|i: int| 0 <= i < names_from(text, 0).len() implies env.get(
        #[trigger] names_from(text, 0)[i],
    ) == other.get(names_from(text, 0)[i]) by {
        assert(names(text)[i] == names_from(text, 0)[i]);
    }
    lemma_rests_on_names(text, 0, env, other);
}

proof fn lemma_rests_on_names(
    text: Seq<char>,
    pos: int,
    env: Map<Seq<char>, Seq<char>>,
    other: Map<Seq<char>, Seq<char>>,
)
    requires
        0 <= pos <= text.len(),
        forall|i: int|
            0 <= i < names_from(text, pos).len() ==> env.get(#[trigger] names_from(text, pos)[i])
                == other.get(names_from(text, pos)[i]),
    ensures
        expanded_from(text, pos, env) == expanded_from(text, pos, other),
    decreases text.len() - pos,
{
    lemma_first_occurrence(text, opening(), pos);
    if let Some(start) = first_occurrence(text, opening(), pos) {
        lemma_first_occurrence(text, closing(), start + 2);
        if let Some(end) = first_occurrence(text, closing(), start + 2) {
            let all = names_from(text, pos);
            let later = names_from(text, end + 1);
            assert(all[0] == text.subrange(start + 2, end));
            assert forall|i: int| 0 <= i < later.len() implies env.get(#[trigger] later[i])
                == other.get(later[i]) by {
                assert(all[i + 1] == later[i]);
            }
            lemma_rests_on_names(text, end + 1, env, other);
        }
    }
}

impl ExpandError {
    /// The error in words.
    pub fn message(&self) -> (text: String)
        ensures
            text@ == match self@ {
                ExpandFault::Unclosed => "незакрытая ${...} в значении ключа"@,
                ExpandFault::Missing(name) => "переменная окружения '"@ + name
                    + "' не установлена"@,
            },
    {
        match self {
            ExpandError::Unclosed => "незакрытая ${...} в значении ключа".to_string(),
            ExpandError::Missing { name } => "переменная окружения '".to_string().concat(
                name.as_str(),
            ).concat("' не установлена"),
        }
    }
}

} // verus!
