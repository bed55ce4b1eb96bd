//! The capability chain that the client presents.
//!
//! The chain is made elsewhere; here it is only found. In order of precedence it is the one given on
//! the command line, the one in the job's configuration, the one in the environment, and the one in
//! the capability file.

use crate::text;
use vstd::prelude::*;
use vstd::string::*;

verus! {

/// The first of `sources` that is more than whitespace, trimmed; empty if none is.
pub open spec fn first_chain(sources: Seq<Option<Seq<char>>>) -> Seq<char>
    decreases sources.len(),
{
    if sources.len() == 0 {
        Seq::empty()
    } else {
        match sources.first() {
            Some(c) => if text::trimmed(c).len() > 0 {
                text::trimmed(c)
            } else {
                first_chain(sources.drop_first())
            },
            None => first_chain(sources.drop_first()),
        }
    }
}

/// The chain to present, by where it may come from.
pub open spec fn resolved(
    explicit: Option<Seq<char>>,
    from_config: Option<Seq<char>>,
    from_env: Option<Seq<char>>,
    from_file: Option<Seq<char>>,
) -> Seq<char> {
    first_chain(seq![explicit, from_config, from_env, from_file])
}

/// The chain as it is passed to a deployment: `None` where there is none.
pub open spec fn grant_of(chain: Seq<char>) -> Option<Seq<char>> {
    if text::trimmed(chain).len() == 0 {
        None
    } else {
        Some(text::trimmed(chain))
    }
}

/// The capability chain to present: `explicit` from the command line, else `from_config`, else
/// `from_env`, else `from_file`; whichever of these first holds more than whitespace.
pub fn resolve(
    explicit: Option<&str>,
    from_config: Option<&str>,
    from_env: Option<&str>,
    from_file: Option<&str>,
) -> (res: String)
    ensures
        res@ == resolved(
            text::opt_view(explicit),
            text::opt_view(from_config),
            text::opt_view(from_env),
            text::opt_view(from_file),
        ),
{
    let ghost sources = seq![
        text::opt_view(explicit),
        text::opt_view(from_config),
        text::opt_view(from_env),
        text::opt_view(from_file),
    ];
    proof {
        reveal_with_fuel(first_chain, 5);
        assert(sources.drop_first().drop_first().drop_first().drop_first() =~= Seq::empty());
    }
    if let Some(c) = explicit {
        let c: &str = text::trim(c);
        if !c.is_empty() {
            return c.to_owned();
        }
    }
    if let Some(c) = from_config {
        let c: &str = text::trim(c);
        if !c.is_empty() {
            return c.to_owned();
        }
    }
    if let Some(c) = from_env {
        let c: &str = text::trim(c);
        if !c.is_empty() {
            return c.to_owned();
        }
    }
    if let Some(c) = from_file {
        let c: &str = text::trim(c);
        if !c.is_empty() {
            return c.to_owned();
        }
    }
    String::new()
}

/// The chain as it is passed to a deployment: `None` where it is only whitespace.
pub fn grant(chain: &str) -> (res: Option<&str>)
    ensures
        text::opt_view(res) == grant_of(chain@),
{
    let c: &str = text::trim(chain);
    if c.is_empty() {
        None
    } else {
        Some(c)
    }
}

/// A source that holds more than whitespace wins over all that follow it.
pub proof fn earlier_source_takes_precedence(
    before: Seq<Option<Seq<char>>>,
    chain: Seq<char>,
    after: Seq<Option<Seq<char>>>,
)
    requires
        forall|i: int| #![trigger before[i]]
            0 <= i < before.len() ==> match before[i] {
                Some(c) => text::trimmed(c).len() == 0,
                None => true,
            },
        text::trimmed(chain).len() > 0,
    ensures
        first_chain(before.push(Some(chain)) + after) == text::trimmed(chain),
    decreases before.len(),
{
    let all = before.push(Some(chain)) + after;
    if before.len() > 0 {
        let rest = before.drop_first();
        assert forall|i: int| #![trigger rest[i]] 0 <= i < rest.len() implies match rest[i] {
            Some(c) => text::trimmed(c).len() == 0,
            None => true,
        } by {
            assert(rest[i] == before[i + 1]);
        }
        earlier_source_takes_precedence(rest, chain, after);
        assert(all.first() == before[0]);
        assert(all.drop_first() =~= rest.push(Some(chain)) + after);
    } else {
        assert(all.first() == Some(chain));
    }
}

/// There is no chain exactly when no source holds more than whitespace.
pub proof fn no_chain_means_no_source(sources: Seq<Option<Seq<char>>>)
    ensures
        first_chain(sources).len() == 0 <==> forall|i: int|
            #![trigger sources[i]]
            0 <= i < sources.len() ==> match sources[i] {
                Some(c) => text::trimmed(c).len() == 0,
                None => true,
            },
    decreases sources.len(),
{
    if sources.len() > 0 {
        let rest = sources.drop_first();
        no_chain_means_no_source(rest);
        if first_chain(sources).len() == 0 {
            assert forall|i: int|
                #![trigger sources[i]]
                0 <= i < sources.len() implies match sources[i] {
                Some(c) => text::trimmed(c).len() == 0,
                None => true,
            } by {
                if i > 0 {
                    assert(rest[i - 1] == sources[i]);
                }
            }
        } else if first_chain(rest).len() != 0 {
            let i = choose|i: int|
                #![trigger rest[i]]
                0 <= i < rest.len() && !(match rest[i] {
                    Some(c) => text::trimmed(c).len() == 0,
                    None => true,
                });
            assert(sources[i + 1] == rest[i]);
        } else {
            assert(sources[0] == sources.first());
        }
    }
}

/// The chain that was found is presented as it was found, and nothing is presented where none was.
pub proof fn found_chain_is_presented(sources: Seq<Option<Seq<char>>>)
    ensures
        grant_of(first_chain(sources)) == (if first_chain(sources).len() == 0 {
            None
        } else {
            Some(first_chain(sources))
        }),
    decreases sources.len(),
{
    if sources.len() > 0 {
        found_chain_is_presented(sources.drop_first());
        if let Some(c) = sources.first() {
            text::lemma_trimmed_twice(c);
        }
    }
}

/// Whether a source holds more than whitespace.
pub open spec fn filled(source: Option<Seq<char>>) -> bool {
    match source {
        Some(c) => exists|i: int| 0 <= i < c.len() && !text::is_space(#[trigger] c[i]),
        None => false,
    }
}

/// The chain is the first source that holds more than whitespace, without the whitespace at its ends:
/// the command line's, else the configuration's, else the environment's, else the file's. Where none
/// does, there is no chain.
pub proof fn chain_is_the_first_that_is_filled(
    explicit: Option<Seq<char>>,
    from_config: Option<Seq<char>>,
    from_env: Option<Seq<char>>,
    from_file: Option<Seq<char>>,
)
    ensures
        ({
            let chain = resolved(explicit, from_config, from_env, from_file);
            if filled(explicit) {
                chain == text::trimmed(explicit->0)
            } else if filled(from_config) {
                chain == text::trimmed(from_config->0)
            } else if filled(from_env) {
                chain == text::trimmed(from_env->0)
            } else if filled(from_file) {
                chain == text::trimmed(from_file->0)
            } else {
                chain.len() == 0
            }
        }),
{
    let sources = seq![explicit, from_config, from_env, from_file];
    lemma_filled(explicit);
    lemma_filled(from_config);
    lemma_filled(from_env);
    lemma_filled(from_file);
    reveal_with_fuel(first_chain, 5);
    assert(sources.drop_first() =~= seq![from_config, from_env, from_file]);
    assert(sources.drop_first().drop_first() =~= seq![from_env, from_file]);
    assert(sources.drop_first().drop_first().drop_first() =~= seq![from_file]);
    assert(sources.drop_first().drop_first().drop_first().drop_first() =~= Seq::empty());
}

proof fn lemma_filled(source: Option<Seq<char>>)
    ensures
        source matches Some(c) ==> (filled(source) <==> text::trimmed(c).len() > 0),
{
    if let Some(c) = source {
        let (a, b) = text::trimming_takes_only_the_ends(c);
        if text::trimmed(c).len() > 0 {
            assert(!text::is_space(c[a]));
        }
    }
}

/// A chain is presented without the whitespace at its ends, and only whitespace is not presented.
pub proof fn whitespace_is_not_presented(chain: Seq<char>)
    ensures
        grant_of(chain) is None <==> forall|i: int|
            0 <= i < chain.len() ==> text::is_space(#[trigger] chain[i]),
        grant_of(chain) is Some ==> grant_of(chain)->0 == text::trimmed(chain),
{
    let (a, b) = text::trimming_takes_only_the_ends(chain);
}

} // verus!
