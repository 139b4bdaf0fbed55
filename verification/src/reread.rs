use vstd::prelude::*;
use crate::decimal::byte_at;
use crate::error::ParseError;
use crate::graph::Graph;
use crate::lex::Token;
use crate::parser::BuildState;
use crate::relex::{lemma_relex, stands_at, token_ok};
use crate::unlex::{unlex, unlex_all};

verus! {

/// The state that the tokens lead to, where each of them can stand in its place.
pub open spec fn steps(st: BuildState, ts: Seq<Token>) -> Option<BuildState>
    decreases ts.len(),
{
    if ts.len() == 0 {
        Some(st)
    } else {
        match steps(st, ts.drop_last()) {
            Some(m) => match m.step(ts.last()) {
                Ok(n) => Some(n),
                Err(_) => None,
            },
            None => None,
        }
    }
}

pub open spec fn all_ok(ts: Seq<Token>) -> bool {
    forall|k: int| 0 <= k < ts.len() ==> token_ok(#[trigger] ts[k])
}

pub proof fn lemma_steps_join(st: BuildState, a: Seq<Token>, b: Seq<Token>)
    ensures
        steps(st, a + b) == match steps(st, a) {
            Some(m) => steps(m, b),
            None => None,
        },
    decreases b.len(),
{
    if b.len() == 0 {
        assert(a + b =~= a);
    } else {
        assert((a + b).drop_last() =~= a + b.drop_last());
        assert((a + b).last() == b.last());
        lemma_steps_join(st, a, b.drop_last());
    }
}

pub proof fn lemma_steps_one(st: BuildState, t: Token)
    ensures
        steps(st, seq![t]) == match st.step(t) {
            Ok(n) => Some(n),
            Err(_) => None,
        },
{
    assert(seq![t].drop_last() =~= Seq::<Token>::empty());
    assert(steps(st, seq![t].drop_last()) == Some(st));
}

pub proof fn lemma_unlex_join(a: Seq<Token>, b: Seq<Token>)
    ensures
        unlex_all(a + b) == unlex_all(a) + unlex_all(b),
    decreases b.len(),
{
    if b.len() == 0 {
        assert(a + b =~= a);
        assert(unlex_all(a) + unlex_all(b) =~= unlex_all(a));
    } else {
        assert((a + b).drop_last() =~= a + b.drop_last());
        assert((a + b).last() == b.last());
        lemma_unlex_join(a, b.drop_last());
        assert(unlex_all(a) + unlex_all(b.drop_last()) + unlex(b.last()) =~= unlex_all(a) + (unlex_all(
            b.drop_last(),
        ) + unlex(b.last())));
    }
}

pub proof fn lemma_unlex_one(t: Token)
    ensures
        unlex_all(seq![t]) == unlex(t),
{
    reveal_with_fuel(unlex_all, 2);
    assert(seq![t].drop_last() =~= Seq::<Token>::empty());
    assert(seq![t].last() == t);
    assert(unlex_all(seq![t].drop_last()) =~= Seq::<u8>::empty());
    assert(unlex_all(seq![t]) =~= unlex(t));
}

proof fn lemma_first_byte(t: Token)
    requires
        token_ok(t),
    ensures
        unlex(t).len() > 0,
        unlex(t)[0] != 108,
        unlex(t)[0] != 114,
{
    let s = unlex(t);
    assert(stands_at(s, 0, s)) by {
        assert(s.subrange(0, s.len() as int) =~= s);
    }
    lemma_relex(s, 0, t);
}

/// What the end of a text makes of a state.
pub open spec fn ended(st: BuildState, len: int) -> Result<Graph, ParseError> {
    match st.finish() {
        Ok(g) => Ok(g),
        Err(kind) => Err(ParseError { kind, position: len as usize }),
    }
}

/// Reading the text of tokens does what the tokens do one after the other.
pub proof fn lemma_run_tokens(st: BuildState, pre: Seq<u8>, ts: Seq<Token>)
    requires
        all_ok(ts),
        steps(st, ts) is Some,
    ensures
        st.run(pre + unlex_all(ts), pre.len() as int) == ended(
            steps(st, ts).unwrap(),
            (pre + unlex_all(ts)).len() as int,
        ),
    decreases ts.len(),
{
    let s = pre + unlex_all(ts);
    if ts.len() == 0 {
        assert(s =~= pre);
    } else {
        let t = ts[0];
        let rest = ts.skip(1);
        assert(ts =~= seq![t] + rest);
        lemma_unlex_join(seq![t], rest);
        lemma_unlex_one(t);
        lemma_steps_join(st, seq![t], rest);
        lemma_steps_one(st, t);
        assert(token_ok(ts[0]));
        lemma_first_byte(t);
        let u = unlex(t);
        let i = pre.len() as int;
        assert(s =~= (pre + u) + unlex_all(rest));
        assert(stands_at(s, i, u)) by {
            assert(s.subrange(i, i + u.len()) =~= u);
        }
        if rest.len() > 0 {
            let t2 = rest[0];
            assert(token_ok(ts[1]));
            lemma_first_byte(t2);
            assert(rest =~= seq![t2] + rest.skip(1));
            lemma_unlex_join(seq![t2], rest.skip(1));
            lemma_unlex_one(t2);
            assert(byte_at(s, i + u.len()) == unlex(t2)[0]);
        } else {
            assert(unlex_all(rest) =~= Seq::<u8>::empty());
            assert(byte_at(s, i + u.len()) == 0);
        }
        lemma_relex(s, i, t);
        let next = st.step(t).unwrap();
        assert(all_ok(rest)) by {
            assert forall|k: int| 0 <= k < rest.len() implies token_ok(#[trigger] rest[k]) by {
                assert(rest[k] == ts[k + 1]);
            }
        }
        lemma_run_tokens(next, pre + u, rest);
    }
}

} // verus!
