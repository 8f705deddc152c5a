//! Character-level text model: whitespace, tokenization of a line into
//! whitespace-delimited fields, and joining fields with single spaces.
use vstd::prelude::*;
use vstd::string::*;

verus! {

/// The whitespace characters recognized when splitting a line into fields.
pub open spec fn is_space(c: char) -> bool {
    c == ' ' || c == '\t' || c == '\r' || c == '\n'
}

/// Executable test matching `is_space`.
pub fn is_space_char(c: char) -> (b: bool)
    ensures
        b == is_space(c),
{
    c == ' ' || c == '\t' || c == '\r' || c == '\n'
}

/// Length of the maximal non-whitespace prefix of `s`.
pub open spec fn token_len(s: Seq<char>) -> nat
    decreases s.len(),
{
    if s.len() == 0 || is_space(s[0]) {
        0
    } else {
        1 + token_len(s.drop_first())
    }
}

/// The whitespace-delimited fields of `s`, in order.
pub open spec fn tokens_of(s: Seq<char>) -> Seq<Seq<char>>
    decreases s.len(),
    via tokens_of_decreases
{
    if s.len() == 0 {
        Seq::empty()
    } else if is_space(s[0]) {
        tokens_of(s.drop_first())
    } else {
        seq![s.take(token_len(s) as int)] + tokens_of(s.skip(token_len(s) as int))
    }
}

#[via_fn]
proof fn tokens_of_decreases(s: Seq<char>) {
    if s.len() > 0 && !is_space(s[0]) {
        assert(token_len(s) == 1 + token_len(s.drop_first()));
        lemma_token_len_bound(s);
    }
}

/// The fields of `ts` joined with a single space between consecutive fields.
pub open spec fn join_tokens(ts: Seq<Seq<char>>) -> Seq<char>
    decreases ts.len(),
{
    if ts.len() == 0 {
        Seq::empty()
    } else if ts.len() == 1 {
        ts[0]
    } else {
        ts[0] + seq![' '] + join_tokens(ts.drop_first())
    }
}

/// A line is blank exactly when it has no whitespace-delimited field.
pub open spec fn is_blank(s: Seq<char>) -> bool {
    tokens_of(s) == Seq::<Seq<char>>::empty()
}

proof fn lemma_token_len_bound(s: Seq<char>)
    ensures
        token_len(s) <= s.len(),
        forall|k: int| 0 <= k < token_len(s) ==> !is_space(s[k]),
        token_len(s) < s.len() ==> is_space(s[token_len(s) as int]),
    decreases s.len(),
{
    if s.len() == 0 || is_space(s[0]) {
    } else {
        lemma_token_len_bound(s.drop_first());
        assert forall|k: int| 0 <= k < token_len(s) implies !is_space(s[k]) by {
            if k > 0 {
                assert(s.drop_first()[k - 1] == s[k]);
                assert(!is_space(s.drop_first()[k - 1]));
            }
        }
        if token_len(s) < s.len() {
            assert(s.drop_first()[token_len(s.drop_first()) as int] == s[token_len(s) as int]);
        }
    }
}

/// A run of characters that is non-whitespace from `i` up to `j`, and ends
/// there, is exactly the maximal token at `i`.
proof fn lemma_token_len_exact(s: Seq<char>, m: int)
    requires
        0 <= m <= s.len(),
        forall|k: int| 0 <= k < m ==> !is_space(s[k]),
        m < s.len() ==> is_space(s[m]),
    ensures
        token_len(s) == m,
    decreases s.len(),
{
    if m == 0 {
    } else {
        assert(!is_space(s[0]));
        lemma_token_len_exact(s.drop_first(), m - 1);
    }
}

/// Relies on String::push: appends exactly the given character at the end.
#[verifier::external_body]
pub(crate) fn push_char(s: &mut String, c: char)
    ensures
        final(s)@ == old(s)@.push(c),
{
    s.push(c);
}

/// The views of a sequence of owned strings.
pub open spec fn views_of(ts: Seq<String>) -> Seq<Seq<char>> {
    ts.map_values(|t: String| t@)
}

/// Splits a line into its whitespace-delimited fields, in order.
pub fn tokens_exec(line: &str) -> (toks: Vec<String>)
    ensures
        views_of(toks@) == tokens_of(line@),
{
    let n = line.unicode_len();
    let mut toks: Vec<String> = Vec::new();
    let mut i: usize = 0;
    proof {
        assert(line@.skip(0) =~= line@);
        assert(views_of(toks@) =~= Seq::<Seq<char>>::empty());
        assert(views_of(toks@) + tokens_of(line@) =~= tokens_of(line@));
    }
    while i < n
        invariant
            n == line@.len(),
            i <= n,
            tokens_of(line@) == views_of(toks@) + tokens_of(line@.skip(i as int)),
        decreases n - i,
    {
        let c = line.get_char(i);
        if is_space_char(c) {
            proof {
                assert(line@.skip(i as int).drop_first() =~= line@.skip(i + 1));
            }
            i = i + 1;
        } else {
            let mut j: usize = i + 1;
            while j < n && !is_space_char(line.get_char(j))
                invariant
                    n == line@.len(),
                    i < j <= n,
                    forall|k: int| i <= k < j ==> !is_space(line@[k]),
                decreases n - j,
            {
                j = j + 1;
            }
            let tok = line.substring_char(i, j);
            proof {
                let rest = line@.skip(i as int);
                assert forall|k: int| 0 <= k < j - i implies !is_space(rest[k]) by {
                    assert(rest[k] == line@[i + k]);
                }
                if j < n {
                    assert(rest[j - i] == line@[j as int]);
                }
                lemma_token_len_exact(rest, j - i);
                assert(rest.take(j - i) =~= line@.subrange(i as int, j as int));
                assert(rest.skip(j - i) =~= line@.skip(j as int));
            }
            let owned = tok.to_owned();
            let ghost old_toks = toks@;
            toks.push(owned);
            proof {
                assert(views_of(toks@) =~= views_of(old_toks) + seq![tok@]);
                assert(views_of(old_toks) + (seq![tok@] + tokens_of(line@.skip(j as int)))
                    =~= (views_of(old_toks) + seq![tok@]) + tokens_of(line@.skip(j as int)));
            }
            i = j;
        }
    }
    proof {
        assert(line@.skip(n as int) =~= Seq::<char>::empty());
        assert(tokens_of(Seq::<char>::empty()) == Seq::<Seq<char>>::empty());
        assert(views_of(toks@) + tokens_of(line@.skip(n as int)) =~= views_of(toks@));
    }
    toks
}

/// Joins the fields of `toks` from position `i` on with single spaces.
pub fn join_from(toks: &Vec<String>, i: usize) -> (r: String)
    requires
        i <= toks.len(),
    ensures
        r@ == join_tokens(views_of(toks@).skip(i as int)),
    decreases toks.len() - i,
{
    proof {
        reveal_strlit(" ");
    }
    if i >= toks.len() {
        proof {
            assert(views_of(toks@).skip(i as int) =~= Seq::<Seq<char>>::empty());
        }
        String::new()
    } else if i == toks.len() - 1 {
        proof {
            assert(views_of(toks@).skip(i as int).len() == 1);
            assert(views_of(toks@).skip(i as int)[0] == toks@[i as int]@);
        }
        toks[i].clone()
    } else {
        let mut s = toks[i].clone();
        s.append(" ");
        let rest = join_from(toks, i + 1);
        s.append(rest.as_str());
        proof {
            let vs = views_of(toks@);
            assert(vs.skip(i as int)[0] == toks@[i as int]@);
            assert(vs.skip(i as int).drop_first() =~= vs.skip(i + 1));
            assert(" "@ =~= seq![' ']);
            assert((toks@[i as int]@ + " "@) + rest@ =~= toks@[i as int]@ + seq![' ']
                + rest@);
        }
        s
    }
}

} // verus!
