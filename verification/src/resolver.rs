//! The reference resolver: expands `{name}` reference tokens in a declaration
//! value, recursively, against a declaration table. Malformed brace syntax and
//! reference cycles are structural errors.
use vstd::prelude::*;
use vstd::set_lib::lemma_len_subset;

use crate::decl_table::DeclTable;
use crate::text::push_char;
use crate::text::views_of;

verus! {

/// The structural failures of a run: malformed brace syntax inside a value,
/// a reference cycle among declarations, or a section delimiter past the last
/// section. The caller knows which line it handed in when one comes back, so
/// no position is carried here.
#[derive(Clone, Copy, Debug, PartialEq, Eq, Structural)]
pub enum LexError {
    /// An opening brace inside a still-open reference token.
    DuplicateOpenBrace,
    /// A closing brace with no reference token open.
    DuplicateCloseBrace,
    /// A value that ends with a reference token still open.
    UnterminatedReference,
    /// A chain of references that reaches a name already being expanded.
    CyclicReference,
    /// A `%%` line while already in the last section.
    InvalidPhaseTransition,
}

/// The in-progress names of a resolution: pairwise distinct, and each one a
/// key of the table.
pub open spec fn stack_ok(table: Map<Seq<char>, Seq<char>>, stack: Seq<Seq<char>>) -> bool {
    table.dom().finite() && stack.no_duplicates() && forall|k: int|
        0 <= k < stack.len() ==> table.dom().contains(#[trigger] stack[k])
}

pub proof fn lemma_stack_push_ok(
    table: Map<Seq<char>, Seq<char>>,
    stack: Seq<Seq<char>>,
    name: Seq<char>,
)
    requires
        stack_ok(table, stack),
        !stack.contains(name),
        table.dom().contains(name),
    ensures
        stack_ok(table, stack.push(name)),
        stack.push(name).len() <= table.dom().len(),
{
    let s2 = stack.push(name);
    assert forall|i: int, j: int| 0 <= i < j < s2.len() implies s2[i] != s2[j] by {
        if j < s2.len() - 1 {
            assert(stack[i] == s2[i] && stack[j] == s2[j]);
        } else {
            assert(s2[j] == name);
            assert(stack[i] == s2[i]);
            assert(stack.contains(stack[i]));
        }
    }
    s2.unique_seq_to_set();
    assert(s2.to_set().subset_of(table.dom())) by {
        assert forall|x: Seq<char>| s2.to_set().contains(x) implies table.dom().contains(x) by {
            let m = choose|m: int| 0 <= m < s2.len() && s2[m] == x;
            assert(table.dom().contains(s2[m]));
        }
    }
    lemma_len_subset(s2.to_set(), table.dom());
}

/// The resolved expansion of the declaration `name`: its stored value with
/// every reference token replaced, recursively, by the referent's expansion;
/// an undeclared name expands to nothing; a name already being expanded is a
/// cycle. `stack` holds the names currently being expanded.
pub open spec fn resolve_name_spec(
    table: Map<Seq<char>, Seq<char>>,
    name: Seq<char>,
    stack: Seq<Seq<char>>,
) -> Result<Seq<char>, LexError>
    decreases table.dom().len() - stack.len(), 0int,
    when stack_ok(table, stack)
    via resolve_name_spec_decreases
{
    if stack.contains(name) {
        Err(LexError::CyclicReference)
    } else if !table.dom().contains(name) {
        Ok(Seq::empty())
    } else {
        scan_spec(table, table[name], 0, false, Seq::empty(), stack.push(name))
    }
}

/// One left-to-right scan of `value` from position `i` on: outside a
/// reference token (`in_ref` false) a `{` opens one and any other character
/// is literal output; inside one (`in_ref` true, name read so far in `acc`)
/// a `}` closes it and substitutes the referent's expansion, and any other
/// character extends the name. Unbalanced braces and an open token at the end
/// of the value are structural errors.
pub open spec fn scan_spec(
    table: Map<Seq<char>, Seq<char>>,
    value: Seq<char>,
    i: int,
    in_ref: bool,
    acc: Seq<char>,
    stack: Seq<Seq<char>>,
) -> Result<Seq<char>, LexError>
    decreases table.dom().len() - stack.len(), value.len() - i,
    when stack_ok(table, stack) && 0 <= i <= value.len()
{
    if i == value.len() {
        if in_ref {
            Err(LexError::UnterminatedReference)
        } else {
            Ok(Seq::empty())
        }
    } else {
        let c = value[i];
        if c == '{' {
            if in_ref {
                Err(LexError::DuplicateOpenBrace)
            } else {
                scan_spec(table, value, i + 1, true, Seq::empty(), stack)
            }
        } else if c == '}' {
            if !in_ref {
                Err(LexError::DuplicateCloseBrace)
            } else {
                match resolve_name_spec(table, acc, stack) {
                    Err(e) => Err(e),
                    Ok(sub) => match scan_spec(table, value, i + 1, false, Seq::empty(), stack) {
                        Err(e) => Err(e),
                        Ok(rest) => Ok(sub + rest),
                    },
                }
            }
        } else {
            if in_ref {
                scan_spec(table, value, i + 1, true, acc.push(c), stack)
            } else {
                match scan_spec(table, value, i + 1, false, acc, stack) {
                    Err(e) => Err(e),
                    Ok(rest) => Ok(seq![c] + rest),
                }
            }
        }
    }
}

#[via_fn]
proof fn resolve_name_spec_decreases(
    table: Map<Seq<char>, Seq<char>>,
    name: Seq<char>,
    stack: Seq<Seq<char>>,
) {
    if !stack.contains(name) && table.dom().contains(name) {
        lemma_stack_push_ok(table, stack, name);
    }
}

/// The expansion of a raw value against `table`, with only the names in
/// `stack` already in progress.
pub open spec fn resolve_value_spec(
    table: Map<Seq<char>, Seq<char>>,
    value: Seq<char>,
    stack: Seq<Seq<char>>,
) -> Result<Seq<char>, LexError> {
    scan_spec(table, value, 0, false, Seq::empty(), stack)
}

/// How often `c` occurs in `v` at the positions `lo` up to (excluding) `hi`.
pub open spec fn count_char_in(v: Seq<char>, lo: int, hi: int, c: char) -> int
    decreases hi - lo,
{
    if lo >= hi {
        0
    } else {
        (if v[lo] == c {
            1int
        } else {
            0int
        }) + count_char_in(v, lo + 1, hi, c)
    }
}

proof fn lemma_scan_plain(
    table: Map<Seq<char>, Seq<char>>,
    value: Seq<char>,
    i: int,
    acc: Seq<char>,
    stack: Seq<Seq<char>>,
)
    requires
        stack_ok(table, stack),
        0 <= i <= value.len(),
        forall|k: int| i <= k < value.len() ==> value[k] != '{' && value[k] != '}',
    ensures
        scan_spec(table, value, i, false, acc, stack) == Ok::<Seq<char>, LexError>(value.skip(i)),
    decreases value.len() - i,
{
    if i == value.len() {
        assert(value.skip(i) =~= Seq::<char>::empty());
    } else {
        lemma_scan_plain(table, value, i + 1, acc, stack);
        assert(seq![value[i]] + value.skip(i + 1) =~= value.skip(i));
    }
}

/// Resolution is the identity on an already-fully-resolved value: one that
/// contains no brace character is expanded to itself, unchanged.
pub proof fn lemma_resolve_plain_identity(
    table: Map<Seq<char>, Seq<char>>,
    value: Seq<char>,
    stack: Seq<Seq<char>>,
)
    requires
        stack_ok(table, stack),
        forall|k: int| 0 <= k < value.len() ==> value[k] != '{' && value[k] != '}',
    ensures
        resolve_value_spec(table, value, stack) == Ok::<Seq<char>, LexError>(value),
{
    lemma_scan_plain(table, value, 0, Seq::empty(), stack);
    assert(value.skip(0) =~= value);
}

/// A reference to a name the table does not hold expands to nothing: the
/// name's expansion is the empty text, and no error arises from it.
pub proof fn lemma_unknown_name_empty(
    table: Map<Seq<char>, Seq<char>>,
    name: Seq<char>,
    stack: Seq<Seq<char>>,
)
    requires
        stack_ok(table, stack),
        !table.dom().contains(name),
        !stack.contains(name),
    ensures
        resolve_name_spec(table, name, stack) == Ok::<Seq<char>, LexError>(Seq::empty()),
{
}

proof fn lemma_scan_literal_prefix(
    table: Map<Seq<char>, Seq<char>>,
    value: Seq<char>,
    i: int,
    j: int,
    acc: Seq<char>,
    stack: Seq<Seq<char>>,
)
    requires
        stack_ok(table, stack),
        0 <= i <= j <= value.len(),
        forall|k: int| i <= k < j ==> value[k] != '{' && value[k] != '}',
    ensures
        scan_spec(table, value, j, false, acc, stack) is Ok ==> scan_spec(
            table,
            value,
            i,
            false,
            acc,
            stack,
        ) == Ok::<Seq<char>, LexError>(
            value.subrange(i, j) + scan_spec(table, value, j, false, acc, stack)->Ok_0,
        ),
        scan_spec(table, value, j, false, acc, stack) is Err ==> scan_spec(
            table,
            value,
            i,
            false,
            acc,
            stack,
        ) == scan_spec(table, value, j, false, acc, stack),
    decreases j - i,
{
    if i == j {
        if scan_spec(table, value, j, false, acc, stack) is Ok {
            assert(value.subrange(i, j) =~= Seq::<char>::empty());
            assert(value.subrange(i, j) + scan_spec(table, value, j, false, acc, stack)->Ok_0
                =~= scan_spec(table, value, j, false, acc, stack)->Ok_0);
        }
    } else {
        lemma_scan_literal_prefix(table, value, i + 1, j, acc, stack);
        if scan_spec(table, value, j, false, acc, stack) is Ok {
            let rest = scan_spec(table, value, j, false, acc, stack)->Ok_0;
            assert(seq![value[i]] + (value.subrange(i + 1, j) + rest) =~= value.subrange(i, j)
                + rest);
        }
    }
}

proof fn lemma_scan_name_accum(
    table: Map<Seq<char>, Seq<char>>,
    value: Seq<char>,
    i: int,
    j: int,
    acc: Seq<char>,
    stack: Seq<Seq<char>>,
)
    requires
        stack_ok(table, stack),
        0 <= i <= j <= value.len(),
        forall|k: int| i <= k < j ==> value[k] != '{' && value[k] != '}',
    ensures
        scan_spec(table, value, i, true, acc, stack) == scan_spec(
            table,
            value,
            j,
            true,
            acc + value.subrange(i, j),
            stack,
        ),
    decreases j - i,
{
    if i == j {
        assert(acc + value.subrange(i, j) =~= acc);
    } else {
        lemma_scan_name_accum(table, value, i + 1, j, acc.push(value[i]), stack);
        assert(acc.push(value[i]) + value.subrange(i + 1, j) =~= acc + value.subrange(i, j));
    }
}

/// A well-formed reference to an undeclared name, between brace-free
/// literal text, expands to exactly the surrounding literal text: the
/// unknown reference contributes the empty string.
pub proof fn lemma_unknown_reference_tolerated(
    table: Map<Seq<char>, Seq<char>>,
    before: Seq<char>,
    name: Seq<char>,
    after: Seq<char>,
    stack: Seq<Seq<char>>,
)
    requires
        stack_ok(table, stack),
        forall|k: int| 0 <= k < before.len() ==> before[k] != '{' && before[k] != '}',
        forall|k: int| 0 <= k < name.len() ==> name[k] != '{' && name[k] != '}',
        forall|k: int| 0 <= k < after.len() ==> after[k] != '{' && after[k] != '}',
        !table.dom().contains(name),
        !stack.contains(name),
    ensures
        resolve_value_spec(table, before + seq!['{'] + name + seq!['}'] + after, stack)
            == Ok::<Seq<char>, LexError>(before + after),
{
    let v = before + seq!['{'] + name + seq!['}'] + after;
    let a = before.len() as int;
    let m = name.len() as int;
    assert(v.len() == a + m + 2 + after.len());
    assert(forall|k: int| 0 <= k < a ==> v[k] == before[k]);
    assert(v[a] == '{');
    assert(forall|k: int| 0 <= k < m ==> v[a + 1 + k] == name[k]);
    assert(v[a + 1 + m] == '}');
    assert(forall|k: int| 0 <= k < after.len() ==> v[a + m + 2 + k] == after[k]);

    lemma_scan_plain(table, v, a + m + 2, Seq::empty(), stack);
    assert(v.skip(a + m + 2) =~= after);
    lemma_scan_name_accum(table, v, a + 1, a + 1 + m, Seq::empty(), stack);
    assert(Seq::<char>::empty() + v.subrange(a + 1, a + 1 + m) =~= name);
    assert(scan_spec(table, v, a + 1, true, Seq::empty(), stack) == scan_spec(
        table,
        v,
        a + 1 + m,
        true,
        name,
        stack,
    ));
    assert(resolve_name_spec(table, name, stack) == Ok::<Seq<char>, LexError>(Seq::empty()));
    assert(scan_spec(table, v, a + 1 + m, true, name, stack) == Ok::<Seq<char>, LexError>(
        Seq::<char>::empty() + after,
    ));
    assert(Seq::<char>::empty() + after =~= after);
    assert(scan_spec(table, v, a, false, Seq::empty(), stack) == Ok::<Seq<char>, LexError>(after));
    lemma_scan_literal_prefix(table, v, 0, a, Seq::empty(), stack);
    assert(v.subrange(0, a) =~= before);
    assert(resolve_value_spec(table, v, stack) == Ok::<Seq<char>, LexError>(before + after));
}

proof fn lemma_scan_double_open(
    table: Map<Seq<char>, Seq<char>>,
    value: Seq<char>,
    i: int,
    in_ref: bool,
    acc: Seq<char>,
    stack: Seq<Seq<char>>,
    k: int,
)
    requires
        stack_ok(table, stack),
        0 <= i <= k,
        k + 1 < value.len(),
        value[k] == '{',
        value[k + 1] == '{',
    ensures
        scan_spec(table, value, i, in_ref, acc, stack) is Err,
    decreases k - i,
{
    if i == k {
        if !in_ref {
            assert(scan_spec(table, value, i, in_ref, acc, stack) == scan_spec(
                table,
                value,
                i + 1,
                true,
                Seq::empty(),
                stack,
            ));
        }
    } else {
        let c = value[i];
        if c == '{' {
            if !in_ref {
                lemma_scan_double_open(table, value, i + 1, true, Seq::empty(), stack, k);
            }
        } else if c == '}' {
            if in_ref {
                if resolve_name_spec(table, acc, stack) is Ok {
                    lemma_scan_double_open(table, value, i + 1, false, Seq::empty(), stack, k);
                }
            }
        } else {
            if in_ref {
                lemma_scan_double_open(table, value, i + 1, true, acc.push(c), stack, k);
            } else {
                lemma_scan_double_open(table, value, i + 1, false, acc, stack, k);
            }
        }
    }
}

/// A value holding a nested opening brace — `{{`, an opening brace while a
/// reference token is already open — is rejected with a structural error,
/// never expanded to a silently wrong result.
pub proof fn lemma_nested_open_rejected(
    table: Map<Seq<char>, Seq<char>>,
    value: Seq<char>,
    stack: Seq<Seq<char>>,
    k: int,
)
    requires
        stack_ok(table, stack),
        0 <= k,
        k + 1 < value.len(),
        value[k] == '{',
        value[k + 1] == '{',
    ensures
        resolve_value_spec(table, value, stack) is Err,
{
    lemma_scan_double_open(table, value, 0, false, Seq::empty(), stack, k);
}

proof fn lemma_scan_unmatched_close(
    table: Map<Seq<char>, Seq<char>>,
    value: Seq<char>,
    i: int,
    in_ref: bool,
    acc: Seq<char>,
    stack: Seq<Seq<char>>,
    j: int,
)
    requires
        stack_ok(table, stack),
        0 <= i <= j < value.len(),
        value[j] == '}',
        (if in_ref {
            1int
        } else {
            0int
        }) + count_char_in(value, i, j, '{') - count_char_in(value, i, j, '}') <= 0,
    ensures
        scan_spec(table, value, i, in_ref, acc, stack) is Err,
    decreases j - i,
{
    if i == j {
        assert(count_char_in(value, i, j, '{') == 0);
        assert(count_char_in(value, i, j, '}') == 0);
        assert(!in_ref);
    } else {
        let c = value[i];
        assert(count_char_in(value, i, j, '{') == (if c == '{' {
            1int
        } else {
            0int
        }) + count_char_in(value, i + 1, j, '{'));
        assert(count_char_in(value, i, j, '}') == (if c == '}' {
            1int
        } else {
            0int
        }) + count_char_in(value, i + 1, j, '}'));
        if c == '{' {
            if !in_ref {
                lemma_scan_unmatched_close(table, value, i + 1, true, Seq::empty(), stack, j);
            }
        } else if c == '}' {
            if in_ref {
                if resolve_name_spec(table, acc, stack) is Ok {
                    lemma_scan_unmatched_close(table, value, i + 1, false, Seq::empty(), stack, j);
                }
            }
        } else {
            if in_ref {
                lemma_scan_unmatched_close(table, value, i + 1, true, acc.push(c), stack, j);
            } else {
                lemma_scan_unmatched_close(table, value, i + 1, false, acc, stack, j);
            }
        }
    }
}

/// A closing brace that no earlier opening brace matches — at its position
/// the closing braces before it are at least as many as the opening ones —
/// is rejected with a structural error, never expanded to a silently wrong
/// result.
pub proof fn lemma_unmatched_close_rejected(
    table: Map<Seq<char>, Seq<char>>,
    value: Seq<char>,
    stack: Seq<Seq<char>>,
    j: int,
)
    requires
        stack_ok(table, stack),
        0 <= j < value.len(),
        value[j] == '}',
        count_char_in(value, 0, j, '{') <= count_char_in(value, 0, j, '}'),
    ensures
        resolve_value_spec(table, value, stack) is Err,
{
    lemma_scan_unmatched_close(table, value, 0, false, Seq::empty(), stack, j);
}

/// Expands the declaration `name` of `table` and appends the expansion to
/// `out`; `stack` holds the names whose expansion is in progress.
pub(crate) fn resolve_name_rec(
    table: &DeclTable,
    name: &String,
    stack: &mut Vec<String>,
    out: &mut String,
) -> (r: Result<(), LexError>)
    requires
        table.wf(),
        stack_ok(table@, views_of(old(stack)@)),
    ensures
        match resolve_name_spec(table@, name@, views_of(old(stack)@)) {
            Ok(s) => r == Ok::<(), LexError>(()) && final(out)@ == old(out)@ + s
                && final(stack)@ == old(stack)@,
            Err(e) => r == Err::<(), LexError>(e),
        },
    decreases table@.dom().len() - old(stack)@.len(),
{
    let ghost st0 = views_of(stack@);
    let n = stack.len();
    let mut k: usize = 0;
    while k < n
        invariant
            n == stack@.len(),
            k <= n,
            stack@ == old(stack)@,
            stack_ok(table@, views_of(stack@)),
            st0 == views_of(stack@),
            forall|m: int| 0 <= m < k ==> views_of(stack@)[m] != name@,
        decreases n - k,
    {
        proof {
            assert(views_of(stack@)[k as int] == stack@[k as int]@);
        }
        if stack[k] == *name {
            proof {
                assert(st0.contains(name@)) by {
                    assert(st0[k as int] == name@);
                }
            }
            return Err(LexError::CyclicReference);
        }
        k = k + 1;
    }
    proof {
        assert(!st0.contains(name@));
    }
    match table.get(name) {
        None => {
            proof {
                assert(old(out)@ + Seq::<char>::empty() =~= old(out)@);
            }
            Ok(())
        },
        Some(value_ref) => {
            let ghost val = table@[name@];
            let value = value_ref.clone();
            proof {
                lemma_stack_push_ok(table@, st0, name@);
            }
            stack.push(name.clone());
            let ghost st = views_of(stack@);
            proof {
                assert(st =~= st0.push(name@));
            }
            let ghost full = scan_spec(table@, val, 0, false, Seq::empty(), st);
            let ghost entry_out = out@;
            let len = value.as_str().unicode_len();
            let mut i: usize = 0;
            let mut in_ref = false;
            let mut acc = String::new();
            proof {
                assert(st == st0.push(name@));
                assert(resolve_name_spec(table@, name@, st0) == full);
                assert(out@.take(entry_out.len() as int) =~= entry_out);
                assert(out@.skip(entry_out.len() as int) =~= Seq::<char>::empty());
                if full is Ok {
                    assert(Seq::<char>::empty() + full->Ok_0 =~= full->Ok_0);
                }
            }
            while i < len
                invariant
                    table.wf(),
                    stack_ok(table@, st),
                    st == views_of(stack@),
                    st.len() <= table@.dom().len(),
                    resolve_name_spec(table@, name@, views_of(old(stack)@)) == full,
                    stack@.len() == old(stack)@.len() + 1,
                    stack@.subrange(0, old(stack)@.len() as int) == old(stack)@,
                    value@ == val,
                    len == val.len(),
                    i <= len,
                    entry_out.len() <= out@.len(),
                    out@.take(entry_out.len() as int) == entry_out,
                    entry_out == old(out)@,
                    full == scan_spec(table@, val, 0, false, Seq::empty(), st),
                    match scan_spec(table@, val, i as int, in_ref, acc@, st) {
                        Ok(rest) => full == Ok::<Seq<char>, LexError>(
                            out@.skip(entry_out.len() as int) + rest,
                        ),
                        Err(e) => full == Err::<Seq<char>, LexError>(e),
                    },
                decreases len - i,
            {
                let c = value.as_str().get_char(i);
                if c == '{' {
                    if in_ref {
                        return Err(LexError::DuplicateOpenBrace);
                    }
                    in_ref = true;
                    acc = String::new();
                    i = i + 1;
                } else if c == '}' {
                    if !in_ref {
                        return Err(LexError::DuplicateCloseBrace);
                    }
                    let ghost ref_name = acc@;
                    let ghost pre_out = out@;
                    let res = resolve_name_rec(table, &acc, stack, out);
                    if let Err(e) = res {
                        return Err(e);
                    }
                    in_ref = false;
                    acc = String::new();
                    i = i + 1;
                    proof {
                        let sub = resolve_name_spec(table@, ref_name, st)->Ok_0;
                        assert(out@ == pre_out + sub);
                        assert(out@.take(entry_out.len() as int) =~= entry_out);
                        assert(out@.skip(entry_out.len() as int) =~= pre_out.skip(
                            entry_out.len() as int,
                        ) + sub);
                        if scan_spec(table@, val, i as int, false, acc@, st) is Ok {
                            let rest = scan_spec(table@, val, i as int, false, acc@, st)->Ok_0;
                            assert(pre_out.skip(entry_out.len() as int) + (sub + rest) =~= out@.skip(
                                entry_out.len() as int,
                            ) + rest);
                        }
                    }
                } else {
                    if in_ref {
                        push_char(&mut acc, c);
                    } else {
                        let ghost pre_out = out@;
                        push_char(out, c);
                        proof {
                            assert(out@.take(entry_out.len() as int) =~= entry_out);
                            assert(out@.skip(entry_out.len() as int) =~= pre_out.skip(
                                entry_out.len() as int,
                            ).push(c));
                            if scan_spec(table@, val, i + 1, false, acc@, st) is Ok {
                                let rest = scan_spec(table@, val, i + 1, false, acc@, st)->Ok_0;
                                assert(pre_out.skip(entry_out.len() as int) + (seq![c] + rest)
                                    =~= out@.skip(entry_out.len() as int) + rest);
                            }
                        }
                    }
                    i = i + 1;
                }
            }
            if in_ref {
                return Err(LexError::UnterminatedReference);
            }
            proof {
                assert(out@.skip(entry_out.len() as int) + Seq::<char>::empty() =~= out@.skip(
                    entry_out.len() as int,
                ));
            }
            let _ = stack.pop();
            proof {
                assert(stack@ =~= old(stack)@);
                assert(out@ =~= entry_out + out@.skip(entry_out.len() as int));
            }
            Ok(())
        },
    }
}

} // verus!
