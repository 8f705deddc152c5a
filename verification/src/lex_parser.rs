//! The phase scanner: classifies each input line as blank, section delimiter
//! or content, advances the section phase on `%%` lines, and records the
//! content lines of the declarations section in the declaration table, each
//! one resolved eagerly against the table as it stands at that moment.
use vstd::prelude::*;

use crate::decl_table::DeclTable;
use crate::resolver::resolve_name_rec;
use crate::resolver::resolve_name_spec;
use crate::resolver::LexError;
use crate::text::is_blank;
use crate::text::join_from;
use crate::text::join_tokens;
use crate::text::tokens_exec;
use crate::text::tokens_of;
use crate::text::views_of;

verus! {

/// The section the scanner is in; `%%` lines move it strictly forward, and
/// `Finish` marks a completed run.
#[derive(Clone, Copy, Debug, PartialEq, Eq, Structural)]
pub enum LexState {
    Declarations,
    TranslationRules,
    Functions,
    Finish,
}

/// A line whose content, ignoring surrounding whitespace, is exactly the
/// two-character section delimiter: its sole whitespace-delimited field is
/// `%%`.
pub open spec fn is_delim(line: Seq<char>) -> bool {
    tokens_of(line) == seq![seq!['%', '%']]
}

/// Recording one declarations-section line: the first field is the name, the
/// remaining fields joined with single spaces are the raw value; the raw
/// value is stored, immediately resolved against the table as it then
/// stands, and the resolved text replaces it.
pub open spec fn record_spec(t: Map<Seq<char>, Seq<char>>, line: Seq<char>) -> Result<
    Map<Seq<char>, Seq<char>>,
    LexError,
>
    recommends
        !is_blank(line),
        t.dom().finite(),
{
    let toks = tokens_of(line);
    let name = toks[0];
    let raw = join_tokens(toks.drop_first());
    let t1 = t.insert(name, raw);
    match resolve_name_spec(t1, name, Seq::empty()) {
        Ok(r) => Ok(t1.insert(name, r)),
        Err(e) => Err(e),
    }
}

/// One line's effect on the scanner: blank lines change nothing, a delimiter
/// advances the phase (and is an error past the last section), a content
/// line is recorded while in the declarations phase and ignored by this core
/// in the later phases.
pub open spec fn step_spec(
    ph: LexState,
    t: Map<Seq<char>, Seq<char>>,
    line: Seq<char>,
) -> Result<(LexState, Map<Seq<char>, Seq<char>>), LexError> {
    if is_blank(line) {
        Ok((ph, t))
    } else if is_delim(line) {
        match ph {
            LexState::Declarations => Ok((LexState::TranslationRules, t)),
            LexState::TranslationRules => Ok((LexState::Functions, t)),
            _ => Err(LexError::InvalidPhaseTransition),
        }
    } else if ph == LexState::Declarations {
        match record_spec(t, line) {
            Ok(t2) => Ok((ph, t2)),
            Err(e) => Err(e),
        }
    } else {
        Ok((ph, t))
    }
}

/// A whole run: the lines applied in order, stopping at the first structural
/// error.
pub open spec fn run_spec(
    ph: LexState,
    t: Map<Seq<char>, Seq<char>>,
    lines: Seq<Seq<char>>,
) -> Result<(LexState, Map<Seq<char>, Seq<char>>), LexError>
    decreases lines.len(),
{
    if lines.len() == 0 {
        Ok((ph, t))
    } else {
        match step_spec(ph, t, lines[0]) {
            Ok(st2) => run_spec(st2.0, st2.1, lines.drop_first()),
            Err(e) => Err(e),
        }
    }
}

/// Once the scanner has left the declarations section it never touches the
/// declaration table again: a successful run that starts in any later phase
/// returns the table exactly as it was handed in.
pub proof fn lemma_table_fixed_after_declarations(
    ph: LexState,
    t: Map<Seq<char>, Seq<char>>,
    lines: Seq<Seq<char>>,
)
    requires
        ph != LexState::Declarations,
        run_spec(ph, t, lines) is Ok,
    ensures
        run_spec(ph, t, lines)->Ok_0.1 == t,
    decreases lines.len(),
{
    if lines.len() > 0 {
        match step_spec(ph, t, lines[0]) {
            Ok(st2) => {
                assert(st2.0 != LexState::Declarations);
                assert(st2.1 == t);
                lemma_table_fixed_after_declarations(st2.0, t, lines.drop_first());
            },
            Err(_) => {},
        }
    }
}

/// The scanner/resolver pipeline of one file-processing run: the current
/// phase and the declaration table being built.
pub struct LexParser {
    pub parser_state: LexState,
    pub declarations: DeclTable,
}

impl LexParser {
    /// The declaration table's own well-formedness, carried by every run.
    pub open spec fn wf(&self) -> bool {
        self.declarations.wf()
    }

    /// A fresh run: declarations phase, empty table.
    pub fn new() -> (p: LexParser)
        ensures
            p.wf(),
            p.parser_state == LexState::Declarations,
            p.declarations@ == Map::<Seq<char>, Seq<char>>::empty(),
    {
        LexParser { parser_state: LexState::Declarations, declarations: DeclTable::new() }
    }

    /// Whether a run has been completed.
    pub fn is_parse_finish(&self) -> (b: bool)
        ensures
            b == (self.parser_state == LexState::Finish),
    {
        self.parser_state == LexState::Finish
    }

    /// Appends to `resolved` the expansion of the declaration `key` of
    /// `decl_map`: its value with every `{name}` reference token replaced,
    /// recursively, by that name's expansion; an undeclared name expands to
    /// nothing. Unbalanced or nested braces and reference cycles are
    /// structural errors.
    pub fn resolve_referece(
        key: &String,
        resolved: &mut String,
        decl_map: &DeclTable,
    ) -> (r: Result<(), LexError>)
        requires
            decl_map.wf(),
        ensures
            match resolve_name_spec(decl_map@, key@, Seq::empty()) {
                Ok(s) => r == Ok::<(), LexError>(()) && final(resolved)@ == old(resolved)@ + s,
                Err(e) => r == Err::<(), LexError>(e),
            },
    {
        let mut stack: Vec<String> = Vec::new();
        proof {
            decl_map.lemma_view_finite();
            assert(views_of(stack@) =~= Seq::<Seq<char>>::empty());
        }
        resolve_name_rec(decl_map, key, &mut stack, resolved)
    }

    /// Handles one raw input line as `step_spec` says.
    pub fn feed_line(&mut self, line: &str) -> (r: Result<(), LexError>)
        requires
            old(self).wf(),
        ensures
            final(self).wf(),
            match step_spec(old(self).parser_state, old(self).declarations@, line@) {
                Ok(st2) => r == Ok::<(), LexError>(()) && final(self).parser_state == st2.0
                    && final(self).declarations@ == st2.1,
                Err(e) => r == Err::<(), LexError>(e),
            },
    {
        let toks = tokens_exec(line);
        if toks.len() == 0 {
            proof {
                assert(tokens_of(line@) =~= Seq::<Seq<char>>::empty());
            }
            return Ok(());
        }
        let delim = String::from_str("%%");
        proof {
            reveal_strlit("%%");
            assert(delim@ =~= seq!['%', '%']);
        }
        if toks.len() == 1 && delim == toks[0] {
            proof {
                assert(views_of(toks@)[0] == toks@[0]@);
                assert(tokens_of(line@) =~= seq![seq!['%', '%']]);
            }
            match self.parser_state {
                LexState::Declarations => {
                    self.parser_state = LexState::TranslationRules;
                    Ok(())
                },
                LexState::TranslationRules => {
                    self.parser_state = LexState::Functions;
                    Ok(())
                },
                _ => Err(LexError::InvalidPhaseTransition),
            }
        } else {
            proof {
                assert(views_of(toks@)[0] == toks@[0]@);
                assert(!is_delim(line@)) by {
                    if tokens_of(line@) == seq![seq!['%', '%']] {
                        assert(views_of(toks@).len() == 1);
                        assert(toks@[0]@ == seq!['%', '%']);
                    }
                }
                assert(!is_blank(line@)) by {
                    assert(tokens_of(line@).len() == views_of(toks@).len());
                }
            }
            if self.parser_state == LexState::Declarations {
                let name = toks[0].clone();
                let value = join_from(&toks, 1);
                proof {
                    assert(views_of(toks@).skip(1) =~= tokens_of(line@).drop_first());
                    assert(name@ == tokens_of(line@)[0]);
                }
                self.declarations.insert(name.clone(), value);
                let mut resolved = String::new();
                let mut stack: Vec<String> = Vec::new();
                proof {
                    self.declarations.lemma_view_finite();
                    assert(views_of(stack@) =~= Seq::<Seq<char>>::empty());
                }
                let res = resolve_name_rec(&self.declarations, &name, &mut stack, &mut resolved);
                match res {
                    Err(e) => Err(e),
                    Ok(_) => {
                        proof {
                            let t1 = old(self).declarations@.insert(
                                name@,
                                join_tokens(tokens_of(line@).drop_first()),
                            );
                            assert(self.declarations@ == t1);
                            assert(Seq::<char>::empty() + resolve_name_spec(
                                t1,
                                name@,
                                Seq::empty(),
                            )->Ok_0 =~= resolve_name_spec(t1, name@, Seq::empty())->Ok_0);
                        }
                        self.declarations.insert(name, resolved);
                        Ok(())
                    },
                }
            } else {
                Ok(())
            }
        }
    }

    /// Processes the raw lines of one specification file in order, as
    /// `run_spec` says, and marks the run finished. On the first structural
    /// error the run stops and the table built so far is to be discarded.
    pub fn exec(&mut self, lines: &Vec<String>) -> (r: Result<(), LexError>)
        requires
            old(self).wf(),
        ensures
            final(self).wf(),
            match run_spec(old(self).parser_state, old(self).declarations@, views_of(lines@)) {
                Ok(st2) => r == Ok::<(), LexError>(()) && final(self).declarations@ == st2.1
                    && final(self).parser_state == LexState::Finish,
                Err(e) => r == Err::<(), LexError>(e),
            },
    {
        let n = lines.len();
        let mut i: usize = 0;
        proof {
            assert(views_of(lines@).skip(0) =~= views_of(lines@));
        }
        while i < n
            invariant
                self.wf(),
                n == lines@.len(),
                i <= n,
                run_spec(old(self).parser_state, old(self).declarations@, views_of(lines@))
                    == run_spec(
                    self.parser_state,
                    self.declarations@,
                    views_of(lines@).skip(i as int),
                ),
            decreases n - i,
        {
            proof {
                assert(views_of(lines@).skip(i as int)[0] == lines@[i as int]@);
                assert(views_of(lines@).skip(i as int).drop_first() =~= views_of(lines@).skip(
                    i + 1,
                ));
            }
            let res = self.feed_line(lines[i].as_str());
            if let Err(e) = res {
                return Err(e);
            }
            i = i + 1;
        }
        proof {
            assert(views_of(lines@).skip(n as int) =~= Seq::<Seq<char>>::empty());
        }
        self.parser_state = LexState::Finish;
        Ok(())
    }
}

} // verus!
