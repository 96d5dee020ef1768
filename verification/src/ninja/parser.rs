//! The parser of Ninja files, over the token stream of
//! [`crate::ninja::tokenizer`].
//!
//! Each part of the grammar is given by a function on token streams that
//! tells what the part gives and the stream that follows it.

use crate::collections::{index_map_contents, index_map_get, index_map_insert, index_map_new, text_map_contents, text_map_get};
use crate::ninja::model::{
    with_phony, RuleView, fuel_for, rule_fuel_of, FileView, expand_build, expand_build_spec, expand_phony, expand_spec, scope_get, strs, Build, BuildView, Error, Expandable,
    ExpansionScope, NinjaFile, PhonyBuild, PhonyView, Rule, ScopeView, Segment, SegmentView,
};
use crate::ninja::tokenizer::{after_spaces, eat_newlines_spec, starts_word, Lexed, Lexer, Token, TokenView};
use crate::text::{string_push, string_push_str};
use indexmap::IndexMap;
use vstd::prelude::*;

verus! {

/// What reading a word gives.
pub enum WordOutcome<T> {
    /// The word's value.
    Done(T),
    /// The word refers to a variable that is not defined.
    UnknownVar(Seq<char>),
    /// The stream has an item where no token starts.
    LexError,
}

/// The token is part of a word: a word segment, an escaped character or a
/// variable, and unless the word is inline, also spaces and punctuation.
pub open spec fn word_part(t: TokenView, inline: bool) -> bool {
    starts_word(t) || (!inline && (t is Spaces || t is Colon || t is Pipe || t is TwoPipe || t is Equal))
}

/// The variable a token refers to, if any.
pub open spec fn var_name(t: TokenView) -> Option<Seq<char>> {
    match t {
        TokenView::Variable(n) => Some(n),
        TokenView::BracedVariable(n) => Some(n),
        _ => None,
    }
}

/// The text a token of a word stands for, with variables looked up in
/// `scope`.
pub open spec fn piece(t: TokenView, scope: Map<Seq<char>, Seq<char>>) -> Seq<char> {
    match t {
        TokenView::Word(w) => w,
        TokenView::Spaces(w) => w,
        TokenView::Escaped(c) => seq![c],
        TokenView::Variable(n) => scope[n],
        TokenView::BracedVariable(n) => scope[n],
        TokenView::Colon => seq![':'],
        TokenView::Pipe => seq!['|'],
        TokenView::TwoPipe => seq!['|', '|'],
        TokenView::Equal => seq!['='],
        _ => Seq::empty(),
    }
}

/// Expanding the word at the start of `ts`, with variables looked up in
/// `scope`: what it gives, and how many items of the stream it takes. The
/// word ends at the first item that is not part of it.
pub open spec fn expand_word_spec(ts: Seq<Lexed>, scope: Map<Seq<char>, Seq<char>>, inline: bool) -> (
    WordOutcome<Seq<char>>,
    nat,
)
    decreases ts.len(),
{
    if ts.len() == 0 {
        (WordOutcome::Done(Seq::empty()), 0)
    } else {
        match ts[0] {
            Lexed::Bad => (WordOutcome::LexError, 1),
            Lexed::Tok(t) => if !word_part(t, inline) {
                (WordOutcome::Done(Seq::empty()), 0)
            } else if var_name(t) is Some && !scope.contains_key(var_name(t)->0) {
                (WordOutcome::UnknownVar(var_name(t)->0), 0)
            } else {
                let (o, n) = expand_word_spec(ts.drop_first(), scope, inline);
                match o {
                    WordOutcome::Done(v) => (WordOutcome::Done(piece(t, scope) + v), n + 1),
                    other => (other, n + 1),
                }
            },
        }
    }
}

/// A word read after `k` items that gave `prefix`.
pub open spec fn after_prefix(prefix: Seq<char>, k: nat, r: (WordOutcome<Seq<char>>, nat)) -> (
    WordOutcome<Seq<char>>,
    nat,
) {
    match r.0 {
        WordOutcome::Done(v) => (WordOutcome::Done(prefix + v), r.1 + k),
        other => (other, r.1 + k),
    }
}

/// Parse and expand a word. The item after the word is left in the
/// stream.
pub fn parse_expand_word(lexer: &mut Lexer, scope: &IndexMap<String, String>, inline: bool) -> (r: Result<
    String,
    Error,
>)
    requires
        old(lexer).wf(),
    ensures
        final(lexer).wf(),
        ({
            let (o, n) = expand_word_spec(old(lexer).remaining(), text_map_contents(*scope), inline);
            match o {
                WordOutcome::Done(v) => r matches Ok(s) && s@ == v && final(lexer).remaining() == old(
                    lexer,
                ).remaining().skip(n as int),
                WordOutcome::UnknownVar(name) => r matches Err(Error::UnknownVariable(x)) && x@ == name,
                WordOutcome::LexError => r matches Err(Error::UnrecognizedToken(_, _)),
            }
        }),
{
    let ghost ts0 = lexer.remaining();
    let ghost sc = text_map_contents(*scope);
    let mut res = String::new();
    let ghost mut k: nat = 0;
    loop
        invariant
            lexer.wf(),
            k <= ts0.len(),
            lexer.remaining() == ts0.skip(k as int),
            ts0 == old(lexer).remaining(),
            expand_word_spec(ts0, sc, inline) == after_prefix(res@, k, expand_word_spec(lexer.remaining(), sc, inline)),
            sc == text_map_contents(*scope),
        decreases lexer.remaining().len(),
    {
        let ghost ts = lexer.remaining();
        let peek = lexer.peek();
        match peek {
            Ok(None) => {
                assert(res@ + Seq::<char>::empty() =~= res@);
                assert(expand_word_spec(ts, sc, inline) == (WordOutcome::<Seq<char>>::Done(Seq::empty()), 0nat));
                assert(expand_word_spec(ts0, sc, inline) == (WordOutcome::<Seq<char>>::Done(res@), k));
                assert(lexer.remaining() == ts0.skip(k as int));
                return Ok(res);
            },
            Err(e) => {
                assert(ts[0] == Lexed::Bad);
                assert(expand_word_spec(ts, sc, inline) == (WordOutcome::<Seq<char>>::LexError, 1nat));
                assert(expand_word_spec(ts0, sc, inline).0 == WordOutcome::<Seq<char>>::LexError);
                return Err(e);
            },
            Ok(Some(tok)) => {
                let part = match &tok {
                    Token::Word(_) | Token::Escaped(_) | Token::Variable(_) | Token::BracedVariable(_) => true,
                    Token::Spaces(_) | Token::Colon | Token::Pipe | Token::TwoPipe | Token::Equal => !inline,
                    _ => false,
                };
                if !part {
                    assert(res@ + Seq::<char>::empty() =~= res@);
                    assert(!word_part(tok@, inline));
                    assert(expand_word_spec(ts, sc, inline) == (WordOutcome::<Seq<char>>::Done(Seq::empty()), 0nat));
                    return Ok(res);
                }
                let ghost before = res@;
                match &tok {
                    Token::Word(w) => string_push_str(&mut res, w.as_str()),
                    Token::Spaces(w) => string_push_str(&mut res, w.as_str()),
                    Token::Escaped(c) => string_push(&mut res, *c),
                    Token::Variable(name) | Token::BracedVariable(name) => {
                        match text_map_get(scope, name.as_str()) {
                            Some(v) => string_push_str(&mut res, v.as_str()),
                            None => {
                                return Err(Error::UnknownVariable(name.clone()));
                            },
                        }
                    },
                    Token::Colon => string_push(&mut res, ':'),
                    Token::Pipe => string_push(&mut res, '|'),
                    Token::TwoPipe => string_push_str(&mut res, "||"),
                    Token::Equal => string_push(&mut res, '='),
                    _ => {},
                }
                proof {
                    reveal_strlit("||");
                    assert(res@ == before + piece(tok@, sc)) by {
                        if tok@ is TwoPipe {
                            assert("||"@ =~= seq!['|', '|']);
                        }
                    }
                }
                let _ = lexer.next();
                proof {
                    assert(lexer.remaining() =~= ts.drop_first());
                    assert(ts[0] == Lexed::Tok(tok@));
                    assert(word_part(tok@, inline));
                    let (o1, n1) = expand_word_spec(ts.drop_first(), sc, inline);
                    assert(expand_word_spec(ts, sc, inline) == (match o1 {
                        WordOutcome::Done(v) => WordOutcome::Done(piece(tok@, sc) + v),
                        other => other,
                    }, n1 + 1));
                    assert(ts0.skip(k as int).drop_first() =~= ts0.skip((k + 1) as int));
                    assert(before + piece(tok@, sc) + Seq::<char>::empty() =~= before + (piece(tok@, sc)
                        + Seq::<char>::empty()));
                    let (o, n) = expand_word_spec(lexer.remaining(), sc, inline);
                    match o {
                        WordOutcome::Done(v) => {
                            assert(before + (piece(tok@, sc) + v) =~= res@ + v);
                        },
                        _ => {},
                    }
                    k = k + 1;
                }
            },
        }
    }
}

/// The view of an optional string.
pub open spec fn opt_str(o: Option<String>) -> Option<Seq<char>> {
    match o {
        Some(s) => Some(s@),
        None => None,
    }
}

/// The segments so far with the pending regular text closed.
pub open spec fn close_text(segs: Seq<SegmentView>, acc: Option<Seq<char>>) -> Seq<SegmentView> {
    match acc {
        Some(a) => segs.push(SegmentView::Regular(a)),
        None => segs,
    }
}

/// The pending regular text with more text appended.
pub open spec fn add_text(acc: Option<Seq<char>>, t: Seq<char>) -> Option<Seq<char>> {
    match acc {
        Some(a) => Some(a + t),
        None => Some(t),
    }
}

/// Reading the word at the start of `ts` without expanding it, after the
/// segments `segs` and the pending regular text `acc`: the segments it
/// gives (regular text in runs, variables on their own), or `None` if the
/// stream has an item where no token starts; and how many items it takes.
pub open spec fn noexpand_word_spec(ts: Seq<Lexed>, segs: Seq<SegmentView>, acc: Option<Seq<char>>) -> (Option<
    Seq<SegmentView>,
>, nat)
    decreases ts.len(),
{
    if ts.len() == 0 {
        (Some(close_text(segs, acc)), 0)
    } else {
        match ts[0] {
            Lexed::Bad => (None, 1),
            Lexed::Tok(t) => if !word_part(t, false) {
                (Some(close_text(segs, acc)), 0)
            } else {
                let (r, n) = match var_name(t) {
                    Some(name) => noexpand_word_spec(
                        ts.drop_first(),
                        close_text(segs, acc).push(SegmentView::Var(name)),
                        None,
                    ),
                    None => noexpand_word_spec(ts.drop_first(), segs, add_text(acc, piece(t, Map::empty()))),
                };
                (r, n + 1)
            },
        }
    }
}

/// The scope that has only the file-level variables `gs`.
pub open spec fn global_scope_of(gs: Map<Seq<char>, Seq<char>>) -> ScopeView {
    ScopeView {
        in_files: Seq::empty(),
        out_files: Seq::empty(),
        phony_targets: Map::empty(),
        build: Map::empty(),
        rule: None,
        global: gs,
    }
}

/// Reading a word without expanding it, after the segments `segs` and the
/// pending text `acc`, and then expanding what it gives in the scope of the
/// file-level variables, gives what expanding those segments gives
/// followed by expanding the word as it is read.
proof fn lemma_noexpand_then_expand(
    ts: Seq<Lexed>,
    gs: Map<Seq<char>, Seq<char>>,
    segs: Seq<SegmentView>,
    acc: Option<Seq<char>>,
    fuel: nat,
)
    requires
        !gs.contains_key("in"@),
        !gs.contains_key("out"@),
        expand_word_spec(ts, gs, false).0 is Done,
    ensures
        ({
            let (o, n) = expand_word_spec(ts, gs, false);
            let (r, m) = noexpand_word_spec(ts, segs, acc);
            &&& r is Some
            &&& m == n
            &&& expand_spec(r->0, global_scope_of(gs), fuel) == expand_spec(
                close_text(segs, acc),
                global_scope_of(gs),
                fuel,
            ) + o->Done_0
        }),
    decreases ts.len(),
{
    let sc = global_scope_of(gs);
    if ts.len() == 0 {
        assert(expand_spec(close_text(segs, acc), sc, fuel) + Seq::<char>::empty() =~= expand_spec(
            close_text(segs, acc),
            sc,
            fuel,
        ));
    } else {
        match ts[0] {
            Lexed::Bad => {},
            Lexed::Tok(t) => if !word_part(t, false) {
                assert(expand_spec(close_text(segs, acc), sc, fuel) + Seq::<char>::empty() =~= expand_spec(
                    close_text(segs, acc),
                    sc,
                    fuel,
                ));
            } else {
                let rest = ts.drop_first();
                let v = expand_word_spec(rest, gs, false).0->Done_0;
                match var_name(t) {
                    Some(name) => {
                        let segs2 = close_text(segs, acc).push(SegmentView::Var(name));
                        lemma_noexpand_then_expand(rest, gs, segs2, None, fuel);
                        reveal_strlit("in");
                        reveal_strlit("out");
                        assert(name != "in"@);
                        assert(name != "out"@);
                        assert(scope_get(sc, name, fuel) == Some(gs[name]));
                        assert(segs2.drop_last() =~= close_text(segs, acc));
                        assert(expand_spec(segs2, sc, fuel) == expand_spec(close_text(segs, acc), sc, fuel)
                            + gs[name]);
                        assert(close_text(segs2, None) == segs2);
                        assert(expand_spec(segs2, sc, fuel) + v =~= expand_spec(close_text(segs, acc), sc, fuel) + (
                        piece(t, gs) + v));
                    },
                    None => {
                        let p = piece(t, Map::empty());
                        assert(p == piece(t, gs));
                        let acc2 = add_text(acc, p);
                        lemma_noexpand_then_expand(rest, gs, segs, acc2, fuel);
                        match acc {
                            Some(a) => {
                                let l1 = segs.push(SegmentView::Regular(a + p));
                                let l0 = segs.push(SegmentView::Regular(a));
                                assert(l1.drop_last() =~= segs);
                                assert(l0.drop_last() =~= segs);
                                assert(expand_spec(l1, sc, fuel) + v =~= expand_spec(l0, sc, fuel) + (p + v));
                            },
                            None => {
                                let l1 = segs.push(SegmentView::Regular(p));
                                assert(l1.drop_last() =~= segs);
                                assert(expand_spec(l1, sc, fuel) + v =~= expand_spec(segs, sc, fuel) + (p + v));
                            },
                        }
                    },
                }
            },
        }
    }
}

/// Where reading a word with expansion stops at an item at which no token
/// starts, reading it without expansion, after any segments and pending
/// text, stops at the same item.
proof fn lemma_noexpand_lex_error(
    ts: Seq<Lexed>,
    gs: Map<Seq<char>, Seq<char>>,
    segs: Seq<SegmentView>,
    acc: Option<Seq<char>>,
)
    requires
        expand_word_spec(ts, gs, false).0 is LexError,
    ensures
        noexpand_word_spec(ts, segs, acc) == (None::<Seq<SegmentView>>, expand_word_spec(ts, gs, false).1),
    decreases ts.len(),
{
    if ts.len() > 0 {
        if let Lexed::Tok(t) = ts[0] {
            if word_part(t, false) {
                match var_name(t) {
                    Some(name) => lemma_noexpand_lex_error(
                        ts.drop_first(),
                        gs,
                        close_text(segs, acc).push(SegmentView::Var(name)),
                        None,
                    ),
                    None => lemma_noexpand_lex_error(
                        ts.drop_first(),
                        gs,
                        segs,
                        add_text(acc, piece(t, Map::empty())),
                    ),
                }
            }
        }
    }
}

/// The two ways of reading a word fail alike on the same stream: where
/// reading with expansion stops at an item at which no token starts,
/// reading without expansion stops there too, having taken as many items.
pub proof fn lemma_word_readers_fail_alike(ts: Seq<Lexed>, gs: Map<Seq<char>, Seq<char>>)
    requires
        expand_word_spec(ts, gs, false).0 is LexError,
    ensures
        noexpand_word_spec(ts, Seq::empty(), None) == (None::<Seq<SegmentView>>, expand_word_spec(ts, gs, false).1),
{
    lemma_noexpand_lex_error(ts, gs, Seq::empty(), None);
}

/// Expanding a word read without expansion, in the scope of the file-level
/// variables, gives what reading the word with expansion gives, and both
/// take the same items of the stream, wherever the expanding read succeeds
/// and the variables do not name `$in` or `$out`.
pub proof fn lemma_expand_unexpanded_word(ts: Seq<Lexed>, gs: Map<Seq<char>, Seq<char>>, fuel: nat)
    requires
        !gs.contains_key("in"@),
        !gs.contains_key("out"@),
        expand_word_spec(ts, gs, false).0 is Done,
    ensures
        ({
            let (o, n) = expand_word_spec(ts, gs, false);
            let (r, m) = noexpand_word_spec(ts, Seq::empty(), None);
            &&& r is Some
            &&& m == n
            &&& expand_spec(r->0, global_scope_of(gs), fuel) == o->Done_0
        }),
{
    lemma_noexpand_then_expand(ts, gs, Seq::empty(), None, fuel);
    let v = expand_word_spec(ts, gs, false).0->Done_0;
    assert(expand_spec(close_text(Seq::<SegmentView>::empty(), None), global_scope_of(gs), fuel) =~= Seq::<
        char,
    >::empty());
    assert(Seq::<char>::empty() + v =~= v);
}

/// Parse a word but don't expand variables; otherwise as
/// [`parse_expand_word`], with spaces and punctuation taken as part of the
/// word.
pub fn parse_noexpand_word(lexer: &mut Lexer) -> (r: Result<Expandable, Error>)
    requires
        old(lexer).wf(),
    ensures
        final(lexer).wf(),
        ({
            let (o, n) = noexpand_word_spec(old(lexer).remaining(), Seq::empty(), None);
            match o {
                Some(segs) => r matches Ok(e) && e@ == segs && final(lexer).remaining() == old(
                    lexer,
                ).remaining().skip(n as int),
                None => r matches Err(Error::UnrecognizedToken(_, _)),
            }
        }),
{
    let ghost ts0 = lexer.remaining();
    let mut res: Vec<Segment> = Vec::new();
    let mut acc: Option<String> = None;
    let ghost mut k: nat = 0;
    assert(res@.map_values(|s: Segment| s@) =~= Seq::<SegmentView>::empty());
    assert(ts0.skip(0) =~= ts0);
    loop
        invariant
            lexer.wf(),
            k <= ts0.len(),
            lexer.remaining() == ts0.skip(k as int),
            ts0 == old(lexer).remaining(),
            ({
                let (o, n) = noexpand_word_spec(ts0, Seq::empty(), None);
                let (o2, n2) = noexpand_word_spec(
                    lexer.remaining(),
                    res@.map_values(|s: Segment| s@),
                    opt_str(acc),
                );
                o == o2 && n == n2 + k
            }),
        ensures
            noexpand_word_spec(lexer.remaining(), res@.map_values(|s: Segment| s@), opt_str(acc)) == (
                Some(close_text(res@.map_values(|s: Segment| s@), opt_str(acc))),
                0nat,
            ),
        decreases lexer.remaining().len(),
    {
        let ghost ts = lexer.remaining();
        let ghost accv: Option<Seq<char>> = opt_str(acc);
        let ghost segs0 = res@.map_values(|s: Segment| s@);
        let peek = lexer.peek();
        let tok = match peek {
            Ok(None) => {
                assert(noexpand_word_spec(ts, segs0, accv) == (Some(close_text(segs0, accv)), 0nat));
                break;
            },
            Err(e) => {
                assert(ts[0] == Lexed::Bad);
                assert(noexpand_word_spec(ts, segs0, accv) == (None::<Seq<SegmentView>>, 1nat));
                return Err(e);
            },
            Ok(Some(tok)) => tok,
        };
        let ghost tv = tok@;
        let text: Option<String> = match &tok {
            Token::Word(w) => Some(w.clone()),
            Token::Spaces(w) => Some(w.clone()),
            Token::Escaped(c) => {
                let mut t = String::new();
                string_push(&mut t, *c);
                Some(t)
            },
            Token::Colon => Some(":".to_owned()),
            Token::Pipe => Some("|".to_owned()),
            Token::TwoPipe => Some("||".to_owned()),
            Token::Equal => Some("=".to_owned()),
            _ => None,
        };
        proof {
            reveal_strlit(":");
            reveal_strlit("|");
            reveal_strlit("||");
            reveal_strlit("=");
        }
        match text {
            Some(t) => {
                assert(t@ == piece(tok@, Map::empty())) by {
                    if tok@ is Colon {
                        assert(":"@ =~= seq![':']);
                    }
                    if tok@ is Pipe {
                        assert("|"@ =~= seq!['|']);
                    }
                    if tok@ is TwoPipe {
                        assert("||"@ =~= seq!['|', '|']);
                    }
                    if tok@ is Equal {
                        assert("="@ =~= seq!['=']);
                    }
                }
                acc = match acc {
                    Some(a) => {
                        let mut a = a;
                        string_push_str(&mut a, t.as_str());
                        Some(a)
                    },
                    None => Some(t),
                };
            },
            None => {
                match tok {
                    Token::Variable(name) | Token::BracedVariable(name) => {
                        match acc {
                            Some(a) => {
                                res.push(Segment::Regular(a));
                            },
                            None => {},
                        }
                        acc = None;
                        res.push(Segment::Var(name));
                    },
                    _ => {
                        assert(!word_part(tv, false));
                        assert(noexpand_word_spec(ts, segs0, accv) == (Some(close_text(segs0, accv)), 0nat));
                        break;
                    },
                }
            },
        }
        let _ = lexer.next();
        proof {
            assert(lexer.remaining() =~= ts.drop_first());
            assert(ts0.skip(k as int).drop_first() =~= ts0.skip((k + 1) as int));
            assert(ts[0] == Lexed::Tok(tv));
            assert(word_part(tv, false));
            match var_name(tv) {
                Some(name) => {
                    assert(res@.map_values(|s: Segment| s@) =~= close_text(segs0, accv).push(SegmentView::Var(name)));
                    assert(opt_str(acc) == None::<Seq<char>>);
                },
                None => {
                    assert(res@.map_values(|s: Segment| s@) =~= segs0);
                    assert(opt_str(acc) == add_text(accv, piece(tv, Map::empty())));
                },
            }
            k = k + 1;
        }
    }
    let ghost segs1 = res@.map_values(|s: Segment| s@);
    let ghost acc1 = opt_str(acc);
    match acc {
        Some(a) => {
            res.push(Segment::Regular(a));
        },
        None => {},
    }
    assert(res@.map_values(|s: Segment| s@) =~= close_text(segs1, acc1));
    Ok(Expandable(res))
}

/// Reading `name = value` at the start of `ts`, with the value expanded in
/// `scope`: the name, the value, and the stream after the spaces that
/// follow; or `None` if the stream does not hold that.
pub open spec fn assignment_spec(ts: Seq<Lexed>, scope: Map<Seq<char>, Seq<char>>) -> Option<
    (Seq<char>, Seq<char>, Seq<Lexed>),
> {
    if ts.len() > 0 && ts[0] is Tok && ts[0]->Tok_0 is Word {
        let name = ts[0]->Tok_0->Word_0;
        let t1 = after_spaces(ts.drop_first());
        if t1.len() > 0 && t1[0] == Lexed::Tok(TokenView::Equal) {
            let t2 = after_spaces(t1.drop_first());
            let (o, n) = expand_word_spec(t2, scope, false);
            match o {
                WordOutcome::Done(v) => Some((name, v, after_spaces(t2.skip(n as int)))),
                _ => None,
            }
        } else {
            None
        }
    } else {
        None
    }
}

/// Reading `name = value` at the start of `ts` without expanding the
/// value: the name, the value's segments, and the stream after the spaces
/// that follow; or `None` if the stream does not hold that.
pub open spec fn assignment_noexpand_spec(ts: Seq<Lexed>) -> Option<(Seq<char>, Seq<SegmentView>, Seq<Lexed>)> {
    if ts.len() > 0 && ts[0] is Tok && ts[0]->Tok_0 is Word {
        let name = ts[0]->Tok_0->Word_0;
        let t1 = after_spaces(ts.drop_first());
        if t1.len() > 0 && t1[0] == Lexed::Tok(TokenView::Equal) {
            let t2 = after_spaces(t1.drop_first());
            let (o, n) = noexpand_word_spec(t2, Seq::empty(), None);
            match o {
                Some(v) => Some((name, v, after_spaces(t2.skip(n as int)))),
                None => None,
            }
        } else {
            None
        }
    } else {
        None
    }
}

/// Take the name of an assignment and the equal sign after it.
fn parse_assignment_head(lexer: &mut Lexer) -> (r: Result<String, Error>)
    requires
        old(lexer).wf(),
    ensures
        final(lexer).wf(),
        ({
            let ts = old(lexer).remaining();
            if ts.len() > 0 && ts[0] is Tok && ts[0]->Tok_0 is Word {
                let t1 = after_spaces(ts.drop_first());
                if t1.len() > 0 && t1[0] == Lexed::Tok(TokenView::Equal) {
                    r matches Ok(name) && name@ == ts[0]->Tok_0->Word_0 && final(lexer).remaining() == after_spaces(
                        t1.drop_first(),
                    )
                } else {
                    r is Err
                }
            } else {
                r is Err
            }
        }),
{
    let ghost ts = lexer.remaining();
    let name = match lexer.next() {
        None => {
            return Err(Error::UnexpectedEof("parsing the name of an assignment".to_owned()));
        },
        Some(Err(e)) => {
            return Err(e);
        },
        Some(Ok(Token::Word(name))) => name,
        Some(Ok(other)) => {
            let p = lexer.cursor_pos();
            return Err(Error::UnexpectedToken(crate::ninja::tokenizer::describe_token(&other), p.line, p.column));
        },
    };
    assert(lexer.remaining() =~= ts.drop_first());
    assert(ts[0] == Lexed::Tok(TokenView::Word(name@)));
    lexer.skip_spaces();
    let ghost t1 = lexer.remaining();
    match lexer.expect(Token::Equal) {
        Ok(()) => {},
        Err(e) => {
            assert(t1.len() == 0 || t1[0] != Lexed::Tok(TokenView::Equal));
            return Err(e);
        },
    }
    assert(t1[0] == Lexed::Tok(TokenView::Equal));
    lexer.skip_spaces();
    Ok(name)
}

/// Parse a variable assignment, and expand its value at once.
pub fn parse_variable_assignment(lexer: &mut Lexer, scope: &IndexMap<String, String>) -> (r: Result<
    (String, String),
    Error,
>)
    requires
        old(lexer).wf(),
    ensures
        final(lexer).wf(),
        match assignment_spec(old(lexer).remaining(), text_map_contents(*scope)) {
            Some((k, v, rest)) => r matches Ok((a, b)) && a@ == k && b@ == v && final(lexer).remaining() == rest,
            None => r is Err,
        },
{
    let name = match parse_assignment_head(lexer) {
        Ok(n) => n,
        Err(e) => {
            return Err(e);
        },
    };
    let value = match parse_expand_word(lexer, scope, false) {
        Ok(v) => v,
        Err(e) => {
            return Err(e);
        },
    };
    lexer.skip_spaces();
    Ok((name, value))
}

/// Parse a variable assignment, keeping its value unexpanded.
pub fn parse_variable_assignment_no_expand(lexer: &mut Lexer) -> (r: Result<(String, Expandable), Error>)
    requires
        old(lexer).wf(),
    ensures
        final(lexer).wf(),
        match assignment_noexpand_spec(old(lexer).remaining()) {
            Some((k, v, rest)) => r matches Ok((a, b)) && a@ == k && b@ == v && final(lexer).remaining() == rest,
            None => r is Err,
        },
{
    let name = match parse_assignment_head(lexer) {
        Ok(n) => n,
        Err(e) => {
            return Err(e);
        },
    };
    let value = match parse_noexpand_word(lexer) {
        Ok(v) => v,
        Err(e) => {
            return Err(e);
        },
    };
    lexer.skip_spaces();
    Ok((name, value))
}

/// Reading the variables of a rule from `ts`: while the line breaks before
/// are indented, an unexpanded assignment and the line breaks after it. A
/// variable assigned again takes the new value. Gives the variables and the
/// stream after them, or `None` if an assignment is malformed.
pub open spec fn rule_vars_spec(ts: Seq<Lexed>, indented: bool, vars: Map<Seq<char>, Seq<SegmentView>>) -> Option<
    (Map<Seq<char>, Seq<SegmentView>>, Seq<Lexed>),
>
    decreases ts.len(),
{
    if !indented {
        Some((vars, ts))
    } else {
        match assignment_noexpand_spec(ts) {
            None => None,
            Some((k, v, rest)) => {
                let (ind, rest2) = eat_newlines_spec(rest, false);
                if rest2.len() < ts.len() {
                    rule_vars_spec(rest2, ind, vars.insert(k, v))
                } else {
                    None
                }
            },
        }
    }
}

/// The stream starts with a line break.
pub open spec fn starts_line_break(ts: Seq<Lexed>) -> bool {
    ts.len() > 0 && (ts[0] == Lexed::Tok(TokenView::LineFeed) || ts[0] == Lexed::Tok(TokenView::IndentedLineFeed))
}

/// Reading a `rule` block at the start of `ts`: the keyword, the rule's
/// name, a line break, and its indented variables. Gives the name, the
/// variables and the stream after the block, or `None` if the stream does
/// not hold that.
pub open spec fn rule_spec(ts: Seq<Lexed>) -> Option<(Seq<char>, Map<Seq<char>, Seq<SegmentView>>, Seq<Lexed>)> {
    if ts.len() == 0 || ts[0] is Bad {
        None
    } else {
        let t1 = after_spaces(ts.drop_first());
        if t1.len() > 0 && t1[0] is Tok && t1[0]->Tok_0 is Word {
            let name = t1[0]->Tok_0->Word_0;
            let t2 = after_spaces(t1.drop_first());
            if starts_line_break(t2) {
                let (ind, t3) = eat_newlines_spec(t2, false);
                match rule_vars_spec(t3, ind, Map::empty()) {
                    Some((vars, rest)) => Some((name, vars, rest)),
                    None => None,
                }
            } else {
                None
            }
        } else {
            None
        }
    }
}

/// Set a variable of a rule.
fn rule_set(rule: &mut Rule, k: String, v: Expandable)
    requires
        old(rule).wf(),
        old(rule).spec_vars().dom().finite(),
        old(rule).values@.len() == old(rule).spec_vars().dom().len(),
    ensures
        final(rule).wf(),
        final(rule).spec_vars() == old(rule).spec_vars().insert(k@, v@),
        final(rule).spec_vars().dom().finite(),
        final(rule).values@.len() == final(rule).spec_vars().dom().len(),
{
    broadcast use vstd::set::group_set_axioms;

    let ghost kv = k@;
    let ghost vv = v@;
    match index_map_get(&rule.vars, k.as_str()) {
        Some(idx) => {
            rule.values.set(idx, v);
            proof {
                let ov = index_map_contents(old(rule).vars);
                assert forall|key: Seq<char>| key != kv && #[trigger] ov.contains_key(key) implies rule.values@[ov[key] as int]
                    == old(rule).values@[ov[key] as int] by {
                    assert(ov[key] != ov[kv]);
                }
                assert(rule.spec_vars() =~= old(rule).spec_vars().insert(kv, vv));
            }
        },
        None => {
            let idx = rule.values.len();
            rule.values.push(v);
            index_map_insert(&mut rule.vars, k, idx);
            proof {
                let ov = index_map_contents(old(rule).vars);
                assert forall|key: Seq<char>| key != kv && #[trigger] ov.contains_key(key) implies rule.values@[ov[key] as int]
                    == old(rule).values@[ov[key] as int] by {
                    assert(ov[key] < old(rule).values@.len());
                }
                assert(rule.spec_vars() =~= old(rule).spec_vars().insert(kv, vv));
            }
        },
    }
}

/// Parse a `rule` block: its name and its variables.
pub fn parse_rule(lexer: &mut Lexer) -> (r: Result<(String, Rule), Error>)
    requires
        old(lexer).wf(),
    ensures
        final(lexer).wf(),
        match rule_spec(old(lexer).remaining()) {
            Some((name, vars, rest)) => r matches Ok((n, rule)) && n@ == name && rule.wf() && rule.spec_vars() == vars
                && rule_fuel_of(rule) == fuel_for(vars) && final(lexer).remaining() == rest,
            None => r is Err,
        },
{
    let ghost ts = lexer.remaining();
    // rule
    match lexer.next() {
        None => {
            return Err(Error::UnexpectedEof("parsing rule".to_owned()));
        },
        Some(Err(e)) => {
            return Err(e);
        },
        Some(Ok(_)) => {},
    }
    assert(lexer.remaining() =~= ts.drop_first());
    lexer.skip_spaces();
    let ghost t1 = lexer.remaining();
    // <name>
    let name = match lexer.next() {
        None => {
            return Err(Error::UnexpectedEof("parsing name of rule".to_owned()));
        },
        Some(Err(e)) => {
            return Err(e);
        },
        Some(Ok(Token::Word(name))) => name,
        Some(Ok(_)) => {
            return Err(lexer.unexpected("expecting the name of a rule"));
        },
    };
    assert(lexer.remaining() =~= t1.drop_first());
    lexer.skip_spaces();
    let ghost t2 = lexer.remaining();
    // Expect at least one line break, then take all consecutive ones and
    // see whether the next line is indented
    match lexer.peek() {
        Ok(Some(Token::LineFeed)) | Ok(Some(Token::IndentedLineFeed)) => {},
        Ok(_) => {
            return Err(lexer.unexpected("expecting a line break"));
        },
        Err(e) => {
            return Err(e);
        },
    }
    proof {
        assert(starts_line_break(t2));
    }
    let mut indented = lexer.eat_newlines();
    let mut rule = Rule { vars: index_map_new(), values: Vec::new() };
    proof {
        assert(rule.spec_vars() =~= Map::<Seq<char>, Seq<SegmentView>>::empty());
    }
    // Loop while the next logical line is indented
    while indented
        invariant
            lexer.wf(),
            rule.wf(),
            rule.spec_vars().dom().finite(),
            rule.values@.len() == rule.spec_vars().dom().len(),
            rule_vars_spec(lexer.remaining(), indented, rule.spec_vars()) == rule_vars_spec(
                eat_newlines_spec(t2, false).1,
                eat_newlines_spec(t2, false).0,
                Map::empty(),
            ),
            rule_spec(old(lexer).remaining()) == match rule_vars_spec(
                eat_newlines_spec(t2, false).1,
                eat_newlines_spec(t2, false).0,
                Map::empty(),
            ) {
                Some((vars, rest)) => Some((name@, vars, rest)),
                None => None,
            },
        decreases lexer.remaining().len(),
    {
        let ghost ts_i = lexer.remaining();
        proof {
            lemma_assignment_noexpand_shorter(ts_i);
        }
        let (k, v) = match parse_variable_assignment_no_expand(lexer) {
            Ok(kv) => kv,
            Err(e) => {
                return Err(e);
            },
        };
        rule_set(&mut rule, k, v);
        let ghost rest = lexer.remaining();
        indented = lexer.eat_newlines();
        proof {
            lemma_eat_newlines_len(rest, false);
        }
    }
    Ok((name, rule))
}

/// Skipping spaces does not lengthen a stream.
pub proof fn lemma_after_spaces_len(ts: Seq<Lexed>)
    ensures
        after_spaces(ts).len() <= ts.len(),
    decreases ts.len(),
{
    if ts.len() > 0 {
        lemma_after_spaces_len(ts.drop_first());
    }
}

/// Eating line breaks does not lengthen a stream.
pub proof fn lemma_eat_newlines_len(ts: Seq<Lexed>, indented: bool)
    ensures
        eat_newlines_spec(ts, indented).1.len() <= ts.len(),
    decreases ts.len(),
{
    if ts.len() > 0 {
        lemma_eat_newlines_len(ts.drop_first(), true);
        lemma_eat_newlines_len(ts.drop_first(), false);
    }
}

/// A word takes no more items than the stream has.
pub proof fn lemma_expand_word_len(ts: Seq<Lexed>, scope: Map<Seq<char>, Seq<char>>, inline: bool)
    ensures
        expand_word_spec(ts, scope, inline).1 <= ts.len(),
    decreases ts.len(),
{
    if ts.len() > 0 {
        lemma_expand_word_len(ts.drop_first(), scope, inline);
    }
}

/// A word takes no more items than the stream has.
pub proof fn lemma_noexpand_word_len(ts: Seq<Lexed>, segs: Seq<SegmentView>, acc: Option<Seq<char>>)
    ensures
        noexpand_word_spec(ts, segs, acc).1 <= ts.len(),
    decreases ts.len(),
{
    if ts.len() > 0 {
        match ts[0] {
            Lexed::Tok(t) => {
                match var_name(t) {
                    Some(name) => lemma_noexpand_word_len(
                        ts.drop_first(),
                        close_text(segs, acc).push(SegmentView::Var(name)),
                        None,
                    ),
                    None => lemma_noexpand_word_len(ts.drop_first(), segs, add_text(acc, piece(t, Map::empty()))),
                }
            },
            _ => {},
        }
    }
}

/// An assignment takes at least its name from the stream.
pub proof fn lemma_assignment_noexpand_shorter(ts: Seq<Lexed>)
    ensures
        assignment_noexpand_spec(ts) matches Some((_, _, rest)) ==> rest.len() < ts.len(),
{
    if ts.len() > 0 {
        let t1 = after_spaces(ts.drop_first());
        lemma_after_spaces_len(ts.drop_first());
        if t1.len() > 0 {
            let t2 = after_spaces(t1.drop_first());
            lemma_after_spaces_len(t1.drop_first());
            lemma_noexpand_word_len(t2, Seq::empty(), None);
            let n = noexpand_word_spec(t2, Seq::empty(), None).1;
            lemma_after_spaces_len(t2.skip(n as int));
        }
    }
}

/// An assignment takes at least its name from the stream.
pub proof fn lemma_assignment_shorter(ts: Seq<Lexed>, scope: Map<Seq<char>, Seq<char>>)
    ensures
        assignment_spec(ts, scope) matches Some((_, _, rest)) ==> rest.len() < ts.len(),
{
    if ts.len() > 0 {
        let t1 = after_spaces(ts.drop_first());
        lemma_after_spaces_len(ts.drop_first());
        if t1.len() > 0 {
            let t2 = after_spaces(t1.drop_first());
            lemma_after_spaces_len(t1.drop_first());
            lemma_expand_word_len(t2, scope, false);
            let n = expand_word_spec(t2, scope, false).1;
            lemma_after_spaces_len(t2.skip(n as int));
        }
    }
}

/// The words read so far, before what the rest of the stream gives.
pub open spec fn prepend_words(acc: Seq<Seq<char>>, r: Option<(Seq<Seq<char>>, Seq<Lexed>)>) -> Option<
    (Seq<Seq<char>>, Seq<Lexed>),
> {
    match r {
        Some((ws, rest)) => Some((acc + ws, rest)),
        None => None,
    }
}

/// Reading one inline word at the start of `ts` and the spaces after it:
/// the word and the stream after, or `None` on an error.
pub open spec fn spaced_word_spec(ts: Seq<Lexed>, scope: Map<Seq<char>, Seq<char>>) -> Option<(Seq<char>, Seq<Lexed>)> {
    let (o, n) = expand_word_spec(ts, scope, true);
    match o {
        WordOutcome::Done(w) => Some((w, after_spaces(ts.skip(n as int)))),
        _ => None,
    }
}

/// Reading inline words, each followed by spaces, while the next token can
/// start a word: the words and the stream after, or `None` on an error.
pub open spec fn words_spec(ts: Seq<Lexed>, scope: Map<Seq<char>, Seq<char>>) -> Option<(Seq<Seq<char>>, Seq<Lexed>)>
    decreases ts.len(),
{
    if ts.len() == 0 {
        Some((Seq::empty(), ts))
    } else {
        match ts[0] {
            Lexed::Bad => None,
            Lexed::Tok(t) => if !starts_word(t) {
                Some((Seq::empty(), ts))
            } else {
                match spaced_word_spec(ts, scope) {
                    Some((w, rest)) => if rest.len() < ts.len() {
                        prepend_words(seq![w], words_spec(rest, scope))
                    } else {
                        None
                    },
                    None => None,
                }
            },
        }
    }
}

/// Reading the outputs of a build: inline words, each followed by spaces,
/// up to a colon, which is left in the stream. Anything else, or the end
/// of the stream, is an error.
pub open spec fn outputs_spec(ts: Seq<Lexed>, scope: Map<Seq<char>, Seq<char>>) -> Option<(Seq<Seq<char>>, Seq<Lexed>)>
    decreases ts.len(),
{
    if ts.len() == 0 {
        None
    } else {
        match ts[0] {
            Lexed::Bad => None,
            Lexed::Tok(t) => if t is Colon {
                Some((Seq::empty(), ts))
            } else if !starts_word(t) {
                None
            } else {
                match spaced_word_spec(ts, scope) {
                    Some((w, rest)) => if rest.len() < ts.len() {
                        prepend_words(seq![w], outputs_spec(rest, scope))
                    } else {
                        None
                    },
                    None => None,
                }
            },
        }
    }
}

/// Reading a group of words that starts with `sep`, if the stream starts
/// with it; an absent group has no words.
pub open spec fn group_spec(ts: Seq<Lexed>, sep: TokenView, scope: Map<Seq<char>, Seq<char>>) -> Option<
    (Seq<Seq<char>>, Seq<Lexed>),
> {
    if ts.len() > 0 && ts[0] is Bad {
        None
    } else if ts.len() > 0 && ts[0] == Lexed::Tok(sep) {
        words_spec(after_spaces(ts.drop_first()), scope)
    } else {
        Some((Seq::empty(), ts))
    }
}

/// The line of a build statement: its outputs, rule, inputs, implicit and
/// order-only inputs, and the stream after, which starts with a line break.
pub struct BuildHead {
    pub outputs: Seq<Seq<char>>,
    pub rule_name: Seq<char>,
    pub inputs: Seq<Seq<char>>,
    pub implicit: Seq<Seq<char>>,
    pub order_only: Seq<Seq<char>>,
    pub rest: Seq<Lexed>,
}

/// Reading the line of a build statement: the keyword, the outputs, a
/// colon, the name of a known rule or `phony`, the inputs, the implicit
/// inputs after `|`, the order-only inputs after `||`, up to a line break.
pub open spec fn build_head_spec(ts: Seq<Lexed>, global: Map<Seq<char>, Seq<char>>, rules: Set<Seq<char>>) -> Option<
    BuildHead,
> {
    if ts.len() == 0 || ts[0] is Bad {
        None
    } else {
        match outputs_spec(after_spaces(ts.drop_first()), global) {
            None => None,
            Some((outs, t2)) => {
                let t3 = after_spaces(t2.drop_first());
                if !(t3.len() > 0 && t3[0] is Tok && t3[0]->Tok_0 is Word) {
                    None
                } else {
                    let name = t3[0]->Tok_0->Word_0;
                    if name != "phony"@ && !rules.contains(name) {
                        None
                    } else {
                        match words_spec(after_spaces(t3.drop_first()), global) {
                            None => None,
                            Some((ins, t5)) => match group_spec(t5, TokenView::Pipe, global) {
                                None => None,
                                Some((imp, t6)) => match group_spec(t6, TokenView::TwoPipe, global) {
                                    None => None,
                                    Some((oo, t7)) => if starts_line_break(t7) {
                                        Some(
                                            BuildHead {
                                                outputs: outs,
                                                rule_name: name,
                                                inputs: ins,
                                                implicit: imp,
                                                order_only: oo,
                                                rest: t7,
                                            },
                                        )
                                    } else {
                                        None
                                    },
                                },
                            },
                        }
                    }
                }
            },
        }
    }
}

/// Parse inline words, each followed by spaces, while the next token can
/// start a word.
fn parse_words(lexer: &mut Lexer, scope: &IndexMap<String, String>) -> (r: Result<Vec<String>, Error>)
    requires
        old(lexer).wf(),
    ensures
        final(lexer).wf(),
        match words_spec(old(lexer).remaining(), text_map_contents(*scope)) {
            Some((ws, rest)) => r matches Ok(v) && strs(v@) == ws && final(lexer).remaining() == rest,
            None => r is Err,
        },
{
    let ghost sc = text_map_contents(*scope);
    let mut words: Vec<String> = Vec::new();
    loop
        invariant
            lexer.wf(),
            sc == text_map_contents(*scope),
            words_spec(old(lexer).remaining(), sc) == prepend_words(strs(words@), words_spec(lexer.remaining(), sc)),
        decreases lexer.remaining().len(),
    {
        let ghost ts = lexer.remaining();
        match lexer.peek() {
            Ok(Some(t)) => {
                if !t.can_start_word() {
                    assert(strs(words@) + Seq::<Seq<char>>::empty() =~= strs(words@));
                    return Ok(words);
                }
            },
            Ok(None) => {
                assert(strs(words@) + Seq::<Seq<char>>::empty() =~= strs(words@));
                return Ok(words);
            },
            Err(e) => {
                return Err(e);
            },
        }
        let w = match parse_expand_word(lexer, scope, true) {
            Ok(w) => w,
            Err(e) => {
                return Err(e);
            },
        };
        lexer.skip_spaces();
        proof {
            lemma_expand_word_len(ts, sc, true);
            lemma_after_spaces_len(ts.skip(expand_word_spec(ts, sc, true).1 as int));
        }
        let ghost wb = words@;
        words.push(w);
        proof {
            assert(strs(words@) =~= strs(wb) + seq![w@]);
            match words_spec(lexer.remaining(), sc) {
                Some((ws, rest)) => {
                    assert(strs(wb) + (seq![w@] + ws) =~= strs(words@) + ws);
                },
                None => {},
            }
        }
    }
}

/// Parse the outputs of a build, up to the colon.
fn parse_outputs(lexer: &mut Lexer, scope: &IndexMap<String, String>) -> (r: Result<Vec<String>, Error>)
    requires
        old(lexer).wf(),
    ensures
        final(lexer).wf(),
        match outputs_spec(old(lexer).remaining(), text_map_contents(*scope)) {
            Some((ws, rest)) => r matches Ok(v) && strs(v@) == ws && final(lexer).remaining() == rest,
            None => r is Err,
        },
{
    let ghost sc = text_map_contents(*scope);
    let mut words: Vec<String> = Vec::new();
    loop
        invariant
            lexer.wf(),
            sc == text_map_contents(*scope),
            outputs_spec(old(lexer).remaining(), sc) == prepend_words(strs(words@), outputs_spec(lexer.remaining(), sc)),
        decreases lexer.remaining().len(),
    {
        let ghost ts = lexer.remaining();
        match lexer.peek() {
            Ok(Some(t)) => {
                match t {
                    Token::Colon => {
                        assert(strs(words@) + Seq::<Seq<char>>::empty() =~= strs(words@));
                        return Ok(words);
                    },
                    _ => {},
                }
                if !t.can_start_word() {
                    return Err(lexer.unexpected("expecting an output or a colon"));
                }
            },
            Ok(None) => {
                return Err(Error::UnexpectedEof("parsing the outputs of a build".to_owned()));
            },
            Err(e) => {
                return Err(e);
            },
        }
        let w = match parse_expand_word(lexer, scope, true) {
            Ok(w) => w,
            Err(e) => {
                return Err(e);
            },
        };
        lexer.skip_spaces();
        proof {
            lemma_expand_word_len(ts, sc, true);
            lemma_after_spaces_len(ts.skip(expand_word_spec(ts, sc, true).1 as int));
        }
        let ghost wb = words@;
        words.push(w);
        proof {
            assert(strs(words@) =~= strs(wb) + seq![w@]);
            match outputs_spec(lexer.remaining(), sc) {
                Some((ws, rest)) => {
                    assert(strs(wb) + (seq![w@] + ws) =~= strs(words@) + ws);
                },
                None => {},
            }
        }
    }
}

/// The line of a build statement, read.
pub struct ParsedHead {
    pub outputs: Vec<String>,
    pub rule_name: String,
    pub inputs: Vec<String>,
    pub implicit: Vec<String>,
    pub order_only: Vec<String>,
}

/// The line read is the one given.
pub open spec fn head_matches(p: ParsedHead, h: BuildHead) -> bool {
    &&& strs(p.outputs@) == h.outputs
    &&& p.rule_name@ == h.rule_name
    &&& strs(p.inputs@) == h.inputs
    &&& strs(p.implicit@) == h.implicit
    &&& strs(p.order_only@) == h.order_only
}

/// Parse a group of words that starts with `sep`, if the next token is
/// `sep`.
fn parse_group(lexer: &mut Lexer, sep: Token, scope: &IndexMap<String, String>) -> (r: Result<Vec<String>, Error>)
    requires
        old(lexer).wf(),
    ensures
        final(lexer).wf(),
        match group_spec(old(lexer).remaining(), sep@, text_map_contents(*scope)) {
            Some((ws, rest)) => r matches Ok(v) && strs(v@) == ws && final(lexer).remaining() == rest,
            None => r is Err,
        },
{
    let ghost ts = lexer.remaining();
    let is_sep = match lexer.peek() {
        Ok(Some(t)) => crate::ninja::tokenizer::same_token(&t, &sep),
        Ok(None) => false,
        Err(e) => {
            return Err(e);
        },
    };
    if is_sep {
        let _ = lexer.next();
        assert(lexer.remaining() =~= ts.drop_first());
        lexer.skip_spaces();
        parse_words(lexer, scope)
    } else {
        assert(Seq::<String>::empty().map_values(|s: String| s@) =~= Seq::<Seq<char>>::empty());
        Ok(Vec::new())
    }
}

/// Parse the line of a build statement.
fn parse_build_head(lexer: &mut Lexer, file: &NinjaFile) -> (r: Result<ParsedHead, Error>)
    requires
        old(lexer).wf(),
    ensures
        final(lexer).wf(),
        match build_head_spec(old(lexer).remaining(), file@.global, file@.rules.dom()) {
            Some(h) => r matches Ok(p) && head_matches(p, h) && final(lexer).remaining() == h.rest,
            None => r is Err,
        },
{
    let ghost ts = lexer.remaining();
    let ghost global = text_map_contents(file.global_scope);
    // build
    match lexer.next() {
        None => {
            return Err(Error::UnexpectedEof("parsing build".to_owned()));
        },
        Some(Err(e)) => {
            return Err(e);
        },
        Some(Ok(_)) => {},
    }
    assert(lexer.remaining() =~= ts.drop_first());
    lexer.skip_spaces();
    // <outputs>
    proof {
        lemma_outputs_rest(lexer.remaining(), global);
    }
    let outputs = match parse_outputs(lexer, &file.global_scope) {
        Ok(o) => o,
        Err(e) => {
            return Err(e);
        },
    };
    let ghost t2 = lexer.remaining();
    match lexer.expect(Token::Colon) {
        Ok(()) => {},
        Err(e) => {
            return Err(e);
        },
    }
    lexer.skip_spaces();
    let ghost t3 = lexer.remaining();
    // <rule>
    let rule_name = match lexer.next() {
        None => {
            return Err(Error::UnexpectedEof("parsing the name of a rule".to_owned()));
        },
        Some(Err(e)) => {
            return Err(e);
        },
        Some(Ok(Token::Word(name))) => name,
        Some(Ok(_)) => {
            return Err(lexer.unexpected("expecting the name of a rule"));
        },
    };
    assert(lexer.remaining() =~= t3.drop_first());
    proof {
        reveal_strlit("phony");
    }
    if !crate::ninja::model::str_eq(rule_name.as_str(), "phony") {
        match index_map_get(&file.rules, rule_name.as_str()) {
            Some(_) => {},
            None => {
                return Err(Error::UnknownVariable(rule_name));
            },
        }
    }
    lexer.skip_spaces();
    // <inputs> | <implicit_inputs> || <order_only_inputs>
    let inputs = match parse_words(lexer, &file.global_scope) {
        Ok(v) => v,
        Err(e) => {
            return Err(e);
        },
    };
    let implicit = match parse_group(lexer, Token::Pipe, &file.global_scope) {
        Ok(v) => v,
        Err(e) => {
            return Err(e);
        },
    };
    let order_only = match parse_group(lexer, Token::TwoPipe, &file.global_scope) {
        Ok(v) => v,
        Err(e) => {
            return Err(e);
        },
    };
    // A line break, to go on with the indented variables
    let ghost t7 = lexer.remaining();
    match lexer.peek() {
        Ok(Some(Token::LineFeed)) | Ok(Some(Token::IndentedLineFeed)) => {},
        Ok(_) => {
            return Err(lexer.unexpected("expecting a line break"));
        },
        Err(e) => {
            return Err(e);
        },
    }
    Ok(ParsedHead { outputs, rule_name, inputs, implicit, order_only })
}

/// The outputs of a build end at a colon.
proof fn lemma_outputs_rest(ts: Seq<Lexed>, scope: Map<Seq<char>, Seq<char>>)
    ensures
        outputs_spec(ts, scope) matches Some((_, rest)) ==> rest.len() > 0 && rest[0] == Lexed::Tok(TokenView::Colon),
    decreases ts.len(),
{
    if ts.len() > 0 {
        match ts[0] {
            Lexed::Tok(t) => {
                if !(t is Colon) && starts_word(t) {
                    match spaced_word_spec(ts, scope) {
                        Some((w, rest)) => {
                            if rest.len() < ts.len() {
                                lemma_outputs_rest(rest, scope);
                            }
                        },
                        None => {},
                    }
                }
            },
            _ => {},
        }
    }
}

/// How deep the variables of a build statement's rule expand.
pub open spec fn rule_fuel(fv: FileView, name: Seq<char>) -> nat {
    if name == "phony"@ {
        1
    } else {
        fv.rules[name].fuel
    }
}

/// The scope a build statement's variables are expanded in, with the
/// build's own variables so far.
pub open spec fn build_scope_view(fv: FileView, head: BuildHead, build: Map<Seq<char>, Seq<char>>) -> ScopeView {
    ScopeView {
        in_files: head.inputs,
        out_files: head.outputs,
        phony_targets: fv.phony_targets(),
        build: build,
        rule: if head.rule_name == "phony"@ {
            None
        } else {
            Some(fv.rules[head.rule_name].vars)
        },
        global: fv.global,
    }
}

/// Reading the variables of a build statement from `ts`: as for a rule,
/// but each value is expanded at once, in the scope of the build's
/// variables before it.
pub open spec fn build_vars_spec(
    ts: Seq<Lexed>,
    indented: bool,
    build: Map<Seq<char>, Seq<char>>,
    file: FileView,
    head: BuildHead,
) -> Option<(Map<Seq<char>, Seq<char>>, Seq<Lexed>)>
    decreases ts.len(),
{
    if !indented {
        Some((build, ts))
    } else {
        match assignment_noexpand_spec(ts) {
            None => None,
            Some((k, segs, rest)) => {
                let v = expand_spec(segs, build_scope_view(file, head, build), rule_fuel(file, head.rule_name));
                let (ind, rest2) = eat_newlines_spec(rest, false);
                if rest2.len() < ts.len() {
                    build_vars_spec(rest2, ind, build.insert(k, v), file, head)
                } else {
                    None
                }
            },
        }
    }
}

/// What a build statement gives.
pub enum ParsedBuildView {
    Build(BuildView),
    Phony(PhonyView),
}

/// A build statement, parsed and expanded.
#[derive(Debug)]
pub enum ParseBuildResult {
    Build(Build),
    Phony(PhonyBuild),
}

impl View for ParseBuildResult {
    type V = ParsedBuildView;

    open spec fn view(&self) -> ParsedBuildView {
        match self {
            ParseBuildResult::Build(b) => ParsedBuildView::Build(b@),
            ParseBuildResult::Phony(p) => ParsedBuildView::Phony(p@),
        }
    }
}

/// Reading a build statement at the start of `ts`, in a file: its line,
/// its variables, and what it expands to; with the stream after it.
pub open spec fn build_spec(ts: Seq<Lexed>, file: FileView) -> Option<(ParsedBuildView, Seq<Lexed>)> {
    match build_head_spec(ts, file.global, file.rules.dom()) {
        None => None,
        Some(h) => {
            let (ind, t8) = eat_newlines_spec(h.rest, false);
            match build_vars_spec(t8, ind, Map::empty(), file, h) {
                None => None,
                Some((bvars, rest)) => {
                    let sc = build_scope_view(file, h, bvars);
                    let fuel = rule_fuel(file, h.rule_name);
                    if h.rule_name == "phony"@ {
                        Some(
                            (
                                ParsedBuildView::Phony(
                                    PhonyView {
                                        targets: h.outputs,
                                        inputs: h.inputs,
                                        implicit_inputs: h.implicit,
                                        order_only_inputs: h.order_only,
                                        description: scope_get(sc, "description"@, fuel),
                                    },
                                ),
                                rest,
                            ),
                        )
                    } else {
                        match expand_build_spec(sc, fuel, h.implicit, h.order_only) {
                            Some(b) => Some((ParsedBuildView::Build(b), rest)),
                            None => None,
                        }
                    }
                },
            }
        },
    }
}

/// The rule taken for a build statement is the one its name gives in the
/// file, or none for `phony`.
pub open spec fn rule_matches(rule: Option<&Rule>, fv: FileView, name: Seq<char>) -> bool {
    match rule {
        Some(r) => name != "phony"@ && fv.rules.contains_key(name) && fv.rules[name].vars == r.spec_vars()
            && fv.rules[name].fuel == rule_fuel_of(*r),
        None => name == "phony"@,
    }
}

/// The head read, as a value.
pub open spec fn head_view(p: ParsedHead, rest: Seq<Lexed>) -> BuildHead {
    BuildHead {
        outputs: strs(p.outputs@),
        rule_name: p.rule_name@,
        inputs: strs(p.inputs@),
        implicit: strs(p.implicit@),
        order_only: strs(p.order_only@),
        rest: rest,
    }
}

/// Parse a build statement, and expand it.
pub fn parse_build(lexer: &mut Lexer, file: &NinjaFile) -> (r: Result<ParseBuildResult, Error>)
    requires
        old(lexer).wf(),
        file.wf(),
    ensures
        final(lexer).wf(),
        match build_spec(old(lexer).remaining(), file@) {
            Some((b, rest)) => r matches Ok(x) && x@ == b && final(lexer).remaining() == rest,
            None => r is Err,
        },
{
    let ghost ts = lexer.remaining();
    let head = match parse_build_head(lexer, file) {
        Ok(h) => h,
        Err(e) => {
            return Err(e);
        },
    };
    let ghost h = head_view(head, lexer.remaining());
    proof {
        reveal_strlit("phony");
        reveal_strlit("description");
        assert(build_head_spec(ts, file@.global, file@.rules.dom()) == Some(h));
    }
    let is_phony = crate::ninja::model::str_eq(head.rule_name.as_str(), "phony");
    let rule: Option<&Rule> = if is_phony {
        None
    } else {
        match index_map_get(&file.rules, head.rule_name.as_str()) {
            Some(idx) => Some(&file.rule_list[idx]),
            None => None,
        }
    };
    proof {
        assert(rule_matches(rule, file@, h.rule_name));
    }
    let mut indented = lexer.eat_newlines();
    let mut scope = crate::collections::text_map_new();
    proof {
        assert(text_map_contents(scope) =~= Map::<Seq<char>, Seq<char>>::empty());
        match rule {
            Some(r) => {
                let idx = index_map_contents(file.rules)[head.rule_name@];
                assert(file.rule_list@[idx as int].wf());
            },
            None => {},
        }
    }
    let ghost t8 = lexer.remaining();
    let ghost ind0 = indented;
    while indented
        invariant
            lexer.wf(),
            file.wf(),
            ts == old(lexer).remaining(),
            build_head_spec(ts, file@.global, file@.rules.dom()) == Some(h),
            eat_newlines_spec(h.rest, false) == (ind0, t8),
            match rule {
                Some(r) => r.wf(),
                None => true,
            },
            h == head_view(head, h.rest),
            rule_matches(rule, file@, h.rule_name),
            build_vars_spec(lexer.remaining(), indented, text_map_contents(scope), file@, h) == build_vars_spec(
                t8,
                ind0,
                Map::empty(),
                file@,
                h,
            ),
        decreases lexer.remaining().len(),
    {
        let ghost ts_i = lexer.remaining();
        proof {
            lemma_assignment_noexpand_shorter(ts_i);
        }
        let (k, v) = match parse_variable_assignment_no_expand(lexer) {
            Ok(kv) => kv,
            Err(e) => {
                return Err(e);
            },
        };
        let value = {
            let exp_scope = ExpansionScope {
                in_files: &head.inputs,
                out_files: &head.outputs,
                file,
                build_scope: &scope,
                rule,
            };
            assert(exp_scope.spec_scope() == build_scope_view(file@, h, text_map_contents(scope)));
            assert(exp_scope.spec_fuel() == rule_fuel(file@, h.rule_name));
            v.expand(&exp_scope)
        };
        crate::collections::text_map_insert(&mut scope, k, value);
        let ghost rest = lexer.remaining();
        indented = lexer.eat_newlines();
        proof {
            lemma_eat_newlines_len(rest, false);
        }
    }
    let exp_scope = ExpansionScope {
        in_files: &head.inputs,
        out_files: &head.outputs,
        file,
        build_scope: &scope,
        rule,
    };
    assert(exp_scope.spec_scope() == build_scope_view(file@, h, text_map_contents(scope)));
    assert(exp_scope.spec_fuel() == rule_fuel(file@, h.rule_name));
    if is_phony {
        Ok(ParseBuildResult::Phony(expand_phony(&exp_scope, &head.implicit, &head.order_only)))
    } else {
        match expand_build(&exp_scope, &head.implicit, &head.order_only) {
            Ok(b) => Ok(ParseBuildResult::Build(b)),
            Err(e) => Err(e),
        }
    }
}

/// Why a source could not be read.
pub enum ParseFailure {
    /// A top-level line is indented.
    Indented,
    /// A rule of this name is already defined.
    Redefined(Seq<char>),
    /// A directive that is not supported, with the message that says so.
    Unsupported(Seq<char>),
    /// A statement is malformed in another way.
    Other,
}

/// The error `e` reports the failure `k`: an indented line is an
/// unexpected indentation; a redefined rule and an unsupported directive
/// are unexpected tokens with their messages.
pub open spec fn reports(k: ParseFailure, e: Error) -> bool {
    match k {
        ParseFailure::Indented => e is UnexpectedIndentation,
        ParseFailure::Redefined(name) => e matches Error::UnexpectedToken(m, _, _) && m@ == "redefinition of rule "@
            + name,
        ParseFailure::Unsupported(msg) => e matches Error::UnexpectedToken(m, l, c) && m@ == msg && l == 0 && c
            == 0,
        ParseFailure::Other => true,
    }
}

/// What one top-level statement does.
pub enum StatementView {
    /// The file after the statement, and the stream after it.
    Next(FileView, Seq<Lexed>),
    /// An `include` of the named file, and the stream after it.
    Include(Seq<char>, Seq<Lexed>),
    /// The statement cannot be read, for this reason.
    Fail(ParseFailure),
}

/// Reading one top-level statement at the start of `ts`, which starts with
/// a token: a build statement, a rule, an include, or a file-level
/// variable assignment.
pub open spec fn statement_spec(ts: Seq<Lexed>, fv: FileView) -> StatementView {
    if ts.len() == 0 || !(ts[0] is Tok) || !(ts[0]->Tok_0 is Word) {
        StatementView::Fail(ParseFailure::Other)
    } else {
        let w = ts[0]->Tok_0->Word_0;
        if w == "build"@ {
            match build_spec(ts, fv) {
                Some((ParsedBuildView::Build(b), rest)) => StatementView::Next(
                    FileView { builds: fv.builds.push(b), ..fv },
                    rest,
                ),
                Some((ParsedBuildView::Phony(p), rest)) => StatementView::Next(
                    FileView { phony: with_phony(fv.phony, p, p.targets), ..fv },
                    rest,
                ),
                None => StatementView::Fail(ParseFailure::Other),
            }
        } else if w == "rule"@ {
            match rule_spec(ts) {
                Some((name, vars, rest)) => if fv.rules.contains_key(name) {
                    StatementView::Fail(ParseFailure::Redefined(name))
                } else {
                    StatementView::Next(
                        FileView { rules: fv.rules.insert(name, RuleView { vars: vars, fuel: fuel_for(vars) }), ..fv },
                        rest,
                    )
                },
                None => StatementView::Fail(ParseFailure::Other),
            }
        } else if w == "include"@ {
            let t1 = after_spaces(ts.drop_first());
            let (o, n) = expand_word_spec(t1, fv.global, true);
            match o {
                WordOutcome::Done(f) => StatementView::Include(f, after_spaces(t1.skip(n as int))),
                _ => StatementView::Fail(ParseFailure::Other),
            }
        } else if w == "subninja"@ {
            StatementView::Fail(ParseFailure::Unsupported("subninja directive not implemented"@))
        } else if w == "pool"@ {
            StatementView::Fail(ParseFailure::Unsupported("pool directive not implemented"@))
        } else {
            match assignment_spec(ts, fv.global) {
                Some((k, v, rest)) => StatementView::Next(FileView { global: fv.global.insert(k, v), ..fv }, rest),
                None => StatementView::Fail(ParseFailure::Other),
            }
        }
    }
}

/// What reading the statements of one source does.
pub enum TopView {
    /// The source ended; the file after all its statements.
    Done(FileView),
    /// An include of the named file, with the file before it and the
    /// stream after it.
    Include(Seq<char>, FileView, Seq<Lexed>),
    /// The source cannot be read, for this reason.
    Fail(ParseFailure),
}

/// Reading the top-level statements of `ts` into the file `fv`: each
/// starts a line that is not indented, after any line breaks.
pub open spec fn top_spec(ts: Seq<Lexed>, fv: FileView) -> TopView
    decreases ts.len(),
{
    let (ind, t1) = eat_newlines_spec(ts, false);
    if ind {
        TopView::Fail(ParseFailure::Indented)
    } else if t1.len() == 0 {
        TopView::Done(fv)
    } else if t1[0] is Bad {
        TopView::Fail(ParseFailure::Other)
    } else if t1[0]->Tok_0 is Spaces {
        TopView::Fail(ParseFailure::Indented)
    } else {
        match statement_spec(t1, fv) {
            StatementView::Next(fv2, rest) => if rest.len() < ts.len() {
                top_spec(rest, fv2)
            } else {
                TopView::Fail(ParseFailure::Other)
            },
            StatementView::Include(f, rest) => TopView::Include(f, fv, rest),
            StatementView::Fail(k) => TopView::Fail(k),
        }
    }
}

/// Inline words take no more items than the stream has.
proof fn lemma_words_len(ts: Seq<Lexed>, scope: Map<Seq<char>, Seq<char>>)
    ensures
        words_spec(ts, scope) matches Some((_, rest)) ==> rest.len() <= ts.len(),
    decreases ts.len(),
{
    if ts.len() > 0 {
        match spaced_word_spec(ts, scope) {
            Some((w, rest)) => {
                if rest.len() < ts.len() {
                    lemma_words_len(rest, scope);
                }
            },
            None => {},
        }
    }
}

/// The outputs take no more items than the stream has.
proof fn lemma_outputs_len(ts: Seq<Lexed>, scope: Map<Seq<char>, Seq<char>>)
    ensures
        outputs_spec(ts, scope) matches Some((_, rest)) ==> rest.len() <= ts.len(),
    decreases ts.len(),
{
    if ts.len() > 0 {
        match spaced_word_spec(ts, scope) {
            Some((w, rest)) => {
                if rest.len() < ts.len() {
                    lemma_outputs_len(rest, scope);
                }
            },
            None => {},
        }
    }
}

/// The variables of a build take no more items than the stream has.
proof fn lemma_build_vars_len(
    ts: Seq<Lexed>,
    indented: bool,
    build: Map<Seq<char>, Seq<char>>,
    file: FileView,
    head: BuildHead,
)
    ensures
        build_vars_spec(ts, indented, build, file, head) matches Some((_, rest)) ==> rest.len() <= ts.len(),
    decreases ts.len(),
{
    if indented {
        match assignment_noexpand_spec(ts) {
            Some((k, segs, rest)) => {
                let v = expand_spec(segs, build_scope_view(file, head, build), rule_fuel(file, head.rule_name));
                let (ind, rest2) = eat_newlines_spec(rest, false);
                if rest2.len() < ts.len() {
                    lemma_build_vars_len(rest2, ind, build.insert(k, v), file, head);
                }
            },
            None => {},
        }
    }
}

/// The variables of a rule take no more items than the stream has.
proof fn lemma_rule_vars_len(ts: Seq<Lexed>, indented: bool, vars: Map<Seq<char>, Seq<SegmentView>>)
    ensures
        rule_vars_spec(ts, indented, vars) matches Some((_, rest)) ==> rest.len() <= ts.len(),
    decreases ts.len(),
{
    if indented {
        match assignment_noexpand_spec(ts) {
            Some((k, v, rest)) => {
                let (ind, rest2) = eat_newlines_spec(rest, false);
                if rest2.len() < ts.len() {
                    lemma_rule_vars_len(rest2, ind, vars.insert(k, v));
                }
            },
            None => {},
        }
    }
}

/// A statement takes at least its first token.
proof fn lemma_statement_shorter(ts: Seq<Lexed>, fv: FileView)
    ensures
        statement_spec(ts, fv) matches StatementView::Next(_, rest) ==> rest.len() < ts.len(),
        statement_spec(ts, fv) matches StatementView::Include(_, rest) ==> rest.len() < ts.len(),
{
    if ts.len() > 0 {
        lemma_after_spaces_len(ts.drop_first());
        let t1 = after_spaces(ts.drop_first());
        // A build statement
        lemma_outputs_len(t1, fv.global);
        match outputs_spec(t1, fv.global) {
            Some((outs, t2)) => {
                lemma_outputs_rest(t1, fv.global);
                lemma_after_spaces_len(t2.drop_first());
                let t3 = after_spaces(t2.drop_first());
                if t3.len() > 0 {
                    lemma_after_spaces_len(t3.drop_first());
                    let t4 = after_spaces(t3.drop_first());
                    lemma_words_len(t4, fv.global);
                    match words_spec(t4, fv.global) {
                        Some((ins, t5)) => {
                            if t5.len() > 0 {
                                lemma_after_spaces_len(t5.drop_first());
                                lemma_words_len(after_spaces(t5.drop_first()), fv.global);
                            }
                            match group_spec(t5, TokenView::Pipe, fv.global) {
                                Some((imp, t6)) => {
                                    if t6.len() > 0 {
                                        lemma_after_spaces_len(t6.drop_first());
                                        lemma_words_len(after_spaces(t6.drop_first()), fv.global);
                                    }
                                    match group_spec(t6, TokenView::TwoPipe, fv.global) {
                                        Some((oo, t7)) => {
                                            lemma_eat_newlines_len(t7, false);
                                            match build_head_spec(ts, fv.global, fv.rules.dom()) {
                                                Some(h) => {
                                                    let (ind, t8) = eat_newlines_spec(h.rest, false);
                                                    lemma_build_vars_len(t8, ind, Map::empty(), fv, h);
                                                },
                                                None => {},
                                            }
                                        },
                                        None => {},
                                    }
                                },
                                None => {},
                            }
                        },
                        None => {},
                    }
                }
            },
            None => {},
        }
        // A rule
        if t1.len() > 0 {
            lemma_after_spaces_len(t1.drop_first());
            let t2 = after_spaces(t1.drop_first());
            lemma_eat_newlines_len(t2, false);
            let (ind, t3) = eat_newlines_spec(t2, false);
            lemma_rule_vars_len(t3, ind, Map::empty());
        }
        // An include
        lemma_expand_word_len(t1, fv.global, true);
        lemma_after_spaces_len(t1.skip(expand_word_spec(t1, fv.global, true).1 as int));
        // An assignment
        lemma_assignment_shorter(ts, fv.global);
    }
}

/// Parse one top-level statement into the file. Gives the name of the file
/// to include, for an `include` statement.
pub fn parse_statement(lexer: &mut Lexer, file: &mut NinjaFile) -> (r: Result<Option<String>, Error>)
    requires
        old(lexer).wf(),
        old(file).wf(),
    ensures
        final(lexer).wf(),
        final(file).wf(),
        match statement_spec(old(lexer).remaining(), old(file)@) {
            StatementView::Next(fv, rest) => r matches Ok(None) && final(file)@ == fv && final(lexer).remaining()
                == rest,
            StatementView::Include(f, rest) => r matches Ok(Some(x)) && x@ == f && final(file)@ == old(file)@
                && final(lexer).remaining() == rest,
            StatementView::Fail(k) => r matches Err(e) && reports(k, e),
        },
{
    let ghost ts = lexer.remaining();
    proof {
        reveal_strlit("build");
        reveal_strlit("rule");
        reveal_strlit("include");
        reveal_strlit("subninja");
        reveal_strlit("pool");
    }
    let word = match lexer.peek() {
        Ok(Some(Token::Word(w))) => w,
        Ok(Some(_)) => {
            return Err(lexer.unexpected("expecting a statement"));
        },
        Ok(None) => {
            return Err(Error::UnexpectedEof("expecting a statement".to_owned()));
        },
        Err(e) => {
            return Err(e);
        },
    };
    if crate::ninja::model::str_eq(word.as_str(), "build") {
        match parse_build(lexer, &*file) {
            Ok(ParseBuildResult::Build(b)) => {
                file.add_build(b);
            },
            Ok(ParseBuildResult::Phony(p)) => {
                file.add_phony(p);
            },
            Err(e) => {
                return Err(e);
            },
        }
        Ok(None)
    } else if crate::ninja::model::str_eq(word.as_str(), "rule") {
        let (name, rule) = match parse_rule(lexer) {
            Ok(nr) => nr,
            Err(e) => {
                return Err(e);
            },
        };
        match index_map_get(&file.rules, name.as_str()) {
            Some(_) => {
                let pos = match lexer.peeked_pos() {
                    Some(p) => p,
                    None => lexer.cursor_pos(),
                };
                let message = crate::text::concat(&["redefinition of rule ", name.as_str()]);
                proof {
                    reveal_with_fuel(crate::text::concat_all, 3);
                    assert(message@ =~= "redefinition of rule "@ + name@);
                }
                return Err(Error::UnexpectedToken(message, pos.line, pos.column));
            },
            None => {},
        }
        file.add_rule(name, rule);
        Ok(None)
    } else if crate::ninja::model::str_eq(word.as_str(), "include") {
        // include <filename>
        let _ = lexer.next();
        assert(lexer.remaining() =~= ts.drop_first());
        lexer.skip_spaces();
        let filename = match parse_expand_word(lexer, &file.global_scope, true) {
            Ok(f) => f,
            Err(e) => {
                return Err(e);
            },
        };
        lexer.skip_spaces();
        Ok(Some(filename))
    } else if crate::ninja::model::str_eq(word.as_str(), "subninja") {
        Err(Error::UnexpectedToken("subninja directive not implemented".to_owned(), 0, 0))
    } else if crate::ninja::model::str_eq(word.as_str(), "pool") {
        Err(Error::UnexpectedToken("pool directive not implemented".to_owned(), 0, 0))
    } else {
        let (k, v) = match parse_variable_assignment(lexer, &file.global_scope) {
            Ok(kv) => kv,
            Err(e) => {
                return Err(e);
            },
        };
        file.set_global(k, v);
        Ok(None)
    }
}

/// What resuming a parse came to.
#[derive(Debug)]
pub enum ParseStep {
    /// The source being read has ended.
    SourceEnded,
    /// The source being read includes the named file, whose contents must
    /// be given before the parse goes on.
    Include(String),
}

/// A parse of a Ninja file and the files it includes. The sources being
/// read are kept in a stack: an include pushes the included file's
/// contents, which are read to their end before the including file goes
/// on. Reading the files themselves is left to the caller.
pub struct ParseSession {
    file: NinjaFile,
    lexers: Vec<Lexer>,
}

/// The file with nothing in it.
pub open spec fn empty_file() -> FileView {
    FileView { global: Map::empty(), rules: Map::empty(), builds: Seq::empty(), phony: Map::empty() }
}

impl ParseSession {
    /// The file as parsed so far.
    pub closed spec fn spec_file(&self) -> FileView {
        self.file@
    }

    /// The streams left in each source being read, the innermost last.
    pub closed spec fn spec_sources(&self) -> Seq<Seq<Lexed>> {
        self.lexers@.map_values(|l: Lexer| l.remaining())
    }

    /// The session's invariant.
    pub closed spec fn wf(&self) -> bool {
        &&& self.file.wf()
        &&& forall|i: int| 0 <= i < self.lexers@.len() ==> (#[trigger] self.lexers@[i]).wf()
    }

    /// A parse of the given text, with an empty file.
    pub fn new(main: &str) -> (p: ParseSession)
        ensures
            p.wf(),
            p.spec_file() == empty_file(),
            p.spec_sources() == seq![crate::ninja::tokenizer::tokens_of(main@)],
    {
        let file = NinjaFile::new();
        let mut lexers: Vec<Lexer> = Vec::new();
        lexers.push(Lexer::new(main));
        let p = ParseSession { file, lexers };
        assert(p.spec_file() =~= empty_file()) by {
            assert(p.file@.global =~= Map::<Seq<char>, Seq<char>>::empty());
            assert(p.file@.rules =~= Map::<Seq<char>, RuleView>::empty());
            assert(p.file@.phony =~= Map::<Seq<char>, PhonyView>::empty());
        }
        assert(p.spec_sources() =~= seq![crate::ninja::tokenizer::tokens_of(main@)]);
        p
    }

    /// Whether every source has been read.
    pub fn is_done(&self) -> (r: bool)
        ensures
            r == (self.spec_sources().len() == 0),
    {
        self.lexers.len() == 0
    }

    /// Go on with the contents of the file that was asked to be included.
    pub fn push_source(&mut self, contents: &str)
        requires
            old(self).wf(),
        ensures
            final(self).wf(),
            final(self).spec_file() == old(self).spec_file(),
            final(self).spec_sources() == old(self).spec_sources().push(crate::ninja::tokenizer::tokens_of(contents@)),
    {
        self.lexers.push(Lexer::new(contents));
        assert(self.spec_sources() =~= old(self).spec_sources().push(crate::ninja::tokenizer::tokens_of(contents@)));
    }

    /// Read the innermost source on, up to its end or to an include.
    pub fn resume(&mut self) -> (r: Result<ParseStep, Error>)
        requires
            old(self).wf(),
            old(self).spec_sources().len() > 0,
        ensures
            final(self).wf(),
            match top_spec(old(self).spec_sources().last(), old(self).spec_file()) {
                TopView::Done(fv) => r matches Ok(ParseStep::SourceEnded) && final(self).spec_file() == fv
                    && final(self).spec_sources() == old(self).spec_sources().drop_last(),
                TopView::Include(f, fv, rest) => r matches Ok(ParseStep::Include(x)) && x@ == f
                    && final(self).spec_file() == fv
                    && final(self).spec_sources() == old(self).spec_sources().drop_last().push(rest),
                TopView::Fail(k) => r matches Err(e) && reports(k, e),
            },
    {
        let ghost srcs = self.spec_sources();
        let mut lexer = self.lexers.pop().unwrap();
        proof {
            assert(self.spec_sources() =~= srcs.drop_last());
            assert(lexer.remaining() == srcs.last());
        }
        let ghost top0 = lexer.remaining();
        let ghost file0 = self.file@;
        loop
            invariant
                lexer.wf(),
                self.wf(),
                self.spec_sources() == srcs.drop_last(),
                srcs == old(self).spec_sources(),
                file0 == old(self).spec_file(),
                top0 == srcs.last(),
                top_spec(top0, file0) == top_spec(lexer.remaining(), self.file@),
            decreases lexer.remaining().len(),
        {
            let ghost ts = lexer.remaining();
            let indented = lexer.eat_newlines();
            if indented {
                return Err(Error::UnexpectedIndentation);
            }
            let ghost t1 = lexer.remaining();
            match lexer.peek() {
                Err(e) => {
                    return Err(e);
                },
                Ok(None) => {
                    return Ok(ParseStep::SourceEnded);
                },
                Ok(Some(Token::Spaces(_))) => {
                    return Err(Error::UnexpectedIndentation);
                },
                Ok(Some(_)) => {},
            }
            proof {
                lemma_statement_shorter(t1, self.file@);
                lemma_eat_newlines_len(ts, false);
            }
            match parse_statement(&mut lexer, &mut self.file) {
                Err(e) => {
                    return Err(e);
                },
                Ok(None) => {},
                Ok(Some(f)) => {
                    let ghost rest = lexer.remaining();
                    self.lexers.push(lexer);
                    proof {
                        assert(self.spec_sources() =~= srcs.drop_last().push(rest));
                    }
                    return Ok(ParseStep::Include(f));
                },
            }
        }
    }

    /// Give up the session, and get the file parsed.
    pub fn into_file(self) -> (f: NinjaFile)
        requires
            self.wf(),
        ensures
            f.wf(),
            f@ == self.spec_file(),
    {
        self.file
    }
}

/// Parse a Ninja file held in memory. An `include` is an error here, as
/// there is no other file to read.
pub fn parse(s: &str) -> (r: Result<NinjaFile, Error>)
    ensures
        match top_spec(crate::ninja::tokenizer::tokens_of(s@), empty_file()) {
            TopView::Done(fv) => r matches Ok(f) && f.wf() && f@ == fv,
            TopView::Include(..) => r matches Err(Error::UnexpectedToken(m, l, c)) && m@
                == "cannot include files in a file held in memory"@ && l == 0 && c == 0,
            TopView::Fail(k) => r matches Err(e) && reports(k, e),
        },
{
    let mut session = ParseSession::new(s);
    match session.resume() {
        Ok(ParseStep::SourceEnded) => Ok(session.into_file()),
        Ok(ParseStep::Include(_)) => Err(
            Error::UnexpectedToken("cannot include files in a file held in memory".to_owned(), 0, 0),
        ),
        Err(e) => Err(e),
    }
}

} // verus!
