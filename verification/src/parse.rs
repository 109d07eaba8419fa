//! The grammar loader's model: lines, the rule each line yields, and the
//! table built from them.
//!
//! Grammar text is split on newlines. A non-empty line must read
//! `<LHS> -> <RHS>`: the left-hand side trims to exactly one uppercase
//! ASCII letter, and the right-hand side (up to a second `->`, if any)
//! is filtered to non-whitespace ASCII characters, each classified as
//! the empty-production marker `0`, a nonterminal (uppercase), or a
//! terminal (anything else).

use vstd::prelude::*;
use crate::grammar::Token;

verus! {

/// Why a grammar text was rejected.
#[derive(Clone, Copy, PartialEq, Eq, Debug)]
pub enum LoadError {
    /// A line's left-hand side trims to nothing, or does not begin with
    /// an uppercase ASCII letter.
    MalformedLhs,
    /// A line's left-hand side trims to more than one character.
    LhsTooLong,
    /// A non-empty line has no `->` separator.
    MissingRhs,
    /// A right-hand side names this nonterminal, but no rule defines it.
    UndefinedNonterminal(char),
}

/// The characters that Unicode (and so `str::trim`) counts as whitespace.
pub open spec fn is_space(c: char) -> bool {
    ||| c as u32 == 0x09
    ||| c as u32 == 0x0a
    ||| c as u32 == 0x0b
    ||| c as u32 == 0x0c
    ||| c as u32 == 0x0d
    ||| c as u32 == 0x20
    ||| c as u32 == 0x85
    ||| c as u32 == 0xa0
    ||| c as u32 == 0x1680
    ||| 0x2000 <= c as u32 <= 0x200a
    ||| c as u32 == 0x2028
    ||| c as u32 == 0x2029
    ||| c as u32 == 0x202f
    ||| c as u32 == 0x205f
    ||| c as u32 == 0x3000
}

/// Whether `c` is an uppercase ASCII letter, the shape of a nonterminal's name.
pub open spec fn is_upper(c: char) -> bool {
    65 <= c as u32 <= 90
}

/// Whether a right-hand-side character survives the filter: ASCII and not whitespace.
pub open spec fn keep_char(c: char) -> bool {
    (c as u32) < 128 && !is_space(c)
}

/// What a kept right-hand-side character stands for.
pub open spec fn classify(c: char) -> Token {
    if c == '0' {
        Token::Null
    } else if is_upper(c) {
        Token::Nonterminal(c)
    } else {
        Token::Terminal(c)
    }
}

/// The rule a right-hand side yields: its kept characters, classified, in order.
pub open spec fn rule_of(s: Seq<char>) -> Seq<Token>
    decreases s.len(),
{
    if s.len() == 0 {
        Seq::empty()
    } else {
        let pre = rule_of(s.drop_last());
        if keep_char(s.last()) {
            pre.push(classify(s.last()))
        } else {
            pre
        }
    }
}

/// The position of the first newline in `s`, or `s.len()` if there is none.
pub open spec fn first_nl(s: Seq<char>) -> int
    decreases s.len(),
{
    if s.len() == 0 {
        0int
    } else if s[0] == '\n' {
        0
    } else {
        1 + first_nl(s.skip(1))
    }
}

pub proof fn lemma_first_nl(s: Seq<char>)
    ensures
        0 <= first_nl(s) <= s.len(),
        first_nl(s) < s.len() ==> s[first_nl(s)] == '\n',
        forall|q: int| 0 <= q < first_nl(s) ==> s[q] != '\n',
    decreases s.len(),
{
    if s.len() == 0 {
    } else if s[0] == '\n' {
    } else {
        lemma_first_nl(s.skip(1));
        assert forall|q: int| 0 <= q < first_nl(s) implies s[q] != '\n' by {
            if q > 0 {
                assert(s.skip(1)[q - 1] == s[q]);
            }
        }
        if first_nl(s) < s.len() {
            assert(s.skip(1)[first_nl(s) - 1] == s[first_nl(s)]);
        }
    }
}

/// The text's lines: the pieces between newlines, in order.
pub open spec fn split_lines(s: Seq<char>) -> Seq<Seq<char>>
    decreases s.len(),
{
    let i = first_nl(s);
    if 0 <= i < s.len() {
        seq![s.take(i)] + split_lines(s.skip(i + 1))
    } else {
        seq![s]
    }
}

/// The position of the first `->` in `l`, or `l.len()` if there is none.
pub open spec fn first_sep(l: Seq<char>) -> int
    decreases l.len(),
{
    if l.len() < 2 {
        l.len() as int
    } else if l[0] == '-' && l[1] == '>' {
        0
    } else {
        1 + first_sep(l.skip(1))
    }
}

pub proof fn lemma_first_sep(l: Seq<char>)
    ensures
        0 <= first_sep(l) <= l.len(),
        first_sep(l) == l.len() || first_sep(l) + 2 <= l.len(),
        first_sep(l) + 2 <= l.len() ==> l[first_sep(l)] == '-' && l[first_sep(l) + 1] == '>',
        forall|q: int|
            0 <= q < first_sep(l) && q + 1 < l.len() ==> !(l[q] == '-' && #[trigger] l[q + 1]
                == '>'),
    decreases l.len(),
{
    if l.len() < 2 {
    } else if l[0] == '-' && l[1] == '>' {
    } else {
        lemma_first_sep(l.skip(1));
        assert forall|q: int|
            0 <= q < first_sep(l) && q + 1 < l.len() implies !(l[q] == '-' && #[trigger] l[q + 1]
            == '>') by {
            if q > 0 {
                assert(l.skip(1)[q - 1] == l[q]);
                assert(l.skip(1)[q] == l[q + 1]);
            }
        }
        if first_sep(l) + 2 <= l.len() {
            assert(l.skip(1)[first_sep(l) - 1] == l[first_sep(l)]);
            assert(l.skip(1)[first_sep(l)] == l[first_sep(l) + 1]);
        }
    }
}

/// The position of the first non-whitespace character, or `s.len()` if all
/// of `s` is whitespace.
pub open spec fn first_ns(s: Seq<char>) -> int
    decreases s.len(),
{
    if s.len() == 0 {
        0
    } else if !is_space(s[0]) {
        0
    } else {
        1 + first_ns(s.skip(1))
    }
}

pub proof fn lemma_first_ns(s: Seq<char>)
    ensures
        0 <= first_ns(s) <= s.len(),
        first_ns(s) < s.len() ==> !is_space(s[first_ns(s)]),
        forall|q: int| 0 <= q < first_ns(s) ==> is_space(#[trigger] s[q]),
    decreases s.len(),
{
    if s.len() == 0 {
    } else if !is_space(s[0]) {
    } else {
        lemma_first_ns(s.skip(1));
        assert forall|q: int| 0 <= q < first_ns(s) implies is_space(#[trigger] s[q]) by {
            if q > 0 {
                assert(s.skip(1)[q - 1] == s[q]);
            }
        }
        if first_ns(s) < s.len() {
            assert(s.skip(1)[first_ns(s) - 1] == s[first_ns(s)]);
        }
    }
}

/// The position of the last non-whitespace character, or `-1` if all of
/// `s` is whitespace.
pub open spec fn last_ns(s: Seq<char>) -> int
    decreases s.len(),
{
    if s.len() == 0 {
        -1
    } else if !is_space(s.last()) {
        s.len() - 1
    } else {
        last_ns(s.drop_last())
    }
}

pub proof fn lemma_last_ns(s: Seq<char>)
    ensures
        -1 <= last_ns(s) < s.len(),
        last_ns(s) >= 0 ==> !is_space(s[last_ns(s)]),
        forall|q: int| last_ns(s) < q < s.len() ==> is_space(#[trigger] s[q]),
    decreases s.len(),
{
    if s.len() == 0 {
    } else if !is_space(s.last()) {
    } else {
        lemma_last_ns(s.drop_last());
        assert forall|q: int| last_ns(s) < q < s.len() implies is_space(#[trigger] s[q]) by {
            if q < s.len() - 1 {
                assert(s.drop_last()[q] == s[q]);
            }
        }
        if last_ns(s) >= 0 {
            assert(s.drop_last()[last_ns(s)] == s[last_ns(s)]);
        }
    }
}

/// What one line of grammar text yields: nothing for an empty line, a
/// nonterminal and one rule for a well-formed line, an error otherwise.
/// The left-hand side is validated before a missing separator is noticed.
pub open spec fn line_parse(l: Seq<char>) -> Result<Option<(char, Seq<Token>)>, LoadError> {
    if l.len() == 0 {
        Ok(None)
    } else {
        let s = first_sep(l);
        let lhs = l.take(s);
        let a = first_ns(lhs);
        let b = last_ns(lhs);
        if b < 0 {
            Err(LoadError::MalformedLhs)
        } else if !is_upper(lhs[a]) {
            Err(LoadError::MalformedLhs)
        } else if b > a {
            Err(LoadError::LhsTooLong)
        } else if s + 2 > l.len() {
            Err(LoadError::MissingRhs)
        } else {
            let rest = l.skip(s + 2);
            Ok(Some((lhs[a], rule_of(rest.take(first_sep(rest))))))
        }
    }
}

/// The rule table under construction: the nonterminals in the order first
/// seen, and each one's rules in the order given.
pub struct TableV {
    pub keys: Seq<char>,
    pub rules: Map<char, Seq<Seq<Token>>>,
}

/// Adds one rule under its nonterminal, registering the nonterminal first
/// if this is its first rule.
pub open spec fn tab_add(t: TableV, k: char, r: Seq<Token>) -> TableV {
    if t.rules.dom().contains(k) {
        TableV { keys: t.keys, rules: t.rules.insert(k, t.rules[k].push(r)) }
    } else {
        TableV { keys: t.keys.push(k), rules: t.rules.insert(k, seq![r]) }
    }
}

/// Folds the lines, in order, into a rule table; the first bad line's
/// error is the result.
pub open spec fn load_lines(ls: Seq<Seq<char>>, acc: TableV) -> Result<TableV, LoadError>
    decreases ls.len(),
{
    if ls.len() == 0 {
        Ok(acc)
    } else {
        match line_parse(ls[0]) {
            Err(e) => Err(e),
            Ok(None) => load_lines(ls.skip(1), acc),
            Ok(Some((k, r))) => load_lines(ls.skip(1), tab_add(acc, k, r)),
        }
    }
}

/// The rule table that a whole grammar text yields, or the first error in it.
pub open spec fn parse_grammar(text: Seq<char>) -> Result<TableV, LoadError> {
    load_lines(split_lines(text), TableV { keys: Seq::empty(), rules: Map::empty() })
}

/// Whether some right-hand side of the table names the nonterminal `c`.
pub open spec fn rhs_mentions(rt: Map<char, Seq<Seq<Token>>>, c: char) -> bool {
    exists|k: char, i: int, j: int|
        #![auto]
        rt.dom().contains(k) && 0 <= i < rt[k].len() && 0 <= j < rt[k][i].len() && rt[k][i][j]
            == Token::Nonterminal(c)
}

/// Whether `c` is whitespace, as [`is_space`] says.
pub(crate) fn is_space_x(c: char) -> (r: bool)
    ensures
        r == is_space(c),
{
    let v = c as u32;
    v == 0x09 || v == 0x0a || v == 0x0b || v == 0x0c || v == 0x0d || v == 0x20 || v == 0x85
        || v == 0xa0 || v == 0x1680 || (0x2000 <= v && v <= 0x200a) || v == 0x2028 || v == 0x2029
        || v == 0x202f || v == 0x205f || v == 0x3000
}

/// The position of the first `->` at or after `from`, or the length if
/// there is none.
pub(crate) fn find_sep(v: &Vec<char>, from: usize) -> (r: usize)
    requires
        from <= v@.len(),
    ensures
        from <= r <= v@.len(),
        r - from == first_sep(v@.skip(from as int)),
{
    let ghost suf = v@.skip(from as int);
    let n = v.len();
    let mut q = from;
    if n >= 1 {
        while q < n - 1
            invariant
                from <= q <= n,
                n == v@.len(),
                n >= 1,
                from <= n,
                suf == v@.skip(from as int),
                forall|w: int|
                    0 <= w < q - from && w + 1 < suf.len() ==> !(suf[w] == '-'
                        && #[trigger] suf[w + 1] == '>'),
            decreases n - q,
        {
            if v[q] == '-' && v[q + 1] == '>' {
                proof {
                    lemma_first_sep(suf);
                    assert(suf[q - from] == v@[q as int]);
                    assert(suf[q - from + 1] == v@[q as int + 1]);
                    let fs = first_sep(suf);
                    if fs < q - from {
                        assert(fs + 2 <= suf.len());
                        assert(suf[fs] == '-' && suf[fs + 1] == '>');
                        assert(false);
                    }
                    if fs > q - from {
                        assert(!(suf[q - from] == '-' && suf[q - from + 1] == '>'));
                        assert(false);
                    }
                }
                return q;
            }
            proof {
                assert(suf[q - from] == v@[q as int]);
                assert(suf[q - from + 1] == v@[q as int + 1]);
            }
            q += 1;
        }
    }
    proof {
        lemma_first_sep(suf);
        let fs = first_sep(suf);
        if fs + 2 <= suf.len() {
            assert(suf[fs] == '-' && suf[fs + 1] == '>');
            assert(fs + 1 < suf.len());
            assert(false);
        }
        assert(fs == suf.len());
    }
    n
}

/// Reads one line: nothing for an empty line, the nonterminal and the
/// rule for a well-formed one, the error [`line_parse`] gives otherwise.
pub(crate) fn parse_line_exec(line: &Vec<char>) -> (r: Result<
    Option<(char, Vec<Token>)>,
    LoadError,
>)
    ensures
        match r {
            Ok(None) => line_parse(line@) == Ok::<Option<(char, Seq<Token>)>, LoadError>(None),
            Ok(Some((k, toks))) => line_parse(line@) == Ok::<
                Option<(char, Seq<Token>)>,
                LoadError,
            >(Some((k, toks@))),
            Err(e) => line_parse(line@) == Err::<Option<(char, Seq<Token>)>, LoadError>(e),
        },
{
    let len = line.len();
    if len == 0 {
        return Ok(None);
    }
    let s = find_sep(line, 0);
    let ghost lhs = line@.take(first_sep(line@));
    proof {
        assert(line@.skip(0) =~= line@);
        assert(s == first_sep(line@));
        assert(lhs =~= line@.subrange(0, s as int));
        lemma_first_ns(lhs);
        lemma_last_ns(lhs);
    }
    // the first non-whitespace character of the left-hand side
    let mut a: usize = 0;
    while a < s && is_space_x(line[a])
        invariant
            0 <= a <= s <= line@.len(),
            lhs == line@.take(first_sep(line@)),
            s == first_sep(line@),
            lhs.len() == s,
            forall|w: int| 0 <= w < a ==> is_space(#[trigger] lhs[w]),
        decreases s - a,
    {
        proof {
            assert(lhs[a as int] == line@[a as int]);
        }
        a += 1;
    }
    proof {
        if a < s {
            assert(lhs[a as int] == line@[a as int]);
        }
        let fa = first_ns(lhs);
        if fa < a {
            assert(is_space(lhs[fa]));
            assert(false);
        }
        if fa > a {
            assert(a < s);
            assert(is_space(lhs[a as int]));
            assert(false);
        }
        assert(a == first_ns(lhs));
    }
    if a == s {
        // the left-hand side is empty or all whitespace
        proof {
            let b = last_ns(lhs);
            if b >= 0 {
                assert(!is_space(lhs[b]));
                assert(b >= first_ns(lhs));
                assert(false);
            }
        }
        return Err(LoadError::MalformedLhs);
    }
    let head = line[a];
    proof {
        assert(lhs[a as int] == line@[a as int]);
        let b = last_ns(lhs);
        assert(!is_space(lhs[a as int]));
        if b < a {
            assert(is_space(lhs[a as int]));
            assert(false);
        }
        assert(b >= 0);
    }
    let hv = head as u32;
    if !(65 <= hv && hv <= 90) {
        return Err(LoadError::MalformedLhs);
    }
    // whether anything but whitespace follows the first character
    let mut w: usize = a + 1;
    while w < s && is_space_x(line[w])
        invariant
            a < w <= s || w == a + 1,
            a + 1 <= w <= s || (a + 1 > s && w == a + 1),
            s <= line@.len(),
            lhs == line@.take(first_sep(line@)),
            s == first_sep(line@),
            lhs.len() == s,
            forall|q: int| a < q < w ==> is_space(#[trigger] lhs[q]),
        decreases s - w,
    {
        proof {
            assert(lhs[w as int] == line@[w as int]);
        }
        w += 1;
    }
    if w < s {
        proof {
            assert(lhs[w as int] == line@[w as int]);
            assert(!is_space(lhs[w as int]));
            let b = last_ns(lhs);
            if b <= a {
                assert(is_space(lhs[w as int]));
                assert(false);
            }
        }
        return Err(LoadError::LhsTooLong);
    }
    proof {
        let b = last_ns(lhs);
        if b > a {
            assert(is_space(lhs[b]));
            assert(false);
        }
        assert(b == a);
    }
    if len < 2 || s > len - 2 {
        return Err(LoadError::MissingRhs);
    }
    // the right-hand side runs to a second separator, or to the end
    let e2 = find_sep(line, s + 2);
    let ghost rest = line@.skip(s as int + 2);
    proof {
        assert(e2 - (s + 2) == first_sep(rest));
        assert(rest.take(first_sep(rest)) =~= line@.subrange(s as int + 2, e2 as int));
    }
    let mut toks: Vec<Token> = Vec::new();
    let mut j = s + 2;
    while j < e2
        invariant
            s + 2 <= j <= e2 <= line@.len(),
            toks@ == rule_of(line@.subrange(s as int + 2, j as int)),
        decreases e2 - j,
    {
        let c = line[j];
        let cv = c as u32;
        let ghost pre = line@.subrange(s as int + 2, j as int);
        if cv < 128 && !is_space_x(c) {
            if c == '0' {
                toks.push(Token::Null);
            } else if 65 <= cv && cv <= 90 {
                toks.push(Token::Nonterminal(c));
            } else {
                toks.push(Token::Terminal(c));
            }
            proof {
                assert(classify(c) == toks@.last());
            }
        }
        proof {
            let nxt = line@.subrange(s as int + 2, j as int + 1);
            assert(nxt.drop_last() =~= pre);
            assert(nxt.last() == line@[j as int]);
        }
        j += 1;
    }
    proof {
        assert(line@.subrange(s as int + 2, e2 as int) =~= rest.take(first_sep(rest)));
        assert(toks@ == rule_of(rest.take(first_sep(rest))));
        assert(head == lhs[first_ns(lhs)]);
    }
    Ok(Some((head, toks)))
}

} // verus!
