//! Program parser: text lines to a routine table.
//!
//! Lines are trimmed of surrounding whitespace (space, tab, carriage
//! return, line feed, vertical tab, form feed); empty lines and lines
//! beginning with `#` are dropped. A line ending in `:` introduces a
//! routine name (the trailing colons are stripped); other lines are
//! instructions for the most recently introduced routine.

use vstd::prelude::*;
use crate::code::{
    parse_loc_spec, parse_u8_spec, parse_vml_spec, str_eq, parse_u8_token, CodePoint, MemLocation,
    Op, ParseError, Routines, ValMemLoc,
};
use crate::interpreter::CodeBlock;

verus! {

/// Whether `c` is whitespace for line trimming and tokenization.
pub open spec fn is_space_char(c: char) -> bool {
    c == ' ' || c == '\t' || c == '\r' || c == '\n' || c == '\x0B' || c == '\x0C'
}

/// Executable whitespace test.
fn is_space_c(c: char) -> (r: bool)
    ensures
        r == is_space_char(c),
{
    c == ' ' || c == '\t' || c == '\r' || c == '\n' || c == '\x0B' || c == '\x0C'
}

/// `s` without leading and trailing whitespace.
pub open spec fn trim_spec(s: Seq<char>) -> Seq<char>
    decreases s.len(),
{
    if s.len() == 0 {
        s
    } else if is_space_char(s.first()) {
        trim_spec(s.drop_first())
    } else if is_space_char(s.last()) {
        trim_spec(s.drop_last())
    } else {
        s
    }
}

/// Trimming keeps exactly the span between the outermost non-space
/// characters.
proof fn lemma_trim_range(s: Seq<char>, a: int, b: int)
    requires
        0 <= a <= b <= s.len(),
        forall|j: int| 0 <= j < a ==> is_space_char(#[trigger] s[j]),
        forall|j: int| b <= j < s.len() ==> is_space_char(#[trigger] s[j]),
        a == b || (!is_space_char(s[a]) && !is_space_char(s[b - 1])),
    ensures
        trim_spec(s) == s.subrange(a, b),
    decreases s.len(),
{
    if s.len() == 0 {
        assert(trim_spec(s) =~= s.subrange(a, b));
    } else if is_space_char(s.first()) {
        // The first character is space, so a >= 1 unless the result is
        // empty; either way the recursion peels it off.
        let s2 = s.drop_first();
        if a == b {
            assert forall|j: int| 0 <= j < s2.len() implies is_space_char(#[trigger] s2[j]) by {
                assert(s2[j] == s[j + 1]);
                if j + 1 < a {
                } else {
                }
            }
            lemma_trim_range(s2, 0, 0);
            assert(trim_spec(s) == trim_spec(s2));
            assert(s.subrange(a, b) =~= s2.subrange(0, 0));
        } else {
            assert(a >= 1);
            assert forall|j: int| 0 <= j < a - 1 implies is_space_char(#[trigger] s2[j]) by {
                assert(s2[j] == s[j + 1]);
            }
            assert forall|j: int| b - 1 <= j < s2.len() implies is_space_char(
                #[trigger] s2[j],
            ) by {
                assert(s2[j] == s[j + 1]);
            }
            assert(s2[a - 1] == s[a]);
            assert(s2[b - 2] == s[b - 1]);
            lemma_trim_range(s2, a - 1, b - 1);
            assert(s.subrange(a, b) =~= s2.subrange(a - 1, b - 1));
        }
    } else if is_space_char(s.last()) {
        // The first character is not space, so a == 0 and b < s.len().
        let s2 = s.drop_last();
        if a == b {
            assert(is_space_char(s[0]));
            assert(false);
        } else {
            assert(a == 0);
            assert(b < s.len());
            assert forall|j: int| b <= j < s2.len() implies is_space_char(#[trigger] s2[j]) by {
                assert(s2[j] == s[j]);
            }
            assert(s2[b - 1] == s[b - 1]);
            lemma_trim_range(s2, 0, b);
            assert(s.subrange(a, b) =~= s2.subrange(0, b));
        }
    } else {
        if a == b {
            if s.len() > 0 {
                assert(is_space_char(s[0]));
                assert(false);
            }
        }
        assert(a == 0);
        assert(b == s.len());
        assert(trim_spec(s) == s);
        assert(s.subrange(a, b) =~= s);
    }
}

/// The index of the first non-space character, or the length.
fn first_nonspace(t: &str) -> (a: usize)
    ensures
        0 <= a as int <= t@.len(),
        forall|j: int| 0 <= j < a ==> is_space_char(#[trigger] t@[j]),
        (a as int) < t@.len() ==> !is_space_char(t@[a as int]),
{
    let n = t.unicode_len();
    let mut i: usize = 0;
    while i < n
        invariant
            0 <= i <= n,
            n as int == t@.len(),
            forall|j: int| 0 <= j < i ==> is_space_char(#[trigger] t@[j]),
        decreases n - i,
    {
        let c = t.get_char(i);
        if !is_space_c(c) {
            return i;
        }
        i += 1;
    }
    n
}

/// One past the last non-space character, or 0.
fn last_nonspace_end(t: &str) -> (b: usize)
    ensures
        0 <= b as int <= t@.len(),
        forall|j: int| b <= j < t@.len() ==> is_space_char(#[trigger] t@[j]),
        b > 0 ==> !is_space_char(t@[b - 1]),
{
    let n = t.unicode_len();
    let mut i: usize = n;
    while i > 0
        invariant
            0 <= i <= n,
            n as int == t@.len(),
            forall|j: int| i <= j < n ==> is_space_char(#[trigger] t@[j]),
        decreases i,
    {
        let c = t.get_char(i - 1);
        if !is_space_c(c) {
            return i;
        }
        i -= 1;
    }
    0
}

/// Trim surrounding whitespace from a line.
pub fn trim_line(t: &str) -> (r: &str)
    ensures
        r@ == trim_spec(t@),
{
    let n = t.unicode_len();
    let a = first_nonspace(t);
    if a == n {
        let r = t.substring_char(n, n);
        proof {
            lemma_trim_range(t@, n as int, n as int);
            assert(r@ =~= t@.subrange(n as int, n as int));
        }
        r
    } else {
        let b = last_nonspace_end(t);
        proof {
            if b <= a {
                assert(is_space_char(t@[a as int]));
                assert(false);
            }
            lemma_trim_range(t@, a as int, b as int);
        }
        t.substring_char(a, b)
    }
}

// ---------------------------------------------------------------------------
// Tokenization.
// ---------------------------------------------------------------------------

/// The tokens of `s` from position `i`, with `cur` the token in progress
/// and `acc` the tokens already complete.
pub open spec fn tok_rec(s: Seq<char>, i: int, cur: Seq<char>, acc: Seq<Seq<char>>) -> Seq<
    Seq<char>,
>
    decreases s.len() - i,
{
    if i < 0 || i >= s.len() {
        if cur.len() > 0 {
            acc.push(cur)
        } else {
            acc
        }
    } else if is_space_char(s[i]) {
        if cur.len() > 0 {
            tok_rec(s, i + 1, Seq::empty(), acc.push(cur))
        } else {
            tok_rec(s, i + 1, cur, acc)
        }
    } else {
        tok_rec(s, i + 1, cur.push(s[i]), acc)
    }
}

/// The whitespace-separated tokens of `s`.
pub open spec fn tokenize_spec(s: Seq<char>) -> Seq<Seq<char>> {
    tok_rec(s, 0, Seq::empty(), Seq::empty())
}

/// Whether position `i` holds a non-space character.
fn nonspace_at(t: &str, i: usize, n: usize) -> (r: bool)
    requires
        n as int == t@.len(),
    ensures
        r == (i < n && !is_space_char(t@[i as int])),
{
    if i < n {
        let c = t.get_char(i);
        !is_space_c(c)
    } else {
        false
    }
}

/// Split a line into its whitespace-separated tokens.
pub fn tokenize(line: &str) -> (toks: Vec<String>)
    ensures
        toks.deep_view() == tokenize_spec(line@),
{
    let n = line.unicode_len();
    let mut toks: Vec<String> = Vec::new();
    proof {
        assert(toks.deep_view() =~= Seq::<Seq<char>>::empty());
    }
    let mut i: usize = 0;
    while i < n
        invariant
            0 <= i <= n,
            n as int == line@.len(),
            tok_rec(line@, i as int, Seq::empty(), toks.deep_view()) == tokenize_spec(line@),
        decreases n - i,
    {
        let c = line.get_char(i);
        if is_space_c(c) {
            i += 1;
        } else {
            let start = i;
            i += 1;
            proof {
                assert(line@.subrange(start as int, i as int) =~= Seq::<char>::empty().push(
                    line@[start as int],
                ));
            }
            while nonspace_at(line, i, n)
                invariant
                    start < i <= n,
                    n as int == line@.len(),
                    line@.subrange(start as int, i as int).len() > 0,
                    tok_rec(
                        line@,
                        i as int,
                        line@.subrange(start as int, i as int),
                        toks.deep_view(),
                    ) == tokenize_spec(line@),
                decreases n - i,
            {
                i += 1;
                proof {
                    assert(line@.subrange(start as int, i as int) =~= line@.subrange(
                        start as int,
                        i as int - 1,
                    ).push(line@[i as int - 1]));
                }
            }
            let tok = line.substring_char(start, i);
            let tok_string = String::from_str(tok);
            let ghost old_dv = toks.deep_view();
            toks.push(tok_string);
            proof {
                assert(tok_string@ == line@.subrange(start as int, i as int));
                assert(toks.deep_view() =~= old_dv.push(line@.subrange(start as int, i as int)));
            }
        }
    }
    proof {
        assert(tok_rec(line@, n as int, Seq::empty(), toks.deep_view()) == toks.deep_view());
    }
    toks
}

// ---------------------------------------------------------------------------
// Instruction lines.
// ---------------------------------------------------------------------------

/// The meaning of one instruction line.
pub open spec fn parse_line_spec(line: Seq<char>) -> Result<Op, ParseError> {
    let toks = tokenize_spec(line);
    if toks.len() == 3 && toks[0] == "SET"@ {
        match parse_loc_spec(toks[1]) {
            Some(d) => match parse_u8_spec(toks[2]) {
                Some(v) => Ok(Op::SetLit { dest: d, value: v }),
                None => Err(ParseError::InvalidLiteral),
            },
            None => Err(ParseError::InvalidAddress),
        }
    } else if toks.len() == 3 && toks[0] == "CPY"@ {
        match parse_loc_spec(toks[1]) {
            Some(d) => match parse_loc_spec(toks[2]) {
                Some(src) => Ok(Op::Cpy { dest: d, source: src }),
                None => Err(ParseError::InvalidAddress),
            },
            None => Err(ParseError::InvalidAddress),
        }
    } else if toks.len() == 1 && toks[0] == "ADD"@ {
        Ok(Op::Add)
    } else if toks.len() == 1 && toks[0] == "SUB"@ {
        Ok(Op::Sub)
    } else if toks.len() == 1 && toks[0] == "MUL"@ {
        Ok(Op::Mul)
    } else if toks.len() == 1 && toks[0] == "DIV"@ {
        Ok(Op::Div)
    } else if toks.len() == 1 && toks[0] == "MOD"@ {
        Ok(Op::Mod)
    } else if toks.len() == 1 && toks[0] == "CMP"@ {
        Ok(Op::Cmp)
    } else if toks.len() == 2 && toks[0] == "BJMP"@ {
        match parse_loc_spec(toks[1]) {
            Some(c) => Ok(Op::BJmp { cond: c }),
            None => Err(ParseError::InvalidAddress),
        }
    } else if toks.len() == 1 && toks[0] == "LAND"@ {
        Ok(Op::Land)
    } else if toks.len() == 2 && toks[0] == "RADD"@ {
        Ok(Op::RAdd { name: toks[1] })
    } else if toks.len() == 2 && toks[0] == "RSWP"@ {
        Ok(Op::RSwp { name: toks[1] })
    } else if toks.len() == 1 && toks[0] == "TERM"@ {
        Ok(Op::Term)
    } else if toks.len() == 2 && toks[0] == "PRINT"@ {
        match parse_vml_spec(toks[1]) {
            Ok(src) => Ok(Op::Print { source: src }),
            Err(e) => Err(e),
        }
    } else if toks.len() == 2 && toks[0] == "PRINTC"@ {
        if toks[1] == seq!['\\', 'n'] {
            Ok(Op::PrintC { source: ValMemLoc::Value(10) })
        } else if toks[1] == seq!['\\', 's'] {
            Ok(Op::PrintC { source: ValMemLoc::Value(32) })
        } else {
            match parse_vml_spec(toks[1]) {
                Ok(src) => Ok(Op::PrintC { source: src }),
                Err(e) => Err(e),
            }
        }
    } else {
        Err(ParseError::UnknownKeyword)
    }
}

/// Whether an executable parse result matches the line's meaning.
pub open spec fn line_result_matches(
    r: Result<CodePoint, ParseError>,
    s: Result<Op, ParseError>,
) -> bool {
    match (r, s) {
        (Ok(cp), Ok(op)) => cp@ == op,
        (Err(e1), Err(e2)) => e1 == e2,
        _ => false,
    }
}

/// Parse one instruction line.
pub fn parse_line(line: &str) -> (r: Result<CodePoint, ParseError>)
    ensures
        line_result_matches(r, parse_line_spec(line@)),
{
    let toks = tokenize(line);
    let ghost tv = toks.deep_view();
    let tn = toks.len();
    proof {
        assert(tv.len() == toks@.len());
    }
    if tn == 3 && str_eq(toks[0].as_str(), "SET") {
        match MemLocation::parse(toks[1].as_str()) {
            Ok(d) => match parse_u8_token(toks[2].as_str()) {
                Some(v) => Ok(CodePoint::SetLit { dest: d, value: v }),
                None => Err(ParseError::InvalidLiteral),
            },
            Err(_) => Err(ParseError::InvalidAddress),
        }
    } else if tn == 3 && str_eq(toks[0].as_str(), "CPY") {
        match MemLocation::parse(toks[1].as_str()) {
            Ok(d) => match MemLocation::parse(toks[2].as_str()) {
                Ok(src) => Ok(CodePoint::Cpy { dest: d, source: src }),
                Err(_) => Err(ParseError::InvalidAddress),
            },
            Err(_) => Err(ParseError::InvalidAddress),
        }
    } else if tn == 1 && str_eq(toks[0].as_str(), "ADD") {
        Ok(CodePoint::Add)
    } else if tn == 1 && str_eq(toks[0].as_str(), "SUB") {
        Ok(CodePoint::Sub)
    } else if tn == 1 && str_eq(toks[0].as_str(), "MUL") {
        Ok(CodePoint::Mul)
    } else if tn == 1 && str_eq(toks[0].as_str(), "DIV") {
        Ok(CodePoint::Div)
    } else if tn == 1 && str_eq(toks[0].as_str(), "MOD") {
        Ok(CodePoint::Mod)
    } else if tn == 1 && str_eq(toks[0].as_str(), "CMP") {
        Ok(CodePoint::Cmp)
    } else if tn == 2 && str_eq(toks[0].as_str(), "BJMP") {
        match MemLocation::parse(toks[1].as_str()) {
            Ok(c) => Ok(CodePoint::BJmp { cond: c }),
            Err(_) => Err(ParseError::InvalidAddress),
        }
    } else if tn == 1 && str_eq(toks[0].as_str(), "LAND") {
        Ok(CodePoint::Land)
    } else if tn == 2 && str_eq(toks[0].as_str(), "RADD") {
        Ok(CodePoint::RAdd { name: toks[1].clone() })
    } else if tn == 2 && str_eq(toks[0].as_str(), "RSWP") {
        Ok(CodePoint::RSwp { name: toks[1].clone() })
    } else if tn == 1 && str_eq(toks[0].as_str(), "TERM") {
        Ok(CodePoint::Term)
    } else if tn == 2 && str_eq(toks[0].as_str(), "PRINT") {
        match ValMemLoc::parse(toks[1].as_str()) {
            Ok(src) => Ok(CodePoint::Print { source: src }),
            Err(e) => Err(e),
        }
    } else if tn == 2 && str_eq(toks[0].as_str(), "PRINTC") {
        let t1 = toks[1].as_str();
        let m = t1.unicode_len();
        if m == 2 {
            let c0 = t1.get_char(0);
            let c1 = t1.get_char(1);
            if c0 == '\\' && c1 == 'n' {
                proof {
                    assert(tv[1] =~= seq!['\\', 'n']);
                }
                return Ok(CodePoint::PrintC { source: ValMemLoc::Value(10) });
            }
            if c0 == '\\' && c1 == 's' {
                proof {
                    assert(tv[1] =~= seq!['\\', 's']);
                }
                return Ok(CodePoint::PrintC { source: ValMemLoc::Value(32) });
            }
        }
        proof {
            assert(tv[1] != seq!['\\', 'n']);
            assert(tv[1] != seq!['\\', 's']);
        }
        match ValMemLoc::parse(t1) {
            Ok(src) => Ok(CodePoint::PrintC { source: src }),
            Err(e) => Err(e),
        }
    } else {
        Err(ParseError::UnknownKeyword)
    }
}

/// Whether a line is a comment: its first character is `#`.
pub open spec fn is_comment_spec(t: Seq<char>) -> bool {
    t.len() > 0 && t[0] == '#'
}

/// Whether a line introduces a routine name: it ends in `:`.
pub open spec fn is_label_spec(t: Seq<char>) -> bool {
    t.len() > 0 && t[t.len() - 1] == ':'
}

/// Whether a (trimmed) line is a comment.
pub fn is_comment_source(line: &str) -> (r: bool)
    ensures
        r == is_comment_spec(line@),
{
    let n = line.unicode_len();
    if n == 0 {
        false
    } else {
        line.get_char(0) == '#'
    }
}

/// Whether a (trimmed) line introduces a routine name.
pub fn is_routine_source(line: &str) -> (r: bool)
    ensures
        r == is_label_spec(line@),
{
    let n = line.unicode_len();
    if n == 0 {
        false
    } else {
        line.get_char(n - 1) == ':'
    }
}

// ---------------------------------------------------------------------------
// Instruction blocks.
// ---------------------------------------------------------------------------

/// The meaning of a sequence of instruction lines: each non-empty line in
/// order, stopping at the first failure.
pub open spec fn parse_block_spec(lines: Seq<Seq<char>>) -> Result<Seq<Op>, ParseError>
    decreases lines.len(),
{
    if lines.len() == 0 {
        Ok(Seq::empty())
    } else {
        match parse_block_spec(lines.drop_last()) {
            Ok(s) => if lines.last().len() == 0 {
                Ok(s)
            } else {
                match parse_line_spec(lines.last()) {
                    Ok(op) => Ok(s.push(op)),
                    Err(e) => Err(e),
                }
            },
            Err(e) => Err(e),
        }
    }
}

/// A failed prefix fails the whole block with the same error.
proof fn lemma_block_error_persists(lines: Seq<Seq<char>>, j: int)
    requires
        0 <= j <= lines.len(),
        parse_block_spec(lines.take(j)) is Err,
    ensures
        parse_block_spec(lines) == parse_block_spec(lines.take(j)),
    decreases lines.len() - j,
{
    if j < lines.len() {
        assert(lines.take(j + 1).drop_last() =~= lines.take(j));
        lemma_block_error_persists(lines, j + 1);
    } else {
        assert(lines.take(j) =~= lines);
    }
}

/// Whether an executable block parse matches the lines' meaning.
pub open spec fn block_result_matches(
    r: Result<CodeBlock, ParseError>,
    s: Result<Seq<Op>, ParseError>,
) -> bool {
    match (r, s) {
        (Ok(cb), Ok(ops)) => cb@ == ops,
        (Err(e1), Err(e2)) => e1 == e2,
        _ => false,
    }
}

/// Parse a sequence of instruction lines into one instruction block.
pub fn parse_codeblock(source_code: &Vec<String>) -> (r: Result<CodeBlock, ParseError>)
    ensures
        block_result_matches(r, parse_block_spec(source_code.deep_view())),
{
    let ghost lv = source_code.deep_view();
    let mut code_block = CodeBlock::new();
    let n = source_code.len();
    let mut i: usize = 0;
    proof {
        assert(lv.take(0) =~= Seq::<Seq<char>>::empty());
    }
    while i < n
        invariant
            0 <= i <= n,
            n == source_code@.len(),
            lv == source_code.deep_view(),
            parse_block_spec(lv.take(i as int)) == Ok::<Seq<Op>, ParseError>(code_block@),
        decreases n - i,
    {
        let line = source_code[i].as_str();
        proof {
            assert(line@ == lv[i as int]);
            assert(lv.take(i as int + 1).drop_last() =~= lv.take(i as int));
            assert(lv.take(i as int + 1).last() == lv[i as int]);
        }
        if !line.is_empty() {
            match parse_line(line) {
                Ok(cp) => {
                    let ghost old_block = code_block@;
                    code_block.code.push(cp);
                    proof {
                        assert(code_block@ =~= old_block.push(cp@));
                    }
                },
                Err(e) => {
                    proof {
                        lemma_block_error_persists(lv, i as int + 1);
                    }
                    return Err(e);
                },
            }
        }
        i += 1;
    }
    proof {
        assert(lv.take(n as int) =~= lv);
    }
    Ok(code_block)
}

// ---------------------------------------------------------------------------
// Whole programs.
// ---------------------------------------------------------------------------

/// `t` without its trailing colons.
pub open spec fn strip_colons(t: Seq<char>) -> Seq<char>
    decreases t.len(),
{
    if t.len() > 0 && t.last() == ':' {
        strip_colons(t.drop_last())
    } else {
        t
    }
}

/// Stripping keeps exactly the prefix before the trailing colons.
proof fn lemma_strip_colons_range(t: Seq<char>, e: int)
    requires
        0 <= e <= t.len(),
        forall|j: int| e <= j < t.len() ==> #[trigger] t[j] == ':',
        e == 0 || t[e - 1] != ':',
    ensures
        strip_colons(t) == t.take(e),
    decreases t.len(),
{
    if e < t.len() {
        assert(t.last() == ':');
        assert forall|j: int| e <= j < t.drop_last().len() implies #[trigger] t.drop_last()[j]
            == ':' by {
            assert(t.drop_last()[j] == t[j]);
        }
        lemma_strip_colons_range(t.drop_last(), e);
        assert(t.drop_last().take(e) =~= t.take(e));
    } else {
        if t.len() > 0 {
            assert(t[e - 1] != ':');
        }
        assert(t.take(e) =~= t);
    }
}

/// Whether position `e - 1` holds a colon.
fn colon_at(t: &str, e: usize) -> (r: bool)
    requires
        e as int <= t@.len(),
    ensures
        r == (e > 0 && t@[e - 1] == ':'),
{
    if e == 0 {
        false
    } else {
        t.get_char(e - 1) == ':'
    }
}

/// The routine name of a label line: the line without its trailing colons.
fn strip_label(t: &str) -> (r: String)
    ensures
        r@ == strip_colons(t@),
{
    let n = t.unicode_len();
    let mut e: usize = n;
    while colon_at(t, e)
        invariant
            0 <= e <= n,
            n as int == t@.len(),
            forall|j: int| e <= j < n ==> #[trigger] t@[j] == ':',
        decreases e,
    {
        e -= 1;
    }
    proof {
        lemma_strip_colons_range(t@, e as int);
    }
    let piece = t.substring_char(0, e);
    proof {
        assert(piece@ =~= t@.take(e as int));
    }
    String::from_str(piece)
}

/// Close a pending routine: parse its body lines and insert it, rejecting
/// a duplicate name.
pub open spec fn finalize_one(
    m: Map<Seq<char>, Seq<Op>>,
    pending: (Seq<char>, Seq<Seq<char>>),
) -> Result<Map<Seq<char>, Seq<Op>>, ParseError> {
    match parse_block_spec(pending.1) {
        Ok(ops) => if m.contains_key(pending.0) {
            Err(ParseError::DuplicateRoutine)
        } else {
            Ok(m.insert(pending.0, ops))
        },
        Err(e) => Err(e),
    }
}

/// Close the pending routine, if any.
pub open spec fn finalize_spec(
    m: Map<Seq<char>, Seq<Op>>,
    cur: Option<(Seq<char>, Seq<Seq<char>>)>,
) -> Result<Map<Seq<char>, Seq<Op>>, ParseError> {
    match cur {
        Option::None => Ok(m),
        Option::Some(p) => finalize_one(m, p),
    }
}

/// The parser's single left-to-right pass from line `i` on: `m` holds the
/// routines closed so far and `cur` the pending routine with its body
/// lines.
pub open spec fn parse_lines_spec(
    m: Map<Seq<char>, Seq<Op>>,
    cur: Option<(Seq<char>, Seq<Seq<char>>)>,
    lines: Seq<Seq<char>>,
    i: int,
) -> Result<Map<Seq<char>, Seq<Op>>, ParseError>
    decreases lines.len() - i,
{
    if i < 0 || i >= lines.len() {
        finalize_spec(m, cur)
    } else {
        let t = trim_spec(lines[i]);
        if t.len() == 0 || is_comment_spec(t) {
            parse_lines_spec(m, cur, lines, i + 1)
        } else if is_label_spec(t) {
            let name = strip_colons(t);
            match cur {
                Option::Some(pending) => match finalize_one(m, pending) {
                    Ok(m2) => parse_lines_spec(
                        m2,
                        Option::Some((name, Seq::empty())),
                        lines,
                        i + 1,
                    ),
                    Err(e) => Err(e),
                },
                Option::None => parse_lines_spec(
                    m,
                    Option::Some((name, Seq::empty())),
                    lines,
                    i + 1,
                ),
            }
        } else {
            match cur {
                Option::None => Err(ParseError::CodeWithoutRoutine),
                Option::Some(pending) => parse_lines_spec(
                    m,
                    Option::Some((pending.0, pending.1.push(t))),
                    lines,
                    i + 1,
                ),
            }
        }
    }
}

/// The meaning of a whole source text, starting from the routines in `m0`.
pub open spec fn parse_program_spec(
    m0: Map<Seq<char>, Seq<Op>>,
    lines: Seq<Seq<char>>,
) -> Result<Map<Seq<char>, Seq<Op>>, ParseError> {
    parse_lines_spec(m0, Option::None, lines, 0)
}

/// The pending routine as the parser's model sees it.
pub open spec fn cur_model(cur_name: Option<String>, cur_block: Seq<Seq<char>>) -> Option<
    (Seq<char>, Seq<Seq<char>>),
> {
    match cur_name {
        Option::None => Option::None,
        Option::Some(nm) => Option::Some((nm@, cur_block)),
    }
}

impl Routines {
    /// Parse a whole source text into this program. On failure the
    /// program is left unchanged: there is no partial program.
    pub fn parse(&mut self, source_code: &Vec<String>) -> (r: Result<(), ParseError>)
        requires
            old(self).wf(),
        ensures
            final(self).wf(),
            (match (r, parse_program_spec(old(self)@, source_code.deep_view())) {
                (Ok(u), Ok(m)) => final(self)@ == m,
                (Err(e1), Err(e2)) => e1 == e2 && final(self)@ == old(self)@
                    && final(self).entries() == old(self).entries(),
                _ => false,
            }),
    {
        let ghost m0 = self@;
        let ghost lv = source_code.deep_view();
        let ghost full = parse_program_spec(m0, lv);
        let n0 = self.routine_map.len();
        let mut cur_name: Option<String> = None;
        let mut cur_block: Vec<String> = Vec::new();
        let n = source_code.len();
        let mut i: usize = 0;
        proof {
            assert(cur_block.deep_view() =~= Seq::<Seq<char>>::empty());
        }
        while i < n
            invariant
                0 <= i <= n,
                n == source_code@.len(),
                lv == source_code.deep_view(),
                m0 == old(self)@,
                full == parse_program_spec(m0, lv),
                old(self).wf(),
                self.wf(),
                n0 == old(self).routine_map@.len(),
                n0 <= self.routine_map@.len(),
                forall|k: int|
                    0 <= k < n0 ==> self.routine_map@[k] == #[trigger] old(self).routine_map@[k],
                parse_lines_spec(self@, cur_model(cur_name, cur_block.deep_view()), lv, i as int)
                    == full,
            decreases n - i,
        {
            let line = source_code[i].as_str();
            let trimmed = trim_line(line);
            proof {
                assert(line@ == lv[i as int]);
                assert(trimmed@ == trim_spec(lv[i as int]));
            }
            if trimmed.is_empty() {
                i += 1;
                continue;
            }
            if is_comment_source(trimmed) {
                i += 1;
                continue;
            }
            if is_routine_source(trimmed) {
                let name = strip_label(trimmed);
                match cur_name {
                    Some(pn) => {
                        let ghost m_before = self@;
                        let ghost pend = (pn@, cur_block.deep_view());
                        match parse_codeblock(&cur_block) {
                            Ok(block) => {
                                match self.add_routine(pn, block) {
                                    Ok(_u) => {},
                                    Err(e) => {
                                        proof {
                                            assert(finalize_one(m_before, pend) == Err::<
                                                Map<Seq<char>, Seq<Op>>,
                                                ParseError,
                                            >(ParseError::DuplicateRoutine));
                                            assert(full == Err::<
                                                Map<Seq<char>, Seq<Op>>,
                                                ParseError,
                                            >(ParseError::DuplicateRoutine));
                                        }
                                        self.routine_map.truncate(n0);
                                        proof {
                                            assert(self.routine_map@ =~= old(self).routine_map@);
                                            assert(self.entries() =~= old(self).entries());
                                        }
                                        return Err(e);
                                    },
                                }
                            },
                            Err(e) => {
                                proof {
                                    assert(finalize_one(m_before, pend) == Err::<
                                        Map<Seq<char>, Seq<Op>>,
                                        ParseError,
                                    >(e));
                                    assert(full == Err::<Map<Seq<char>, Seq<Op>>, ParseError>(e));
                                }
                                self.routine_map.truncate(n0);
                                proof {
                                    assert(self.routine_map@ =~= old(self).routine_map@);
                                    assert(self.entries() =~= old(self).entries());
                                }
                                return Err(e);
                            },
                        }
                        cur_block = Vec::new();
                        cur_name = Some(name);
                        proof {
                            assert(cur_block.deep_view() =~= Seq::<Seq<char>>::empty());
                        }
                    },
                    None => {
                        cur_block = Vec::new();
                        cur_name = Some(name);
                        proof {
                            assert(cur_block.deep_view() =~= Seq::<Seq<char>>::empty());
                        }
                    },
                }
                i += 1;
                continue;
            }
            // An instruction line for the pending routine.
            if cur_name.is_none() {
                proof {
                    assert(full == Err::<Map<Seq<char>, Seq<Op>>, ParseError>(
                        ParseError::CodeWithoutRoutine,
                    ));
                }
                self.routine_map.truncate(n0);
                proof {
                    assert(self.routine_map@ =~= old(self).routine_map@);
                    assert(self.entries() =~= old(self).entries());
                }
                return Err(ParseError::CodeWithoutRoutine);
            }
            let owned = String::from_str(trimmed);
            let ghost obdv = cur_block.deep_view();
            cur_block.push(owned);
            proof {
                assert(cur_block.deep_view() =~= obdv.push(trim_spec(lv[i as int])));
            }
            i += 1;
        }
        // End of input: the pending routine, if any, gets what was
        // collected (an empty body when no instruction line followed it).
        match cur_name {
            Some(pn) => {
                let ghost m_before = self@;
                let ghost pend = (pn@, cur_block.deep_view());
                match parse_codeblock(&cur_block) {
                    Ok(block) => match self.add_routine(pn, block) {
                        Ok(_u) => {
                            proof {
                                assert(full == Ok::<Map<Seq<char>, Seq<Op>>, ParseError>(self@));
                            }
                            Ok(())
                        },
                        Err(e) => {
                            proof {
                                assert(full == Err::<Map<Seq<char>, Seq<Op>>, ParseError>(
                                    ParseError::DuplicateRoutine,
                                ));
                            }
                            self.routine_map.truncate(n0);
                            proof {
                                assert(self.routine_map@ =~= old(self).routine_map@);
                                assert(self.entries() =~= old(self).entries());
                            }
                            Err(e)
                        },
                    },
                    Err(e) => {
                        proof {
                            assert(full == Err::<Map<Seq<char>, Seq<Op>>, ParseError>(e));
                        }
                        self.routine_map.truncate(n0);
                        proof {
                            assert(self.routine_map@ =~= old(self).routine_map@);
                            assert(self.entries() =~= old(self).entries());
                        }
                        Err(e)
                    },
                }
            },
            None => Ok(()),
        }
    }
}

} // verus!
