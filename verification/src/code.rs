//! Instruction set and address model: the instruction variants, the three
//! address forms (register, direct memory index, pointer-indirect memory
//! reference), their textual grammar, and the routine table.

use vstd::prelude::*;
use crate::interpreter::CodeBlock;

verus! {

/// The cell size of the machine: every register and memory cell holds one
/// 8-bit unsigned value.
pub type MemUnit = u8;

/// A parse-phase failure, one variant per error condition of the grammar.
#[derive(Debug, Copy, Clone, PartialEq, Eq, Structural)]
pub enum ParseError {
    /// An address-like token that is neither a register nor `M<digits>`.
    InvalidAddress,
    /// A literal that is not numeric or does not fit the target range.
    InvalidLiteral,
    /// An instruction line matching no opcode/arity pattern.
    UnknownKeyword,
    /// A body line appearing before any routine label.
    CodeWithoutRoutine,
    /// A routine name introduced twice.
    DuplicateRoutine,
}

/// An execution-phase failure.
#[derive(Debug, Copy, Clone, PartialEq, Eq, Structural)]
pub enum ExecError {
    /// A routine name was requested that the program does not define.
    UndeclaredRoutine,
}

/// One of the three fixed registers: two inputs and one output/accumulator.
#[derive(Debug, Copy, Clone, PartialEq, Eq, Structural)]
pub enum Registry {
    I1,
    I2,
    O,
}

/// A unit address: a register, or a direct memory index.
#[derive(Debug, Copy, Clone, PartialEq, Eq, Structural)]
pub enum UnitMemLocation {
    Registry(Registry),
    Mem(usize),
}

/// A unit address plus an indirection count: count 0 uses the unit address
/// directly, count n >= 1 reads the unit address and then chases n - 1
/// further hops through memory.
#[derive(Debug, Copy, Clone, PartialEq, Eq, Structural)]
pub struct MemLocation {
    pub ptr_count: u8,
    pub unit_mem: UnitMemLocation,
}

/// Either a located address or a literal byte.
#[derive(Debug, Copy, Clone, PartialEq, Eq, Structural)]
pub enum ValMemLoc {
    MemLoc(MemLocation),
    Value(MemUnit),
}

/// One instruction of the closed instruction set.
#[derive(Debug, Clone, PartialEq, Eq)]
pub enum CodePoint {
    SetLit { dest: MemLocation, value: MemUnit },
    Cpy { dest: MemLocation, source: MemLocation },
    Add,
    Sub,
    Mul,
    Div,
    Mod,
    Cmp,
    BJmp { cond: MemLocation },
    Land,
    RAdd { name: String },
    RSwp { name: String },
    Print { source: ValMemLoc },
    PrintC { source: ValMemLoc },
    Term,
}

/// The mathematical model of an instruction: routine names appear as
/// character sequences.
#[verifier::ext_equal]
pub enum Op {
    SetLit { dest: MemLocation, value: MemUnit },
    Cpy { dest: MemLocation, source: MemLocation },
    Add,
    Sub,
    Mul,
    Div,
    Mod,
    Cmp,
    BJmp { cond: MemLocation },
    Land,
    RAdd { name: Seq<char> },
    RSwp { name: Seq<char> },
    Print { source: ValMemLoc },
    PrintC { source: ValMemLoc },
    Term,
}

impl View for CodePoint {
    type V = Op;

    open spec fn view(&self) -> Op {
        match self {
            CodePoint::SetLit { dest, value } => Op::SetLit { dest: *dest, value: *value },
            CodePoint::Cpy { dest, source } => Op::Cpy { dest: *dest, source: *source },
            CodePoint::Add => Op::Add,
            CodePoint::Sub => Op::Sub,
            CodePoint::Mul => Op::Mul,
            CodePoint::Div => Op::Div,
            CodePoint::Mod => Op::Mod,
            CodePoint::Cmp => Op::Cmp,
            CodePoint::BJmp { cond } => Op::BJmp { cond: *cond },
            CodePoint::Land => Op::Land,
            CodePoint::RAdd { name } => Op::RAdd { name: name@ },
            CodePoint::RSwp { name } => Op::RSwp { name: name@ },
            CodePoint::Print { source } => Op::Print { source: *source },
            CodePoint::PrintC { source } => Op::PrintC { source: *source },
            CodePoint::Term => Op::Term,
        }
    }
}

impl CodePoint {
    /// A deep copy, equal to the original (the `String` operand is cloned).
    pub fn duplicate(&self) -> (r: CodePoint)
        ensures
            r == *self,
    {
        match self {
            CodePoint::SetLit { dest, value } => CodePoint::SetLit { dest: *dest, value: *value },
            CodePoint::Cpy { dest, source } => CodePoint::Cpy { dest: *dest, source: *source },
            CodePoint::Add => CodePoint::Add,
            CodePoint::Sub => CodePoint::Sub,
            CodePoint::Mul => CodePoint::Mul,
            CodePoint::Div => CodePoint::Div,
            CodePoint::Mod => CodePoint::Mod,
            CodePoint::Cmp => CodePoint::Cmp,
            CodePoint::BJmp { cond } => CodePoint::BJmp { cond: *cond },
            CodePoint::Land => CodePoint::Land,
            CodePoint::RAdd { name } => CodePoint::RAdd { name: name.clone() },
            CodePoint::RSwp { name } => CodePoint::RSwp { name: name.clone() },
            CodePoint::Print { source } => CodePoint::Print { source: *source },
            CodePoint::PrintC { source } => CodePoint::PrintC { source: *source },
            CodePoint::Term => CodePoint::Term,
        }
    }
}

// ---------------------------------------------------------------------------
// Textual grammar of addresses and literals.
// ---------------------------------------------------------------------------

/// Whether `c` is a decimal digit.
pub open spec fn is_digit_char(c: char) -> bool {
    48 <= c as u32 <= 57
}

/// The numeric value of a digit character (0 for non-digits).
pub open spec fn digit_val(c: char) -> nat {
    if is_digit_char(c) {
        (c as u32 - 48) as nat
    } else {
        0
    }
}

/// Whether every character of `t` is a decimal digit.
pub open spec fn all_digits(t: Seq<char>) -> bool {
    forall|i: int| 0 <= i < t.len() ==> #[trigger] is_digit_char(t[i])
}

/// The value of a digit string, most significant digit first.
pub open spec fn dec_val(t: Seq<char>) -> nat
    decreases t.len(),
{
    if t.len() == 0 {
        0
    } else {
        dec_val(t.drop_last()) * 10 + digit_val(t.last())
    }
}

/// The decimal rendering of a number: no sign, no leading zeros.
pub open spec fn dec_chars(n: nat) -> Seq<char>
    decreases n,
{
    if n < 10 {
        seq![((48 + n) as u8) as char]
    } else {
        dec_chars(n / 10).push(((48 + n % 10) as u8) as char)
    }
}

/// The meaning of a unit-address token: `I1`, `I2`, `O`, or `M<digits>`
/// with a value that fits the machine's index type.
pub open spec fn parse_unit_spec(t: Seq<char>) -> Option<UnitMemLocation> {
    if t == seq!['I', '1'] {
        Some(UnitMemLocation::Registry(Registry::I1))
    } else if t == seq!['I', '2'] {
        Some(UnitMemLocation::Registry(Registry::I2))
    } else if t == seq!['O'] {
        Some(UnitMemLocation::Registry(Registry::O))
    } else if t.len() >= 2 && t[0] == 'M' && all_digits(t.skip(1)) && dec_val(t.skip(1))
        <= usize::MAX as nat {
        Some(UnitMemLocation::Mem(dec_val(t.skip(1)) as usize))
    } else {
        None
    }
}

/// The number of leading `*` characters of `t`.
pub open spec fn star_count(t: Seq<char>) -> nat
    decreases t.len(),
{
    if t.len() > 0 && t[0] == '*' {
        1 + star_count(t.skip(1))
    } else {
        0
    }
}

/// The meaning of a located-address token: leading `*` characters count as
/// indirection (at most 255), the remainder must be a unit address.
pub open spec fn parse_loc_spec(t: Seq<char>) -> Option<MemLocation> {
    let k = star_count(t);
    if k <= 255 {
        match parse_unit_spec(t.skip(k as int)) {
            Some(u) => Some(MemLocation { ptr_count: k as u8, unit_mem: u }),
            None => None,
        }
    } else {
        None
    }
}

/// The meaning of a decimal literal token bounded by `max`.
pub open spec fn parse_bounded_spec(t: Seq<char>, max: nat) -> Option<nat> {
    if t.len() > 0 && all_digits(t) && dec_val(t) <= max {
        Some(dec_val(t))
    } else {
        None
    }
}

/// The meaning of a literal byte token.
pub open spec fn parse_u8_spec(t: Seq<char>) -> Option<u8> {
    match parse_bounded_spec(t, 255) {
        Some(v) => Some(v as u8),
        None => None,
    }
}

/// The meaning of a value-or-located-address token: a located address if
/// the token parses as one, otherwise a literal byte.
pub open spec fn parse_vml_spec(t: Seq<char>) -> Result<ValMemLoc, ParseError> {
    match parse_loc_spec(t) {
        Some(l) => Ok(ValMemLoc::MemLoc(l)),
        None => match parse_u8_spec(t) {
            Some(v) => Ok(ValMemLoc::Value(v)),
            None => Err(ParseError::InvalidLiteral),
        },
    }
}

/// The canonical token of a unit address.
pub open spec fn render_unit_spec(u: UnitMemLocation) -> Seq<char> {
    match u {
        UnitMemLocation::Registry(Registry::I1) => seq!['I', '1'],
        UnitMemLocation::Registry(Registry::I2) => seq!['I', '2'],
        UnitMemLocation::Registry(Registry::O) => seq!['O'],
        UnitMemLocation::Mem(i) => seq!['M'] + dec_chars(i as nat),
    }
}

/// The result of parsing a unit-address token.
pub open spec fn unit_result_spec(t: Seq<char>) -> Result<UnitMemLocation, ParseError> {
    match parse_unit_spec(t) {
        Some(u) => Ok(u),
        None => Err(ParseError::InvalidAddress),
    }
}

/// The result of parsing a located-address token.
pub open spec fn loc_result_spec(t: Seq<char>) -> Result<MemLocation, ParseError> {
    match parse_loc_spec(t) {
        Some(l) => Ok(l),
        None => Err(ParseError::InvalidAddress),
    }
}

/// Character-wise string equality.
pub(crate) fn str_eq(a: &str, b: &str) -> (r: bool)
    ensures
        r == (a@ == b@),
{
    let na = a.unicode_len();
    let nb = b.unicode_len();
    if na != nb {
        return false;
    }
    let mut i: usize = 0;
    while i < na
        invariant
            0 <= i <= na,
            na as int == a@.len(),
            nb as int == b@.len(),
            na == nb,
            forall|j: int| 0 <= j < i ==> a@[j] == b@[j],
        decreases na - i,
    {
        let ca = a.get_char(i);
        let cb = b.get_char(i);
        if ca != cb {
            return false;
        }
        i += 1;
    }
    proof {
        assert(a@ =~= b@);
    }
    true
}

/// A value of a digit-string prefix never exceeds the whole string's value.
proof fn lemma_dec_val_take_le(s: Seq<char>, k: int)
    requires
        0 <= k <= s.len(),
    ensures
        dec_val(s.take(k)) <= dec_val(s),
    decreases s.len(),
{
    if k == s.len() {
        assert(s.take(k) =~= s);
    } else {
        lemma_dec_val_take_le(s.drop_last(), k);
        assert(s.drop_last().take(k) =~= s.take(k));
    }
}

/// Parse the digits of `t` from position `from` as a machine-sized index.
fn parse_digits_from(t: &str, from: usize) -> (r: Option<usize>)
    requires
        from as int <= t@.len(),
        t@.len() <= usize::MAX,
    ensures
        r == match parse_bounded_spec(t@.skip(from as int), usize::MAX as nat) {
            Some(v) => Some(v as usize),
            None => None::<usize>,
        },
{
    let ghost s = t@.skip(from as int);
    let n = t.unicode_len();
    if from >= n {
        return None;
    }
    // First pass: every character must be a digit.
    let mut i: usize = from;
    while i < n
        invariant
            from <= i <= n,
            n as int == t@.len(),
            s == t@.skip(from as int),
            forall|j: int| from <= j < i ==> #[trigger] is_digit_char(t@[j]),
        decreases n - i,
    {
        let c = t.get_char(i);
        let cv = c as u32;
        if cv < 48 || cv > 57 {
            proof {
                assert(!is_digit_char(t@[i as int]));
                assert(s[i - from] == t@[i as int]);
            }
            return None;
        }
        i += 1;
    }
    proof {
        assert forall|j: int| 0 <= j < s.len() implies #[trigger] is_digit_char(s[j]) by {
            assert(s[j] == t@[j + from]);
        }
    }
    // Second pass: accumulate the value, rejecting values over the bound.
    let mut val: usize = 0;
    let mut i: usize = from;
    while i < n
        invariant
            from <= i <= n,
            n as int == t@.len(),
            s == t@.skip(from as int),
            all_digits(s),
            forall|j: int| from <= j < n ==> #[trigger] is_digit_char(t@[j]),
            val as nat == dec_val(s.take(i - from)),
        decreases n - i,
    {
        let c = t.get_char(i);
        let cv = c as u32;
        proof {
            assert(is_digit_char(t@[i as int]));
        }
        let d = (cv - 48) as usize;
        proof {
            assert(s.take(i - from + 1).drop_last() =~= s.take(i - from));
            assert(s.take(i - from + 1).last() == s[i - from]);
            assert(s[i - from] == t@[i as int]);
            assert(digit_val(s[i - from]) == d as nat);
            assert(dec_val(s.take(i - from + 1)) == val as nat * 10 + d as nat);
        }
        if val > (usize::MAX - d) / 10 {
            proof {
                assert(val as int * 10 + d as int > usize::MAX as int) by (nonlinear_arith)
                    requires
                        val as int > (usize::MAX as int - d as int) / 10,
                        0 <= d as int <= 9,
                        usize::MAX as int >= 9,
                ;
                lemma_dec_val_take_le(s, i - from + 1);
            }
            return None;
        }
        proof {
            assert(val as int * 10 + d as int <= usize::MAX as int) by (nonlinear_arith)
                requires
                    val as int <= (usize::MAX as int - d as int) / 10,
                    0 <= d as int <= 9,
                    usize::MAX as int >= 9,
            ;
        }
        val = val * 10 + d;
        i += 1;
    }
    proof {
        assert(s.take(n - from) =~= s);
    }
    Some(val)
}

/// Parse a literal byte token.
pub(crate) fn parse_u8_token(t: &str) -> (r: Option<u8>)
    ensures
        r == parse_u8_spec(t@),
{
    let n = t.unicode_len();
    proof {
        assert(t@.skip(0) =~= t@);
        assert(usize::MAX >= 255);
    }
    match parse_digits_from(t, 0) {
        Some(v) => {
            if v <= 255 {
                Some(v as u8)
            } else {
                proof {
                    assert(parse_bounded_spec(t@, 255) is None);
                }
                None
            }
        },
        None => {
            proof {
                assert(parse_bounded_spec(t@, 255) is None);
            }
            None
        },
    }
}

/// Count the leading `*` characters of `t`.
fn count_stars(t: &str) -> (k: usize)
    ensures
        k as nat == star_count(t@),
        k as int <= t@.len(),
{
    let n = t.unicode_len();
    let mut i: usize = 0;
    while i < n
        invariant
            0 <= i <= n,
            n as int == t@.len(),
            forall|j: int| 0 <= j < i ==> t@[j] == '*',
        decreases n - i,
    {
        let c = t.get_char(i);
        if c != '*' {
            proof {
                lemma_star_count_prefix(t@, i as int);
            }
            return i;
        }
        i += 1;
    }
    proof {
        lemma_star_count_prefix(t@, n as int);
    }
    n
}

/// The star count equals the position of the first non-star character.
proof fn lemma_star_count_prefix(t: Seq<char>, k: int)
    requires
        0 <= k <= t.len(),
        forall|j: int| 0 <= j < k ==> t[j] == '*',
        k == t.len() || t[k] != '*',
    ensures
        star_count(t) == k,
    decreases k,
{
    if k == 0 {
    } else {
        assert(t[0] == '*');
        assert forall|j: int| 0 <= j < k - 1 implies t.skip(1)[j] == '*' by {
            assert(t.skip(1)[j] == t[j + 1]);
        }
        if k < t.len() {
            assert(t.skip(1)[k - 1] == t[k]);
        }
        lemma_star_count_prefix(t.skip(1), k - 1);
    }
}

impl UnitMemLocation {
    /// Parse a unit-address token: `I1`, `I2`, `O`, or `M<digits>`.
    pub fn parse(t: &str) -> (r: Result<UnitMemLocation, ParseError>)
        ensures
            r == unit_result_spec(t@),
    {
        let n = t.unicode_len();
        if n == 0 {
            return Err(ParseError::InvalidAddress);
        }
        let c0 = t.get_char(0);
        if n == 2 && c0 == 'I' {
            let c1 = t.get_char(1);
            if c1 == '1' {
                proof {
                    assert(t@ =~= seq!['I', '1']);
                }
                return Ok(UnitMemLocation::Registry(Registry::I1));
            }
            if c1 == '2' {
                proof {
                    assert(t@ =~= seq!['I', '2']);
                }
                return Ok(UnitMemLocation::Registry(Registry::I2));
            }
            return Err(ParseError::InvalidAddress);
        }
        if n == 1 {
            if c0 == 'O' {
                proof {
                    assert(t@ =~= seq!['O']);
                }
                return Ok(UnitMemLocation::Registry(Registry::O));
            }
            return Err(ParseError::InvalidAddress);
        }
        // Here n >= 2 and the token is no register name.
        if c0 == 'M' {
            match parse_digits_from(t, 1) {
                Some(i) => Ok(UnitMemLocation::Mem(i)),
                None => Err(ParseError::InvalidAddress),
            }
        } else {
            Err(ParseError::InvalidAddress)
        }
    }

    /// The canonical token of this unit address.
    pub fn render(&self) -> (r: String)
        ensures
            r@ == render_unit_spec(*self),
    {
        match self {
            UnitMemLocation::Registry(Registry::I1) => {
                let r = String::from_str("I1");
                proof {
                    reveal_strlit("I1");
                    assert(r@ =~= seq!['I', '1']);
                }
                r
            },
            UnitMemLocation::Registry(Registry::I2) => {
                let r = String::from_str("I2");
                proof {
                    reveal_strlit("I2");
                    assert(r@ =~= seq!['I', '2']);
                }
                r
            },
            UnitMemLocation::Registry(Registry::O) => {
                let r = String::from_str("O");
                proof {
                    reveal_strlit("O");
                    assert(r@ =~= seq!['O']);
                }
                r
            },
            UnitMemLocation::Mem(i) => {
                let mut r = String::from_str("M");
                proof {
                    reveal_strlit("M");
                }
                push_decimal(&mut r, *i);
                proof {
                    assert(r@ =~= seq!['M'] + dec_chars(*i as nat));
                }
                r
            },
        }
    }
}

/// Append the decimal rendering of `m` to `s`.
pub(crate) fn push_decimal(s: &mut String, m: usize)
    ensures
        final(s)@ == old(s)@ + dec_chars(m as nat),
    decreases m,
{
    if m >= 10 {
        push_decimal(s, m / 10);
        push_digit(s, (m % 10) as u8);
        proof {
            assert(old(s)@ + dec_chars((m / 10) as nat) + dec_chars((m % 10) as nat) =~= old(s)@
                + dec_chars(m as nat));
        }
    } else {
        push_digit(s, m as u8);
    }
}

/// Append the single digit character for `d` (0 to 9) to `s`.
fn push_digit(s: &mut String, d: u8)
    requires
        d <= 9,
    ensures
        final(s)@ == old(s)@ + seq![((48 + d as nat) as u8) as char],
{
    let piece: &str = if d == 0 {
        "0"
    } else if d == 1 {
        "1"
    } else if d == 2 {
        "2"
    } else if d == 3 {
        "3"
    } else if d == 4 {
        "4"
    } else if d == 5 {
        "5"
    } else if d == 6 {
        "6"
    } else if d == 7 {
        "7"
    } else if d == 8 {
        "8"
    } else {
        "9"
    };
    proof {
        reveal_strlit("0");
        reveal_strlit("1");
        reveal_strlit("2");
        reveal_strlit("3");
        reveal_strlit("4");
        reveal_strlit("5");
        reveal_strlit("6");
        reveal_strlit("7");
        reveal_strlit("8");
        reveal_strlit("9");
        assert(piece@ =~= seq![((48 + d as nat) as u8) as char]);
    }
    s.append(piece);
}

impl MemLocation {
    /// Parse a located-address token: leading `*` characters count as
    /// indirection, the remainder must be a unit address.
    pub fn parse(t: &str) -> (r: Result<MemLocation, ParseError>)
        ensures
            r == loc_result_spec(t@),
    {
        let n = t.unicode_len();
        let k = count_stars(t);
        if k > 255 {
            return Err(ParseError::InvalidAddress);
        }
        let rest = t.substring_char(k, n);
        proof {
            assert(rest@ =~= t@.skip(k as int));
        }
        match UnitMemLocation::parse(rest) {
            Ok(u) => Ok(MemLocation { ptr_count: k as u8, unit_mem: u }),
            Err(_) => Err(ParseError::InvalidAddress),
        }
    }
}

impl ValMemLoc {
    /// Parse a value-or-located-address token: a located address if the
    /// token parses as one, otherwise a literal byte.
    pub fn parse(t: &str) -> (r: Result<ValMemLoc, ParseError>)
        ensures
            r == parse_vml_spec(t@),
    {
        match MemLocation::parse(t) {
            Ok(l) => Ok(ValMemLoc::MemLoc(l)),
            Err(_) => match parse_u8_token(t) {
                Some(v) => Ok(ValMemLoc::Value(v)),
                None => Err(ParseError::InvalidLiteral),
            },
        }
    }
}

// ---------------------------------------------------------------------------
// The routine table.
// ---------------------------------------------------------------------------

/// Whether the names of an entry sequence are pairwise distinct.
pub open spec fn distinct_names(s: Seq<(Seq<char>, Seq<Op>)>) -> bool {
    forall|i: int, j: int|
        0 <= i < j < s.len() ==> (#[trigger] s[i]).0 != (#[trigger] s[j]).0
}

/// The name-to-body mapping denoted by an entry sequence; on duplicate
/// names the later entry wins.
pub open spec fn map_of(s: Seq<(Seq<char>, Seq<Op>)>) -> Map<Seq<char>, Seq<Op>>
    decreases s.len(),
{
    if s.len() == 0 {
        Map::empty()
    } else {
        map_of(s.drop_last()).insert(s.last().0, s.last().1)
    }
}

/// A name is in the mapping exactly when some entry bears it.
pub proof fn lemma_map_of_contains(s: Seq<(Seq<char>, Seq<Op>)>, n: Seq<char>)
    ensures
        map_of(s).contains_key(n) <==> exists|i: int| 0 <= i < s.len() && (#[trigger] s[i]).0 == n,
    decreases s.len(),
{
    if s.len() > 0 {
        lemma_map_of_contains(s.drop_last(), n);
        if s.last().0 == n {
            assert((s[s.len() - 1]).0 == n);
        } else {
            if map_of(s).contains_key(n) {
                let i = choose|i: int|
                    0 <= i < s.drop_last().len() && (#[trigger] s.drop_last()[i]).0 == n;
                assert((s[i]).0 == n);
            }
            if exists|i: int| 0 <= i < s.len() && (#[trigger] s[i]).0 == n {
                let i = choose|i: int| 0 <= i < s.len() && (#[trigger] s[i]).0 == n;
                assert(i < s.len() - 1);
                assert((s.drop_last()[i]).0 == n);
            }
        }
    }
}

/// With distinct names, the mapping sends each entry's name to its body.
pub proof fn lemma_map_of_index(s: Seq<(Seq<char>, Seq<Op>)>, k: int)
    requires
        distinct_names(s),
        0 <= k < s.len(),
    ensures
        map_of(s).contains_key((s[k]).0),
        map_of(s)[(s[k]).0] == (s[k]).1,
    decreases s.len(),
{
    if k < s.len() - 1 {
        assert forall|i: int, j: int|
            0 <= i < j < s.drop_last().len() implies (#[trigger] s.drop_last()[i]).0 != (
        #[trigger] s.drop_last()[j]).0 by {
            assert(s.drop_last()[i] == s[i]);
            assert(s.drop_last()[j] == s[j]);
        }
        lemma_map_of_index(s.drop_last(), k);
        assert((s[k]).0 != (s[s.len() - 1]).0);
        assert(s.drop_last()[k] == s[k]);
    }
}

/// The named, ordered instruction sequences of one program.
#[derive(Debug)]
pub struct Routines {
    pub routine_map: Vec<(String, CodeBlock)>,
}

impl View for Routines {
    type V = Map<Seq<char>, Seq<Op>>;

    open spec fn view(&self) -> Map<Seq<char>, Seq<Op>> {
        map_of(self.entries())
    }
}

impl Routines {
    /// The entry sequence: each routine's name and body, in insertion
    /// order.
    pub open spec fn entries(&self) -> Seq<(Seq<char>, Seq<Op>)> {
        self.routine_map@.map_values(|p: (String, CodeBlock)| (p.0@, p.1@))
    }

    /// Routine names are unique within one program.
    pub open spec fn wf(&self) -> bool {
        distinct_names(self.entries())
    }

    /// An empty program.
    pub fn new() -> (r: Self)
        ensures
            r.wf(),
            r.entries() == Seq::<(Seq<char>, Seq<Op>)>::empty(),
            r@ == Map::<Seq<char>, Seq<Op>>::empty(),
    {
        let r = Routines { routine_map: Vec::new() };
        proof {
            assert(r.entries() =~= Seq::<(Seq<char>, Seq<Op>)>::empty());
        }
        r
    }

    /// Add one routine; a duplicate name is rejected and leaves the
    /// program unchanged.
    pub fn add_routine(&mut self, name: String, routines: CodeBlock) -> (r: Result<
        (),
        ParseError,
    >)
        requires
            old(self).wf(),
        ensures
            final(self).wf(),
            old(self)@.contains_key(name@) ==> r == Err::<(), ParseError>(
                ParseError::DuplicateRoutine,
            ) && *final(self) == *old(self),
            !old(self)@.contains_key(name@) ==> r == Ok::<(), ParseError>(())
                && final(self).routine_map@ == old(self).routine_map@.push((name, routines))
                && final(self).entries() == old(self).entries().push((name@, routines@))
                && final(self)@ == old(self)@.insert(name@, routines@),
    {
        let n_entries = self.routine_map.len();
        let mut j: usize = 0;
        while j < n_entries
            invariant
                0 <= j <= n_entries,
                n_entries == self.routine_map@.len(),
                *self == *old(self),
                old(self).wf(),
                forall|k: int| 0 <= k < j ==> (#[trigger] self.entries()[k]).0 != name@,
            decreases n_entries - j,
        {
            if self.routine_map[j].0 == name {
                proof {
                    assert((self.entries()[j as int]).0 == name@);
                    lemma_map_of_contains(self.entries(), name@);
                }
                return Err(ParseError::DuplicateRoutine);
            }
            proof {
                assert((self.entries()[j as int]).0 == self.routine_map@[j as int].0@);
            }
            j += 1;
        }
        proof {
            lemma_map_of_contains(self.entries(), name@);
        }
        let ghost old_entries = self.entries();
        self.routine_map.push((name, routines));
        proof {
            assert(self.entries() =~= old_entries.push((name@, routines@)));
            assert(self.entries().drop_last() =~= old_entries);
            assert forall|i: int, j2: int|
                0 <= i < j2 < self.entries().len() implies (#[trigger] self.entries()[i]).0 != (
            #[trigger] self.entries()[j2]).0 by {
                if j2 < self.entries().len() - 1 {
                } else {
                    assert((self.entries()[i]).0 == (old_entries[i]).0);
                }
            }
        }
        Ok(())
    }

    /// Look up a routine by name.
    pub fn get_routine(&self, routine_name: &str) -> (r: Option<&CodeBlock>)
        requires
            self.wf(),
        ensures
            match r {
                Some(cb) => self@.contains_key(routine_name@) && cb@ == self@[routine_name@],
                None => !self@.contains_key(routine_name@),
            },
    {
        let n_entries = self.routine_map.len();
        let mut j: usize = 0;
        while j < n_entries
            invariant
                0 <= j <= n_entries,
                n_entries == self.routine_map@.len(),
                self.wf(),
                forall|k: int| 0 <= k < j ==> (#[trigger] self.entries()[k]).0 != routine_name@,
            decreases n_entries - j,
        {
            if str_eq(self.routine_map[j].0.as_str(), routine_name) {
                proof {
                    assert((self.entries()[j as int]).0 == routine_name@);
                    lemma_map_of_index(self.entries(), j as int);
                }
                return Some(&self.routine_map[j].1);
            }
            proof {
                assert((self.entries()[j as int]).0 == self.routine_map@[j as int].0@);
            }
            j += 1;
        }
        proof {
            lemma_map_of_contains(self.entries(), routine_name@);
        }
        None
    }
}

} // verus!
