use vstd::prelude::*;
use vstd::utf8::{decode_utf8, encode_utf8, valid_utf8};

use crate::record::bytes_equal;

verus! {

/// A token of the query language.
#[derive(Clone, Debug, PartialEq)]
pub enum Token {
    Select,
    From,
    Where,
    Sum,
    Group,
    Order,
    By,
    Asc,
    Desc,
    Distinct,
    Left,
    Right,
    Full,
    Inner,
    Outer,
    Join,
    As,
    On,
    And,
    Or,
    Not,
    Is,
    Null,
    In,
    Like,
    Between,
    Exists,
    All,
    Any,
    Union,
    Intersect,
    Except,
    Update,
    SetKw,
    Delete,
    Insert,
    Into,
    Values,
    Create,
    Drop,
    Table,
    View,
    True,
    False,
    LParen,
    RParen,
    Lt,
    Lte,
    Gt,
    Gte,
    Eq,
    Neq,
    Plus,
    Minus,
    Slash,
    Star,
    Comma,
    Float(String),
    Integer(String),
    Name(String),
    Str(String),
    Error,
}

/// The content of a token: its kind, with the text of a literal or name.
pub enum TokenV {
    Plain(Token),
    Float(Seq<char>),
    Integer(Seq<char>),
    Name(Seq<char>),
    Str(Seq<char>),
}

pub open spec fn token_view(t: Token) -> TokenV {
    match t {
        Token::Float(s) => TokenV::Float(s@),
        Token::Integer(s) => TokenV::Integer(s@),
        Token::Name(s) => TokenV::Name(s@),
        Token::Str(s) => TokenV::Str(s@),
        _ => TokenV::Plain(t),
    }
}

/// The characters that UTF-8 bytes decode to, malformed sequences
/// replaced; a function of the bytes alone.
pub uninterp spec fn utf8_text(b: Seq<u8>) -> Seq<char>;

/// The text of a token's bytes: their UTF-8 decoding when they are valid
/// UTF-8 (always so for names and numbers, which are ASCII).
pub open spec fn token_text(b: Seq<u8>) -> Seq<char> {
    if valid_utf8(b) {
        decode_utf8(b)
    } else {
        utf8_text(b)
    }
}

/// Relies on `String::from_utf8_lossy`: the text the bytes decode to, which
/// for valid UTF-8 is its decoding.
#[verifier::external_body]
pub(crate) fn text_of(b: &[u8]) -> (r: String)
    ensures
        r@ == utf8_text(b@),
        valid_utf8(b@) ==> r@ == decode_utf8(b@),
{
    String::from_utf8_lossy(b).into_owned()
}

pub open spec fn upper(b: u8) -> u8 {
    if 97 <= b <= 122 {
        (b - 32) as u8
    } else {
        b
    }
}

pub open spec fn upper_all(w: Seq<u8>) -> Seq<u8> {
    w.map_values(|b: u8| upper(b))
}

/// The keyword that a word spells, in any mix of cases.
pub open spec fn keyword_spec(w: Seq<u8>) -> Option<Token> {
    let u = upper_all(w);
    if u == seq![83u8, 69u8, 76u8, 69u8, 67u8, 84u8] {
        Some(Token::Select)
    } else if u == seq![70u8, 82u8, 79u8, 77u8] {
        Some(Token::From)
    } else if u == seq![87u8, 72u8, 69u8, 82u8, 69u8] {
        Some(Token::Where)
    } else if u == seq![83u8, 85u8, 77u8] {
        Some(Token::Sum)
    } else if u == seq![71u8, 82u8, 79u8, 85u8, 80u8] {
        Some(Token::Group)
    } else if u == seq![79u8, 82u8, 68u8, 69u8, 82u8] {
        Some(Token::Order)
    } else if u == seq![66u8, 89u8] {
        Some(Token::By)
    } else if u == seq![65u8, 83u8, 67u8] {
        Some(Token::Asc)
    } else if u == seq![68u8, 69u8, 83u8, 67u8] {
        Some(Token::Desc)
    } else if u == seq![68u8, 73u8, 83u8, 84u8, 73u8, 78u8, 67u8, 84u8] {
        Some(Token::Distinct)
    } else if u == seq![76u8, 69u8, 70u8, 84u8] {
        Some(Token::Left)
    } else if u == seq![82u8, 73u8, 71u8, 72u8, 84u8] {
        Some(Token::Right)
    } else if u == seq![70u8, 85u8, 76u8, 76u8] {
        Some(Token::Full)
    } else if u == seq![73u8, 78u8, 78u8, 69u8, 82u8] {
        Some(Token::Inner)
    } else if u == seq![79u8, 85u8, 84u8, 69u8, 82u8] {
        Some(Token::Outer)
    } else if u == seq![74u8, 79u8, 73u8, 78u8] {
        Some(Token::Join)
    } else if u == seq![65u8, 83u8] {
        Some(Token::As)
    } else if u == seq![79u8, 78u8] {
        Some(Token::On)
    } else if u == seq![65u8, 78u8, 68u8] {
        Some(Token::And)
    } else if u == seq![79u8, 82u8] {
        Some(Token::Or)
    } else if u == seq![78u8, 79u8, 84u8] {
        Some(Token::Not)
    } else if u == seq![73u8, 83u8] {
        Some(Token::Is)
    } else if u == seq![78u8, 85u8, 76u8, 76u8] {
        Some(Token::Null)
    } else if u == seq![73u8, 78u8] {
        Some(Token::In)
    } else if u == seq![76u8, 73u8, 75u8, 69u8] {
        Some(Token::Like)
    } else if u == seq![66u8, 69u8, 84u8, 87u8, 69u8, 69u8, 78u8] {
        Some(Token::Between)
    } else if u == seq![69u8, 88u8, 73u8, 83u8, 84u8, 83u8] {
        Some(Token::Exists)
    } else if u == seq![65u8, 76u8, 76u8] {
        Some(Token::All)
    } else if u == seq![65u8, 78u8, 89u8] {
        Some(Token::Any)
    } else if u == seq![85u8, 78u8, 73u8, 79u8, 78u8] {
        Some(Token::Union)
    } else if u == seq![73u8, 78u8, 84u8, 69u8, 82u8, 83u8, 69u8, 67u8, 84u8] {
        Some(Token::Intersect)
    } else if u == seq![69u8, 88u8, 67u8, 69u8, 80u8, 84u8] {
        Some(Token::Except)
    } else if u == seq![85u8, 80u8, 68u8, 65u8, 84u8, 69u8] {
        Some(Token::Update)
    } else if u == seq![83u8, 69u8, 84u8] {
        Some(Token::SetKw)
    } else if u == seq![68u8, 69u8, 76u8, 69u8, 84u8, 69u8] {
        Some(Token::Delete)
    } else if u == seq![73u8, 78u8, 83u8, 69u8, 82u8, 84u8] {
        Some(Token::Insert)
    } else if u == seq![73u8, 78u8, 84u8, 79u8] {
        Some(Token::Into)
    } else if u == seq![86u8, 65u8, 76u8, 85u8, 69u8, 83u8] {
        Some(Token::Values)
    } else if u == seq![67u8, 82u8, 69u8, 65u8, 84u8, 69u8] {
        Some(Token::Create)
    } else if u == seq![68u8, 82u8, 79u8, 80u8] {
        Some(Token::Drop)
    } else if u == seq![84u8, 65u8, 66u8, 76u8, 69u8] {
        Some(Token::Table)
    } else if u == seq![86u8, 73u8, 69u8, 87u8] {
        Some(Token::View)
    } else if u == seq![84u8, 82u8, 85u8, 69u8] {
        Some(Token::True)
    } else if u == seq![70u8, 65u8, 76u8, 83u8, 69u8] {
        Some(Token::False)
    } else {
        None
    }
}

fn upper_word(w: &Vec<u8>) -> (r: Vec<u8>)
    ensures
        r@ == upper_all(w@),
{
    let mut r: Vec<u8> = Vec::new();
    let mut i: usize = 0;
    while i < w.len()
        invariant
            0 <= i <= w@.len(),
            r@ == upper_all(w@.take(i as int)),
        decreases w@.len() - i,
    {
        let b = w[i];
        r.push(if 97 <= b && b <= 122 { b - 32 } else { b });
        assert(upper_all(w@.take(i + 1)) =~= upper_all(w@.take(i as int)).push(upper(b)));
        i += 1;
    }
    assert(w@.take(i as int) =~= w@);
    r
}

fn eq_lit(a: &Vec<u8>, lit: &[u8]) -> (r: bool)
    ensures
        r == (a@ == lit@),
{
    if a.len() != lit.len() {
        return false;
    }
    let mut i: usize = 0;
    while i < a.len()
        invariant
            0 <= i <= a@.len(),
            a@.len() == lit@.len(),
            forall|j: int| 0 <= j < i ==> a@[j] == lit@[j],
        decreases a@.len() - i,
    {
        if a[i] != lit[i] {
            return false;
        }
        i += 1;
    }
    assert(a@ =~= lit@);
    true
}

/// The keyword that a word spells, if any.
fn keyword_of(w: &Vec<u8>) -> (r: Option<Token>)
    ensures
        r == keyword_spec(w@),
{
    let u = upper_word(w);
    let lit = [83u8, 69u8, 76u8, 69u8, 67u8, 84u8];
    assert(lit@ =~= seq![83u8, 69u8, 76u8, 69u8, 67u8, 84u8]);
    if eq_lit(&u, &lit) {
        return Some(Token::Select);
    }
    let lit = [70u8, 82u8, 79u8, 77u8];
    assert(lit@ =~= seq![70u8, 82u8, 79u8, 77u8]);
    if eq_lit(&u, &lit) {
        return Some(Token::From);
    }
    let lit = [87u8, 72u8, 69u8, 82u8, 69u8];
    assert(lit@ =~= seq![87u8, 72u8, 69u8, 82u8, 69u8]);
    if eq_lit(&u, &lit) {
        return Some(Token::Where);
    }
    let lit = [83u8, 85u8, 77u8];
    assert(lit@ =~= seq![83u8, 85u8, 77u8]);
    if eq_lit(&u, &lit) {
        return Some(Token::Sum);
    }
    let lit = [71u8, 82u8, 79u8, 85u8, 80u8];
    assert(lit@ =~= seq![71u8, 82u8, 79u8, 85u8, 80u8]);
    if eq_lit(&u, &lit) {
        return Some(Token::Group);
    }
    let lit = [79u8, 82u8, 68u8, 69u8, 82u8];
    assert(lit@ =~= seq![79u8, 82u8, 68u8, 69u8, 82u8]);
    if eq_lit(&u, &lit) {
        return Some(Token::Order);
    }
    let lit = [66u8, 89u8];
    assert(lit@ =~= seq![66u8, 89u8]);
    if eq_lit(&u, &lit) {
        return Some(Token::By);
    }
    let lit = [65u8, 83u8, 67u8];
    assert(lit@ =~= seq![65u8, 83u8, 67u8]);
    if eq_lit(&u, &lit) {
        return Some(Token::Asc);
    }
    let lit = [68u8, 69u8, 83u8, 67u8];
    assert(lit@ =~= seq![68u8, 69u8, 83u8, 67u8]);
    if eq_lit(&u, &lit) {
        return Some(Token::Desc);
    }
    let lit = [68u8, 73u8, 83u8, 84u8, 73u8, 78u8, 67u8, 84u8];
    assert(lit@ =~= seq![68u8, 73u8, 83u8, 84u8, 73u8, 78u8, 67u8, 84u8]);
    if eq_lit(&u, &lit) {
        return Some(Token::Distinct);
    }
    let lit = [76u8, 69u8, 70u8, 84u8];
    assert(lit@ =~= seq![76u8, 69u8, 70u8, 84u8]);
    if eq_lit(&u, &lit) {
        return Some(Token::Left);
    }
    let lit = [82u8, 73u8, 71u8, 72u8, 84u8];
    assert(lit@ =~= seq![82u8, 73u8, 71u8, 72u8, 84u8]);
    if eq_lit(&u, &lit) {
        return Some(Token::Right);
    }
    let lit = [70u8, 85u8, 76u8, 76u8];
    assert(lit@ =~= seq![70u8, 85u8, 76u8, 76u8]);
    if eq_lit(&u, &lit) {
        return Some(Token::Full);
    }
    let lit = [73u8, 78u8, 78u8, 69u8, 82u8];
    assert(lit@ =~= seq![73u8, 78u8, 78u8, 69u8, 82u8]);
    if eq_lit(&u, &lit) {
        return Some(Token::Inner);
    }
    let lit = [79u8, 85u8, 84u8, 69u8, 82u8];
    assert(lit@ =~= seq![79u8, 85u8, 84u8, 69u8, 82u8]);
    if eq_lit(&u, &lit) {
        return Some(Token::Outer);
    }
    let lit = [74u8, 79u8, 73u8, 78u8];
    assert(lit@ =~= seq![74u8, 79u8, 73u8, 78u8]);
    if eq_lit(&u, &lit) {
        return Some(Token::Join);
    }
    let lit = [65u8, 83u8];
    assert(lit@ =~= seq![65u8, 83u8]);
    if eq_lit(&u, &lit) {
        return Some(Token::As);
    }
    let lit = [79u8, 78u8];
    assert(lit@ =~= seq![79u8, 78u8]);
    if eq_lit(&u, &lit) {
        return Some(Token::On);
    }
    let lit = [65u8, 78u8, 68u8];
    assert(lit@ =~= seq![65u8, 78u8, 68u8]);
    if eq_lit(&u, &lit) {
        return Some(Token::And);
    }
    let lit = [79u8, 82u8];
    assert(lit@ =~= seq![79u8, 82u8]);
    if eq_lit(&u, &lit) {
        return Some(Token::Or);
    }
    let lit = [78u8, 79u8, 84u8];
    assert(lit@ =~= seq![78u8, 79u8, 84u8]);
    if eq_lit(&u, &lit) {
        return Some(Token::Not);
    }
    let lit = [73u8, 83u8];
    assert(lit@ =~= seq![73u8, 83u8]);
    if eq_lit(&u, &lit) {
        return Some(Token::Is);
    }
    let lit = [78u8, 85u8, 76u8, 76u8];
    assert(lit@ =~= seq![78u8, 85u8, 76u8, 76u8]);
    if eq_lit(&u, &lit) {
        return Some(Token::Null);
    }
    let lit = [73u8, 78u8];
    assert(lit@ =~= seq![73u8, 78u8]);
    if eq_lit(&u, &lit) {
        return Some(Token::In);
    }
    let lit = [76u8, 73u8, 75u8, 69u8];
    assert(lit@ =~= seq![76u8, 73u8, 75u8, 69u8]);
    if eq_lit(&u, &lit) {
        return Some(Token::Like);
    }
    let lit = [66u8, 69u8, 84u8, 87u8, 69u8, 69u8, 78u8];
    assert(lit@ =~= seq![66u8, 69u8, 84u8, 87u8, 69u8, 69u8, 78u8]);
    if eq_lit(&u, &lit) {
        return Some(Token::Between);
    }
    let lit = [69u8, 88u8, 73u8, 83u8, 84u8, 83u8];
    assert(lit@ =~= seq![69u8, 88u8, 73u8, 83u8, 84u8, 83u8]);
    if eq_lit(&u, &lit) {
        return Some(Token::Exists);
    }
    let lit = [65u8, 76u8, 76u8];
    assert(lit@ =~= seq![65u8, 76u8, 76u8]);
    if eq_lit(&u, &lit) {
        return Some(Token::All);
    }
    let lit = [65u8, 78u8, 89u8];
    assert(lit@ =~= seq![65u8, 78u8, 89u8]);
    if eq_lit(&u, &lit) {
        return Some(Token::Any);
    }
    let lit = [85u8, 78u8, 73u8, 79u8, 78u8];
    assert(lit@ =~= seq![85u8, 78u8, 73u8, 79u8, 78u8]);
    if eq_lit(&u, &lit) {
        return Some(Token::Union);
    }
    let lit = [73u8, 78u8, 84u8, 69u8, 82u8, 83u8, 69u8, 67u8, 84u8];
    assert(lit@ =~= seq![73u8, 78u8, 84u8, 69u8, 82u8, 83u8, 69u8, 67u8, 84u8]);
    if eq_lit(&u, &lit) {
        return Some(Token::Intersect);
    }
    let lit = [69u8, 88u8, 67u8, 69u8, 80u8, 84u8];
    assert(lit@ =~= seq![69u8, 88u8, 67u8, 69u8, 80u8, 84u8]);
    if eq_lit(&u, &lit) {
        return Some(Token::Except);
    }
    let lit = [85u8, 80u8, 68u8, 65u8, 84u8, 69u8];
    assert(lit@ =~= seq![85u8, 80u8, 68u8, 65u8, 84u8, 69u8]);
    if eq_lit(&u, &lit) {
        return Some(Token::Update);
    }
    let lit = [83u8, 69u8, 84u8];
    assert(lit@ =~= seq![83u8, 69u8, 84u8]);
    if eq_lit(&u, &lit) {
        return Some(Token::SetKw);
    }
    let lit = [68u8, 69u8, 76u8, 69u8, 84u8, 69u8];
    assert(lit@ =~= seq![68u8, 69u8, 76u8, 69u8, 84u8, 69u8]);
    if eq_lit(&u, &lit) {
        return Some(Token::Delete);
    }
    let lit = [73u8, 78u8, 83u8, 69u8, 82u8, 84u8];
    assert(lit@ =~= seq![73u8, 78u8, 83u8, 69u8, 82u8, 84u8]);
    if eq_lit(&u, &lit) {
        return Some(Token::Insert);
    }
    let lit = [73u8, 78u8, 84u8, 79u8];
    assert(lit@ =~= seq![73u8, 78u8, 84u8, 79u8]);
    if eq_lit(&u, &lit) {
        return Some(Token::Into);
    }
    let lit = [86u8, 65u8, 76u8, 85u8, 69u8, 83u8];
    assert(lit@ =~= seq![86u8, 65u8, 76u8, 85u8, 69u8, 83u8]);
    if eq_lit(&u, &lit) {
        return Some(Token::Values);
    }
    let lit = [67u8, 82u8, 69u8, 65u8, 84u8, 69u8];
    assert(lit@ =~= seq![67u8, 82u8, 69u8, 65u8, 84u8, 69u8]);
    if eq_lit(&u, &lit) {
        return Some(Token::Create);
    }
    let lit = [68u8, 82u8, 79u8, 80u8];
    assert(lit@ =~= seq![68u8, 82u8, 79u8, 80u8]);
    if eq_lit(&u, &lit) {
        return Some(Token::Drop);
    }
    let lit = [84u8, 65u8, 66u8, 76u8, 69u8];
    assert(lit@ =~= seq![84u8, 65u8, 66u8, 76u8, 69u8]);
    if eq_lit(&u, &lit) {
        return Some(Token::Table);
    }
    let lit = [86u8, 73u8, 69u8, 87u8];
    assert(lit@ =~= seq![86u8, 73u8, 69u8, 87u8]);
    if eq_lit(&u, &lit) {
        return Some(Token::View);
    }
    let lit = [84u8, 82u8, 85u8, 69u8];
    assert(lit@ =~= seq![84u8, 82u8, 85u8, 69u8]);
    if eq_lit(&u, &lit) {
        return Some(Token::True);
    }
    let lit = [70u8, 65u8, 76u8, 83u8, 69u8];
    assert(lit@ =~= seq![70u8, 65u8, 76u8, 83u8, 69u8]);
    if eq_lit(&u, &lit) {
        return Some(Token::False);
    }
    None
}
pub const QUOTE: u8 = 39;

pub const BACKSLASH: u8 = 92;

pub open spec fn is_alpha(b: u8) -> bool {
    (65 <= b <= 90) || (97 <= b <= 122)
}

pub open spec fn is_digit(b: u8) -> bool {
    48 <= b <= 57
}

pub open spec fn is_word(b: u8) -> bool {
    is_alpha(b) || is_digit(b) || b == 95
}

pub open spec fn is_space(b: u8) -> bool {
    b == 32 || b == 9 || b == 13 || b == 10 || b == 12
}

/// The end of the run of word bytes from `i`.
pub open spec fn word_end(s: Seq<u8>, i: int) -> int
    decreases s.len() - i,
{
    if i < 0 || i >= s.len() || !is_word(s[i]) {
        i
    } else {
        word_end(s, i + 1)
    }
}

/// The end of the run of digits from `i`.
pub open spec fn digit_end(s: Seq<u8>, i: int) -> int
    decreases s.len() - i,
{
    if i < 0 || i >= s.len() || !is_digit(s[i]) {
        i
    } else {
        digit_end(s, i + 1)
    }
}

/// What an escape `\c` inside a string literal stands for.
pub open spec fn unescape(c: u8) -> Seq<u8> {
    if c == BACKSLASH {
        seq![BACKSLASH]
    } else if c == QUOTE {
        seq![QUOTE]
    } else if c == 110 {
        seq![10u8]
    } else if c == 114 {
        seq![13u8]
    } else if c == 48 {
        seq![0u8]
    } else if c == 34 {
        seq![34u8]
    } else {
        seq![BACKSLASH, c]
    }
}

/// The rest of a string literal from `i` (just after its opening quote):
/// the position after the closing quote and the bytes it stands for; none
/// when a newline or the end comes first.
pub open spec fn str_scan(s: Seq<u8>, i: int) -> Option<(int, Seq<u8>)>
    decreases s.len() - i,
{
    if i < 0 || i >= s.len() || s[i] == 10 {
        None
    } else if s[i] == QUOTE {
        Some((i + 1, Seq::empty()))
    } else if s[i] == BACKSLASH {
        if i + 1 >= s.len() || s[i + 1] == 10 {
            None
        } else {
            match str_scan(s, i + 2) {
                Some((e, t)) => Some((e, unescape(s[i + 1]) + t)),
                None => None,
            }
        }
    } else {
        match str_scan(s, i + 1) {
            Some((e, t)) => Some((e, seq![s[i]] + t)),
            None => None,
        }
    }
}

/// The token that starts at `i` (not a blank) and where the next one may
/// start; none for a byte that starts no token, or an unterminated string,
/// which are skipped one byte at a time.
pub open spec fn token_at(s: Seq<u8>, i: int) -> (Option<TokenV>, int) {
    let c = s[i];
    let nxt = if i + 1 < s.len() { s[i + 1] } else { 0u8 };
    if is_alpha(c) {
        let e = word_end(s, i + 1);
        let w = s.subrange(i, e);
        match keyword_spec(w) {
            Some(k) => (Some(TokenV::Plain(k)), e),
            None => (Some(TokenV::Name(token_text(w))), e),
        }
    } else if is_digit(c) || (c == 45 && i + 1 < s.len() && is_digit(nxt)) {
        let e1 = digit_end(s, if c == 45 { i + 1 } else { i });
        if e1 < s.len() && s[e1] == 46 {
            let e2 = digit_end(s, e1 + 1);
            (Some(TokenV::Float(token_text(s.subrange(i, e2)))), e2)
        } else {
            (Some(TokenV::Integer(token_text(s.subrange(i, e1)))), e1)
        }
    } else if c == QUOTE {
        match str_scan(s, i + 1) {
            Some((e, t)) => (Some(TokenV::Str(token_text(t))), e),
            None => (None, i + 1),
        }
    } else if c == 60 {
        if nxt == 61 { (Some(TokenV::Plain(Token::Lte)), i + 2) } else { (Some(TokenV::Plain(Token::Lt)), i + 1) }
    } else if c == 62 {
        if nxt == 61 { (Some(TokenV::Plain(Token::Gte)), i + 2) } else { (Some(TokenV::Plain(Token::Gt)), i + 1) }
    } else if c == 33 {
        if nxt == 61 { (Some(TokenV::Plain(Token::Neq)), i + 2) } else { (None, i + 1) }
    } else if c == 40 {
        (Some(TokenV::Plain(Token::LParen)), i + 1)
    } else if c == 41 {
        (Some(TokenV::Plain(Token::RParen)), i + 1)
    } else if c == 61 {
        (Some(TokenV::Plain(Token::Eq)), i + 1)
    } else if c == 43 {
        (Some(TokenV::Plain(Token::Plus)), i + 1)
    } else if c == 45 {
        (Some(TokenV::Plain(Token::Minus)), i + 1)
    } else if c == 47 {
        (Some(TokenV::Plain(Token::Slash)), i + 1)
    } else if c == 42 {
        (Some(TokenV::Plain(Token::Star)), i + 1)
    } else if c == 44 {
        (Some(TokenV::Plain(Token::Comma)), i + 1)
    } else {
        (None, i + 1)
    }
}

proof fn lemma_word_end(s: Seq<u8>, i: int)
    requires
        0 <= i <= s.len(),
    ensures
        i <= word_end(s, i) <= s.len(),
    decreases s.len() - i,
{
    if i < s.len() && is_word(s[i]) {
        lemma_word_end(s, i + 1);
    }
}

proof fn lemma_digit_end(s: Seq<u8>, i: int)
    requires
        0 <= i <= s.len(),
    ensures
        i <= digit_end(s, i) <= s.len(),
    decreases s.len() - i,
{
    if i < s.len() && is_digit(s[i]) {
        lemma_digit_end(s, i + 1);
    }
}

proof fn lemma_str_scan(s: Seq<u8>, i: int)
    requires
        0 <= i,
    ensures
        str_scan(s, i) is Some ==> i < str_scan(s, i)->Some_0.0 <= s.len(),
    decreases s.len() - i,
{
    if 0 <= i < s.len() && s[i] != 10 && s[i] != QUOTE {
        if s[i] == BACKSLASH {
            if i + 1 < s.len() {
                lemma_str_scan(s, i + 2);
            }
        } else {
            lemma_str_scan(s, i + 1);
        }
    }
}

proof fn lemma_token_at_advances(s: Seq<u8>, i: int)
    requires
        0 <= i < s.len(),
    ensures
        i < token_at(s, i).1 <= s.len(),
{
    lemma_word_end(s, i + 1);
    lemma_digit_end(s, i + 1);
    lemma_digit_end(s, i);
    lemma_str_scan(s, i + 1);
    let c = s[i];
    if is_digit(c) || (c == 45 && i + 1 < s.len() && is_digit(s[i + 1])) {
        let e1 = digit_end(s, if c == 45 { i + 1 } else { i });
        if e1 < s.len() && s[e1] == 46 {
            lemma_digit_end(s, e1 + 1);
        }
    }
}

/// The tokens of `s` from `i` on, with their byte spans; blanks separate
/// tokens and are dropped, and so is each byte that starts no token.
pub open spec fn lex_spec(s: Seq<u8>, i: int) -> Seq<(int, TokenV, int)>
    decreases s.len() - i,
{
    if i < 0 || i >= s.len() {
        Seq::empty()
    } else if is_space(s[i]) {
        lex_spec(s, i + 1)
    } else {
        let (t, e) = token_at(s, i);
        if e <= i || e > s.len() {
            Seq::empty()
        } else {
            match t {
                Some(tv) => seq![(i, tv, e)] + lex_spec(s, e),
                None => lex_spec(s, e),
            }
        }
    }
}

pub open spec fn lex_view(v: Seq<(usize, Token, usize)>) -> Seq<(int, TokenV, int)> {
    v.map_values(|x: (usize, Token, usize)| (x.0 as int, token_view(x.1), x.2 as int))
}

fn word_end_exec(s: &[u8], i: usize) -> (r: usize)
    requires
        i <= s@.len(),
    ensures
        r == word_end(s@, i as int),
{
    let mut j = i;
    while j < s.len() && (s[j] == 95 || (65 <= s[j] && s[j] <= 90) || (97 <= s[j] && s[j] <= 122) || (48 <= s[j]
        && s[j] <= 57))
        invariant
            i <= j <= s@.len(),
            word_end(s@, i as int) == word_end(s@, j as int),
        decreases s@.len() - j,
    {
        j += 1;
    }
    j
}

fn digit_end_exec(s: &[u8], i: usize) -> (r: usize)
    requires
        i <= s@.len(),
    ensures
        r == digit_end(s@, i as int),
{
    let mut j = i;
    while j < s.len() && 48 <= s[j] && s[j] <= 57
        invariant
            i <= j <= s@.len(),
            digit_end(s@, i as int) == digit_end(s@, j as int),
        decreases s@.len() - j,
    {
        j += 1;
    }
    j
}

fn push_unescaped(c: u8, out: &mut Vec<u8>)
    ensures
        final(out)@ == old(out)@ + unescape(c),
{
    let ghost before = out@;
    if c == BACKSLASH || c == QUOTE || c == 34 {
        out.push(c);
    } else if c == 110 {
        out.push(10);
    } else if c == 114 {
        out.push(13);
    } else if c == 48 {
        out.push(0);
    } else {
        out.push(BACKSLASH);
        out.push(c);
    }
    assert(out@ =~= before + unescape(c));
}

fn scan_string(s: &[u8], start: usize) -> (r: Option<(usize, Vec<u8>)>)
    requires
        start <= s@.len(),
    ensures
        match str_scan(s@, start as int) {
            None => r is None,
            Some((e, t)) => r is Some && r->Some_0.0 == e && r->Some_0.1@ == t,
        },
{
    let mut acc: Vec<u8> = Vec::new();
    let mut i = start;
    assert(acc@ + Seq::<u8>::empty() =~= acc@);
    loop
        invariant
            start <= i <= s@.len(),
            str_scan(s@, start as int) == match str_scan(s@, i as int) {
                Some((e, t)) => Some((e, acc@ + t)),
                None => None,
            },
        decreases s@.len() - i,
    {
        if i >= s.len() || s[i] == 10 {
            return None;
        }
        if s[i] == QUOTE {
            assert(acc@ + Seq::<u8>::empty() =~= acc@);
            return Some((i + 1, acc));
        }
        if s[i] == BACKSLASH {
            if i + 1 >= s.len() || s[i + 1] == 10 {
                return None;
            }
            let ghost before = acc@;
            push_unescaped(s[i + 1], &mut acc);
            proof {
                match str_scan(s@, i + 2) {
                    Some((e, t)) => {
                        assert(before + (unescape(s@[i + 1]) + t) =~= acc@ + t);
                    },
                    None => {},
                }
            }
            i = i + 2;
        } else {
            let ghost before = acc@;
            acc.push(s[i]);
            proof {
                match str_scan(s@, i + 1) {
                    Some((e, t)) => {
                        assert(before + (seq![s@[i as int]] + t) =~= acc@ + t);
                    },
                    None => {},
                }
            }
            i = i + 1;
        }
    }
}

fn one(t: Token, i: usize, n: usize) -> (r: (Option<Token>, usize))
    requires
        i + n <= usize::MAX,
    ensures
        r.0 == Some(t),
        r.1 == i + n,
{
    (Some(t), i + n)
}

/// The token that starts at `i`, and where the next one may start.
fn next_token(s: &[u8], i: usize) -> (r: (Option<Token>, usize))
    requires
        i < s@.len(),
        s@.len() < usize::MAX,
    ensures
        match r.0 {
            Some(t) => token_at(s@, i as int).0 == Some(token_view(t)),
            None => token_at(s@, i as int).0 is None,
        },
        r.1 == token_at(s@, i as int).1,
{
    let c = s[i];
    let nxt: u8 = if i + 1 < s.len() { s[i + 1] } else { 0 };
    if (65 <= c && c <= 90) || (97 <= c && c <= 122) {
        let e = word_end_exec(s, i + 1);
        proof {
            lemma_word_end(s@, i + 1);
        }
        let w = crate::fields::slice_to_vec(s, i, e);
        match keyword_of(&w) {
            Some(k) => {
                assert(token_view(k) == TokenV::Plain(k));
                (Some(k), e)
            },
            None => (Some(Token::Name(text_of(w.as_slice()))), e),
        }
    } else if (48 <= c && c <= 57) || (c == 45 && i + 1 < s.len() && 48 <= nxt && nxt <= 57) {
        let d0 = if c == 45 { i + 1 } else { i };
        let e1 = digit_end_exec(s, d0);
        proof {
            lemma_digit_end(s@, d0 as int);
        }
        if e1 < s.len() && s[e1] == 46 {
            let e2 = digit_end_exec(s, e1 + 1);
            proof {
                lemma_digit_end(s@, e1 + 1);
            }
            let w = crate::fields::slice_to_vec(s, i, e2);
            (Some(Token::Float(text_of(w.as_slice()))), e2)
        } else {
            let w = crate::fields::slice_to_vec(s, i, e1);
            (Some(Token::Integer(text_of(w.as_slice()))), e1)
        }
    } else if c == QUOTE {
        match scan_string(s, i + 1) {
            Some((e, t)) => (Some(Token::Str(text_of(t.as_slice()))), e),
            None => (None, i + 1),
        }
    } else if c == 60 {
        if nxt == 61 { one(Token::Lte, i, 2) } else { one(Token::Lt, i, 1) }
    } else if c == 62 {
        if nxt == 61 { one(Token::Gte, i, 2) } else { one(Token::Gt, i, 1) }
    } else if c == 33 {
        if nxt == 61 { one(Token::Neq, i, 2) } else { (None, i + 1) }
    } else if c == 40 {
        one(Token::LParen, i, 1)
    } else if c == 41 {
        one(Token::RParen, i, 1)
    } else if c == 61 {
        one(Token::Eq, i, 1)
    } else if c == 43 {
        one(Token::Plus, i, 1)
    } else if c == 45 {
        one(Token::Minus, i, 1)
    } else if c == 47 {
        one(Token::Slash, i, 1)
    } else if c == 42 {
        one(Token::Star, i, 1)
    } else if c == 44 {
        one(Token::Comma, i, 1)
    } else {
        (None, i + 1)
    }
}

/// The tokens of a query with their byte spans `(start, token, end)`;
/// blanks and bytes that start no token are skipped.
pub fn lexer_from_str(s: &str) -> (r: Vec<(usize, Token, usize)>)
    requires
        encode_utf8(s@).len() < usize::MAX,
    ensures
        lex_view(r@) == lex_spec(encode_utf8(s@), 0),
{
    let bytes = s.as_bytes();
    let ghost b = bytes@;
    assert(b == encode_utf8(s@));
    let mut out: Vec<(usize, Token, usize)> = Vec::new();
    let mut pos: usize = 0;
    assert(lex_view(out@) =~= Seq::<(int, TokenV, int)>::empty());
    while pos < bytes.len()
        invariant
            0 <= pos <= b.len(),
            b == bytes@,
            b.len() < usize::MAX,
            lex_view(out@) + lex_spec(b, pos as int) == lex_spec(b, 0),
        decreases b.len() - pos,
    {
        let c = bytes[pos];
        if c == 32 || c == 9 || c == 13 || c == 10 || c == 12 {
            pos += 1;
        } else {
            proof {
                lemma_token_at_advances(b, pos as int);
            }
            let (t, e) = next_token(bytes, pos);
            match t {
                Some(tok) => {
                    let ghost before = lex_view(out@);
                    let ghost tv = token_view(tok);
                    out.push((pos, tok, e));
                    assert(lex_view(out@) =~= before.push((pos as int, tv, e as int)));
                    assert(before.push((pos as int, tv, e as int)) + lex_spec(b, e as int) =~= before + (seq![
                        (pos as int, tv, e as int),
                    ] + lex_spec(b, e as int)));
                },
                None => {},
            }
            pos = e;
        }
    }
    assert(lex_view(out@) + lex_spec(b, pos as int) =~= lex_view(out@));
    out
}

} // verus!
