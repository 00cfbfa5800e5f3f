use vstd::prelude::*;
use crate::error::JsonError;
use crate::reader::JsonReader;

verus! {

/// A lexical token. Number text is kept as written; it is a valid decimal.
#[derive(Debug, PartialEq, Clone)]
pub enum Token {
    OpenObject,
    CloseObject,
    Colon,
    TNumber(String),
    TString(String),
    TBool(bool),
    TNull,
    Comma,
    OpenArray,
    CloseArray,
}

/// The mathematical value of a token.
pub enum Tok {
    OpenObject,
    CloseObject,
    Colon,
    Number(Seq<char>),
    Str(Seq<char>),
    Bool(bool),
    Null,
    Comma,
    OpenArray,
    CloseArray,
}

impl View for Token {
    type V = Tok;

    open spec fn view(&self) -> Tok {
        match self {
            Token::OpenObject => Tok::OpenObject,
            Token::CloseObject => Tok::CloseObject,
            Token::Colon => Tok::Colon,
            Token::TNumber(s) => Tok::Number(s@),
            Token::TString(s) => Tok::Str(s@),
            Token::TBool(b) => Tok::Bool(*b),
            Token::TNull => Tok::Null,
            Token::Comma => Tok::Comma,
            Token::OpenArray => Tok::OpenArray,
            Token::CloseArray => Tok::CloseArray,
        }
    }
}

pub open spec fn result_view(r: Result<Token, JsonError>) -> Result<Tok, JsonError> {
    match r {
        Ok(t) => Ok(t@),
        Err(e) => Err(e),
    }
}

pub open spec fn is_ws(c: char) -> bool {
    c == ' ' || c == '\t' || c == '\n' || c == '\r'
}

pub open spec fn is_digit(c: char) -> bool {
    '0' <= c && c <= '9'
}

pub open spec fn starts_number(c: char) -> bool {
    is_digit(c) || c == '.' || c == '-'
}

pub open spec fn in_number(c: char) -> bool {
    is_digit(c) || c == '.'
}

/// How many characters at the front of `s` continue a number.
pub open spec fn number_run(s: Seq<char>) -> nat
    decreases s.len(),
{
    if s.len() > 0 && in_number(s[0]) {
        1 + number_run(s.drop_first())
    } else {
        0
    }
}

/// How many decimal points `s` holds.
pub open spec fn dots(s: Seq<char>) -> nat
    decreases s.len(),
{
    if s.len() == 0 {
        0
    } else {
        (if s.last() == '.' { 1nat } else { 0nat }) + dots(s.drop_last())
    }
}

pub open spec fn has_digit(s: Seq<char>) -> bool {
    exists|i: int| 0 <= i < s.len() && is_digit(s[i])
}

/// The number text without its sign.
pub open spec fn number_body(t: Seq<char>) -> Seq<char> {
    if t.len() > 0 && t[0] == '-' {
        t.drop_first()
    } else {
        t
    }
}

/// Text that reads as a decimal: an optional minus, then digits with at most
/// one decimal point, at least one digit among them.
pub open spec fn is_decimal(t: Seq<char>) -> bool {
    let b = number_body(t);
    &&& dots(b) <= 1
    &&& has_digit(b)
    &&& forall|i: int| 0 <= i < b.len() ==> in_number(b[i])
}

/// Number text that starts with `0`, is longer than that, and has no point.
pub open spec fn leading_zero(t: Seq<char>) -> bool {
    t.len() > 1 && t[0] == '0' && dots(t) == 0
}

/// The character that an escape `\c` stands for, if `c` names one.
pub open spec fn escaped(c: char) -> Option<char> {
    if c == '"' {
        Some('"')
    } else if c == '\\' {
        Some('\\')
    } else if c == 'n' {
        Some('\n')
    } else if c == 't' {
        Some('\t')
    } else if c == 'r' {
        Some('\r')
    } else {
        None
    }
}

/// Reads the rest of a string literal whose opening quote is consumed and whose
/// text so far is `acc`: the token or error, and the characters left after it.
pub open spec fn scan_string(s: Seq<char>, acc: Seq<char>) -> (Result<Tok, JsonError>, Seq<char>)
    decreases s.len(),
{
    if s.len() == 0 {
        (Err(JsonError::UnexpectedEof), s)
    } else if s[0] == '"' {
        (Ok(Tok::Str(acc)), s.drop_first())
    } else if s[0] == '\\' {
        if s.len() < 2 {
            (Err(JsonError::UnexpectedEof), s.drop_first())
        } else {
            match escaped(s[1]) {
                Some(e) => scan_string(s.skip(2), acc.push(e)),
                None => (Err(JsonError::InvalidEscape(s[1])), s.skip(2)),
            }
        }
    } else {
        scan_string(s.drop_first(), acc.push(s[0]))
    }
}

/// Reads a number whose first character `c` is consumed.
pub open spec fn scan_number(c: char, s: Seq<char>) -> (Result<Tok, JsonError>, Seq<char>) {
    let n = number_run(s);
    let t = seq![c] + s.take(n as int);
    (
        if leading_zero(t) || !is_decimal(t) {
            Err(JsonError::InvalidNumber)
        } else {
            Ok(Tok::Number(t))
        },
        s.skip(n as int),
    )
}

/// Matches the characters of `tail` one by one against the front of `s`,
/// stopping after the first that differs.
pub open spec fn match_tail(s: Seq<char>, tail: Seq<char>, err: JsonError) -> (Result<(), JsonError>, Seq<char>)
    decreases tail.len(),
{
    if tail.len() == 0 {
        (Ok(()), s)
    } else if s.len() == 0 {
        (Err(JsonError::UnexpectedEof), s)
    } else if s[0] != tail[0] {
        (Err(err), s.drop_first())
    } else {
        match_tail(s.drop_first(), tail.drop_first(), err)
    }
}

/// What must follow the first letter of a boolean: the tail of `true` after a
/// lower-case `t`, the tail of `false` after any other starter.
pub open spec fn bool_tail(first: char) -> Seq<char> {
    if first == 't' {
        seq!['r', 'u', 'e']
    } else {
        seq!['a', 'l', 's', 'e']
    }
}

/// What must follow the first letter of null: `ull` after `n`, `ULL` after `N`.
pub open spec fn null_tail(first: char) -> Seq<char> {
    if first == 'n' {
        seq!['u', 'l', 'l']
    } else {
        seq!['U', 'L', 'L']
    }
}

pub open spec fn scan_bool(c: char, s: Seq<char>) -> (Result<Tok, JsonError>, Seq<char>) {
    let (m, rest) = match_tail(s, bool_tail(c), JsonError::InvalidBooleanLiteral);
    (
        match m {
            Ok(_) => Ok(Tok::Bool(c == 't')),
            Err(e) => Err(e),
        },
        rest,
    )
}

pub open spec fn scan_null(c: char, s: Seq<char>) -> (Result<Tok, JsonError>, Seq<char>) {
    let (m, rest) = match_tail(s, null_tail(c), JsonError::InvalidNullLiteral);
    (
        match m {
            Ok(_) => Ok(Tok::Null),
            Err(e) => Err(e),
        },
        rest,
    )
}

/// The next token of `s` and the characters after it, or `None` where only
/// whitespace is left.
pub open spec fn lex(s: Seq<char>) -> Option<(Result<Tok, JsonError>, Seq<char>)>
    decreases s.len(),
{
    if s.len() == 0 {
        None
    } else {
        let c = s[0];
        let r = s.drop_first();
        if is_ws(c) {
            lex(r)
        } else if c == '{' {
            Some((Ok(Tok::OpenObject), r))
        } else if c == '}' {
            Some((Ok(Tok::CloseObject), r))
        } else if c == '[' {
            Some((Ok(Tok::OpenArray), r))
        } else if c == ']' {
            Some((Ok(Tok::CloseArray), r))
        } else if c == ':' {
            Some((Ok(Tok::Colon), r))
        } else if c == ',' {
            Some((Ok(Tok::Comma), r))
        } else if c == '"' {
            Some(scan_string(r, seq![]))
        } else if starts_number(c) {
            Some(scan_number(c, r))
        } else if c == 't' || c == 'f' || c == 'T' || c == 'F' {
            Some(scan_bool(c, r))
        } else if c == 'n' || c == 'N' {
            Some(scan_null(c, r))
        } else {
            Some((Err(JsonError::UnexpectedCharacter(c)), r))
        }
    }
}

/// Relies on `String: FromIterator<char>`: the string holds the characters in order.
#[verifier::external_body]
fn string_of(v: &Vec<char>) -> (r: String)
    ensures
        r@ == v@,
{
    v.iter().collect()
}


fn escape_of(c: char) -> (r: Option<char>)
    ensures
        r == escaped(c),
{
    if c == '"' {
        Some('"')
    } else if c == '\\' {
        Some('\\')
    } else if c == 'n' {
        Some('\n')
    } else if c == 't' {
        Some('\t')
    } else if c == 'r' {
        Some('\r')
    } else {
        None
    }
}

/// Reads a string literal whose opening quote is consumed.
fn parse_string(iter: &mut JsonReader) -> (r: Result<Token, JsonError>)
    requires
        old(iter).wf(),
    ensures
        final(iter).wf(),
        (result_view(r), final(iter)@) == scan_string(old(iter)@, seq![]),
{
    let mut acc: Vec<char> = Vec::new();
    loop
        invariant
            iter.wf(),
            scan_string(iter@, acc@) == scan_string(old(iter)@, seq![]),
        decreases iter@.len(),
    {
        let ghost s = iter@;
        match iter.next() {
            None => {
                return Err(JsonError::UnexpectedEof);
            },
            Some(c) => {
                if c == '"' {
                    let text = string_of(&acc);
                    return Ok(Token::TString(text));
                } else if c == '\\' {
                    match iter.next() {
                        None => {
                            return Err(JsonError::UnexpectedEof);
                        },
                        Some(e) => {
                            proof {
                                assert(s.skip(2) =~= s.drop_first().drop_first());
                            }
                            match escape_of(e) {
                                Some(x) => acc.push(x),
                                None => {
                                    return Err(JsonError::InvalidEscape(e));
                                },
                            }
                        },
                    }
                } else {
                    acc.push(c);
                }
            },
        }
    }
}

fn is_digit_char(c: char) -> (r: bool)
    ensures
        r == is_digit(c),
{
    '0' <= c && c <= '9'
}

/// Whether `t` is decimal text: see `is_decimal`.
fn check_decimal(t: &Vec<char>) -> (r: bool)
    ensures
        r == is_decimal(t@),
{
    let start: usize = if t.len() > 0 && t[0] == '-' { 1 } else { 0 };
    let ghost b = number_body(t@);
    assert(b =~= t@.skip(start as int));
    let mut i: usize = start;
    let mut n_dots: usize = 0;
    let mut digit = false;
    while i < t.len()
        invariant
            start <= i <= t.len(),
            b =~= t@.skip(start as int),
            b == number_body(t@),
            n_dots <= 2,
            n_dots as nat == if dots(b.take(i - start)) > 2 { 2 } else { dots(b.take(i - start)) },
            digit == has_digit(b.take(i - start)),
            forall|j: int| 0 <= j < i - start ==> in_number(b[j]),
        decreases t.len() - i,
    {
        let c = t[i];
        let ghost k = i - start;
        assert(b.take(k + 1).drop_last() =~= b.take(k));
        if c == '.' {
            if n_dots < 2 {
                n_dots = n_dots + 1;
            }
        } else if is_digit_char(c) {
            digit = true;
        } else {
            assert(b[k] == c);
            assert(0 <= k < b.len());
            assert(!in_number(b[k]));
            return false;
        }
        proof {
            let tk = b.take(k);
            let tk1 = b.take(k + 1);
            assert(forall|j: int| 0 <= j < k ==> tk1[j] == tk[j]);
            assert(tk1[k] == c);
            if has_digit(tk1) {
                let w = choose|w: int| 0 <= w < tk1.len() && #[trigger] is_digit(tk1[w]);
                if w < k {
                    assert(is_digit(tk[w]));
                }
            }
            if has_digit(tk) {
                let w = choose|w: int| 0 <= w < tk.len() && #[trigger] is_digit(tk[w]);
                assert(is_digit(tk1[w]));
            }
            if is_digit(c) {
                assert(is_digit(tk1[k]));
            }
        }
        i = i + 1;
    }
    assert(b.take(i - start) =~= b);
    n_dots <= 1 && digit
}

/// Reads a number whose first character `num_start` is consumed.
fn parse_number(iter: &mut JsonReader, num_start: char) -> (r: Result<Token, JsonError>)
    requires
        old(iter).wf(),
    ensures
        final(iter).wf(),
        (result_view(r), final(iter)@) == scan_number(num_start, old(iter)@),
{
    let mut number: Vec<char> = Vec::new();
    number.push(num_start);
    let ghost s0 = iter@;
    let ghost n = number_run(s0);
    loop
        invariant
            iter.wf(),
            number@.len() >= 1,
            number@.len() - 1 <= s0.len(),
            n == number_run(s0),
            number@.len() - 1 + number_run(iter@) == n,
            number@ == seq![num_start] + s0.take(number@.len() - 1),
            iter@ == s0.skip(number@.len() - 1),
        ensures
            iter.wf(),
            number@.len() >= 1,
            number@.len() - 1 == n,
            number@ == seq![num_start] + s0.take(n as int),
            iter@ == s0.skip(n as int),
        decreases iter@.len(),
    {
        match iter.peek() {
            Some(c) => {
                if is_digit_char(c) || c == '.' {
                    let ghost k = number@.len() - 1;
                    assert(c == s0[k]);
                    number.push(c);
                    iter.next();
                    assert(s0.skip(k).drop_first() =~= s0.skip(k + 1));
                    assert(s0.take(k + 1) =~= s0.take(k).push(c));
                    assert(number@ =~= seq![num_start] + s0.take(k + 1));
                } else {
                    break;
                }
            },
            None => {
                break;
            },
        }
    }
    let len = number.len();
    let mut no_dot = true;
    let mut i: usize = 0;
    while i < len
        invariant
            i <= len == number@.len(),
            no_dot == (dots(number@.take(i as int)) == 0),
        decreases len - i,
    {
        assert(number@.take(i + 1).drop_last() =~= number@.take(i as int));
        if number[i] == '.' {
            no_dot = false;
        }
        i = i + 1;
    }
    assert(number@.take(len as int) =~= number@);
    if num_start == '0' && len > 1 && no_dot {
        return Err(JsonError::InvalidNumber);
    }
    if !check_decimal(&number) {
        return Err(JsonError::InvalidNumber);
    }
    Ok(Token::TNumber(string_of(&number)))
}


/// Consumes the characters of `tail` from `iter`, one by one.
fn expect_tail(iter: &mut JsonReader, tail: &Vec<char>, err: JsonError) -> (r: Result<(), JsonError>)
    requires
        old(iter).wf(),
    ensures
        final(iter).wf(),
        (r, final(iter)@) == match_tail(old(iter)@, tail@, err),
{
    let mut i: usize = 0;
    assert(tail@.skip(0) =~= tail@);
    while i < tail.len()
        invariant
            iter.wf(),
            i <= tail@.len(),
            match_tail(iter@, tail@.skip(i as int), err) == match_tail(old(iter)@, tail@, err),
        decreases tail@.len() - i,
    {
        let ghost rest = tail@.skip(i as int);
        assert(rest[0] == tail@[i as int]);
        assert(rest.drop_first() =~= tail@.skip(i + 1));
        match iter.next() {
            None => {
                return Err(JsonError::UnexpectedEof);
            },
            Some(c) => {
                if c != tail[i] {
                    return Err(err);
                }
            },
        }
        i = i + 1;
    }
    assert(tail@.skip(i as int).len() == 0);
    Ok(())
}

fn bool_tail_of(first: char) -> (r: Vec<char>)
    ensures
        r@ == bool_tail(first),
{
    let mut v: Vec<char> = Vec::new();
    if first == 't' {
        v.push('r');
        v.push('u');
        v.push('e');
    } else {
        v.push('a');
        v.push('l');
        v.push('s');
        v.push('e');
    }
    assert(v@ =~= bool_tail(first));
    v
}

fn null_tail_of(first: char) -> (r: Vec<char>)
    ensures
        r@ == null_tail(first),
{
    let mut v: Vec<char> = Vec::new();
    if first == 'n' {
        v.push('u');
        v.push('l');
        v.push('l');
    } else {
        v.push('U');
        v.push('L');
        v.push('L');
    }
    assert(v@ =~= null_tail(first));
    v
}

/// Reads a boolean whose first letter is consumed.
fn parse_boolean(iter: &mut JsonReader, first_char: char) -> (r: Result<Token, JsonError>)
    requires
        old(iter).wf(),
    ensures
        final(iter).wf(),
        (result_view(r), final(iter)@) == scan_bool(first_char, old(iter)@),
{
    let expected = bool_tail_of(first_char);
    match expect_tail(iter, &expected, JsonError::InvalidBooleanLiteral) {
        Ok(()) => Ok(Token::TBool(first_char == 't')),
        Err(e) => Err(e),
    }
}

/// Reads null whose first letter is consumed.
fn parse_null(iter: &mut JsonReader, first_char: char) -> (r: Result<Token, JsonError>)
    requires
        old(iter).wf(),
    ensures
        final(iter).wf(),
        (result_view(r), final(iter)@) == scan_null(first_char, old(iter)@),
{
    let expected = null_tail_of(first_char);
    match expect_tail(iter, &expected, JsonError::InvalidNullLiteral) {
        Ok(()) => Ok(Token::TNull),
        Err(e) => Err(e),
    }
}

/// Pulls tokens one at a time from a character source.
pub struct TokenReader {
    reader: JsonReader,
}

impl View for TokenReader {
    type V = Seq<char>;

    /// The characters not yet tokenized.
    closed spec fn view(&self) -> Seq<char> {
        self.reader@
    }
}

impl TokenReader {
    pub closed spec fn wf(&self) -> bool {
        self.reader.wf()
    }

    pub fn new(reader: JsonReader) -> (r: Self)
        requires
            reader.wf(),
        ensures
            r.wf(),
            r@ == reader@,
    {
        TokenReader { reader }
    }

    /// The next token, or the error that stops it; `None` where only whitespace
    /// is left. Consumes exactly the characters of that token.
    pub fn next(&mut self) -> (r: Option<Result<Token, JsonError>>)
        requires
            old(self).wf(),
        ensures
            final(self).wf(),
            match lex(old(self)@) {
                None => r.is_none(),
                Some((t, rest)) => r.is_some() && result_view(r.unwrap()) == t && final(self)@ == rest,
            },
    {
        loop
            invariant
                self.wf(),
                lex(self@) == lex(old(self)@),
            decreases self@.len(),
        {
            let ch = match self.reader.next() {
                None => {
                    return None;
                },
                Some(ch) => ch,
            };
            let result = if ch == ' ' || ch == '\t' || ch == '\n' || ch == '\r' {
                continue;
            } else if ch == '{' {
                Ok(Token::OpenObject)
            } else if ch == '}' {
                Ok(Token::CloseObject)
            } else if ch == '[' {
                Ok(Token::OpenArray)
            } else if ch == ']' {
                Ok(Token::CloseArray)
            } else if ch == ':' {
                Ok(Token::Colon)
            } else if ch == ',' {
                Ok(Token::Comma)
            } else if ch == '"' {
                parse_string(&mut self.reader)
            } else if is_digit_char(ch) || ch == '.' || ch == '-' {
                parse_number(&mut self.reader, ch)
            } else if ch == 't' || ch == 'f' || ch == 'T' || ch == 'F' {
                parse_boolean(&mut self.reader, ch)
            } else if ch == 'n' || ch == 'N' {
                parse_null(&mut self.reader, ch)
            } else {
                Err(JsonError::UnexpectedCharacter(ch))
            };
            return Some(result);
        }
    }
}


proof fn lemma_number_run_bound(s: Seq<char>)
    ensures
        number_run(s) <= s.len(),
    decreases s.len(),
{
    if s.len() > 0 && in_number(s[0]) {
        lemma_number_run_bound(s.drop_first());
    }
}

proof fn lemma_scan_string_shrinks(s: Seq<char>, acc: Seq<char>)
    ensures
        scan_string(s, acc).1.len() <= s.len(),
    decreases s.len(),
{
    if s.len() > 0 && s[0] != '"' {
        if s[0] == '\\' {
            if s.len() >= 2 {
                if let Some(e) = escaped(s[1]) {
                    lemma_scan_string_shrinks(s.skip(2), acc.push(e));
                }
            }
        } else {
            lemma_scan_string_shrinks(s.drop_first(), acc.push(s[0]));
        }
    }
}

proof fn lemma_match_tail_shrinks(s: Seq<char>, tail: Seq<char>, err: JsonError)
    ensures
        match_tail(s, tail, err).1.len() <= s.len(),
    decreases tail.len(),
{
    if tail.len() > 0 && s.len() > 0 && s[0] == tail[0] {
        lemma_match_tail_shrinks(s.drop_first(), tail.drop_first(), err);
    }
}

/// Every token consumes at least one character.
pub proof fn lemma_lex_shrinks(s: Seq<char>)
    ensures
        lex(s) matches Some((_, rest)) ==> rest.len() < s.len(),
    decreases s.len(),
{
    if s.len() > 0 {
        let c = s[0];
        let r = s.drop_first();
        if is_ws(c) {
            lemma_lex_shrinks(r);
        } else {
            lemma_scan_string_shrinks(r, seq![]);
            lemma_number_run_bound(r);
            lemma_match_tail_shrinks(r, bool_tail(c), JsonError::InvalidBooleanLiteral);
            lemma_match_tail_shrinks(r, null_tail(c), JsonError::InvalidNullLiteral);
        }
    }
}


proof fn lemma_number_run_digits(d: Seq<char>, rest: Seq<char>)
    requires
        forall|i: int| 0 <= i < d.len() ==> in_number(d[i]),
        rest.len() == 0 || !in_number(rest[0]),
    ensures
        number_run(d + rest) == d.len(),
    decreases d.len(),
{
    if d.len() == 0 {
        assert(d + rest =~= rest);
    } else {
        assert((d + rest).drop_first() =~= d.drop_first() + rest);
        lemma_number_run_digits(d.drop_first(), rest);
    }
}

proof fn lemma_dots_digits(d: Seq<char>)
    requires
        forall|i: int| 0 <= i < d.len() ==> is_digit(d[i]),
    ensures
        dots(d) == 0,
    decreases d.len(),
{
    if d.len() > 0 {
        lemma_dots_digits(d.drop_last());
    }
}

/// The leading-zero rule: `0` followed by more digits, with no decimal point,
/// is rejected, while `0` alone or `0.` followed by digits is a number.
pub proof fn lemma_leading_zero(d: Seq<char>, rest: Seq<char>)
    requires
        forall|i: int| 0 <= i < d.len() ==> is_digit(d[i]),
        rest.len() == 0 || !in_number(rest[0]),
    ensures
        d.len() > 0 ==> lex(seq!['0'] + d + rest) == Some((Err::<Tok, JsonError>(JsonError::InvalidNumber), rest)),
        lex(seq!['0', '.'] + d + rest) == Some((Ok::<Tok, JsonError>(Tok::Number(seq!['0', '.'] + d)), rest)),
        lex(seq!['0'] + rest) == Some((Ok::<Tok, JsonError>(Tok::Number(seq!['0'])), rest)),
{
    let e = Seq::<char>::empty();
    // `0` then digits
    let s1 = seq!['0'] + d + rest;
    assert(s1.drop_first() =~= d + rest);
    lemma_number_run_digits(d, rest);
    assert((d + rest).take(d.len() as int) =~= d);
    assert((d + rest).skip(d.len() as int) =~= rest);
    let t1 = seq!['0'] + d;
    lemma_dots_digits(t1);
    // `0.` then digits
    let pd = seq!['.'] + d;
    let s2 = seq!['0', '.'] + d + rest;
    assert(s2.drop_first() =~= pd + rest);
    assert(forall|i: int| 0 <= i < pd.len() ==> in_number(pd[i]));
    lemma_number_run_digits(pd, rest);
    assert((pd + rest).take(pd.len() as int) =~= pd);
    assert((pd + rest).skip(pd.len() as int) =~= rest);
    let t2 = seq!['0'] + pd;
    assert(t2 =~= seq!['0', '.'] + d);
    lemma_dots_digits(d);
    assert(dots(t2) == 1) by {
        lemma_dots_split(seq!['0', '.'], d);
        assert(seq!['0', '.'].drop_last() =~= seq!['0']);
        assert(seq!['0'].drop_last() =~= e);
        assert(dots(e) == 0);
        assert(dots(seq!['0']) == 0);
        assert(dots(seq!['0', '.']) == 1);
    };
    assert(number_body(t2) == t2);
    assert(is_digit(t2[0]));
    // `0` alone
    let s3 = seq!['0'] + rest;
    assert(s3.drop_first() =~= rest);
    lemma_number_run_digits(e, rest);
    assert(rest.take(0) =~= e);
    assert(rest.skip(0) =~= rest);
    assert(seq!['0'] + e =~= seq!['0']);
    assert(seq!['0'].drop_last() =~= e);
    assert(dots(e) == 0);
    assert(dots(seq!['0']) == 0);
    let t3 = seq!['0'] + rest.take(0);
    assert(t3 =~= seq!['0']);
    assert(number_body(t3) == t3);
    assert(is_digit(t3[0]));
    assert(has_digit(number_body(t3)));
    assert(is_decimal(t3));
}

proof fn lemma_dots_split(a: Seq<char>, b: Seq<char>)
    ensures
        dots(a + b) == dots(a) + dots(b),
    decreases b.len(),
{
    if b.len() == 0 {
        assert(a + b =~= a);
    } else {
        assert((a + b).drop_last() =~= a + b.drop_last());
        lemma_dots_split(a, b.drop_last());
    }
}

} // verus!
