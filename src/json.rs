use vstd::prelude::*;
use crate::errors::{JsonDiffError, JsonDiffErrorType};
use crate::number::{canonical_number, canonical_number_text, is_digit, valid_number};
use crate::text::{chars_of, push_range};

verus! {

// ---------------------------------------------------------------------------
// Tokens
// ---------------------------------------------------------------------------

#[derive(Debug, Clone, Copy, PartialEq, Eq, Structural)]
pub enum TokenType {
    String,
    Number,
    True,
    False,
    Null,
    ObjectStart,
    ObjectEnd,
    ArrayStart,
    ArrayEnd,
    Comma,
    Colon,
}

/// A lexical token: its kind and the character positions `start..end` of its
/// text in the input. A string token's text includes its quotes.
#[derive(Debug, Clone, Copy, PartialEq, Eq, Structural)]
pub struct Token {
    pub start: usize,
    pub end: usize,
    pub token_type: TokenType,
}

pub open spec fn tok(start: int, end: int, k: TokenType) -> Token {
    Token { start: start as usize, end: end as usize, token_type: k }
}

/// The token kind of a one-character punctuation mark.
pub open spec fn punct_kind(c: char) -> Option<TokenType> {
    if c == '{' {
        Some(TokenType::ObjectStart)
    } else if c == '}' {
        Some(TokenType::ObjectEnd)
    } else if c == '[' {
        Some(TokenType::ArrayStart)
    } else if c == ']' {
        Some(TokenType::ArrayEnd)
    } else if c == ',' {
        Some(TokenType::Comma)
    } else if c == ':' {
        Some(TokenType::Colon)
    } else {
        None
    }
}

/// The last position of a number that starts at `j`: it goes on while the
/// next character is a digit or a dot.
pub open spec fn number_end(src: Seq<char>, j: int) -> int
    decreases src.len() - j,
{
    if 0 <= j && j + 1 < src.len() && (is_digit(src[j + 1]) || src[j + 1] == '.') {
        number_end(src, j + 1)
    } else {
        j
    }
}

/// One step of the scanner from position `i`, inside a string or not, where
/// `start` is where the current string began: the next token, if any, and
/// the state after it.
pub open spec fn scan(src: Seq<char>, i: int, in_string: bool, start: int) -> (Option<Token>, int, bool, int)
    decreases src.len() - i,
{
    if i < 0 || i >= src.len() {
        (None, i, in_string, start)
    } else {
        let c = src[i];
        if in_string {
            if c == '\\' {
                if i + 2 <= src.len() {
                    scan(src, i + 2, true, start)
                } else {
                    (None, src.len() as int, true, start)
                }
            } else if c == '"' {
                (Some(tok(start, i + 1, TokenType::String)), i + 1, false, i + 1)
            } else {
                scan(src, i + 1, true, start)
            }
        } else if c == '"' {
            scan(src, i + 1, true, i)
        } else if punct_kind(c) is Some {
            (Some(tok(i, i + 1, punct_kind(c)->0)), i + 1, false, i + 1)
        } else if c == 't' && i + 3 < src.len() && src[i + 1] == 'r' && src[i + 2] == 'u' && src[i + 3]
            == 'e' {
            (Some(tok(i, i + 4, TokenType::True)), i + 4, false, i + 4)
        } else if c == 'f' && i + 4 < src.len() && src[i + 1] == 'a' && src[i + 2] == 'l' && src[i + 3]
            == 's' && src[i + 4] == 'e' {
            (Some(tok(i, i + 5, TokenType::False)), i + 5, false, i + 5)
        } else if c == 'n' && i + 3 < src.len() && src[i + 1] == 'u' && src[i + 2] == 'l' && src[i + 3]
            == 'l' {
            (Some(tok(i, i + 4, TokenType::Null)), i + 4, false, i + 4)
        } else if is_digit(c) || c == '-' {
            let e = number_end(src, i);
            (Some(tok(i, e + 1, TokenType::Number)), e + 1, false, e + 1)
        } else {
            scan(src, i + 1, false, start)
        }
    }
}

/// The tokens from a scanner state to the end of the input.
pub open spec fn tokens_from(src: Seq<char>, i: int, in_string: bool, start: int) -> Seq<Token>
    decreases src.len() - i,
{
    let r = scan(src, i, in_string, start);
    if r.0 is Some && i < r.1 <= src.len() {
        seq![r.0->0] + tokens_from(src, r.1, r.2, r.3)
    } else {
        Seq::empty()
    }
}

/// The tokens of a whole input.
pub open spec fn tokenize(src: Seq<char>) -> Seq<Token> {
    tokens_from(src, 0, false, 0)
}

pub open spec fn token_in(src: Seq<char>, t: Token) -> bool {
    t.start <= t.end <= src.len()
}

proof fn lemma_number_end(src: Seq<char>, j: int)
    requires
        0 <= j < src.len(),
    ensures
        j <= number_end(src, j) < src.len(),
    decreases src.len() - j,
{
    if j + 1 < src.len() && (is_digit(src[j + 1]) || src[j + 1] == '.') {
        lemma_number_end(src, j + 1);
    }
}

/// The scanner moves forward, stays within the input, and hands out tokens
/// that lie within it.
proof fn lemma_scan(src: Seq<char>, i: int, in_string: bool, start: int)
    requires
        0 <= i <= src.len() <= usize::MAX,
        in_string ==> 0 <= start <= i,
    ensures
        i <= scan(src, i, in_string, start).1 <= src.len(),
        scan(src, i, in_string, start).0 is Some ==> {
            let r = scan(src, i, in_string, start);
            &&& i < r.1
            &&& !r.2
            &&& r.3 == r.1
            &&& token_in(src, r.0->0)
        },
        scan(src, i, in_string, start).2 ==> 0 <= scan(src, i, in_string, start).3 <= scan(
            src,
            i,
            in_string,
            start,
        ).1,
    decreases src.len() - i,
{
    if i < src.len() {
        let c = src[i];
        if in_string {
            if c == '\\' {
                if i + 2 <= src.len() {
                    lemma_scan(src, i + 2, true, start);
                }
            } else if c != '"' {
                lemma_scan(src, i + 1, true, start);
            }
        } else if c == '"' {
            lemma_scan(src, i + 1, true, i);
        } else if punct_kind(c) is Some {
        } else if c == 't' && i + 3 < src.len() && src[i + 1] == 'r' && src[i + 2] == 'u' && src[i + 3]
            == 'e' {
        } else if c == 'f' && i + 4 < src.len() && src[i + 1] == 'a' && src[i + 2] == 'l' && src[i + 3]
            == 's' && src[i + 4] == 'e' {
        } else if c == 'n' && i + 3 < src.len() && src[i + 1] == 'u' && src[i + 2] == 'l' && src[i + 3]
            == 'l' {
        } else if is_digit(c) || c == '-' {
            lemma_number_end(src, i);
        } else {
            lemma_scan(src, i + 1, false, start);
        }
    }
}

proof fn lemma_tokens_from(src: Seq<char>, i: int, in_string: bool, start: int)
    requires
        0 <= i <= src.len() <= usize::MAX,
        in_string ==> 0 <= start <= i,
    ensures
        forall|k: int|
            0 <= k < tokens_from(src, i, in_string, start).len() ==> token_in(
                src,
                #[trigger] tokens_from(src, i, in_string, start)[k],
            ),
    decreases src.len() - i,
{
    lemma_scan(src, i, in_string, start);
    let r = scan(src, i, in_string, start);
    if r.0 is Some && i < r.1 <= src.len() {
        lemma_tokens_from(src, r.1, r.2, r.3);
        let rest = tokens_from(src, r.1, r.2, r.3);
        assert forall|k: int| 0 <= k < tokens_from(src, i, in_string, start).len() implies token_in(
            src,
            #[trigger] tokens_from(src, i, in_string, start)[k],
        ) by {
            if k > 0 {
                assert(tokens_from(src, i, in_string, start)[k] == rest[k - 1]);
            }
        }
    }
}

/// A scanner over the characters of an input.
pub struct Tokenizer {
    src: Vec<char>,
    i: usize,
    start: usize,
    in_string: bool,
}

impl Tokenizer {
    pub closed spec fn source(&self) -> Seq<char> {
        self.src@
    }

    pub closed spec fn position(&self) -> int {
        self.i as int
    }

    pub closed spec fn inside_string(&self) -> bool {
        self.in_string
    }

    pub closed spec fn string_start(&self) -> int {
        self.start as int
    }

    pub closed spec fn wf(&self) -> bool {
        &&& self.src@.len() <= usize::MAX
        &&& self.i <= self.src@.len()
        &&& self.in_string ==> self.start <= self.i
    }

    /// The tokens that this scanner has still to hand out.
    pub open spec fn remaining(&self) -> Seq<Token> {
        tokens_from(self.source(), self.position(), self.inside_string(), self.string_start())
    }

    /// A scanner at the start of `input`.
    pub fn new(input: &str) -> (r: Self)
        ensures
            r.wf(),
            r.source() == input@,
            r.position() == 0,
            !r.inside_string(),
            r.string_start() == 0,
    {
        let src = chars_of(input);
        proof {
            assert(src@.len() == src.len());
        }
        Tokenizer { src, i: 0, start: 0, in_string: false }
    }

    /// The next token, if any.
    pub fn next_token(&mut self) -> (r: Option<Token>)
        requires
            old(self).wf(),
        ensures
            final(self).wf(),
            final(self).source() == old(self).source(),
            r == scan(old(self).source(), old(self).position(), old(self).inside_string(), old(self).string_start()).0,
            final(self).position() == scan(old(self).source(), old(self).position(), old(self).inside_string(), old(self).string_start()).1,
            final(self).inside_string() == scan(old(self).source(), old(self).position(), old(self).inside_string(), old(self).string_start()).2,
            final(self).string_start() == scan(old(self).source(), old(self).position(), old(self).inside_string(), old(self).string_start()).3,
    {
        let ghost target = scan(self.src@, self.i as int, self.in_string, self.start as int);
        let n = self.src.len();
        while self.i < n
            invariant
                self.wf(),
                self.src@ == old(self).src@,
                n == self.src@.len(),
                scan(self.src@, self.i as int, self.in_string, self.start as int) == target,
                target == scan(old(self).src@, old(self).i as int, old(self).in_string, old(self).start as int),
            decreases n - self.i,
        {
            let i = self.i;
            let c = self.src[i];
            if self.in_string {
                if c == '\\' {
                    if n - i >= 2 {
                        self.i = i + 2;
                    } else {
                        self.i = n;
                        return None;
                    }
                } else if c == '"' {
                    let t = Token { start: self.start, end: i + 1, token_type: TokenType::String };
                    self.in_string = false;
                    self.start = i + 1;
                    self.i = i + 1;
                    return Some(t);
                } else {
                    self.i = i + 1;
                }
            } else {
                let kind: Option<TokenType> = if c == '{' {
                    Some(TokenType::ObjectStart)
                } else if c == '}' {
                    Some(TokenType::ObjectEnd)
                } else if c == '[' {
                    Some(TokenType::ArrayStart)
                } else if c == ']' {
                    Some(TokenType::ArrayEnd)
                } else if c == ',' {
                    Some(TokenType::Comma)
                } else if c == ':' {
                    Some(TokenType::Colon)
                } else {
                    None
                };
                if c == '"' {
                    self.in_string = true;
                    self.start = i;
                    self.i = i + 1;
                } else if let Some(k) = kind {
                    self.start = i + 1;
                    self.i = i + 1;
                    return Some(Token { start: i, end: i + 1, token_type: k });
                } else if c == 't' && n - i > 3 && self.src[i + 1] == 'r' && self.src[i + 2] == 'u'
                    && self.src[i + 3] == 'e' {
                    self.i = i + 4;
                    self.start = i + 4;
                    return Some(Token { start: i, end: i + 4, token_type: TokenType::True });
                } else if c == 'f' && n - i > 4 && self.src[i + 1] == 'a' && self.src[i + 2] == 'l'
                    && self.src[i + 3] == 's' && self.src[i + 4] == 'e' {
                    self.i = i + 5;
                    self.start = i + 5;
                    return Some(Token { start: i, end: i + 5, token_type: TokenType::False });
                } else if c == 'n' && n - i > 3 && self.src[i + 1] == 'u' && self.src[i + 2] == 'l'
                    && self.src[i + 3] == 'l' {
                    self.i = i + 4;
                    self.start = i + 4;
                    return Some(Token { start: i, end: i + 4, token_type: TokenType::Null });
                } else if ('0' <= c && c <= '9') || c == '-' {
                    let mut e: usize = i;
                    while e + 1 < n && (('0' <= self.src[e + 1] && self.src[e + 1] <= '9') || self.src[e
                        + 1] == '.')
                        invariant
                            i <= e < n,
                            n == self.src@.len(),
                            number_end(self.src@, e as int) == number_end(self.src@, i as int),
                        decreases n - e,
                    {
                        e += 1;
                    }
                    self.i = e + 1;
                    self.start = e + 1;
                    return Some(Token { start: i, end: e + 1, token_type: TokenType::Number });
                } else {
                    self.i = i + 1;
                }
            }
        }
        None
    }

    /// Hands out all the remaining tokens, in order.
    pub fn tokens(&mut self) -> (r: Vec<Token>)
        requires
            old(self).wf(),
        ensures
            final(self).wf(),
            final(self).source() == old(self).source(),
            r@ == old(self).remaining(),
    {
        let mut out: Vec<Token> = Vec::new();
        loop
            invariant
                self.wf(),
                self.source() == old(self).source(),
                out@ + self.remaining() == old(self).remaining(),
            decreases self.source().len() - self.position(),
        {
            proof {
                lemma_scan(self.source(), self.position(), self.inside_string(), self.string_start());
            }
            let ghost before = self.remaining();
            match self.next_token() {
                Some(t) => {
                    out.push(t);
                    proof {
                        assert(before == seq![t] + self.remaining());
                        assert(out@ + self.remaining() =~= old(self).remaining());
                    }
                },
                None => {
                    proof {
                        assert(out@ =~= old(self).remaining());
                    }
                    return out;
                },
            }
        }
    }
}

/// A parsed JSON value. Strings and keys hold their text as it stands between
/// the quotes of the input (escapes are kept, not decoded); a number holds its
/// value in canonical decimal notation (see `crate::number`).
#[derive(Debug, PartialEq)]
pub enum JsonValue {
    String(String),
    Number(String),
    Boolean(bool),
    Null,
    Array(Vec<JsonValue>),
    Object(Vec<(String, JsonValue)>),
}

/// The mathematical model of a `JsonValue`.
pub enum Json {
    Str(Seq<char>),
    Num(Seq<char>),
    Bool(bool),
    Null,
    Arr(Seq<Json>),
    Obj(Seq<(Seq<char>, Json)>),
}

pub open spec fn value_model(v: JsonValue) -> Json
    decreases v, 0nat,
{
    match v {
        JsonValue::String(s) => Json::Str(s@),
        JsonValue::Number(t) => Json::Num(t@),
        JsonValue::Boolean(b) => Json::Bool(b),
        JsonValue::Null => Json::Null,
        JsonValue::Array(items) => Json::Arr(items_model(items@)),
        JsonValue::Object(members) => Json::Obj(members_model(members@)),
    }
}

pub open spec fn items_model(s: Seq<JsonValue>) -> Seq<Json>
    decreases s, 0nat,
{
    if s.len() == 0 {
        Seq::empty()
    } else {
        items_model(s.drop_last()).push(value_model(s.last()))
    }
}

pub open spec fn members_model(s: Seq<(String, JsonValue)>) -> Seq<(Seq<char>, Json)>
    decreases s, 0nat,
{
    if s.len() == 0 {
        Seq::empty()
    } else {
        members_model(s.drop_last()).push((s.last().0@, value_model(s.last().1)))
    }
}

impl View for JsonValue {
    type V = Json;

    open spec fn view(&self) -> Json {
        value_model(*self)
    }
}

pub proof fn lemma_items_model(s: Seq<JsonValue>)
    ensures
        items_model(s).len() == s.len(),
        forall|i: int| 0 <= i < s.len() ==> #[trigger] items_model(s)[i] == value_model(s[i]),
    decreases s.len(),
{
    if s.len() > 0 {
        lemma_items_model(s.drop_last());
    }
}

pub proof fn lemma_members_model(s: Seq<(String, JsonValue)>)
    ensures
        members_model(s).len() == s.len(),
        forall|i: int|
            0 <= i < s.len() ==> #[trigger] members_model(s)[i] == (s[i].0@, value_model(s[i].1)),
    decreases s.len(),
{
    if s.len() > 0 {
        lemma_members_model(s.drop_last());
    }
}


// ---------------------------------------------------------------------------
// Parsing
// ---------------------------------------------------------------------------

/// An entry of the parser's stack: a value, or the mark of an open container.
pub enum Entry {
    Value(Json),
    ArrayOpen,
    ObjectOpen,
}

/// The text of a string token without one leading and one trailing quote.
pub open spec fn unquote(t: Seq<char>) -> Seq<char> {
    let t1 = if t.len() > 0 && t[0] == '"' {
        t.drop_first()
    } else {
        t
    };
    if t1.len() > 0 && t1.last() == '"' {
        t1.drop_last()
    } else {
        t1
    }
}

/// Index of the topmost mark on the stack, or -1.
pub open spec fn marker_index(s: Seq<Entry>) -> int
    decreases s.len(),
{
    if s.len() == 0 {
        -1
    } else if s.last() is Value {
        marker_index(s.drop_last())
    } else {
        s.len() - 1
    }
}

pub open spec fn values_of(s: Seq<Entry>) -> Seq<Json> {
    s.map_values(
        |e: Entry|
            match e {
                Entry::Value(j) => j,
                _ => Json::Null,
            },
    )
}

/// The first `n` key-value pairs of `vals`; each key must be a string.
pub open spec fn pairs_upto(vals: Seq<Json>, n: nat) -> Result<Seq<(Seq<char>, Json)>, JsonDiffErrorType>
    decreases n,
{
    if n == 0 {
        Ok(Seq::empty())
    } else {
        match pairs_upto(vals, (n - 1) as nat) {
            Err(e) => Err(e),
            Ok(ps) => match vals[2 * (n - 1)] {
                Json::Str(k) => Ok(ps.push((k, vals[2 * n - 1]))),
                _ => Err(JsonDiffErrorType::InvalidStructureObjectKey),
            },
        }
    }
}

/// The members of an object from the values between its braces: consecutive
/// pairs, a last unpaired value left out.
pub open spec fn pairs(vals: Seq<Json>) -> Result<Seq<(Seq<char>, Json)>, JsonDiffErrorType> {
    pairs_upto(vals, vals.len() / 2)
}

pub open spec fn close_array(s: Seq<Entry>) -> Result<Seq<Entry>, JsonDiffErrorType> {
    let mi = marker_index(s);
    if mi >= 0 && s[mi] is ArrayOpen {
        Ok(s.take(mi).push(Entry::Value(Json::Arr(values_of(s.skip(mi + 1))))))
    } else {
        Err(JsonDiffErrorType::InvalidStructureUnclosed)
    }
}

pub open spec fn close_object(s: Seq<Entry>) -> Result<Seq<Entry>, JsonDiffErrorType> {
    let mi = marker_index(s);
    if mi >= 0 && s[mi] is ObjectOpen {
        match pairs(values_of(s.skip(mi + 1))) {
            Ok(members) => Ok(s.take(mi).push(Entry::Value(Json::Obj(members)))),
            Err(e) => Err(e),
        }
    } else {
        Err(JsonDiffErrorType::InvalidStructureUnclosed)
    }
}

/// The stack after one token.
pub open spec fn step(src: Seq<char>, s: Seq<Entry>, t: Token) -> Result<Seq<Entry>, JsonDiffErrorType> {
    let text = src.subrange(t.start as int, t.end as int);
    match t.token_type {
        TokenType::String => Ok(s.push(Entry::Value(Json::Str(unquote(text))))),
        TokenType::Number => if valid_number(text) {
            Ok(s.push(Entry::Value(Json::Num(canonical_number(text)))))
        } else {
            Err(JsonDiffErrorType::InvalidStructureInvalidNumber)
        },
        TokenType::True => Ok(s.push(Entry::Value(Json::Bool(true)))),
        TokenType::False => Ok(s.push(Entry::Value(Json::Bool(false)))),
        TokenType::Null => Ok(s.push(Entry::Value(Json::Null))),
        TokenType::Comma | TokenType::Colon => Ok(s),
        TokenType::ArrayStart => Ok(s.push(Entry::ArrayOpen)),
        TokenType::ObjectStart => Ok(s.push(Entry::ObjectOpen)),
        TokenType::ArrayEnd => close_array(s),
        TokenType::ObjectEnd => close_object(s),
    }
}

/// The stack after a sequence of tokens, or the first error.
pub open spec fn run(src: Seq<char>, toks: Seq<Token>) -> Result<Seq<Entry>, JsonDiffErrorType>
    decreases toks.len(),
{
    if toks.len() == 0 {
        Ok(Seq::empty())
    } else {
        match run(src, toks.drop_last()) {
            Err(e) => Err(e),
            Ok(s) => step(src, s, toks.last()),
        }
    }
}

/// What parsing `src` gives: the one value left on the stack, or an error.
pub open spec fn parse(src: Seq<char>) -> Result<Json, JsonDiffErrorType> {
    match run(src, tokenize(src)) {
        Err(e) => Err(e),
        Ok(s) => if s.len() == 1 && s[0] is Value {
            Ok(s[0]->Value_0)
        } else {
            Err(JsonDiffErrorType::InvalidStructureUnclosed)
        },
    }
}

proof fn lemma_run_error(src: Seq<char>, toks: Seq<Token>, k: int, e: JsonDiffErrorType)
    requires
        0 <= k <= toks.len(),
        run(src, toks.take(k)) == Err::<Seq<Entry>, JsonDiffErrorType>(e),
    ensures
        run(src, toks) == Err::<Seq<Entry>, JsonDiffErrorType>(e),
    decreases toks.len() - k,
{
    if k == toks.len() {
        assert(toks.take(k) =~= toks);
    } else {
        assert(toks.take(k + 1).drop_last() =~= toks.take(k));
        lemma_run_error(src, toks, k + 1, e);
    }
}

/// A stack entry while parsing.
enum Slot {
    Value(JsonValue),
    ArrayOpen,
    ObjectOpen,
}

spec fn slot_model(x: Slot) -> Entry {
    match x {
        Slot::Value(v) => Entry::Value(v@),
        Slot::ArrayOpen => Entry::ArrayOpen,
        Slot::ObjectOpen => Entry::ObjectOpen,
    }
}

spec fn slots_model(s: Seq<Slot>) -> Seq<Entry> {
    s.map_values(|x: Slot| slot_model(x))
}

/// Pops the values above the topmost mark, and the mark. The values come
/// back last first.
fn pop_values(stack: &mut Vec<Slot>) -> (r: (Vec<JsonValue>, Option<Slot>))
    ensures
        ({
            let s = slots_model(old(stack)@);
            let mi = marker_index(s);
            &&& -1 <= mi < s.len()
            &&& slots_model(final(stack)@) == if mi >= 0 {
                s.take(mi)
            } else {
                Seq::empty()
            }
            &&& items_model(r.0@) == values_of(s.skip(mi + 1)).reverse()
            &&& match r.1 {
                Some(x) => mi >= 0 && slot_model(x) == s[mi],
                None => mi == -1,
            }
        }),
{
    let ghost s = slots_model(stack@);
    let mut rev: Vec<JsonValue> = Vec::new();
    loop
        invariant
            s == slots_model(old(stack)@),
            stack@.len() <= s.len(),
            slots_model(stack@) == s.take(stack@.len() as int),
            marker_index(s) == marker_index(s.take(stack@.len() as int)),
            items_model(rev@) == values_of(s.skip(stack@.len() as int)).reverse(),
        decreases stack@.len(),
    {
        let ghost k = stack@.len() as int;
        proof {
            lemma_items_model(rev@);
        }
        match stack.pop() {
            None => {
                proof {
                    assert(s.take(0) =~= Seq::<Entry>::empty());
                }
                return (rev, None);
            },
            Some(Slot::Value(v)) => {
                let ghost old_rev = rev@;
                rev.push(v);
                proof {
                    assert(s.take(k).drop_last() =~= s.take(k - 1));
                    assert(slots_model(stack@) =~= s.take(k - 1));
                    lemma_items_model(rev@);
                    assert(rev@.drop_last() == old_rev);
                    assert(items_model(rev@) =~= values_of(s.skip(k - 1)).reverse());
                }
            },
            Some(x) => {
                proof {
                    assert(s.take(k).drop_last() =~= s.take(k - 1));
                    assert(slots_model(stack@) =~= s.take(k - 1));
                }
                return (rev, Some(x));
            },
        }
    }
}

/// The values in the opposite order.
fn reverse_values(v: Vec<JsonValue>) -> (r: Vec<JsonValue>)
    ensures
        items_model(r@) == items_model(v@).reverse(),
{
    let ghost v0 = v@;
    let n = v.len();
    let mut v = v;
    let mut out: Vec<JsonValue> = Vec::new();
    while v.len() > 0
        invariant
            n == v0.len(),
            v@.len() + out@.len() == n,
            v@ == v0.take(v@.len() as int),
            out@ == v0.reverse().take(out@.len() as int),
        decreases v@.len(),
    {
        let ghost k = v@.len() as int;
        match v.pop() {
            Some(x) => {
                out.push(x);
                proof {
                    assert(v@ =~= v0.take(k - 1));
                    assert(out@ =~= v0.reverse().take(out@.len() as int));
                }
            },
            None => {},
        }
    }
    proof {
        assert(out@ =~= v0.reverse());
        lemma_items_model(out@);
        lemma_items_model(v0);
        assert(items_model(out@) =~= items_model(v0).reverse());
    }
    out
}

proof fn lemma_pairs_error(vals: Seq<Json>, n: nat, m: nat, e: JsonDiffErrorType)
    requires
        n <= m,
        pairs_upto(vals, n) == Err::<Seq<(Seq<char>, Json)>, JsonDiffErrorType>(e),
    ensures
        pairs_upto(vals, m) == Err::<Seq<(Seq<char>, Json)>, JsonDiffErrorType>(e),
    decreases m - n,
{
    if n < m {
        lemma_pairs_error(vals, n, (m - 1) as nat, e);
    }
}

/// Pairs up values handed over last first: (key, value), (key, value), ...
fn pair_up(rev: &mut Vec<JsonValue>) -> (r: Result<Vec<(String, JsonValue)>, JsonDiffErrorType>)
    ensures
        match pairs(items_model(old(rev)@).reverse()) {
            Ok(ms) => r is Ok && members_model(r->Ok_0@) == ms,
            Err(e) => r == Err::<Vec<(String, JsonValue)>, JsonDiffErrorType>(e),
        },
{
    let ghost vals = items_model(rev@).reverse();
    proof {
        lemma_items_model(rev@);
    }
    let mut members: Vec<(String, JsonValue)> = Vec::new();
    let ghost mut np: nat = 0;
    while rev.len() >= 2
        invariant
            vals == items_model(old(rev)@).reverse(),
            vals.len() == rev@.len() + 2 * np,
            items_model(rev@) == vals.subrange((2 * np) as int, vals.len() as int).reverse(),
            pairs_upto(vals, np) == Ok::<Seq<(Seq<char>, Json)>, JsonDiffErrorType>(members_model(members@)),
        decreases rev@.len(),
    {
        proof {
            lemma_items_model(rev@);
        }
        let ghost before = rev@;
        let k = rev.pop().unwrap();
        let v = rev.pop().unwrap();
        proof {
            let len = before.len() as int;
            let tail = vals.subrange((2 * np) as int, vals.len() as int);
            assert(k == before[len - 1]);
            assert(v == before[len - 2]);
            assert(items_model(before)[len - 1] == value_model(before[len - 1]));
            assert(items_model(before)[len - 2] == value_model(before[len - 2]));
            assert(tail.reverse()[len - 1] == tail[0]);
            assert(tail.reverse()[len - 2] == tail[1]);
            assert(rev@ =~= before.take(len - 2));
            lemma_items_model(rev@);
            lemma_items_model(before);
            assert forall|i: int| 0 <= i < rev@.len() implies #[trigger] items_model(rev@)[i] == vals.subrange(
                (2 * np + 2) as int,
                vals.len() as int,
            ).reverse()[i] by {
                assert(items_model(rev@)[i] == items_model(before)[i]);
                assert(tail.reverse()[i] == tail[len - 1 - i]);
            }
            assert(value_model(k) == vals[(2 * np) as int]);
            assert(value_model(v) == vals[(2 * np + 1) as int]);
            assert(items_model(rev@) =~= vals.subrange((2 * np + 2) as int, vals.len() as int).reverse());
        }
        match k {
            JsonValue::String(key) => {
                let ghost ms = members_model(members@);
                let ghost old_members = members@;
                members.push((key, v));
                proof {
                    assert(members@.drop_last() =~= old_members);
                    assert(members_model(members@) =~= ms.push((key@, value_model(v))));
                    np = np + 1;
                }
            },
            _ => {
                proof {
                    assert(pairs_upto(vals, np + 1) == Err::<Seq<(Seq<char>, Json)>, JsonDiffErrorType>(
                        JsonDiffErrorType::InvalidStructureObjectKey,
                    ));
                    lemma_pairs_error(vals, np + 1, vals.len() / 2, JsonDiffErrorType::InvalidStructureObjectKey);
                }
                return Err(JsonDiffErrorType::InvalidStructureObjectKey);
            },
        }
    }
    assert(np == vals.len() / 2);
    Ok(members)
}

/// The characters `src[from..to]`.
fn slice_chars(src: &Vec<char>, from: usize, to: usize) -> (r: Vec<char>)
    requires
        from <= to <= src@.len(),
    ensures
        r@ == src@.subrange(from as int, to as int),
{
    let mut out: Vec<char> = Vec::new();
    let mut k: usize = from;
    while k < to
        invariant
            from <= k <= to <= src@.len(),
            out@ == src@.subrange(from as int, k as int),
        decreases to - k,
    {
        out.push(src[k]);
        proof {
            assert(out@ =~= src@.subrange(from as int, k + 1));
        }
        k += 1;
    }
    out
}

/// Applies one token to the stack.
fn apply_token(src: &Vec<char>, stack: &mut Vec<Slot>, t: Token) -> (r: Result<(), JsonDiffErrorType>)
    requires
        token_in(src@, t),
    ensures
        match step(src@, slots_model(old(stack)@), t) {
            Ok(s) => r is Ok && slots_model(final(stack)@) == s,
            Err(e) => r == Err::<(), JsonDiffErrorType>(e),
        },
{
    let ghost s = slots_model(stack@);
    let ghost text = src@.subrange(t.start as int, t.end as int);
    let entry = match t.token_type {
        TokenType::String => {
            let mut a = t.start;
            let mut b = t.end;
            if b > a && src[a] == '"' {
                a = a + 1;
            }
            if b > a && src[b - 1] == '"' {
                b = b - 1;
            }
            let mut out = String::new();
            push_range(&mut out, src, a, b);
            proof {
                let t1 = if text.len() > 0 && text[0] == '"' {
                    text.drop_first()
                } else {
                    text
                };
                assert(t1 =~= src@.subrange(a as int, t.end as int));
                assert(out@ =~= unquote(text));
            }
            Slot::Value(JsonValue::String(out))
        },
        TokenType::Number => {
            let chars = slice_chars(src, t.start, t.end);
            match canonical_number_text(&chars) {
                Some(c) => Slot::Value(JsonValue::Number(c)),
                None => {
                    return Err(JsonDiffErrorType::InvalidStructureInvalidNumber);
                },
            }
        },
        TokenType::True => Slot::Value(JsonValue::Boolean(true)),
        TokenType::False => Slot::Value(JsonValue::Boolean(false)),
        TokenType::Null => Slot::Value(JsonValue::Null),
        TokenType::Comma | TokenType::Colon => {
            return Ok(());
        },
        TokenType::ArrayStart => Slot::ArrayOpen,
        TokenType::ObjectStart => Slot::ObjectOpen,
        TokenType::ArrayEnd => {
            let (rev, mark) = pop_values(stack);
            match mark {
                Some(Slot::ArrayOpen) => {
                    let items = reverse_values(rev);
                    proof {
                        let mi = marker_index(s);
                        let vs = values_of(s.skip(mi + 1));
                        assert(vs.reverse().reverse() =~= vs);
                    }
                    Slot::Value(JsonValue::Array(items))
                },
                _ => {
                    return Err(JsonDiffErrorType::InvalidStructureUnclosed);
                },
            }
        },
        TokenType::ObjectEnd => {
            let (mut rev, mark) = pop_values(stack);
            match mark {
                Some(Slot::ObjectOpen) => {
                    proof {
                        let mi = marker_index(s);
                        let vs = values_of(s.skip(mi + 1));
                        assert(vs.reverse().reverse() =~= vs);
                    }
                    match pair_up(&mut rev) {
                        Ok(members) => Slot::Value(JsonValue::Object(members)),
                        Err(e) => {
                            return Err(e);
                        },
                    }
                },
                _ => {
                    return Err(JsonDiffErrorType::InvalidStructureUnclosed);
                },
            }
        },
    };
    let ghost before = stack@;
    stack.push(entry);
    proof {
        assert(slots_model(stack@) =~= slots_model(before).push(slot_model(entry)));
    }
    Ok(())
}

/// Parses JSON text into a value tree.
pub fn parse_json(input: &str) -> (r: Result<JsonValue, JsonDiffError>)
    ensures
        match r {
            Ok(v) => parse(input@) == Ok::<Json, JsonDiffErrorType>(v@),
            Err(e) => parse(input@) == Err::<Json, JsonDiffErrorType>(e.error_type),
        },
{
    let mut tk = Tokenizer::new(input);
    let toks = tk.tokens();
    let src = &tk.src;
    proof {
        lemma_tokens_from(src@, 0, false, 0);
    }
    let mut stack: Vec<Slot> = Vec::new();
    let mut t: usize = 0;
    proof {
        assert(toks@.take(0) =~= Seq::<Token>::empty());
        assert(slots_model(stack@) =~= Seq::<Entry>::empty());
    }
    while t < toks.len()
        invariant
            src@ == input@,
            toks@ == tokenize(input@),
            forall|k: int| 0 <= k < toks@.len() ==> token_in(src@, #[trigger] toks@[k]),
            t <= toks@.len(),
            run(input@, toks@.take(t as int)) == Ok::<Seq<Entry>, JsonDiffErrorType>(slots_model(stack@)),
        decreases toks@.len() - t,
    {
        let token = toks[t];
        proof {
            assert(toks@.take(t + 1).drop_last() =~= toks@.take(t as int));
        }
        match apply_token(src, &mut stack, token) {
            Ok(()) => {},
            Err(e) => {
                proof {
                    lemma_run_error(input@, toks@, t + 1, e);
                }
                return Err(JsonDiffError { error_type: e });
            },
        }
        t += 1;
    }
    proof {
        assert(toks@.take(t as int) =~= toks@);
    }
    if stack.len() == 1 {
        match stack.pop() {
            Some(Slot::Value(v)) => {
                return Ok(v);
            },
            _ => {},
        }
    }
    Err(JsonDiffError { error_type: JsonDiffErrorType::InvalidStructureUnclosed })
}

} // verus!
