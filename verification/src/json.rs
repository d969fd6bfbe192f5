use vstd::prelude::*;

use crate::text::char_to_string;

verus! {

/// One lexical unit of the JSON-like input.
#[derive(Debug, PartialEq)]
pub enum Token {
    CurlyOpen,
    CurlyClose,
    BracketOpen,
    BracketClose,
    Colon,
    Comma,
    String(String),
}

#[derive(Debug, PartialEq)]
pub enum ParseError {
    UnexpectedToken(String),
}

/// A parsed value: a string, an object kept as a key/value list, an array,
/// or null.
#[derive(Debug, PartialEq)]
pub enum JsonValue {
    String(String),
    Object(Vec<(String, JsonValue)>),
    Array(Vec<JsonValue>),
    Null,
}

/// A token that may not stand where an object expects a key.
pub open spec fn stray_key(t: Token) -> bool {
    !(t is CurlyClose) && !(t is String)
}

/// The payload of a string token; the empty sequence for any other token.
pub open spec fn token_str(t: Token) -> Seq<char> {
    match t {
        Token::String(p) => p@,
        _ => Seq::empty(),
    }
}

/// The tokens from `i` spell a one-pair object: brace, key, colon, string
/// value, closing brace.
pub open spec fn flat_pair_at(toks: Seq<Token>, i: int) -> bool {
    &&& 0 <= i && i + 4 < toks.len()
    &&& toks[i] is CurlyOpen
    &&& toks[i + 1] is String
    &&& toks[i + 2] is Colon
    &&& toks[i + 3] is String
    &&& toks[i + 4] is CurlyClose
}

/// The entry list after the one pair of a flat object has been read.
pub open spec fn flat_pair_map(entries: Seq<(String, JsonValue)>, toks: Seq<Token>, i: int) -> bool {
    &&& entries.len() == 1
    &&& entries[0].0@ == token_str(toks[i + 1])
    &&& (entries[0].1 matches JsonValue::String(payload) && payload@ == token_str(toks[i + 3]))
}

/// The expected result of parsing a one-pair object.
pub open spec fn is_flat_pair_value(v: JsonValue, key: Seq<char>, val: Seq<char>) -> bool {
    &&& v matches JsonValue::Object(entries)
    &&& entries@.len() == 1
    &&& entries@[0].0@ == key
    &&& (entries@[0].1 matches JsonValue::String(payload) && payload@ == val)
}

/// The tokens from `i` spell an object whose one value is itself a one-pair
/// object, and nothing follows: brace, key, colon, inner one-pair object,
/// brace closing the outer object, end of input.
pub open spec fn nested_pair_at(toks: Seq<Token>, i: int) -> bool {
    &&& 0 <= i && i + 9 == toks.len()
    &&& toks[i] is CurlyOpen
    &&& toks[i + 1] is String
    &&& toks[i + 2] is Colon
    &&& flat_pair_at(toks, i + 3)
    &&& toks[i + 8] is CurlyClose
}

/// The tokens from `i` spell an object whose one value is an empty object,
/// and nothing follows.
pub open spec fn nested_empty_at(toks: Seq<Token>, i: int) -> bool {
    &&& 0 <= i && i + 6 == toks.len()
    &&& toks[i] is CurlyOpen
    &&& toks[i + 1] is String
    &&& toks[i + 2] is Colon
    &&& toks[i + 3] is CurlyOpen
    &&& toks[i + 4] is CurlyClose
    &&& toks[i + 5] is CurlyClose
}

/// The tokens from `i` spell an object that binds the same key twice, each
/// time to a string value: the later binding must win.
pub open spec fn dup_pair_at(toks: Seq<Token>, i: int) -> bool {
    &&& 0 <= i && i + 7 < toks.len()
    &&& toks[i] is CurlyOpen
    &&& toks[i + 1] is String
    &&& toks[i + 2] is Colon
    &&& toks[i + 3] is String
    &&& toks[i + 4] is String
    &&& toks[i + 5] is Colon
    &&& toks[i + 6] is String
    &&& toks[i + 7] is CurlyClose
    &&& token_str(toks[i + 4]) == token_str(toks[i + 1])
}

/// Structural equality of tokens, string payloads compared by content.
pub open spec fn tokens_match(a: Token, b: Token) -> bool {
    match (a, b) {
        (Token::CurlyOpen, Token::CurlyOpen) => true,
        (Token::CurlyClose, Token::CurlyClose) => true,
        (Token::BracketOpen, Token::BracketOpen) => true,
        (Token::BracketClose, Token::BracketClose) => true,
        (Token::Colon, Token::Colon) => true,
        (Token::Comma, Token::Comma) => true,
        (Token::String(x), Token::String(y)) => x@ == y@,
        _ => false,
    }
}

fn clone_token(t: &Token) -> (r: Token)
    ensures
        r == *t,
{
    match t {
        Token::CurlyOpen => Token::CurlyOpen,
        Token::CurlyClose => Token::CurlyClose,
        Token::BracketOpen => Token::BracketOpen,
        Token::BracketClose => Token::BracketClose,
        Token::Colon => Token::Colon,
        Token::Comma => Token::Comma,
        Token::String(s) => Token::String(s.clone()),
    }
}

/// The spec-level shape of a token: string payloads as character sequences.
pub enum TokenModel {
    CurlyOpen,
    CurlyClose,
    BracketOpen,
    BracketClose,
    Colon,
    Comma,
    Str(Seq<char>),
}

impl View for Token {
    type V = TokenModel;

    open spec fn view(&self) -> TokenModel {
        match self {
            Token::CurlyOpen => TokenModel::CurlyOpen,
            Token::CurlyClose => TokenModel::CurlyClose,
            Token::BracketOpen => TokenModel::BracketOpen,
            Token::BracketClose => TokenModel::BracketClose,
            Token::Colon => TokenModel::Colon,
            Token::Comma => TokenModel::Comma,
            Token::String(s) => TokenModel::Str(s@),
        }
    }
}

impl DeepView for Token {
    type V = TokenModel;

    open spec fn deep_view(&self) -> TokenModel {
        self.view()
    }
}

impl View for ParseError {
    type V = Seq<char>;

    open spec fn view(&self) -> Seq<char> {
        match self {
            ParseError::UnexpectedToken(s) => s@,
        }
    }
}

impl DeepView for ParseError {
    type V = Seq<char>;

    open spec fn deep_view(&self) -> Seq<char> {
        self.view()
    }
}

pub open spec fn spec_is_sep(c: char) -> bool {
    c == ' ' || c == '\n' || c == '\t'
}

/// The characters from `i` up to the next quote, and the position after that
/// quote (or the end of the input, whichever comes first).
pub open spec fn scan_quoted(s: Seq<char>, i: int) -> (Seq<char>, int)
    decreases s.len() - i,
{
    if i < 0 || i >= s.len() {
        (Seq::empty(), i)
    } else if s[i] == '"' {
        (Seq::empty(), i + 1)
    } else {
        let (rest, j) = scan_quoted(s, i + 1);
        (seq![s[i]] + rest, j)
    }
}

/// The characters from `i` up to the next whitespace, and the position after
/// that whitespace (or the end of the input).
pub open spec fn scan_junk(s: Seq<char>, i: int) -> (Seq<char>, int)
    decreases s.len() - i,
{
    if i < 0 || i >= s.len() {
        (Seq::empty(), i)
    } else if spec_is_sep(s[i]) {
        (Seq::empty(), i + 1)
    } else {
        let (rest, j) = scan_junk(s, i + 1);
        (seq![s[i]] + rest, j)
    }
}

pub proof fn lemma_scan_quoted_bounds(s: Seq<char>, i: int)
    requires
        0 <= i <= s.len(),
    ensures
        i <= scan_quoted(s, i).1 <= s.len(),
    decreases s.len() - i,
{
    if i < s.len() && s[i] != '"' {
        lemma_scan_quoted_bounds(s, i + 1);
    }
}

pub proof fn lemma_scan_junk_bounds(s: Seq<char>, i: int)
    requires
        0 <= i <= s.len(),
    ensures
        i <= scan_junk(s, i).1 <= s.len(),
    decreases s.len() - i,
{
    if i < s.len() && !spec_is_sep(s[i]) {
        lemma_scan_junk_bounds(s, i + 1);
    }
}

pub open spec fn tm_str(content: Seq<char>) -> TokenModel {
    TokenModel::Str(content)
}

/// The tokens and the unexpected-token errors of `s` from position `i` on.
pub open spec fn spec_tokenize(s: Seq<char>, i: int) -> (Seq<TokenModel>, Seq<Seq<char>>)
    decreases s.len() - i,
    via spec_tokenize_decreases
{
    if i < 0 || i >= s.len() {
        (Seq::empty(), Seq::empty())
    } else {
        let c = s[i];
        if c == '{' {
            let rest = spec_tokenize(s, i + 1);
            (seq![TokenModel::CurlyOpen] + rest.0, rest.1)
        } else if c == '}' {
            let rest = spec_tokenize(s, i + 1);
            (seq![TokenModel::CurlyClose] + rest.0, rest.1)
        } else if c == '[' {
            let rest = spec_tokenize(s, i + 1);
            (seq![TokenModel::BracketOpen] + rest.0, rest.1)
        } else if c == ']' {
            let rest = spec_tokenize(s, i + 1);
            (seq![TokenModel::BracketClose] + rest.0, rest.1)
        } else if c == ':' {
            let rest = spec_tokenize(s, i + 1);
            (seq![TokenModel::Colon] + rest.0, rest.1)
        } else if c == ',' {
            let rest = spec_tokenize(s, i + 1);
            (seq![TokenModel::Comma] + rest.0, rest.1)
        } else if c == '"' {
            let (content, j) = scan_quoted(s, i + 1);
            let rest = spec_tokenize(s, j);
            (seq![tm_str(content)] + rest.0, rest.1)
        } else if spec_is_sep(c) {
            spec_tokenize(s, i + 1)
        } else {
            let (content, j) = scan_junk(s, i + 1);
            let rest = spec_tokenize(s, j);
            (rest.0, seq![content] + rest.1)
        }
    }
}

#[via_fn]
proof fn spec_tokenize_decreases(s: Seq<char>, i: int) {
    if 0 <= i < s.len() {
        if s[i] == '"' {
            lemma_scan_quoted_bounds(s, i + 1);
        } else {
            lemma_scan_junk_bounds(s, i + 1);
        }
    }
}

proof fn lemma_push_assoc(dv: Seq<TokenModel>, toks0: Seq<TokenModel>, rest: Seq<TokenModel>, tm: TokenModel)
    requires
        dv == toks0.push(tm),
    ensures
        toks0 + (seq![tm] + rest) == dv + rest,
{
    assert(toks0 + (seq![tm] + rest) =~= toks0.push(tm) + rest);
}

/// Splits the input into tokens: punctuation, quoted strings, and whitespace
/// between them. A run of anything else is collected as one unexpected-token
/// error; with at least one such error the whole input is rejected.
pub fn tokenize(json: &str) -> (r: Result<Vec<Token>, Vec<ParseError>>)
    ensures
        match r {
            Ok(tokens) => {
                &&& spec_tokenize(json@, 0).1.len() == 0
                &&& tokens.deep_view() == spec_tokenize(json@, 0).0
            },
            Err(errors) => {
                &&& spec_tokenize(json@, 0).1.len() > 0
                &&& errors.deep_view() == spec_tokenize(json@, 0).1
            },
        },
{
    let ghost s = json@;
    let n = json.unicode_len();
    let mut tokens: Vec<Token> = Vec::new();
    let mut errors: Vec<ParseError> = Vec::new();
    let mut i: usize = 0;
    proof {
        assert(tokens.deep_view() =~= Seq::<TokenModel>::empty());
        assert(errors.deep_view() =~= Seq::<Seq<char>>::empty());
        assert(spec_tokenize(s, 0).0 =~= tokens.deep_view() + spec_tokenize(s, 0).0);
        assert(spec_tokenize(s, 0).1 =~= errors.deep_view() + spec_tokenize(s, 0).1);
    }
    while i < n
        invariant
            0 <= i <= n,
            n == s.len(),
            s == json@,
            spec_tokenize(s, 0).0 == tokens.deep_view() + spec_tokenize(s, i as int).0,
            spec_tokenize(s, 0).1 == errors.deep_view() + spec_tokenize(s, i as int).1,
        decreases n - i,
    {
        let ghost i0 = i as int;
        let ghost toks0 = tokens.deep_view();
        let ghost errs0 = errors.deep_view();
        let c = json.get_char(i);
        i = i + 1;
        if c == '{' {
            tokens.push(Token::CurlyOpen);
            proof {
                assert(tokens.deep_view() =~= toks0.push(TokenModel::CurlyOpen));
                lemma_push_assoc(
                    tokens.deep_view(),
                    toks0,
                    spec_tokenize(s, i0 + 1).0,
                    TokenModel::CurlyOpen,
                );
            }
        } else if c == '}' {
            tokens.push(Token::CurlyClose);
            proof {
                assert(tokens.deep_view() =~= toks0.push(TokenModel::CurlyClose));
                lemma_push_assoc(
                    tokens.deep_view(),
                    toks0,
                    spec_tokenize(s, i0 + 1).0,
                    TokenModel::CurlyClose,
                );
            }
        } else if c == '[' {
            tokens.push(Token::BracketOpen);
            proof {
                assert(tokens.deep_view() =~= toks0.push(TokenModel::BracketOpen));
                lemma_push_assoc(
                    tokens.deep_view(),
                    toks0,
                    spec_tokenize(s, i0 + 1).0,
                    TokenModel::BracketOpen,
                );
            }
        } else if c == ']' {
            tokens.push(Token::BracketClose);
            proof {
                assert(tokens.deep_view() =~= toks0.push(TokenModel::BracketClose));
                lemma_push_assoc(
                    tokens.deep_view(),
                    toks0,
                    spec_tokenize(s, i0 + 1).0,
                    TokenModel::BracketClose,
                );
            }
        } else if c == ':' {
            tokens.push(Token::Colon);
            proof {
                assert(tokens.deep_view() =~= toks0.push(TokenModel::Colon));
                lemma_push_assoc(
                    tokens.deep_view(),
                    toks0,
                    spec_tokenize(s, i0 + 1).0,
                    TokenModel::Colon,
                );
            }
        } else if c == ',' {
            tokens.push(Token::Comma);
            proof {
                assert(tokens.deep_view() =~= toks0.push(TokenModel::Comma));
                lemma_push_assoc(
                    tokens.deep_view(),
                    toks0,
                    spec_tokenize(s, i0 + 1).0,
                    TokenModel::Comma,
                );
            }
        } else if c == '"' {
            let ghost start = i as int;
            let mut key = String::new();
            let mut done = false;
            proof {
                assert(key@ + scan_quoted(s, start).0 =~= scan_quoted(s, start).0);
            }
            while i < n && !done
                invariant
                    start <= i <= n,
                    n == s.len(),
                    s == json@,
                    !done ==> scan_quoted(s, start).0 == key@ + scan_quoted(s, i as int).0,
                    !done ==> scan_quoted(s, start).1 == scan_quoted(s, i as int).1,
                    done ==> scan_quoted(s, start).0 == key@,
                    done ==> scan_quoted(s, start).1 == i as int,
                decreases n - i,
            {
                let ghost ib = i as int;
                let ghost key0 = key@;
                let next_char = json.get_char(i);
                i = i + 1;
                if next_char == '"' {
                    done = true;
                    proof {
                        assert(key@ + Seq::<char>::empty() =~= key@);
                    }
                } else {
                    let one = char_to_string(next_char);
                    key.append(one.as_str());
                    proof {
                        assert(key@ =~= key0.push(next_char));
                        assert(key0 + (seq![next_char] + scan_quoted(s, ib + 1).0) =~= key@
                            + scan_quoted(s, ib + 1).0);
                    }
                }
            }
            proof {
                lemma_scan_quoted_bounds(s, start);
                if !done {
                    assert(scan_quoted(s, i as int).0 =~= Seq::<char>::empty());
                    assert(key@ + Seq::<char>::empty() =~= key@);
                }
                assert(key@ =~= scan_quoted(s, start).0);
                assert(i as int == scan_quoted(s, start).1);
            }
            tokens.push(Token::String(key));
            proof {
                assert(tokens.deep_view() =~= toks0.push(tm_str(scan_quoted(s, start).0)));
                assert(toks0 + spec_tokenize(s, i0).0 =~= toks0.push(
                    tm_str(scan_quoted(s, start).0),
                ) + spec_tokenize(s, i as int).0);
            }
        } else if c == ' ' || c == '\n' || c == '\t' {
        } else {
            let ghost start = i as int;
            let mut unexpected_token = String::new();
            let mut done = false;
            proof {
                assert(unexpected_token@ + scan_junk(s, start).0 =~= scan_junk(s, start).0);
            }
            while i < n && !done
                invariant
                    start <= i <= n,
                    n == s.len(),
                    s == json@,
                    !done ==> scan_junk(s, start).0 == unexpected_token@ + scan_junk(
                        s,
                        i as int,
                    ).0,
                    !done ==> scan_junk(s, start).1 == scan_junk(s, i as int).1,
                    done ==> scan_junk(s, start).0 == unexpected_token@,
                    done ==> scan_junk(s, start).1 == i as int,
                decreases n - i,
            {
                let ghost ib = i as int;
                let ghost junk0 = unexpected_token@;
                let ch = json.get_char(i);
                i = i + 1;
                if ch == ' ' || ch == '\n' || ch == '\t' {
                    done = true;
                    proof {
                        assert(unexpected_token@ + Seq::<char>::empty() =~= unexpected_token@);
                    }
                } else {
                    let one = char_to_string(ch);
                    unexpected_token.append(one.as_str());
                    proof {
                        assert(unexpected_token@ =~= junk0.push(ch));
                        assert(junk0 + (seq![ch] + scan_junk(s, ib + 1).0) =~= unexpected_token@
                            + scan_junk(s, ib + 1).0);
                    }
                }
            }
            proof {
                lemma_scan_junk_bounds(s, start);
                if !done {
                    assert(scan_junk(s, i as int).0 =~= Seq::<char>::empty());
                    assert(unexpected_token@ + Seq::<char>::empty() =~= unexpected_token@);
                }
                assert(unexpected_token@ =~= scan_junk(s, start).0);
                assert(i as int == scan_junk(s, start).1);
            }
            errors.push(ParseError::UnexpectedToken(unexpected_token));
            proof {
                assert(errors.deep_view() =~= errs0.push(scan_junk(s, start).0));
                assert(errs0 + spec_tokenize(s, i0).1 =~= errs0.push(scan_junk(s, start).0)
                    + spec_tokenize(s, i as int).1);
            }
        }
    }
    proof {
        assert(spec_tokenize(s, n as int).0.len() == 0);
        assert(spec_tokenize(s, n as int).1.len() == 0);
        assert(tokens.deep_view() + spec_tokenize(s, n as int).0 =~= tokens.deep_view());
        assert(errors.deep_view() + spec_tokenize(s, n as int).1 =~= errors.deep_view());
    }
    if errors.len() > 0 {
        return Err(errors);
    }
    Ok(tokens)
}

/// A recursive-descent parser over an already tokenized input.
pub struct Parser {
    tokens: Vec<Token>,
    current: usize,
}

impl Parser {
    /// The tokens this parser was built over.
    pub closed spec fn toks(self) -> Seq<Token> {
        self.tokens@
    }

    /// The position of the next unread token.
    pub closed spec fn pos(self) -> int {
        self.current as int
    }

    pub fn new(tokens: Vec<Token>) -> (p: Parser)
        ensures
            p.toks() == tokens@,
            p.pos() == 0,
    {
        Self { tokens, current: 0 }
    }

    fn peek(&self) -> (r: Option<&Token>)
        ensures
            match r {
                Some(t) => self.pos() < self.toks().len() && *t == self.toks()[self.pos()],
                None => self.pos() >= self.toks().len(),
            },
    {
        if self.current < self.tokens.len() {
            Some(&self.tokens[self.current])
        } else {
            None
        }
    }

    fn advance(&mut self) -> (r: Option<&Token>)
        requires
            old(self).pos() < usize::MAX,
        ensures
            final(self).toks() == old(self).toks(),
            final(self).pos() == old(self).pos() + 1,
            old(self).pos() < old(self).toks().len() ==> (r matches Some(t) && *t == old(
                self,
            ).toks()[old(self).pos()]),
            old(self).pos() >= old(self).toks().len() ==> r is None,
    {
        let token = if self.current < self.tokens.len() {
            Some(&self.tokens[self.current])
        } else {
            None
        };
        self.current = self.current + 1;
        token
    }

    /// Consumes the next token when it matches `expected`; otherwise leaves
    /// the position alone.
    fn expect(&mut self, expected: Token)
        ensures
            final(self).toks() == old(self).toks(),
            old(self).pos() < old(self).toks().len() && tokens_match(
                old(self).toks()[old(self).pos()],
                expected,
            ) ==> final(self).pos() == old(self).pos() + 1,
            !(old(self).pos() < old(self).toks().len() && tokens_match(
                old(self).toks()[old(self).pos()],
                expected,
            )) ==> final(self).pos() == old(self).pos(),
    {
        let matched = if self.current < self.tokens.len() {
            token_eq(&self.tokens[self.current], &expected)
        } else {
            false
        };
        if matched {
            self.advance();
        }
    }

    /// Parses the whole input, which must start with an object.
    pub fn parse(&mut self) -> (r: Result<JsonValue, String>)
        requires
            old(self).pos() <= old(self).toks().len(),
        ensures
            final(self).toks() == old(self).toks(),
            old(self).pos() <= final(self).pos() <= final(self).toks().len(),
            r matches Ok(v) ==> v is Object,
            !(old(self).pos() < old(self).toks().len() && old(self).toks()[old(self).pos()]
                is CurlyOpen) ==> (r matches Err(e) && e@
                == "JSON must begin with an object or array"@ && final(self).pos() == old(
                self,
            ).pos()),
            (old(self).pos() + 1 < old(self).toks().len() && old(self).toks()[old(self).pos()]
                is CurlyOpen && old(self).toks()[old(self).pos() + 1] is CurlyClose) ==> (r matches
                Ok(JsonValue::Object(entries)) && entries@.len() == 0 && final(self).pos() == old(
                self,
            ).pos() + 2 + (if old(self).pos() + 2 < old(self).toks().len() && old(self).toks()[old(
                self,
            ).pos() + 2] is CurlyClose {
                1int
            } else {
                0int
            })),
            flat_pair_at(old(self).toks(), old(self).pos()) ==> (r matches Ok(v)
                && is_flat_pair_value(
                v,
                token_str(old(self).toks()[old(self).pos() + 1]),
                token_str(old(self).toks()[old(self).pos() + 3]),
            )),
            nested_pair_at(old(self).toks(), old(self).pos()) ==> (r matches Ok(
                JsonValue::Object(entries),
            ) && entries@.len() == 1 && entries@[0].0@ == token_str(
                old(self).toks()[old(self).pos() + 1],
            ) && is_flat_pair_value(
                entries@[0].1,
                token_str(old(self).toks()[old(self).pos() + 4]),
                token_str(old(self).toks()[old(self).pos() + 6]),
            )),
            nested_empty_at(old(self).toks(), old(self).pos()) ==> (r matches Ok(
                JsonValue::Object(entries),
            ) && entries@.len() == 1 && entries@[0].0@ == token_str(
                old(self).toks()[old(self).pos() + 1],
            ) && (entries@[0].1 matches JsonValue::Object(inner) && inner@.len() == 0)),
    {
        let open = match self.peek() {
            Some(Token::CurlyOpen) => true,
            _ => false,
        };
        if open {
            return self.parse_object();
        }
        Err(junk_start_message())
    }

    /// Parses one object, the opening brace being the next token.
    fn parse_object(&mut self) -> (r: Result<JsonValue, String>)
        requires
            old(self).pos() < old(self).toks().len(),
            old(self).toks()[old(self).pos()] is CurlyOpen,
        ensures
            final(self).toks() == old(self).toks(),
            old(self).pos() < final(self).pos() <= final(self).toks().len(),
            r matches Ok(v) ==> v is Object,
            (old(self).pos() + 1 < old(self).toks().len() && stray_key(
                old(self).toks()[old(self).pos() + 1],
            )) ==> (r matches Err(e) && e@ == "Invalid JSON!"@),
            (old(self).pos() + 1 < old(self).toks().len() && old(self).toks()[old(self).pos() + 1]
                is CurlyClose) ==> (r matches Ok(JsonValue::Object(entries)) && entries@.len() == 0
                && final(self).pos() == old(self).pos() + 2 + (if old(self).pos() + 2 < old(
                self,
            ).toks().len() && old(self).toks()[old(self).pos() + 2] is CurlyClose {
                1int
            } else {
                0int
            })),
            flat_pair_at(old(self).toks(), old(self).pos()) ==> (r matches Ok(v)
                && is_flat_pair_value(
                v,
                token_str(old(self).toks()[old(self).pos() + 1]),
                token_str(old(self).toks()[old(self).pos() + 3]),
            ) && final(self).pos() == old(self).pos() + 5 + (if old(self).pos() + 5 < old(
                self,
            ).toks().len() && old(self).toks()[old(self).pos() + 5] is CurlyClose {
                1int
            } else {
                0int
            })),
            nested_pair_at(old(self).toks(), old(self).pos()) ==> (r matches Ok(
                JsonValue::Object(entries),
            ) && entries@.len() == 1 && entries@[0].0@ == token_str(
                old(self).toks()[old(self).pos() + 1],
            ) && is_flat_pair_value(
                entries@[0].1,
                token_str(old(self).toks()[old(self).pos() + 4]),
                token_str(old(self).toks()[old(self).pos() + 6]),
            )),
            nested_empty_at(old(self).toks(), old(self).pos()) ==> (r matches Ok(
                JsonValue::Object(entries),
            ) && entries@.len() == 1 && entries@[0].0@ == token_str(
                old(self).toks()[old(self).pos() + 1],
            ) && (entries@[0].1 matches JsonValue::Object(inner) && inner@.len() == 0)),
            dup_pair_at(old(self).toks(), old(self).pos()) ==> (r matches Ok(
                JsonValue::Object(entries),
            ) && entries@.len() == 1 && entries@[0].0@ == token_str(
                old(self).toks()[old(self).pos() + 1],
            ) && (entries@[0].1 matches JsonValue::String(payload) && payload@ == token_str(
                old(self).toks()[old(self).pos() + 6],
            ))),
        decreases old(self).toks().len() - old(self).pos(), 0int,
    {
        let ghost entry = self.pos();
        let mut map: Vec<(String, JsonValue)> = Vec::new();
        self.expect(Token::CurlyOpen);
        let mut closed = false;
        while !closed && self.current < self.tokens.len()
            invariant
                self.toks() == old(self).toks(),
                entry == old(self).pos(),
                entry < self.pos() <= self.toks().len(),
                (entry + 1 < self.toks().len() && stray_key(self.toks()[entry + 1])) ==> (!closed
                    && self.pos() == entry + 1),
                (entry + 1 < self.toks().len() && self.toks()[entry + 1] is CurlyClose) ==> (
                map@.len() == 0 && ((closed && self.pos() == entry + 2) || (!closed && self.pos()
                    == entry + 1))),
                flat_pair_at(self.toks(), entry) ==> {
                    ||| (!closed && self.pos() == entry + 1 && map@.len() == 0)
                    ||| (!closed && self.pos() == entry + 4 && flat_pair_map(
                        map@,
                        self.toks(),
                        entry,
                    ))
                    ||| (closed && self.pos() == entry + 5 && flat_pair_map(
                        map@,
                        self.toks(),
                        entry,
                    ))
                },
                nested_pair_at(self.toks(), entry) ==> {
                    ||| (!closed && self.pos() == entry + 1 && map@.len() == 0)
                    ||| (!closed && self.pos() == entry + 9 && map@.len() == 1 && map@[0].0@
                        == token_str(self.toks()[entry + 1]) && is_flat_pair_value(
                        map@[0].1,
                        token_str(self.toks()[entry + 4]),
                        token_str(self.toks()[entry + 6]),
                    ))
                },
                nested_empty_at(self.toks(), entry) ==> {
                    ||| (!closed && self.pos() == entry + 1 && map@.len() == 0)
                    ||| (!closed && self.pos() == entry + 6 && map@.len() == 1 && map@[0].0@
                        == token_str(self.toks()[entry + 1]) && (map@[0].1 matches
                    JsonValue::Object(inner) && inner@.len() == 0))
                },
                dup_pair_at(self.toks(), entry) ==> {
                    ||| (!closed && self.pos() == entry + 1 && map@.len() == 0)
                    ||| (!closed && self.pos() == entry + 4 && flat_pair_map(
                        map@,
                        self.toks(),
                        entry,
                    ))
                    ||| (!closed && self.pos() == entry + 7 && map@.len() == 1 && map@[0].0@
                        == token_str(self.toks()[entry + 1]) && (map@[0].1 matches
                    JsonValue::String(payload) && payload@ == token_str(self.toks()[entry + 6])))
                    ||| (closed && self.pos() == entry + 8 && map@.len() == 1 && map@[0].0@
                        == token_str(self.toks()[entry + 1]) && (map@[0].1 matches
                    JsonValue::String(payload) && payload@ == token_str(self.toks()[entry + 6])))
                },
            decreases self.toks().len() - self.pos(),
        {
            let token = clone_token(&self.tokens[self.current]);
            match token {
                Token::CurlyClose => {
                    self.advance();
                    closed = true;
                },
                Token::String(key) => {
                    self.advance();
                    self.expect(Token::Colon);
                    match self.parse_value() {
                        Ok(value) => {
                            obj_insert(&mut map, key, value);
                        },
                        Err(e) => {
                            return Err(e);
                        },
                    }
                },
                _ => {
                    return Err(invalid_message());
                },
            }
        }
        self.expect(Token::CurlyClose);
        Ok(JsonValue::Object(map))
    }

    /// Parses one value: a string, a nested object, or an empty object at a
    /// stray closing brace.
    fn parse_value(&mut self) -> (r: Result<JsonValue, String>)
        requires
            old(self).pos() <= old(self).toks().len(),
        ensures
            final(self).toks() == old(self).toks(),
            old(self).pos() <= final(self).pos() <= final(self).toks().len(),
            r matches Ok(v) ==> final(self).pos() > old(self).pos(),
            (old(self).pos() < old(self).toks().len() && old(self).toks()[old(self).pos()]
                is String) ==> (r matches Ok(JsonValue::String(payload))
                && old(self).toks()[old(self).pos()]@ == TokenModel::Str(payload@)
                && final(self).pos() == old(self).pos() + 1),
            (old(self).pos() < old(self).toks().len() && old(self).toks()[old(self).pos()]
                is CurlyClose) ==> (r matches Ok(JsonValue::Object(entries)) && entries@.len() == 0
                && final(self).pos() == old(self).pos() + 1),
            !(old(self).pos() < old(self).toks().len() && (old(self).toks()[old(self).pos()]
                is String || old(self).toks()[old(self).pos()] is CurlyOpen
                || old(self).toks()[old(self).pos()] is CurlyClose)) ==> (r matches Err(e)
                && e@ == "no more tokens"@ && final(self).pos() == old(self).pos()),
            (old(self).pos() + 1 < old(self).toks().len() && old(self).toks()[old(self).pos()]
                is CurlyOpen && old(self).toks()[old(self).pos() + 1] is CurlyClose) ==> (r matches
                Ok(JsonValue::Object(entries)) && entries@.len() == 0 && final(self).pos() == old(
                self,
            ).pos() + 2 + (if old(self).pos() + 2 < old(self).toks().len() && old(self).toks()[old(
                self,
            ).pos() + 2] is CurlyClose {
                1int
            } else {
                0int
            })),
            flat_pair_at(old(self).toks(), old(self).pos()) ==> (r matches Ok(v)
                && is_flat_pair_value(
                v,
                token_str(old(self).toks()[old(self).pos() + 1]),
                token_str(old(self).toks()[old(self).pos() + 3]),
            ) && final(self).pos() == old(self).pos() + 5 + (if old(self).pos() + 5 < old(
                self,
            ).toks().len() && old(self).toks()[old(self).pos() + 5] is CurlyClose {
                1int
            } else {
                0int
            })),
        decreases old(self).toks().len() - old(self).pos(), 1int,
    {
        if self.current < self.tokens.len() {
            let token = clone_token(&self.tokens[self.current]);
            match token {
                Token::String(value) => {
                    self.advance();
                    Ok(JsonValue::String(value))
                },
                Token::CurlyOpen => self.parse_object(),
                Token::CurlyClose => {
                    self.advance();
                    Ok(JsonValue::Object(Vec::new()))
                },
                _ => Err(no_tokens_message()),
            }
        } else {
            Err(no_tokens_message())
        }
    }
}

fn token_eq(a: &Token, b: &Token) -> (r: bool)
    ensures
        r == tokens_match(*a, *b),
{
    match (a, b) {
        (Token::CurlyOpen, Token::CurlyOpen) => true,
        (Token::CurlyClose, Token::CurlyClose) => true,
        (Token::BracketOpen, Token::BracketOpen) => true,
        (Token::BracketClose, Token::BracketClose) => true,
        (Token::Colon, Token::Colon) => true,
        (Token::Comma, Token::Comma) => true,
        (Token::String(x), Token::String(y)) => x.eq(y),
        _ => false,
    }
}

/// Some entry of `entries` carries the key `k`.
pub open spec fn has_obj_key(entries: Seq<(String, JsonValue)>, k: Seq<char>) -> bool {
    exists|i: int| 0 <= i < entries.len() && (#[trigger] entries[i]).0@ == k
}

/// Binds `key` to `value`: replaces the first entry carrying an equal key if
/// one is there, appends otherwise.
fn obj_insert(map: &mut Vec<(String, JsonValue)>, key: String, value: JsonValue)
    ensures
        has_obj_key(old(map)@, key@) ==> exists|i: int|
            {
                &&& 0 <= i < old(map)@.len()
                &&& (#[trigger] old(map)@[i]).0@ == key@
                &&& (forall|j: int| 0 <= j < i ==> (#[trigger] old(map)@[j]).0@ != key@)
                &&& final(map)@ == old(map)@.update(i, (key, value))
            },
        !has_obj_key(old(map)@, key@) ==> final(map)@ == old(map)@.push((key, value)),
{
    let n = map.len();
    let mut i: usize = 0;
    let mut at: Option<usize> = None;
    while i < n
        invariant
            0 <= i <= n,
            n == map@.len(),
            map@ == old(map)@,
            at is None ==> forall|j: int| 0 <= j < i ==> (#[trigger] map@[j]).0@ != key@,
            at matches Some(j) ==> 0 <= j < n && map@[j as int].0@ == key@ && (forall|jj: int|
                0 <= jj < j ==> (#[trigger] map@[jj]).0@ != key@),
        decreases n - i,
    {
        let hit = {
            let e = &map[i];
            e.0 == key
        };
        if hit && matches!(at, None) {
            at = Some(i);
        }
        i = i + 1;
    }
    match at {
        Some(j) => {
            map.set(j, (key, value));
        },
        None => {
            map.push((key, value));
        },
    }
}

fn junk_start_message() -> (r: String)
    ensures
        r@ == "JSON must begin with an object or array"@,
{
    let mut s = String::new();
    s.append("JSON must begin with an object or array");
    s
}

fn invalid_message() -> (r: String)
    ensures
        r@ == "Invalid JSON!"@,
{
    let mut s = String::new();
    s.append("Invalid JSON!");
    s
}

fn no_tokens_message() -> (r: String)
    ensures
        r@ == "no more tokens"@,
{
    let mut s = String::new();
    s.append("no more tokens");
    s
}

} // verus!
