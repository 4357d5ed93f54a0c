use vstd::prelude::*;
use vstd::string::*;
use crate::text::{chars_of, string_of};

verus! {

/// A token of the source text.
#[derive(Debug)]
pub enum Token {
    Open,
    Close,
    Quoted(String),
    Ident(String),
}

/// The mathematical value of a `Token`.
pub ghost enum TokenView {
    Open,
    Close,
    Quoted(Seq<char>),
    Ident(Seq<char>),
}

impl View for Token {
    type V = TokenView;

    open spec fn view(&self) -> TokenView {
        match self {
            Token::Open => TokenView::Open,
            Token::Close => TokenView::Close,
            Token::Quoted(text) => TokenView::Quoted(text@),
            Token::Ident(name) => TokenView::Ident(name@),
        }
    }
}

/// The values of a list of tokens, in order.
pub open spec fn tokens_view(tokens: Seq<Token>) -> Seq<TokenView> {
    Seq::new(tokens.len(), |i: int| tokens[i]@)
}

/// Characters that separate tokens and are never kept: space, tab, line feed and
/// carriage return.
pub open spec fn is_space(c: char) -> bool {
    c == ' ' || c == '\t' || c == '\n' || c == '\r'
}

/// Characters that end a bare identifier: white space and the two parentheses.
pub open spec fn is_delimiter(c: char) -> bool {
    is_space(c) || c == '(' || c == ')'
}

/// The number of leading characters of `s` that are not delimiters.
pub open spec fn ident_len(s: Seq<char>) -> nat
    decreases s.len(),
{
    if s.len() == 0 || is_delimiter(s[0]) {
        0
    } else {
        1 + ident_len(s.skip(1))
    }
}

/// The number of leading characters of `s` that are not a double quote.
pub open spec fn literal_len(s: Seq<char>) -> nat
    decreases s.len(),
{
    if s.len() == 0 || s[0] == '"' {
        0
    } else {
        1 + literal_len(s.skip(1))
    }
}

/// `head` put in front of a list that may have failed.
pub open spec fn prepend<T>(head: T, rest: Option<Seq<T>>) -> Option<Seq<T>> {
    match rest {
        Some(r) => Some(seq![head] + r),
        None => None,
    }
}

/// `front` put in front of a list that may have failed.
pub open spec fn extend<T>(front: Seq<T>, rest: Option<Seq<T>>) -> Option<Seq<T>> {
    match rest {
        Some(r) => Some(front + r),
        None => None,
    }
}

pub proof fn lemma_ident_len_bound(s: Seq<char>)
    ensures
        ident_len(s) <= s.len(),
    decreases s.len(),
{
    if s.len() > 0 && !is_delimiter(s[0]) {
        lemma_ident_len_bound(s.skip(1));
    }
}

pub proof fn lemma_literal_len_bound(s: Seq<char>)
    ensures
        literal_len(s) <= s.len(),
    decreases s.len(),
{
    if s.len() > 0 && s[0] != '"' {
        lemma_literal_len_bound(s.skip(1));
    }
}

/// The tokens of a source text, or `None` where a quoted literal is not closed.
///
/// White space between tokens is dropped. `(` and `)` are tokens of their own. A
/// double quote opens a literal that runs to the next double quote; there is no
/// escape for a quote inside it. Anything else starts a bare identifier, which
/// runs up to the next delimiter or the end of the text.
pub open spec fn lex(s: Seq<char>) -> Option<Seq<TokenView>>
    decreases s.len(),
    via lex_decreases
{
    if s.len() == 0 {
        Some(Seq::empty())
    } else if is_space(s[0]) {
        lex(s.skip(1))
    } else if s[0] == '(' {
        prepend(TokenView::Open, lex(s.skip(1)))
    } else if s[0] == ')' {
        prepend(TokenView::Close, lex(s.skip(1)))
    } else if s[0] == '"' {
        let n = literal_len(s.skip(1)) as int;
        if 1 + n >= s.len() {
            None
        } else {
            prepend(TokenView::Quoted(s.subrange(1, 1 + n)), lex(s.skip(n + 2)))
        }
    } else {
        let n = ident_len(s) as int;
        prepend(TokenView::Ident(s.take(n)), lex(s.skip(n)))
    }
}

#[via_fn]
proof fn lex_decreases(s: Seq<char>) {
    if s.len() > 0 {
        lemma_ident_len_bound(s);
        lemma_literal_len_bound(s.skip(1));
    }
}

/// Executable test for a separating character.
pub fn is_space_char(c: char) -> (r: bool)
    ensures
        r == is_space(c),
{
    c == ' ' || c == '\t' || c == '\n' || c == '\r'
}

/// Executable test for a character that ends an identifier.
pub fn is_delimiter_char(c: char) -> (r: bool)
    ensures
        r == is_delimiter(c),
{
    is_space_char(c) || c == '(' || c == ')'
}

/// The position at which the identifier that starts at `from` ends.
fn scan_ident(src: &Vec<char>, from: usize, len: usize) -> (end: usize)
    requires
        len == src@.len(),
        from <= len,
    ensures
        from <= end <= len,
        end - from == ident_len(src@.skip(from as int)),
{
    let mut j: usize = from;
    while j < len && !is_delimiter_char(src[j])
        invariant
            len == src@.len(),
            from <= j <= len,
            ident_len(src@.skip(from as int)) == (j - from) + ident_len(src@.skip(j as int)),
        decreases len - j,
    {
        assert(src@.skip(j as int).skip(1) =~= src@.skip(j + 1));
        j += 1;
    }
    j
}

/// The position of the double quote that closes the literal whose text starts at
/// `from`, or the length of the text where there is none.
fn scan_literal(src: &Vec<char>, from: usize, len: usize) -> (end: usize)
    requires
        len == src@.len(),
        from <= len,
    ensures
        from <= end <= len,
        end - from == literal_len(src@.skip(from as int)),
{
    let mut j: usize = from;
    while j < len && src[j] != '"'
        invariant
            len == src@.len(),
            from <= j <= len,
            literal_len(src@.skip(from as int)) == (j - from) + literal_len(src@.skip(j as int)),
        decreases len - j,
    {
        assert(src@.skip(j as int).skip(1) =~= src@.skip(j + 1));
        j += 1;
    }
    j
}

/// Cuts a source text into its tokens.
pub fn tokenize(source: &str) -> (r: Option<Vec<Token>>)
    ensures
        match lex(source@) {
            Some(tokens) => r is Some && tokens_view(r.unwrap()@) == tokens,
            None => r is None,
        },
{
    let src = chars_of(source);
    let len = src.len();
    let mut out: Vec<Token> = Vec::new();
    let mut i: usize = 0;
    assert(tokens_view(out@) + lex(src@).unwrap_or(Seq::empty()) =~= lex(src@).unwrap_or(Seq::empty()));
    assert(src@.skip(0) =~= src@);
    while i < len
        invariant
            src@ == source@,
            len == src@.len(),
            i <= len,
            lex(src@) == extend(tokens_view(out@), lex(src@.skip(i as int))),
        decreases len - i,
    {
        let c = src[i];
        let ghost rest = src@.skip(i as int);
        let ghost before = tokens_view(out@);
        assert(rest.skip(1) =~= src@.skip(i + 1));
        if is_space_char(c) {
            i += 1;
        } else if c == '(' {
            out.push(Token::Open);
            i += 1;
            proof {
                lemma_extend_step(before, TokenView::Open, lex(src@.skip(i as int)));
                assert(tokens_view(out@) =~= before.push(TokenView::Open));
            }
        } else if c == ')' {
            out.push(Token::Close);
            i += 1;
            proof {
                lemma_extend_step(before, TokenView::Close, lex(src@.skip(i as int)));
                assert(tokens_view(out@) =~= before.push(TokenView::Close));
            }
        } else if c == '"' {
            let end = scan_literal(&src, i + 1, len);
            if end >= len {
                return None;
            }
            let text = string_of(&src, i + 1, end);
            proof {
                assert(rest.subrange(1, 1 + (end - i - 1)) =~= src@.subrange(i + 1, end as int));
                assert(rest.skip((end - i - 1) + 2) =~= src@.skip(end + 1));
                lemma_extend_step(before, TokenView::Quoted(text@), lex(src@.skip(end + 1)));
            }
            out.push(Token::Quoted(text));
            i = end + 1;
            assert(tokens_view(out@) =~= before.push(TokenView::Quoted(text@)));
        } else {
            let end = scan_ident(&src, i, len);
            let name = string_of(&src, i, end);
            proof {
                assert(rest.take(end - i) =~= src@.subrange(i as int, end as int));
                assert(rest.skip(end - i) =~= src@.skip(end as int));
                lemma_extend_step(before, TokenView::Ident(name@), lex(src@.skip(end as int)));
            }
            out.push(Token::Ident(name));
            i = end;
            assert(tokens_view(out@) =~= before.push(TokenView::Ident(name@)));
        }
    }
    assert(src@.skip(i as int) =~= Seq::<char>::empty());
    assert(tokens_view(out@) + Seq::<TokenView>::empty() =~= tokens_view(out@));
    Some(out)
}

/// Moving the head of what is still to come to the end of what has been read
/// changes nothing.
pub proof fn lemma_extend_step<T>(front: Seq<T>, head: T, rest: Option<Seq<T>>)
    ensures
        extend(front, prepend(head, rest)) == extend(front.push(head), rest),
{
    if let Some(r) = rest {
        assert(front + (seq![head] + r) =~= front.push(head) + r);
    }
}

/// Every character of `s` is white space.
pub open spec fn all_spaces(s: Seq<char>) -> bool {
    forall|i: int| 0 <= i < s.len() ==> is_space(#[trigger] s[i])
}

/// A token that a source text can stand for: a literal holds no double quote; an
/// identifier is not empty, holds no delimiter and does not start with a double
/// quote.
pub open spec fn token_ok(token: TokenView) -> bool {
    match token {
        TokenView::Quoted(text) => forall|i: int| 0 <= i < text.len() ==> #[trigger] text[i] != '"',
        TokenView::Ident(name) => {
            &&& name.len() > 0
            &&& name[0] != '"'
            &&& forall|i: int| 0 <= i < name.len() ==> !is_delimiter(#[trigger] name[i])
        },
        _ => true,
    }
}

/// The characters that stand for a token in a source text.
pub open spec fn token_source(token: TokenView) -> Seq<char> {
    match token {
        TokenView::Open => seq!['('],
        TokenView::Close => seq![')'],
        TokenView::Quoted(text) => seq!['"'] + text + seq!['"'],
        TokenView::Ident(name) => name,
    }
}

/// The source text made of `tokens` with `gaps[i]` in front of token `i` and the
/// last gap behind the last token.
pub open spec fn spaced(tokens: Seq<TokenView>, gaps: Seq<Seq<char>>) -> Seq<char>
    decreases tokens.len(),
{
    if tokens.len() == 0 {
        gaps[0]
    } else {
        gaps[0] + token_source(tokens[0]) + spaced(tokens.skip(1), gaps.skip(1))
    }
}

/// The gaps fit the tokens: there is one in front of each token and one behind
/// the last, each is white space only, and the gap behind an identifier is not
/// empty where an identifier or a literal follows (without it the two would be
/// one identifier).
pub open spec fn gaps_fit(tokens: Seq<TokenView>, gaps: Seq<Seq<char>>) -> bool {
    &&& gaps.len() == tokens.len() + 1
    &&& forall|i: int| 0 <= i < gaps.len() ==> all_spaces(#[trigger] gaps[i])
    &&& forall|i: int|
        0 <= i && i + 1 < tokens.len() && tokens[i] is Ident && !(tokens[i + 1] is Open) && !(tokens[i
            + 1] is Close) ==> (#[trigger] gaps[i + 1]).len() > 0
}

/// White space in front of a text does not change its tokens.
pub proof fn lemma_lex_skips_spaces(spaces: Seq<char>, rest: Seq<char>)
    requires
        all_spaces(spaces),
    ensures
        lex(spaces + rest) == lex(rest),
    decreases spaces.len(),
{
    if spaces.len() == 0 {
        assert(spaces + rest =~= rest);
    } else {
        assert(is_space(spaces[0]));
        assert((spaces + rest)[0] == spaces[0]);
        assert((spaces + rest).skip(1) =~= spaces.skip(1) + rest);
        assert forall|i: int| 0 <= i < spaces.skip(1).len() implies is_space(
            #[trigger] spaces.skip(1)[i],
        ) by {
            assert(spaces.skip(1)[i] == spaces[i + 1]);
        }
        lemma_lex_skips_spaces(spaces.skip(1), rest);
    }
}

/// A text of white space only has no tokens.
pub proof fn lemma_lex_of_spaces(spaces: Seq<char>)
    requires
        all_spaces(spaces),
    ensures
        lex(spaces) == Some(Seq::<TokenView>::empty()),
{
    lemma_lex_skips_spaces(spaces, Seq::empty());
    assert(spaces + Seq::<char>::empty() =~= spaces);
}

proof fn lemma_ident_len_of_name(name: Seq<char>, rest: Seq<char>)
    requires
        forall|i: int| 0 <= i < name.len() ==> !is_delimiter(#[trigger] name[i]),
        rest.len() == 0 || is_delimiter(rest[0]),
    ensures
        ident_len(name + rest) == name.len(),
    decreases name.len(),
{
    if name.len() == 0 {
        assert(name + rest =~= rest);
    } else {
        assert((name + rest)[0] == name[0]);
        assert((name + rest).skip(1) =~= name.skip(1) + rest);
        assert forall|i: int| 0 <= i < name.skip(1).len() implies !is_delimiter(
            #[trigger] name.skip(1)[i],
        ) by {
            assert(name.skip(1)[i] == name[i + 1]);
        }
        lemma_ident_len_of_name(name.skip(1), rest);
    }
}

proof fn lemma_literal_len_of_text(text: Seq<char>, rest: Seq<char>)
    requires
        forall|i: int| 0 <= i < text.len() ==> #[trigger] text[i] != '"',
    ensures
        literal_len(text + seq!['"'] + rest) == text.len(),
    decreases text.len(),
{
    let whole = text + seq!['"'] + rest;
    if text.len() == 0 {
        assert(whole[0] == '"');
    } else {
        assert(whole[0] == text[0]);
        assert(whole.skip(1) =~= text.skip(1) + seq!['"'] + rest);
        assert forall|i: int| 0 <= i < text.skip(1).len() implies #[trigger] text.skip(1)[i]
            != '"' by {
            assert(text.skip(1)[i] == text[i + 1]);
        }
        lemma_literal_len_of_text(text.skip(1), rest);
    }
}

/// The characters of one token, followed by a text that does not run into it,
/// give that token and then the tokens of the text.
pub proof fn lemma_lex_one_token(token: TokenView, rest: Seq<char>)
    requires
        token_ok(token),
        token is Ident ==> rest.len() == 0 || is_delimiter(rest[0]),
    ensures
        lex(token_source(token) + rest) == prepend(token, lex(rest)),
{
    let s = token_source(token) + rest;
    match token {
        TokenView::Open => {
            assert(s[0] == '(');
            assert(s.skip(1) =~= rest);
        },
        TokenView::Close => {
            assert(s[0] == ')');
            assert(s.skip(1) =~= rest);
        },
        TokenView::Quoted(text) => {
            assert(s[0] == '"');
            assert(s.skip(1) =~= text + seq!['"'] + rest);
            lemma_literal_len_of_text(text, rest);
            assert(s.subrange(1, 1 + text.len() as int) =~= text);
            assert(s.skip(text.len() as int + 2) =~= rest);
        },
        TokenView::Ident(name) => {
            assert(s[0] == name[0]);
            assert(!is_delimiter(name[0]));
            lemma_ident_len_of_name(name, rest);
            assert(s.take(name.len() as int) =~= name);
            assert(s.skip(name.len() as int) =~= rest);
        },
    }
}

/// White space between tokens is insignificant: a text made of well-formed
/// tokens with any fitting white space between them has exactly those tokens.
pub proof fn lemma_lex_of_spaced(tokens: Seq<TokenView>, gaps: Seq<Seq<char>>)
    requires
        forall|i: int| 0 <= i < tokens.len() ==> token_ok(#[trigger] tokens[i]),
        gaps_fit(tokens, gaps),
    ensures
        lex(spaced(tokens, gaps)) == Some(tokens),
    decreases tokens.len(),
{
    if tokens.len() == 0 {
        lemma_lex_of_spaces(gaps[0]);
        assert(tokens =~= Seq::<TokenView>::empty());
    } else {
        let later = tokens.skip(1);
        let later_gaps = gaps.skip(1);
        let rest = spaced(later, later_gaps);
        assert forall|i: int| 0 <= i < later.len() implies token_ok(#[trigger] later[i]) by {
            assert(later[i] == tokens[i + 1]);
        }
        assert(gaps_fit(later, later_gaps)) by {
            assert forall|i: int| 0 <= i < later_gaps.len() implies all_spaces(
                #[trigger] later_gaps[i],
            ) by {
                assert(later_gaps[i] == gaps[i + 1]);
            }
            assert forall|i: int|
                0 <= i && i + 1 < later.len() && later[i] is Ident && !(later[i + 1] is Open) && !(
                later[i + 1] is Close) implies (#[trigger] later_gaps[i + 1]).len() > 0 by {
                assert(later[i] == tokens[i + 1]);
                assert(later[i + 1] == tokens[i + 2]);
                assert(later_gaps[i + 1] == gaps[(i + 1) + 1]);
            }
        }
        lemma_lex_of_spaced(later, later_gaps);
        if tokens[0] is Ident && rest.len() > 0 {
            assert(all_spaces(later_gaps[0]));
            assert(later_gaps[0] == gaps[0int + 1]);
            if later.len() == 0 {
                assert(is_space(rest[0]));
            } else if later_gaps[0].len() > 0 {
                assert(rest[0] == later_gaps[0][0]);
            } else {
                assert(later[0] == tokens[0int + 1]);
                assert(tokens[0int + 1] is Open || tokens[0int + 1] is Close);
                assert(rest[0] == token_source(later[0])[0]);
            }
        }
        lemma_lex_one_token(tokens[0], rest);
        assert(all_spaces(gaps[0]));
        lemma_lex_skips_spaces(gaps[0], token_source(tokens[0]) + rest);
        assert(spaced(tokens, gaps) =~= gaps[0] + (token_source(tokens[0]) + rest));
        assert(seq![tokens[0]] + later =~= tokens);
    }
}

proof fn lemma_ident_len_chars(s: Seq<char>, i: int)
    requires
        0 <= i < ident_len(s),
    ensures
        i < s.len(),
        !is_delimiter(s[i]),
    decreases s.len(),
{
    if i > 0 {
        lemma_ident_len_chars(s.skip(1), i - 1);
    }
}

proof fn lemma_literal_len_chars(s: Seq<char>, i: int)
    requires
        0 <= i < literal_len(s),
    ensures
        i < s.len(),
        s[i] != '"',
    decreases s.len(),
{
    if i > 0 {
        lemma_literal_len_chars(s.skip(1), i - 1);
    }
}

/// Every token that a source text gives is well formed: a literal holds no
/// double quote, and an identifier is not empty and holds no delimiter.
pub proof fn lemma_lex_gives_ok_tokens(s: Seq<char>)
    ensures
        lex(s) is Some ==> forall|i: int|
            0 <= i < lex(s).unwrap().len() ==> token_ok(#[trigger] lex(s).unwrap()[i]),
    decreases s.len(),
{
    if s.len() > 0 && lex(s) is Some {
        lemma_ident_len_bound(s);
        lemma_literal_len_bound(s.skip(1));
        if is_space(s[0]) {
            lemma_lex_gives_ok_tokens(s.skip(1));
        } else if s[0] == '(' || s[0] == ')' {
            lemma_lex_gives_ok_tokens(s.skip(1));
        } else if s[0] == '"' {
            let n = literal_len(s.skip(1)) as int;
            let text = s.subrange(1, 1 + n);
            lemma_lex_gives_ok_tokens(s.skip(n + 2));
            assert forall|k: int| 0 <= k < text.len() implies #[trigger] text[k] != '"' by {
                lemma_literal_len_chars(s.skip(1), k);
                assert(text[k] == s.skip(1)[k]);
            }
            assert(token_ok(TokenView::Quoted(text)));
        } else {
            let n = ident_len(s) as int;
            let name = s.take(n);
            lemma_lex_gives_ok_tokens(s.skip(n));
            assert forall|k: int| 0 <= k < name.len() implies !is_delimiter(#[trigger] name[k]) by {
                lemma_ident_len_chars(s, k);
            }
            assert(token_ok(TokenView::Ident(name)));
        }
    }
}

} // verus!
