//! Tokens: the words of the input, each under the name of its kind.

use crate::text::{owned_texts, slices, split_spaces, split_words, texts};
use vstd::prelude::*;

verus! {

/// A token as the parser sees it: the name of its kind and the word.
pub struct TokenView {
    /// The name of the kind of token.
    pub name: Seq<char>,
    /// The word that was read.
    pub value: Seq<char>,
}

/// A word of the input under the name of its kind.
#[derive(Debug)]
pub struct Token {
    /// The name of the kind of token, in capitals by convention.
    pub name: String,
    /// The word that was read.
    pub value: String,
}

impl View for Token {
    type V = TokenView;

    open spec fn view(&self) -> TokenView {
        TokenView { name: self.name@, value: self.value@ }
    }
}

impl Clone for Token {
    fn clone(&self) -> (r: Self)
        ensures
            r@ == self@,
    {
        Token { name: self.name.clone(), value: self.value.clone() }
    }
}

/// The tokens of a list, in order.
pub open spec fn tokens_of(tokens: Seq<Token>) -> Seq<TokenView> {
    tokens.map_values(|t: Token| t@)
}

/// How a definition tells its words: as a list, or by a pattern.
pub enum MatcherView {
    /// The words themselves.
    Words(Seq<Seq<char>>),
    /// A regular expression.
    Pattern(Seq<char>),
}

/// A kind of token: the view of `TokenDefinition`.
pub struct DefinitionView {
    /// The name of the kind.
    pub name: Seq<char>,
    /// How its words are told.
    pub matcher: MatcherView,
}

/// How a definition tells its words.
enum Matcher {
    /// The words themselves.
    Words(Vec<String>),
    /// The source of a regular expression.
    Pattern(String),
}

/// A kind of token: its name, and the words of that kind, given as a list
/// or by a regular expression. The word `*` in the list makes the kind the
/// wildcard, which takes the words that no kind takes.
pub struct TokenDefinition {
    name: String,
    matcher: Matcher,
}

impl View for TokenDefinition {
    type V = DefinitionView;

    closed spec fn view(&self) -> DefinitionView {
        DefinitionView {
            name: self.name@,
            matcher: match self.matcher {
                Matcher::Words(words) => MatcherView::Words(texts(words@)),
                Matcher::Pattern(pattern) => MatcherView::Pattern(pattern@),
            },
        }
    }
}

/// What the regular expression `pattern` says of `word`: whether it
/// matches somewhere in it, or nothing where `pattern` is no regular
/// expression.
pub uninterp spec fn regex_match(pattern: Seq<char>, word: Seq<char>) -> Option<bool>;

/// Compiles `pattern` with `regex::Regex::new` and asks `Regex::is_match`
/// for `word`.
///
/// Trusted: the result is named, not described. It is `None` where the
/// pattern does not compile, and else what `is_match` returns, which the
/// pattern and the word alone decide.
#[verifier::external_body]
fn pattern_matches(pattern: &str, word: &str) -> (r: Option<bool>)
    ensures
        r == regex_match(pattern@, word@),
{
    match regex::Regex::new(pattern) {
        Ok(compiled) => Some(compiled.is_match(word)),
        Err(_) => None,
    }
}

impl TokenDefinition {
    /// The kind `name` with the words `words`.
    pub fn new(name: &str, words: Vec<&str>) -> (r: Self)
        ensures
            r@ == (DefinitionView { name: name@, matcher: MatcherView::Words(slices(words@)) }),
    {
        TokenDefinition { name: name.to_owned(), matcher: Matcher::Words(owned_texts(&words)) }
    }

    /// The kind `name` with the words that the regular expression
    /// `pattern` matches.
    pub fn new_with_regex(name: &str, pattern: &str) -> (r: Self)
        ensures
            r@ == (DefinitionView { name: name@, matcher: MatcherView::Pattern(pattern@) }),
    {
        TokenDefinition { name: name.to_owned(), matcher: Matcher::Pattern(pattern.to_owned()) }
    }
}

/// Whether `word` is of the kind: it is in the list, or the pattern
/// matches it. A pattern that is no regular expression matches nothing.
pub open spec fn accepts(definition: DefinitionView, word: Seq<char>) -> bool {
    match definition.matcher {
        MatcherView::Words(words) => words.contains(word),
        MatcherView::Pattern(pattern) => regex_match(pattern, word) == Some(true),
    }
}

/// For each kind, whether `word` is of it.
pub open spec fn hits_of(definitions: Seq<DefinitionView>, word: Seq<char>) -> Seq<bool> {
    Seq::new(definitions.len(), |i: int| accepts(definitions[i], word))
}

/// How often `*` stands among the first `n` words.
pub open spec fn stars_in(words: Seq<Seq<char>>, n: int) -> nat
    decreases n,
{
    if n <= 0 {
        0
    } else {
        stars_in(words, n - 1) + if words[n - 1] == "*"@ {
            1nat
        } else {
            0nat
        }
    }
}

/// How often `*` stands in the word list of a kind.
pub open spec fn stars_of(definition: DefinitionView) -> nat {
    match definition.matcher {
        MatcherView::Words(words) => stars_in(words, words.len() as int),
        MatcherView::Pattern(_) => 0,
    }
}

/// How often `*` stands in the word lists of the first `n` kinds.
pub open spec fn stars(definitions: Seq<DefinitionView>, n: int) -> nat
    decreases n,
{
    if n <= 0 {
        0
    } else {
        stars(definitions, n - 1) + stars_of(definitions[n - 1])
    }
}

/// The kinds that have `*` among their words, among the first `n`: the
/// name of the first of them.
pub open spec fn wildcard_in(definitions: Seq<DefinitionView>, n: int) -> Option<Seq<char>>
    decreases n,
{
    if n <= 0 {
        None
    } else {
        match wildcard_in(definitions, n - 1) {
            Some(name) => Some(name),
            None => if stars_of(definitions[n - 1]) > 0 {
                Some(definitions[n - 1].name)
            } else {
                None
            },
        }
    }
}

/// The name of the wildcard kind, if there is one.
pub open spec fn wildcard_of(definitions: Seq<DefinitionView>) -> Option<Seq<char>> {
    wildcard_in(definitions, definitions.len() as int)
}

/// A token for `word` under each of the first `n` kinds that `hits`
/// marks, in the order of the kinds.
pub open spec fn picked(
    definitions: Seq<DefinitionView>,
    hits: Seq<bool>,
    word: Seq<char>,
    n: int,
) -> Seq<TokenView>
    decreases n,
{
    if n <= 0 {
        Seq::empty()
    } else if hits[n - 1] {
        picked(definitions, hits, word, n - 1).push(
            TokenView { name: definitions[n - 1].name, value: word },
        )
    } else {
        picked(definitions, hits, word, n - 1)
    }
}

/// The tokens of one word: one for each kind that `hits` marks; where it
/// marks none, one of the wildcard kind; without a wildcard, none.
pub open spec fn word_tokens(
    definitions: Seq<DefinitionView>,
    hits: Seq<bool>,
    word: Seq<char>,
) -> Option<Seq<TokenView>> {
    let own = picked(definitions, hits, word, definitions.len() as int);
    if own.len() > 0 {
        Some(own)
    } else {
        match wildcard_of(definitions) {
            Some(name) => Some(seq![TokenView { name, value: word }]),
            None => None,
        }
    }
}

/// The tokens of the first `n` words, or nothing where one of them has
/// no token.
pub open spec fn words_tokens(
    definitions: Seq<DefinitionView>,
    words: Seq<Seq<char>>,
    n: int,
) -> Option<Seq<TokenView>>
    decreases n,
{
    if n <= 0 {
        Some(Seq::empty())
    } else {
        match (
            words_tokens(definitions, words, n - 1),
            word_tokens(definitions, hits_of(definitions, words[n - 1]), words[n - 1]),
        ) {
            (Some(before), Some(here)) => Some(before + here),
            _ => None,
        }
    }
}

/// The tokens of a text: those of its words between spaces, in order;
/// nothing for the empty text and where a word has no token.
pub open spec fn tokenized(definitions: Seq<DefinitionView>, text: Seq<char>) -> Option<
    Seq<TokenView>,
> {
    if text.len() == 0 {
        None
    } else {
        words_tokens(definitions, split_spaces(text), split_spaces(text).len() as int)
    }
}

/// The kinds of a list, in order.
pub open spec fn definitions_of(definitions: Seq<TokenDefinition>) -> Seq<DefinitionView> {
    definitions.map_values(|d: TokenDefinition| d@)
}

/// Turns a text into tokens by the kinds it was given.
pub struct Tokenizer {
    token_definitions: Vec<TokenDefinition>,
}

impl View for Tokenizer {
    type V = Seq<DefinitionView>;

    closed spec fn view(&self) -> Seq<DefinitionView> {
        definitions_of(self.token_definitions@)
    }
}

/// How often `*` stands in the list, counted up to two.
fn count_stars(words: &Vec<String>, seen: usize) -> (r: usize)
    requires
        seen <= 2,
    ensures
        r <= 2,
        r == if seen + stars_in(texts(words@), words@.len() as int) >= 2 {
            2
        } else {
            seen + stars_in(texts(words@), words@.len() as int)
        },
{
    let star = "*".to_owned();
    let mut count = seen;
    let mut i: usize = 0;
    while i < words.len()
        invariant
            i <= words@.len(),
            star@ == "*"@,
            count <= 2,
            count == if seen + stars_in(texts(words@), i as int) >= 2 {
                2
            } else {
                seen + stars_in(texts(words@), i as int)
            },
        decreases words@.len() - i,
    {
        assert(texts(words@)[i as int] == words@[i as int]@);
        if words[i] == star && count < 2 {
            count += 1;
        }
        i += 1;
    }
    count
}

impl Tokenizer {
    /// A tokenizer for the kinds `token_definitions`, or nothing where `*`
    /// stands more than once in their word lists: there is at most one
    /// wildcard.
    pub fn new(token_definitions: Vec<TokenDefinition>) -> (r: Option<Self>)
        ensures
            match r {
                Some(tokenizer) => tokenizer@ == definitions_of(token_definitions@) && stars(
                    tokenizer@,
                    tokenizer@.len() as int,
                ) <= 1,
                None => stars(
                    definitions_of(token_definitions@),
                    token_definitions@.len() as int,
                ) > 1,
            },
    {
        let ghost all = definitions_of(token_definitions@);
        let mut count: usize = 0;
        let mut i: usize = 0;
        while i < token_definitions.len()
            invariant
                i <= token_definitions@.len(),
                all == definitions_of(token_definitions@),
                count <= 2,
                count == if stars(all, i as int) >= 2 {
                    2
                } else {
                    stars(all, i as int)
                },
            decreases token_definitions@.len() - i,
        {
            assert(all[i as int] == token_definitions@[i as int]@);
            match &token_definitions[i].matcher {
                Matcher::Words(words) => {
                    count = count_stars(words, count);
                },
                Matcher::Pattern(_) => {},
            }
            i += 1;
        }
        if count > 1 {
            None
        } else {
            Some(Tokenizer { token_definitions: token_definitions })
        }
    }

    /// Whether `word` is of the kind `token_definition`.
    fn is_word_match(&self, word: &str, token_definition: &TokenDefinition) -> (r: bool)
        ensures
            r == accepts(token_definition@, word@),
    {
        match &token_definition.matcher {
            Matcher::Pattern(pattern) => match pattern_matches(pattern.as_str(), word) {
                Some(found) => found,
                None => false,
            },
            Matcher::Words(words) => {
                let wanted = word.to_owned();
                let mut i: usize = 0;
                while i < words.len()
                    invariant
                        i <= words@.len(),
                        wanted@ == word@,
                        token_definition@.matcher == MatcherView::Words(texts(words@)),
                        forall|k: int| 0 <= k < i ==> #[trigger] texts(words@)[k] != word@,
                    decreases words@.len() - i,
                {
                    assert(texts(words@)[i as int] == words@[i as int]@);
                    if words[i] == wanted {
                        return true;
                    }
                    i += 1;
                }
                false
            },
        }
    }

    /// The name of the wildcard kind: the first kind with `*` among its
    /// words.
    fn get_wildcard_token_definition(&self) -> (r: Option<&TokenDefinition>)
        ensures
            match r {
                Some(definition) => wildcard_of(self@) == Some(definition@.name),
                None => wildcard_of(self@) is None,
            },
    {
        let mut i: usize = 0;
        while i < self.token_definitions.len()
            invariant
                i <= self.token_definitions@.len(),
                wildcard_in(self@, i as int) is None,
            decreases self.token_definitions@.len() - i,
        {
            let definition = &self.token_definitions[i];
            assert(self@[i as int] == definition@);
            let found = match &definition.matcher {
                Matcher::Words(words) => count_stars(words, 0),
                Matcher::Pattern(_) => 0,
            };
            if found > 0 {
                proof {
                    lemma_wildcard_stays(self@, i + 1, self@.len() as int);
                }
                return Some(definition);
            }
            i += 1;
        }
        None
    }

    /// For each kind, whether `word` is of it.
    pub fn hits(&self, word: &str) -> (r: Vec<bool>)
        ensures
            r@ == hits_of(self@, word@),
    {
        let mut out: Vec<bool> = Vec::new();
        let mut i: usize = 0;
        while i < self.token_definitions.len()
            invariant
                i <= self.token_definitions@.len(),
                out@.len() == i,
                forall|k: int| 0 <= k < i ==> #[trigger] out@[k] == accepts(self@[k], word@),
            decreases self.token_definitions@.len() - i,
        {
            assert(self@[i as int] == self.token_definitions@[i as int]@);
            out.push(self.is_word_match(word, &self.token_definitions[i]));
            i += 1;
        }
        assert(out@ =~= hits_of(self@, word@));
        out
    }

    /// The tokens of `word`, where `hits` tells for each kind whether the
    /// word is of it: one token for each such kind, in their order; where
    /// there is none, one of the wildcard kind; without a wildcard,
    /// nothing.
    pub fn tokens_for(&self, word: &str, hits: &Vec<bool>) -> (r: Option<Vec<Token>>)
        requires
            hits@.len() == self@.len(),
        ensures
            match r {
                Some(tokens) => word_tokens(self@, hits@, word@) == Some(tokens_of(tokens@)),
                None => word_tokens(self@, hits@, word@) is None,
            },
    {
        let mut tokens: Vec<Token> = Vec::new();
        let mut i: usize = 0;
        assert(tokens_of(tokens@) =~= picked(self@, hits@, word@, 0));
        while i < self.token_definitions.len()
            invariant
                i <= self.token_definitions@.len(),
                hits@.len() == self@.len(),
                tokens_of(tokens@) == picked(self@, hits@, word@, i as int),
            decreases self.token_definitions@.len() - i,
        {
            assert(self@[i as int] == self.token_definitions@[i as int]@);
            if hits[i] {
                let ghost before = tokens_of(tokens@);
                tokens.push(
                    Token { name: self.token_definitions[i].name.clone(), value: word.to_owned() },
                );
                assert(tokens_of(tokens@) =~= before.push(
                    TokenView { name: self@[i as int].name, value: word@ },
                ));
            }
            i += 1;
        }
        if tokens.len() > 0 {
            return Some(tokens);
        }
        match self.get_wildcard_token_definition() {
            Some(definition) => {
                tokens.push(Token { name: definition.name.clone(), value: word.to_owned() });
                assert(tokens_of(tokens@) =~= seq![
                    TokenView { name: definition@.name, value: word@ },
                ]);
                Some(tokens)
            },
            None => None,
        }
    }

    /// The tokens of `text`: its words between spaces are taken in order,
    /// and each gives one token for every kind it is of, or one of the
    /// wildcard kind where it is of none. Nothing for the empty text, and
    /// where a word is of no kind and there is no wildcard.
    pub fn tokenize(&self, text: &str) -> (r: Option<Vec<Token>>)
        ensures
            match r {
                Some(tokens) => tokenized(self@, text@) == Some(tokens_of(tokens@)),
                None => tokenized(self@, text@) is None,
            },
    {
        if text.unicode_len() == 0 {
            return None;
        }
        let words = split_words(text);
        let ghost parts = split_spaces(text@);
        let mut tokens: Vec<Token> = Vec::new();
        let mut i: usize = 0;
        assert(tokens_of(tokens@) =~= Seq::<TokenView>::empty());
        while i < words.len()
            invariant
                i <= words@.len(),
                text@.len() > 0,
                parts == split_spaces(text@),
                parts == texts(words@),
                parts.len() == words@.len(),
                words_tokens(self@, parts, i as int) == Some(tokens_of(tokens@)),
            decreases words@.len() - i,
        {
            assert(parts[i as int] == words@[i as int]@);
            let word = words[i].as_str();
            let hits = self.hits(word);
            match self.tokens_for(word, &hits) {
                Some(mut here) => {
                    let ghost before = tokens_of(tokens@);
                    let ghost added = tokens_of(here@);
                    tokens.append(&mut here);
                    assert(tokens_of(tokens@) =~= before + added);
                },
                None => {
                    proof {
                        lemma_words_fail(self@, parts, i + 1, parts.len() as int);
                    }
                    return None;
                },
            }
            i += 1;
        }
        Some(tokens)
    }
}

/// A wildcard found among the first kinds is the wildcard among all.
pub proof fn lemma_wildcard_stays(definitions: Seq<DefinitionView>, n: int, m: int)
    requires
        0 <= n <= m,
        wildcard_in(definitions, n) is Some,
    ensures
        wildcard_in(definitions, m) == wildcard_in(definitions, n),
    decreases m - n,
{
    if n < m {
        lemma_wildcard_stays(definitions, n, m - 1);
    }
}

/// Where the first words have no tokens, neither have all.
pub proof fn lemma_words_fail(
    definitions: Seq<DefinitionView>,
    words: Seq<Seq<char>>,
    n: int,
    m: int,
)
    requires
        0 <= n <= m,
        words_tokens(definitions, words, n) is None,
    ensures
        words_tokens(definitions, words, m) is None,
    decreases m - n,
{
    if n < m {
        lemma_words_fail(definitions, words, n, m - 1);
    }
}

} // verus!
