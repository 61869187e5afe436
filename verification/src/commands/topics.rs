//! The topics of a history: the words that turn up in the titles of many
//! conversations.

use crate::sorting::{in_order, lemma_insert_at, lemma_sorted, orders, sorted};
use crate::text::{
    alphabetic, chars_of, is_space, is_space_char, lemma_str_le_total, lemma_str_lt_trans,
    lowercased, str_eq, str_less, str_lt, string_of, strings_view,
};
use vstd::hash_map::StringHashMap;
use vstd::prelude::*;
use vstd::string::*;
use vstd::utf8::*;

verus! {

/// In how many titles a word must turn up to count as a topic.
pub const MIN_TITLES: usize = 3;

/// A word counts only if its lower case takes more bytes than this.
pub const MIN_BYTES: usize = 3;

/// A word too common to tell anything.
pub open spec fn stopword(w: Seq<char>) -> bool {
    ||| w == "a"@
    ||| w == "an"@
    ||| w == "the"@
    ||| w == "and"@
    ||| w == "or"@
    ||| w == "but"@
    ||| w == "in"@
    ||| w == "on"@
    ||| w == "at"@
    ||| w == "to"@
    ||| w == "for"@
    ||| w == "of"@
    ||| w == "with"@
    ||| w == "about"@
    ||| w == "is"@
    ||| w == "are"@
    ||| w == "was"@
    ||| w == "were"@
    ||| w == "be"@
    ||| w == "been"@
    ||| w == "have"@
    ||| w == "has"@
    ||| w == "had"@
    ||| w == "do"@
    ||| w == "does"@
    ||| w == "did"@
    ||| w == "will"@
    ||| w == "would"@
    ||| w == "could"@
    ||| w == "should"@
    ||| w == "may"@
    ||| w == "might"@
    ||| w == "can"@
    ||| w == "this"@
    ||| w == "that"@
    ||| w == "these"@
    ||| w == "those"@
    ||| w == "it"@
    ||| w == "its"@
    ||| w == "how"@
    ||| w == "what"@
    ||| w == "when"@
    ||| w == "where"@
    ||| w == "why"@
    ||| w == "which"@
    ||| w == "who"@
    ||| w == "my"@
    ||| w == "your"@
    ||| w == "our"@
    ||| w == "their"@
    ||| w == "his"@
    ||| w == "her"@
    ||| w == "from"@
    ||| w == "by"@
    ||| w == "as"@
    ||| w == "into"@
    ||| w == "more"@
    ||| w == "some"@
    ||| w == "any"@
    ||| w == "all"@
    ||| w == "new"@
    ||| w == "use"@
    ||| w == "using"@
    ||| w == "get"@
    ||| w == "help"@
    ||| w == "create"@
    ||| w == "make"@
    ||| w == "need"@
    ||| w == "vs"@
    ||| w == "based"@
    ||| w == "idea"@
    ||| w == "update"@
    ||| w == "analysis"@
    ||| w == "overview"@
    ||| w == "review"@
    ||| w == "discussion"@
    ||| w == "request"@
    ||| w == "draft"@
    ||| w == "via"@
    ||| w == "per"@
    ||| w == "re"@
    ||| w == "also"@
    ||| w == "just"@
    ||| w == "not"@
    ||| w == "no"@
    ||| w == "yes"@
    ||| w == "i"@
    ||| w == "add"@
    ||| w == "fix"@
    ||| w == "build"@
    ||| w == "work"@
    ||| w == "test"@
    ||| w == "run"@
    ||| w == "set"@
    ||| w == "check"@
    ||| w == "want"@
    ||| w == "take"@
    ||| w == "see"@
    ||| w == "look"@
    ||| w == "show"@
    ||| w == "try"@
    ||| w == "keep"@
    ||| w == "change"@
}

/// Whether `w` is a word too common to tell anything.
pub fn is_stopword(w: &str) -> (r: bool)
    ensures
        r == stopword(w@),
{
    str_eq(w, "a")
        || str_eq(w, "an")
        || str_eq(w, "the")
        || str_eq(w, "and")
        || str_eq(w, "or")
        || str_eq(w, "but")
        || str_eq(w, "in")
        || str_eq(w, "on")
        || str_eq(w, "at")
        || str_eq(w, "to")
        || str_eq(w, "for")
        || str_eq(w, "of")
        || str_eq(w, "with")
        || str_eq(w, "about")
        || str_eq(w, "is")
        || str_eq(w, "are")
        || str_eq(w, "was")
        || str_eq(w, "were")
        || str_eq(w, "be")
        || str_eq(w, "been")
        || str_eq(w, "have")
        || str_eq(w, "has")
        || str_eq(w, "had")
        || str_eq(w, "do")
        || str_eq(w, "does")
        || str_eq(w, "did")
        || str_eq(w, "will")
        || str_eq(w, "would")
        || str_eq(w, "could")
        || str_eq(w, "should")
        || str_eq(w, "may")
        || str_eq(w, "might")
        || str_eq(w, "can")
        || str_eq(w, "this")
        || str_eq(w, "that")
        || str_eq(w, "these")
        || str_eq(w, "those")
        || str_eq(w, "it")
        || str_eq(w, "its")
        || str_eq(w, "how")
        || str_eq(w, "what")
        || str_eq(w, "when")
        || str_eq(w, "where")
        || str_eq(w, "why")
        || str_eq(w, "which")
        || str_eq(w, "who")
        || str_eq(w, "my")
        || str_eq(w, "your")
        || str_eq(w, "our")
        || str_eq(w, "their")
        || str_eq(w, "his")
        || str_eq(w, "her")
        || str_eq(w, "from")
        || str_eq(w, "by")
        || str_eq(w, "as")
        || str_eq(w, "into")
        || str_eq(w, "more")
        || str_eq(w, "some")
        || str_eq(w, "any")
        || str_eq(w, "all")
        || str_eq(w, "new")
        || str_eq(w, "use")
        || str_eq(w, "using")
        || str_eq(w, "get")
        || str_eq(w, "help")
        || str_eq(w, "create")
        || str_eq(w, "make")
        || str_eq(w, "need")
        || str_eq(w, "vs")
        || str_eq(w, "based")
        || str_eq(w, "idea")
        || str_eq(w, "update")
        || str_eq(w, "analysis")
        || str_eq(w, "overview")
        || str_eq(w, "review")
        || str_eq(w, "discussion")
        || str_eq(w, "request")
        || str_eq(w, "draft")
        || str_eq(w, "via")
        || str_eq(w, "per")
        || str_eq(w, "re")
        || str_eq(w, "also")
        || str_eq(w, "just")
        || str_eq(w, "not")
        || str_eq(w, "no")
        || str_eq(w, "yes")
        || str_eq(w, "i")
        || str_eq(w, "add")
        || str_eq(w, "fix")
        || str_eq(w, "build")
        || str_eq(w, "work")
        || str_eq(w, "test")
        || str_eq(w, "run")
        || str_eq(w, "set")
        || str_eq(w, "check")
        || str_eq(w, "want")
        || str_eq(w, "take")
        || str_eq(w, "see")
        || str_eq(w, "look")
        || str_eq(w, "show")
        || str_eq(w, "try")
        || str_eq(w, "keep")
        || str_eq(w, "change")
}

/// The words of `m`: its longest stretches without white space.
pub open spec fn space_words(m: Seq<char>) -> Seq<Seq<char>>
    decreases m.len(),
{
    if m.len() == 0 {
        Seq::empty()
    } else if is_space(m.last()) {
        space_words(m.drop_last())
    } else if m.len() > 1 && !is_space(m[m.len() - 2]) {
        let words = space_words(m.drop_last());
        words.drop_last().push(words.last().push(m.last()))
    } else {
        space_words(m.drop_last()).push(seq![m.last()])
    }
}

/// The letters of `raw`, in order.
pub open spec fn letters(raw: Seq<char>) -> Seq<char>
    decreases raw.len(),
{
    if raw.len() == 0 {
        Seq::empty()
    } else if alphabetic(raw.last()) {
        letters(raw.drop_last()).push(raw.last())
    } else {
        letters(raw.drop_last())
    }
}

/// A word of a title as it counts: its letters in lower case, and as they
/// were written.
pub struct Token {
    pub lower: String,
    pub original: String,
}

pub struct TokenView {
    pub lower: Seq<char>,
    pub original: Seq<char>,
}

impl View for Token {
    type V = TokenView;

    open spec fn view(&self) -> TokenView {
        TokenView { lower: self.lower@, original: self.original@ }
    }
}

/// The views of a run of tokens, in order.
pub open spec fn tokens_view(tokens: Seq<Token>) -> Seq<TokenView> {
    Seq::new(tokens.len(), |i: int| tokens[i]@)
}

/// What a word of a title counts as, if it counts: a word whose letters in
/// lower case are long enough and not too common.
pub open spec fn token_of(raw: Seq<char>) -> Option<TokenView> {
    let original = letters(raw);
    let lower = lowercased(original);
    if encode_utf8(lower).len() > MIN_BYTES && !stopword(lower) {
        Some(TokenView { lower, original })
    } else {
        None
    }
}

/// Some token of `tokens` is the word `lower`.
pub open spec fn has_word(tokens: Seq<TokenView>, lower: Seq<char>) -> bool {
    exists|i: int| 0 <= i < tokens.len() && (#[trigger] tokens[i]).lower == lower
}

/// The tokens of a title: what its words count as, each word once, as it was
/// written first.
pub open spec fn title_tokens(words: Seq<Seq<char>>) -> Seq<TokenView>
    decreases words.len(),
{
    if words.len() == 0 {
        Seq::empty()
    } else {
        let before = title_tokens(words.drop_last());
        match token_of(words.last()) {
            Some(t) => if has_word(before, t.lower) {
                before
            } else {
                before.push(t)
            },
            None => before,
        }
    }
}

/// The words of a title.
pub fn split_words(title: &str) -> (r: Vec<String>)
    ensures
        strings_view(r@) == space_words(title@),
{
    let chars = chars_of(title);
    let mut out: Vec<String> = Vec::new();
    let mut start: usize = 0;
    let mut i: usize = 0;
    assert(chars@.subrange(0, 0) =~= Seq::<char>::empty());
    assert(strings_view(out@) =~= Seq::<Seq<char>>::empty());
    while i < chars.len()
        invariant
            start <= i <= chars@.len(),
            i > 0 && !is_space(chars@[i - 1]) ==> start < i && space_words(
                chars@.subrange(0, i as int),
            ).len() == out@.len() + 1 && space_words(chars@.subrange(0, i as int)).last()
                == chars@.subrange(start as int, i as int) && strings_view(out@) == space_words(
                chars@.subrange(0, i as int),
            ).drop_last(),
            i == 0 || is_space(chars@[i - 1]) ==> strings_view(out@) == space_words(
                chars@.subrange(0, i as int),
            ),
        decreases chars@.len() - i,
    {
        let ghost seen = chars@.subrange(0, i as int);
        let ghost next = chars@.subrange(0, i + 1);
        assert(next.drop_last() =~= seen);
        assert(next.last() == chars@[i as int]);
        if i > 0 {
            assert(next[next.len() - 2] == chars@[i - 1]);
        }
        let ghost done = strings_view(out@);
        if is_space_char(chars[i]) {
            if i > 0 && !is_space_char(chars[i - 1]) {
                out.push(string_of(&chars, start, i));
                assert(strings_view(out@) =~= done.push(chars@.subrange(start as int, i as int)));
                assert(space_words(seen).drop_last().push(space_words(seen).last()) =~= space_words(
                    seen,
                ));
            }
        } else {
            if i == 0 || is_space_char(chars[i - 1]) {
                start = i;
                assert(chars@.subrange(i as int, i + 1) =~= seq![chars@[i as int]]);
                assert(space_words(next).drop_last() =~= space_words(seen));
            } else {
                assert(chars@.subrange(start as int, i + 1) =~= chars@.subrange(
                    start as int,
                    i as int,
                ).push(chars@[i as int]));
                assert(space_words(next).drop_last() =~= space_words(seen).drop_last());
            }
        }
        i += 1;
    }
    assert(chars@.subrange(0, chars@.len() as int) =~= chars@);
    if i > 0 && !is_space_char(chars[i - 1]) {
        let ghost done = strings_view(out@);
        let ghost all = space_words(chars@);
        out.push(string_of(&chars, start, i));
        assert(strings_view(out@) =~= done.push(chars@.subrange(start as int, i as int)));
        assert(all.drop_last().push(all.last()) =~= all);
    }
    out
}

/// The letters of a word.
pub fn letters_of(raw: &str) -> (r: String)
    ensures
        r@ == letters(raw@),
{
    let chars = chars_of(raw);
    let mut out = String::new();
    let mut i: usize = 0;
    assert(chars@.subrange(0, 0) =~= Seq::<char>::empty());
    while i < chars.len()
        invariant
            i <= chars@.len(),
            out@ == letters(chars@.subrange(0, i as int)),
        decreases chars@.len() - i,
    {
        let ghost next = chars@.subrange(0, i + 1);
        assert(next.drop_last() =~= chars@.subrange(0, i as int));
        assert(next.last() == chars@[i as int]);
        if chars[i].is_alphabetic() {
            out.push(chars[i]);
        }
        i += 1;
    }
    assert(chars@.subrange(0, chars@.len() as int) =~= chars@);
    out
}

/// The view of an optional token.
pub open spec fn opt_token_view(t: Option<Token>) -> Option<TokenView> {
    match t {
        Some(t) => Some(t@),
        None => None,
    }
}

/// What a word of a title counts as, if it counts.
pub fn token(raw: &str) -> (r: Option<Token>)
    ensures
        opt_token_view(r) == token_of(raw@),
{
    let original = letters_of(raw);
    let lower = original.as_str().to_lowercase();
    if lower.as_str().as_bytes().len() > MIN_BYTES && !is_stopword(lower.as_str()) {
        Some(Token { lower, original })
    } else {
        None
    }
}

/// The tokens of a title.
pub fn tokens_of_title(title: &str) -> (r: Vec<Token>)
    ensures
        tokens_view(r@) == title_tokens(space_words(title@)),
{
    let words = split_words(title);
    let ghost all = strings_view(words@);
    let mut kept: Vec<Token> = Vec::new();
    let mut i: usize = 0;
    assert(all.subrange(0, 0) =~= Seq::<Seq<char>>::empty());
    assert(tokens_view(kept@) =~= Seq::<TokenView>::empty());
    while i < words.len()
        invariant
            i <= words@.len(),
            all == strings_view(words@),
            tokens_view(kept@) == title_tokens(all.subrange(0, i as int)),
        decreases words@.len() - i,
    {
        let ghost next = all.subrange(0, i + 1);
        assert(next.drop_last() =~= all.subrange(0, i as int));
        assert(next.last() == words@[i as int]@);
        let ghost before = tokens_view(kept@);
        match token(words[i].as_str()) {
            Some(t) => {
                let mut known = false;
                let mut k: usize = 0;
                while k < kept.len() && !known
                    invariant
                        k <= kept@.len(),
                        before == tokens_view(kept@),
                        known ==> has_word(before, t@.lower),
                        !known ==> forall|j: int| 0 <= j < k ==> (#[trigger] before[j]).lower != t@.lower,
                    decreases kept@.len() - k + if known { 0int } else { 1int },
                {
                    if str_eq(kept[k].lower.as_str(), t.lower.as_str()) {
                        assert(before[k as int].lower == t@.lower);
                        known = true;
                    } else {
                        k += 1;
                    }
                }
                if !known {
                    kept.push(t);
                    assert(tokens_view(kept@) =~= before.push(t@));
                }
            },
            None => {},
        }
        i += 1;
    }
    assert(all.subrange(0, words@.len() as int) =~= all);
    kept
}

/// A word with the number of titles in which it turns up, and the ways in
/// which it was written, each with the number of titles that wrote it so.
pub struct Topic {
    pub word: String,
    pub titles: usize,
    pub spellings: Vec<(String, usize)>,
}

pub struct TopicView {
    pub word: Seq<char>,
    pub titles: nat,
    pub spellings: Seq<(Seq<char>, nat)>,
}

/// The views of a run of spellings, in order.
pub open spec fn spellings_view(spellings: Seq<(String, usize)>) -> Seq<(Seq<char>, nat)> {
    Seq::new(spellings.len(), |i: int| (spellings[i].0@, spellings[i].1 as nat))
}

impl View for Topic {
    type V = TopicView;

    open spec fn view(&self) -> TopicView {
        TopicView {
            word: self.word@,
            titles: self.titles as nat,
            spellings: spellings_view(self.spellings@),
        }
    }
}

/// The views of a run of topics, in order.
pub open spec fn topics_view(topics: Seq<Topic>) -> Seq<TopicView> {
    Seq::new(topics.len(), |i: int| topics[i]@)
}

/// Where `original` stands among the spellings, if it does.
pub open spec fn spelling_position(spellings: Seq<(Seq<char>, nat)>, original: Seq<char>) -> Option<
    int,
>
    decreases spellings.len(),
{
    if spellings.len() == 0 {
        None
    } else if spellings.last().0 == original {
        Some(spellings.len() - 1)
    } else {
        spelling_position(spellings.drop_last(), original)
    }
}

/// The spellings after one more title wrote the word as `original`.
pub open spec fn voted(spellings: Seq<(Seq<char>, nat)>, original: Seq<char>) -> Seq<
    (Seq<char>, nat),
> {
    match spelling_position(spellings, original) {
        Some(at) => spellings.update(at, (original, spellings[at].1 + 1)),
        None => spellings.push((original, 1nat)),
    }
}

/// Where the topic of the word `word` stands, if there is one.
pub open spec fn topic_position(tally: Seq<TopicView>, word: Seq<char>) -> Option<int>
    decreases tally.len(),
{
    if tally.len() == 0 {
        None
    } else if tally.last().word == word {
        Some(tally.len() - 1)
    } else {
        topic_position(tally.drop_last(), word)
    }
}

/// The tally after one more title held the token `t`.
pub open spec fn noted(tally: Seq<TopicView>, t: TokenView) -> Seq<TopicView> {
    match topic_position(tally, t.lower) {
        Some(at) => tally.update(
            at,
            TopicView {
                word: tally[at].word,
                titles: tally[at].titles + 1,
                spellings: voted(tally[at].spellings, t.original),
            },
        ),
        None => tally.push(
            TopicView { word: t.lower, titles: 1, spellings: seq![(t.original, 1nat)] },
        ),
    }
}

/// The tally after the tokens of one more title.
pub open spec fn noted_all(tally: Seq<TopicView>, tokens: Seq<TokenView>) -> Seq<TopicView>
    decreases tokens.len(),
{
    if tokens.len() == 0 {
        tally
    } else {
        noted(noted_all(tally, tokens.drop_last()), tokens.last())
    }
}

/// The tally of the titles: for each word that counts, in how many titles it
/// turns up and how it was written.
pub open spec fn tally_of(titles: Seq<Seq<char>>) -> Seq<TopicView>
    decreases titles.len(),
{
    if titles.len() == 0 {
        Seq::empty()
    } else {
        noted_all(tally_of(titles.drop_last()), title_tokens(space_words(titles.last())))
    }
}

/// The topics among the tally: the words that turn up in [`MIN_TITLES`]
/// titles or more.
pub open spec fn frequent(tally: Seq<TopicView>) -> Seq<TopicView>
    decreases tally.len(),
{
    if tally.len() == 0 {
        Seq::empty()
    } else if tally.last().titles >= MIN_TITLES {
        frequent(tally.drop_last()).push(tally.last())
    } else {
        frequent(tally.drop_last())
    }
}

/// The order of the topics: the word of more titles first, and of two words
/// of as many titles the one that the dictionary has first.
pub open spec fn topic_order() -> spec_fn(TopicView, TopicView) -> bool {
    |a: TopicView, b: TopicView| a.titles > b.titles || (a.titles == b.titles && str_lt(a.word, b.word))
}

/// The way in which a word was written most often; of several that were
/// written as often, the one that came first.
pub open spec fn favourite(spellings: Seq<(Seq<char>, nat)>) -> (Seq<char>, nat)
    decreases spellings.len(),
{
    if spellings.len() == 0 {
        (Seq::empty(), 0nat)
    } else if spellings.len() == 1 {
        spellings[0]
    } else {
        let best = favourite(spellings.drop_last());
        if spellings.last().1 > best.1 {
            spellings.last()
        } else {
            best
        }
    }
}

/// The topics of the titles: the `top_n` words, or fewer, that turn up in
/// the most titles, each as it was written most often.
pub open spec fn top_topics(titles: Seq<Seq<char>>, top_n: nat) -> Seq<Seq<char>> {
    let ranked = sorted(frequent(tally_of(titles)), topic_order());
    Seq::new(
        if ranked.len() < top_n {
            ranked.len()
        } else {
            top_n
        },
        |i: int| favourite(ranked[i].spellings).0,
    )
}

/// No count of the tally is larger than `limit`, or than `limit` and one
/// for a word that `kept` holds; and no spelling has more votes than its
/// word has titles.
pub open spec fn bounded(tally: Seq<TopicView>, kept: Seq<TokenView>, limit: nat) -> bool {
    forall|k: int|
        0 <= k < tally.len() ==> {
            &&& (#[trigger] tally[k]).titles <= limit + if has_word(kept, tally[k].word) {
                1nat
            } else {
                0nat
            }
            &&& forall|j: int|
                0 <= j < tally[k].spellings.len() ==> (#[trigger] tally[k].spellings[j]).1
                    <= tally[k].titles
        }
}

fn vote(spellings: &mut Vec<(String, usize)>, original: String, Ghost(titles): Ghost<nat>)
    requires
        forall|j: int| 0 <= j < old(spellings)@.len() ==> (#[trigger] old(spellings)@[j]).1 <= titles,
        titles < usize::MAX,
    ensures
        spellings_view(final(spellings)@) == voted(spellings_view(old(spellings)@), original@),
        forall|j: int|
            0 <= j < final(spellings)@.len() ==> (#[trigger] final(spellings)@[j]).1 <= titles + 1,
{
    let ghost before = spellings_view(spellings@);
    let mut i: usize = spellings.len();
    assert(before.subrange(0, i as int) =~= before);
    while i > 0
        invariant
            i <= spellings@.len(),
            before == spellings_view(spellings@),
            before == spellings_view(old(spellings)@),
            spellings@ == old(spellings)@,
            titles < usize::MAX,
            forall|j: int| 0 <= j < spellings@.len() ==> (#[trigger] spellings@[j]).1 <= titles,
            spelling_position(before, original@) == spelling_position(
                before.subrange(0, i as int),
                original@,
            ),
        decreases i,
    {
        let ghost seen = before.subrange(0, i as int);
        assert(seen.last() == (spellings@[i - 1].0@, spellings@[i - 1].1 as nat));
        assert(seen.drop_last() =~= before.subrange(0, i - 1));
        if str_eq(spellings[i - 1].0.as_str(), original.as_str()) {
            let votes = spellings[i - 1].1;
            spellings.set(i - 1, (original, votes + 1));
            assert(spellings_view(spellings@) =~= before.update(
                i - 1,
                (original@, before[i - 1].1 + 1),
            ));
            return ;
        }
        i -= 1;
    }
    spellings.push((original, 1));
    assert(spellings_view(spellings@) =~= before.push((original@, 1nat)));
}

proof fn lemma_topic_position(tally: Seq<TopicView>, word: Seq<char>)
    ensures
        match topic_position(tally, word) {
            Some(at) => 0 <= at < tally.len() && tally[at].word == word,
            None => forall|j: int| 0 <= j < tally.len() ==> (#[trigger] tally[j]).word != word,
        },
    decreases tally.len(),
{
    if tally.len() > 0 && tally.last().word != word {
        let init = tally.drop_last();
        lemma_topic_position(init, word);
        if topic_position(init, word) is None {
            assert forall|j: int| 0 <= j < tally.len() implies (#[trigger] tally[j]).word
                != word by {
                if j < init.len() {
                    assert(init[j] == tally[j]);
                }
            }
        }
    }
}

/// The index knows where the topic of each word stands.
pub open spec fn indexed(tally: Seq<TopicView>, index: Map<Seq<char>, usize>) -> bool {
    &&& forall|word: Seq<char>|
        index.contains_key(word) ==> (#[trigger] index[word]) < tally.len() && tally[index[word] as int].word
            == word
    &&& forall|j: int|
        0 <= j < tally.len() ==> index.contains_key((#[trigger] tally[j]).word) && index[tally[j].word]
            == j
}

/// What the index says of a word is what a search from the end finds.
proof fn lemma_indexed(tally: Seq<TopicView>, index: Map<Seq<char>, usize>, word: Seq<char>)
    requires
        indexed(tally, index),
    ensures
        topic_position(tally, word) == if index.contains_key(word) {
            Some(index[word] as int)
        } else {
            None
        },
{
    lemma_topic_position(tally, word);
    match topic_position(tally, word) {
        Some(at) => {
            assert(index.contains_key(tally[at].word));
        },
        None => {
            if index.contains_key(word) {
                assert(tally[index[word] as int].word == word);
            }
        },
    }
}

fn note(
    tally: &mut Vec<Topic>,
    index: &mut StringHashMap<usize>,
    t: Token,
    Ghost(kept): Ghost<Seq<TokenView>>,
    Ghost(limit): Ghost<nat>,
)
    requires
        bounded(topics_view(old(tally)@), kept, limit),
        indexed(topics_view(old(tally)@), old(index)@),
        !has_word(kept, t@.lower),
        limit < usize::MAX,
    ensures
        topics_view(final(tally)@) == noted(topics_view(old(tally)@), t@),
        bounded(topics_view(final(tally)@), kept.push(t@), limit),
        indexed(topics_view(final(tally)@), final(index)@),
{
    let ghost before = topics_view(tally@);
    let ghost known = index@;
    let ghost kept2 = kept.push(t@);
    assert(kept2[kept.len() as int] == t@);
    assert forall|w: Seq<char>| has_word(kept, w) implies has_word(kept2, w) by {
        let i = choose|i: int| 0 <= i < kept.len() && (#[trigger] kept[i]).lower == w;
        assert(kept2[i].lower == w);
    }
    proof {
        lemma_indexed(before, known, t@.lower);
    }
    let found: Option<usize> = match index.get(t.lower.as_str()) {
        Some(at) => Some(*at),
        None => None,
    };
    match found {
        Some(at) => {
            assert(before[at as int].word == t@.lower);
            assert(before[at as int].titles <= limit);
            assert(before[at as int] == tally@[at as int]@);
            assert forall|j: int| 0 <= j < tally@[at as int].spellings@.len() implies (
            #[trigger] tally@[at as int].spellings@[j]).1 <= before[at as int].titles by {
                assert(before[at as int].spellings[j].1 <= before[at as int].titles);
            }
            let topic = &mut tally[at];
            vote(&mut topic.spellings, t.original, Ghost(before[at as int].titles));
            topic.titles = topic.titles + 1;
            assert(topics_view(tally@) =~= noted(before, t@));
            assert(has_word(kept2, t@.lower));
        },
        None => {
            let mut spellings: Vec<(String, usize)> = Vec::new();
            spellings.push((t.original, 1));
            let topic = Topic { word: t.lower.clone(), titles: 1, spellings };
            assert(topic@.spellings =~= seq![(t@.original, 1nat)]);
            index.insert(t.lower, tally.len());
            tally.push(topic);
            assert(topics_view(tally@) =~= noted(before, t@));
            assert(has_word(kept2, t@.lower));
        },
    }
    let ghost after = topics_view(tally@);
    assert(bounded(after, kept2, limit)) by {
        assert forall|k: int| 0 <= k < after.len() implies {
            &&& (#[trigger] after[k]).titles <= limit + if has_word(kept2, after[k].word) {
                1nat
            } else {
                0nat
            }
            &&& forall|j: int|
                0 <= j < after[k].spellings.len() ==> (#[trigger] after[k].spellings[j]).1
                    <= after[k].titles
        } by {
            if k < before.len() && after[k].word != t@.lower {
                assert(after[k] == before[k]);
            }
        }
    }
    assert(indexed(after, index@)) by {
        assert forall|j: int| 0 <= j < after.len() implies index@.contains_key(
            (#[trigger] after[j]).word,
        ) && index@[after[j].word] == j by {
            if j < before.len() {
                assert(known.contains_key(before[j].word));
                assert(after[j].word == before[j].word);
            }
        }
    }
}

/// No word stands twice among the tokens of a title.
proof fn lemma_title_tokens_distinct(words: Seq<Seq<char>>)
    ensures
        forall|i: int, j: int|
            0 <= i < j < title_tokens(words).len() ==> (#[trigger] title_tokens(words)[i]).lower != (
            #[trigger] title_tokens(words)[j]).lower,
    decreases words.len(),
{
    if words.len() > 0 {
        lemma_title_tokens_distinct(words.drop_last());
        let before = title_tokens(words.drop_last());
        let now = title_tokens(words);
        assert forall|i: int, j: int| 0 <= i < j < now.len() implies (#[trigger] now[i]).lower != (
        #[trigger] now[j]).lower by {
            if j < before.len() {
                assert(before[i].lower != before[j].lower);
            } else {
                assert(now[i] == before[i]);
            }
        }
    }
}

fn topic_less(a: &Topic, b: &Topic) -> (r: bool)
    ensures
        r == topic_order()(a@, b@),
{
    a.titles > b.titles || (a.titles == b.titles && str_less(a.word.as_str(), b.word.as_str()))
}

/// The order of the topics orders.
pub proof fn lemma_topic_order()
    ensures
        orders(topic_order()),
{
    let lt = topic_order();
    assert forall|a: TopicView, b: TopicView| #[trigger] lt(a, b) implies !lt(b, a) by {
        lemma_str_le_total(a.word, b.word);
    }
    assert forall|a: TopicView, b: TopicView, c: TopicView|
        !#[trigger] lt(a, b) && !#[trigger] lt(b, c) implies !lt(a, c) by {
        if a.titles == b.titles && b.titles == c.titles {
            lemma_str_le_total(b.word, a.word);
            lemma_str_le_total(c.word, b.word);
            lemma_str_le_total(a.word, c.word);
            if str_lt(a.word, c.word) && b.word != a.word && c.word != b.word {
                lemma_str_lt_trans(c.word, b.word, a.word);
            }
        }
    }
}

/// The topics stand in their order: none behind one that it comes before.
pub proof fn lemma_topics_ranked(tally: Seq<TopicView>)
    ensures
        in_order(sorted(frequent(tally), topic_order()), topic_order()),
        sorted(frequent(tally), topic_order()).to_multiset() == frequent(tally).to_multiset(),
{
    lemma_topic_order();
    lemma_sorted(frequent(tally), topic_order());
}

/// The topics picked by `order`, in that order.
pub open spec fn picked(tally: Seq<TopicView>, order: Seq<usize>) -> Seq<TopicView> {
    Seq::new(order.len(), |k: int| tally[order[k] as int])
}

fn favourite_spelling(topic: &Topic) -> (r: String)
    ensures
        r@ == favourite(topic@.spellings).0,
{
    let ghost all = topic@.spellings;
    let mut best: usize = 0;
    let mut i: usize = 0;
    if topic.spellings.len() == 0 {
        return String::new();
    }
    reveal_with_fuel(favourite, 2);
    assert(all.subrange(0, 1) =~= seq![all[0]]);
    i = 1;
    while i < topic.spellings.len()
        invariant
            1 <= i <= topic.spellings@.len(),
            best < i,
            all == topic@.spellings,
            favourite(all.subrange(0, i as int)) == all[best as int],
        decreases topic.spellings@.len() - i,
    {
        let ghost next = all.subrange(0, i + 1);
        assert(next.drop_last() =~= all.subrange(0, i as int));
        assert(next.last() == all[i as int]);
        assert(all[i as int] == (topic.spellings@[i as int].0@, topic.spellings@[i as int].1 as nat));
        assert(all[best as int] == (
            topic.spellings@[best as int].0@,
            topic.spellings@[best as int].1 as nat,
        ));
        if topic.spellings[i].1 > topic.spellings[best].1 {
            best = i;
        }
        i += 1;
    }
    assert(all.subrange(0, all.len() as int) =~= all);
    assert(all[best as int].0 == topic.spellings@[best as int].0@);
    topic.spellings[best].0.clone()
}

/// Finds the topics of a history in the titles of its conversations: the
/// words that turn up in the most titles, `top_n` of them at the most, each
/// as it was written most often.
///
/// A word counts once for each title, by its letters in lower case, if these
/// take more than three bytes and the word is not too common. It is a topic
/// once it turns up in three titles.
pub fn extract_top_topics(titles: &[String], top_n: usize) -> (r: Vec<String>)
    ensures
        strings_view(r@) == top_topics(strings_view(titles@), top_n as nat),
{
    let ghost all = strings_view(titles@);
    let mut tally: Vec<Topic> = Vec::new();
    let mut index: StringHashMap<usize> = StringHashMap::new();
    let mut i: usize = 0;
    assert(all.subrange(0, 0) =~= Seq::<Seq<char>>::empty());
    assert(topics_view(tally@) =~= Seq::<TopicView>::empty());
    while i < titles.len()
        invariant
            i <= titles@.len(),
            all == strings_view(titles@),
            topics_view(tally@) == tally_of(all.subrange(0, i as int)),
            bounded(topics_view(tally@), Seq::empty(), i as nat),
            indexed(topics_view(tally@), index@),
        decreases titles@.len() - i,
    {
        let ghost next = all.subrange(0, i + 1);
        assert(next.drop_last() =~= all.subrange(0, i as int));
        assert(next.last() == titles@[i as int]@);
        let tokens = tokens_of_title(titles[i].as_str());
        let ghost views = tokens_view(tokens@);
        let ghost start = topics_view(tally@);
        proof {
            lemma_title_tokens_distinct(space_words(titles@[i as int]@));
        }
        let mut j: usize = 0;
        assert(views.subrange(0, 0) =~= Seq::<TokenView>::empty());
        while j < tokens.len()
            invariant
                j <= tokens@.len(),
                i < usize::MAX,
                views == tokens_view(tokens@),
                forall|a: int, b: int|
                    0 <= a < b < views.len() ==> (#[trigger] views[a]).lower != (
                    #[trigger] views[b]).lower,
                topics_view(tally@) == noted_all(start, views.subrange(0, j as int)),
                bounded(topics_view(tally@), views.subrange(0, j as int), i as nat),
                indexed(topics_view(tally@), index@),
            decreases tokens@.len() - j,
        {
            let ghost kept = views.subrange(0, j as int);
            let ghost more = views.subrange(0, j + 1);
            assert(more.drop_last() =~= kept);
            assert(more.last() == tokens@[j as int]@);
            assert(more =~= kept.push(tokens@[j as int]@));
            assert(!has_word(kept, views[j as int].lower)) by {
                if has_word(kept, views[j as int].lower) {
                    let a = choose|a: int|
                        0 <= a < kept.len() && (#[trigger] kept[a]).lower == views[j as int].lower;
                    assert(views[a].lower != views[j as int].lower);
                }
            }
            let t = Token {
                lower: tokens[j].lower.clone(),
                original: tokens[j].original.clone(),
            };
            note(&mut tally, &mut index, t, Ghost(kept), Ghost(i as nat));
            j += 1;
        }
        assert(views.subrange(0, tokens@.len() as int) =~= views);
        assert(bounded(topics_view(tally@), Seq::empty(), (i + 1) as nat)) by {
            let now = topics_view(tally@);
            assert forall|k: int| 0 <= k < now.len() implies {
                &&& (#[trigger] now[k]).titles <= (i + 1) as nat + if has_word(
                    Seq::<TokenView>::empty(),
                    now[k].word,
                ) {
                    1nat
                } else {
                    0nat
                }
                &&& forall|j: int|
                    0 <= j < now[k].spellings.len() ==> (#[trigger] now[k].spellings[j]).1
                        <= now[k].titles
            } by {}
        }
        i += 1;
    }
    assert(all.subrange(0, titles@.len() as int) =~= all);
    let ghost counted = topics_view(tally@);
    // the topics, by their places in the tally
    let mut candidates: Vec<usize> = Vec::new();
    let mut k: usize = 0;
    assert(counted.subrange(0, 0) =~= Seq::<TopicView>::empty());
    assert(picked(counted, candidates@) =~= Seq::<TopicView>::empty());
    while k < tally.len()
        invariant
            k <= tally@.len(),
            counted == topics_view(tally@),
            forall|c: int| 0 <= c < candidates@.len() ==> (#[trigger] candidates@[c]) < tally@.len(),
            picked(counted, candidates@) == frequent(counted.subrange(0, k as int)),
        decreases tally@.len() - k,
    {
        let ghost next = counted.subrange(0, k + 1);
        assert(next.drop_last() =~= counted.subrange(0, k as int));
        assert(next.last() == tally@[k as int]@);
        let ghost before = picked(counted, candidates@);
        if tally[k].titles >= MIN_TITLES {
            candidates.push(k);
            assert(picked(counted, candidates@) =~= before.push(counted[k as int]));
        }
        k += 1;
    }
    assert(counted.subrange(0, tally@.len() as int) =~= counted);
    let ghost wanted = picked(counted, candidates@);
    // the same places, in the order of the topics
    let mut order: Vec<usize> = Vec::new();
    let mut c: usize = 0;
    assert(wanted.subrange(0, 0) =~= Seq::<TopicView>::empty());
    assert(picked(counted, order@) =~= Seq::<TopicView>::empty());
    while c < candidates.len()
        invariant
            c <= candidates@.len(),
            counted == topics_view(tally@),
            wanted == picked(counted, candidates@),
            forall|x: int| 0 <= x < candidates@.len() ==> (#[trigger] candidates@[x]) < tally@.len(),
            forall|x: int| 0 <= x < order@.len() ==> (#[trigger] order@[x]) < tally@.len(),
            order@.len() == c,
            picked(counted, order@) == sorted(wanted.subrange(0, c as int), topic_order()),
        decreases candidates@.len() - c,
    {
        let ghost next = wanted.subrange(0, c + 1);
        assert(next.drop_last() =~= wanted.subrange(0, c as int));
        assert(next.last() == counted[candidates@[c as int] as int]);
        let ghost placed = picked(counted, order@);
        let place = candidates[c];
        let mut at: usize = order.len();
        while at > 0 && topic_less(&tally[place], &tally[order[at - 1]])
            invariant
                at <= order@.len(),
                place < tally@.len(),
                counted == topics_view(tally@),
                placed == picked(counted, order@),
                forall|x: int| 0 <= x < order@.len() ==> (#[trigger] order@[x]) < tally@.len(),
                forall|x: int|
                    at <= x < placed.len() ==> topic_order()(
                        counted[place as int],
                        #[trigger] placed[x],
                    ),
            decreases at,
        {
            assert(placed[at - 1] == counted[order@[at - 1] as int]);
            at -= 1;
        }
        proof {
            if at > 0 {
                assert(placed[at - 1] == counted[order@[at - 1] as int]);
            }
            lemma_insert_at(placed, counted[place as int], topic_order(), at as int);
        }
        order.insert(at, place);
        assert(picked(counted, order@) =~= placed.insert(at as int, counted[place as int]));
        c += 1;
    }
    assert(wanted.subrange(0, candidates@.len() as int) =~= wanted);
    let ghost ranked = sorted(frequent(counted), topic_order());
    let count = if order.len() < top_n {
        order.len()
    } else {
        top_n
    };
    let mut out: Vec<String> = Vec::new();
    let mut n: usize = 0;
    while n < count
        invariant
            n <= count <= order@.len(),
            counted == topics_view(tally@),
            ranked == picked(counted, order@),
            forall|x: int| 0 <= x < order@.len() ==> (#[trigger] order@[x]) < tally@.len(),
            out@.len() == n,
            forall|x: int| 0 <= x < n ==> (#[trigger] out@[x])@ == favourite(ranked[x].spellings).0,
        decreases count - n,
    {
        assert(ranked[n as int] == tally@[order@[n as int] as int]@);
        out.push(favourite_spelling(&tally[order[n]]));
        n += 1;
    }
    assert(strings_view(out@) =~= top_topics(all, top_n as nat));
    out
}

} // verus!
