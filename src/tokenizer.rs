use vstd::prelude::*;

verus! {

/// Whether `c` has the Unicode White_Space property, as `char::is_whitespace` decides.
pub uninterp spec fn white_space(c: char) -> bool;

/// Whether `c` is alphabetic, as `char::is_alphabetic` decides.
pub uninterp spec fn alphabetic(c: char) -> bool;

/// Whether `c` is numeric, as `char::is_numeric` decides.
pub uninterp spec fn numeric(c: char) -> bool;

/// Relies on `char::is_whitespace`.
#[verifier::external_body]
pub(crate) fn is_space(c: char) -> (r: bool)
    ensures
        r == white_space(c),
{
    c.is_whitespace()
}

/// Relies on `char::is_alphabetic`.
#[verifier::external_body]
fn is_alpha(c: char) -> (r: bool)
    ensures
        r == alphabetic(c),
{
    c.is_alphabetic()
}

/// Relies on `char::is_numeric`.
#[verifier::external_body]
fn is_digit(c: char) -> (r: bool)
    ensures
        r == numeric(c),
{
    c.is_numeric()
}

/// The two kinds of run that a multi-character token is made of.
#[derive(Clone, Copy)]
pub enum RunKind {
    /// Any characters up to the next white space.
    Word,
    /// Numeric characters only.
    Digits,
}

pub open spec fn in_run(k: RunKind, c: char) -> bool {
    match k {
        RunKind::Word => !white_space(c),
        RunKind::Digits => numeric(c),
    }
}

impl RunKind {
    /// Whether `c` continues a run of this kind.
    fn holds_for(&self, c: char) -> (r: bool)
        ensures
            r == in_run(*self, c),
    {
        match self {
            RunKind::Word => !is_space(c),
            RunKind::Digits => is_digit(c),
        }
    }
}

/// What is left of `s` once its leading white space is dropped.
pub open spec fn skip_spaces(s: Seq<char>) -> Seq<char>
    decreases s.len(),
{
    if s.len() > 0 && white_space(s[0]) {
        skip_spaces(s.drop_first())
    } else {
        s
    }
}

/// The length of the longest prefix of `s` whose characters all belong to run `k`.
pub open spec fn run_len(s: Seq<char>, k: RunKind) -> nat
    decreases s.len(),
{
    if s.len() > 0 && in_run(k, s[0]) {
        1 + run_len(s.drop_first(), k)
    } else {
        0
    }
}

/// The length of the token at the start of `s`, which starts with no white space.
pub open spec fn token_len(s: Seq<char>) -> nat {
    if s.len() == 0 {
        0
    } else if alphabetic(s[0]) {
        run_len(s, RunKind::Word)
    } else if numeric(s[0]) {
        run_len(s, RunKind::Digits)
    } else {
        1
    }
}

/// The tokens of `s`, left to right.
pub open spec fn tokens(s: Seq<char>) -> Seq<Seq<char>>
    decreases s.len(),
{
    let r = skip_spaces(s);
    let n = token_len(r);
    if r.len() == 0 {
        Seq::empty()
    } else if r.len() <= s.len() && 0 < n <= r.len() {
        seq![r.take(n as int)] + tokens(r.skip(n as int))
    } else {
        Seq::empty()
    }
}

/// All the sequences of `ts`, one after the other.
pub open spec fn concat_all(ts: Seq<Seq<char>>) -> Seq<char>
    decreases ts.len(),
{
    if ts.len() == 0 {
        Seq::empty()
    } else {
        ts[0] + concat_all(ts.drop_first())
    }
}

proof fn lemma_skip_spaces(s: Seq<char>)
    ensures
        s.len() >= skip_spaces(s).len(),
        skip_spaces(s) =~= s.skip(s.len() - skip_spaces(s).len()),
        skip_spaces(s).len() > 0 ==> !white_space(skip_spaces(s)[0]),
        forall|i: int| 0 <= i < s.len() - skip_spaces(s).len() ==> white_space(#[trigger] s[i]),
    decreases s.len(),
{
    if s.len() > 0 && white_space(s[0]) {
        lemma_skip_spaces(s.drop_first());
        assert forall|i: int| 0 <= i < s.len() - skip_spaces(s).len() implies white_space(
            #[trigger] s[i],
        ) by {
            if i > 0 {
                assert(s[i] == s.drop_first()[i - 1]);
            }
        }
    }
}

proof fn lemma_run_len(s: Seq<char>, k: RunKind)
    ensures
        run_len(s, k) <= s.len(),
        forall|i: int| 0 <= i < run_len(s, k) ==> in_run(k, #[trigger] s[i]),
    decreases s.len(),
{
    if s.len() > 0 && in_run(k, s[0]) {
        lemma_run_len(s.drop_first(), k);
        assert forall|i: int| 0 <= i < run_len(s, k) implies in_run(k, #[trigger] s[i]) by {
            if i > 0 {
                assert(s[i] == s.drop_first()[i - 1]);
            }
        }
    }
}

/// The tokens of `s`: the first of them and the rest.
pub proof fn lemma_tokens_unfold(s: Seq<char>)
    ensures
        skip_spaces(s).len() == 0 ==> tokens(s).len() == 0,
        skip_spaces(s).len() > 0 ==> {
            let r = skip_spaces(s);
            let n = token_len(r) as int;
            &&& 0 < n <= r.len() <= s.len()
            &&& tokens(s) == seq![r.take(n)] + tokens(r.skip(n))
        },
{
    lemma_skip_spaces(s);
    lemma_run_len(skip_spaces(s), RunKind::Word);
    lemma_run_len(skip_spaces(s), RunKind::Digits);
}

/// Input made of white space alone has no tokens.
pub proof fn lemma_white_space_only(s: Seq<char>)
    requires
        forall|i: int| 0 <= i < s.len() ==> white_space(#[trigger] s[i]),
    ensures
        tokens(s).len() == 0,
    decreases s.len(),
{
    if s.len() > 0 {
        assert forall|i: int| 0 <= i < s.drop_first().len() implies white_space(
            #[trigger] s.drop_first()[i],
        ) by {
            assert(s.drop_first()[i] == s[i + 1]);
        }
        lemma_white_space_only(s.drop_first());
        lemma_tokens_unfold(s.drop_first());
    }
    lemma_tokens_unfold(s);
}

/// The white-space-separated words of `s`, left to right.
pub open spec fn words(s: Seq<char>) -> Seq<Seq<char>>
    decreases s.len(),
{
    let r = skip_spaces(s);
    let n = run_len(r, RunKind::Word);
    if r.len() == 0 {
        Seq::empty()
    } else if r.len() <= s.len() && 0 < n <= r.len() {
        seq![r.take(n as int)] + words(r.skip(n as int))
    } else {
        Seq::empty()
    }
}

proof fn lemma_words_unfold(s: Seq<char>)
    ensures
        skip_spaces(s).len() == 0 ==> words(s).len() == 0,
        skip_spaces(s).len() > 0 ==> {
            let r = skip_spaces(s);
            let n = run_len(r, RunKind::Word) as int;
            &&& 0 < n <= r.len() <= s.len()
            &&& words(s) == seq![r.take(n)] + words(r.skip(n))
        },
{
    lemma_skip_spaces(s);
    lemma_run_len(skip_spaces(s), RunKind::Word);
}

/// A query made of white space alone has no words.
pub proof fn lemma_no_words(s: Seq<char>)
    requires
        forall|i: int| 0 <= i < s.len() ==> white_space(#[trigger] s[i]),
    ensures
        words(s).len() == 0,
{
    lemma_skip_spaces(s);
    lemma_words_unfold(s);
    if skip_spaces(s).len() > 0 {
        assert(skip_spaces(s)[0] == s[s.len() - skip_spaces(s).len()]);
    }
}

/// The white space that the tokenizer skips: the run before each token, and the one
/// after the last.
pub open spec fn gaps(s: Seq<char>) -> Seq<Seq<char>>
    decreases s.len(),
{
    let r = skip_spaces(s);
    let n = token_len(r);
    let w = s.take(s.len() - r.len());
    if r.len() == 0 {
        seq![s]
    } else if r.len() <= s.len() && 0 < n <= r.len() {
        seq![w] + gaps(r.skip(n as int))
    } else {
        seq![s]
    }
}

/// `gs[0] + ts[0] + gs[1] + ts[1] + ... + gs[k]`, where `k` is the length of `ts`.
pub open spec fn interleave(gs: Seq<Seq<char>>, ts: Seq<Seq<char>>) -> Seq<char>
    decreases ts.len(),
{
    if ts.len() == 0 || gs.len() == 0 {
        if gs.len() == 0 { Seq::empty() } else { gs[0] }
    } else {
        gs[0] + ts[0] + interleave(gs.drop_first(), ts.drop_first())
    }
}

/// The input is its tokens, in order, with runs of white space between them: no token
/// is empty, no two overlap, and together they are no longer than the input.
pub proof fn lemma_tokens_cover(s: Seq<char>)
    ensures
        gaps(s).len() == tokens(s).len() + 1,
        s == interleave(gaps(s), tokens(s)),
        forall|i: int, j: int|
            0 <= i < gaps(s).len() && 0 <= j < gaps(s)[i].len() ==> white_space(
                #[trigger] gaps(s)[i][j],
            ),
        forall|i: int| 0 <= i < tokens(s).len() ==> #[trigger] tokens(s)[i].len() > 0,
        concat_all(tokens(s)).len() <= s.len(),
    decreases s.len(),
{
    lemma_tokens_unfold(s);
    lemma_skip_spaces(s);
    let r = skip_spaces(s);
    let gs = gaps(s);
    let ts = tokens(s);
    if r.len() > 0 {
        let n = token_len(r) as int;
        let rest = r.skip(n);
        lemma_tokens_cover(rest);
        assert(ts.drop_first() =~= tokens(rest));
        assert(gs.drop_first() =~= gaps(rest));
        let w = s.take(s.len() - r.len());
        assert(s =~= w + r.take(n) + rest);
        assert forall|i: int, j: int|
            0 <= i < gs.len() && 0 <= j < gs[i].len() implies white_space(#[trigger] gs[i][j]) by {
            if i > 0 {
                assert(gs[i] == gaps(rest)[i - 1]);
            } else {
                assert(gs[0][j] == s[j]);
            }
        }
        assert forall|i: int| 0 <= i < ts.len() implies #[trigger] ts[i].len() > 0 by {
            if i > 0 {
                assert(ts[i] == tokens(rest)[i - 1]);
            }
        }
    } else {
        assert forall|i: int, j: int|
            0 <= i < gs.len() && 0 <= j < gs[i].len() implies white_space(#[trigger] gs[i][j]) by {
            assert(gs[0] == s);
        }
    }
}

/// A forward-only cursor over a character buffer that hands out its tokens.
pub struct Tokenizer<'a> {
    content: &'a [char],
}

impl<'a> View for Tokenizer<'a> {
    type V = Seq<char>;

    /// The part of the buffer not consumed yet.
    closed spec fn view(&self) -> Seq<char> {
        self.content@
    }
}

impl<'a> Tokenizer<'a> {
    pub fn new(content: &'a [char]) -> (t: Self)
        ensures
            t@ == content@,
    {
        Self { content }
    }

    fn trim_left(&mut self)
        ensures
            final(self)@ == skip_spaces(old(self)@),
    {
        while self.content.len() > 0 && is_space(self.content[0])
            invariant
                skip_spaces(self@) == skip_spaces(old(self)@),
            decreases self@.len(),
        {
            assert(self.content@.subrange(1, self.content@.len() as int)
                =~= self.content@.drop_first());
            self.content = &self.content[1..self.content.len()];
        }
    }

    fn chop(&mut self, n: usize) -> (token: &'a [char])
        requires
            n <= old(self)@.len(),
        ensures
            token@ == old(self)@.take(n as int),
            final(self)@ == old(self)@.skip(n as int),
    {
        let content: &'a [char] = self.content;
        let token = &content[0..n];
        self.content = &content[n..content.len()];
        assert(token@ =~= old(self)@.take(n as int));
        assert(self@ =~= old(self)@.skip(n as int));
        token
    }

    fn chop_while(&mut self, k: RunKind) -> (token: &'a [char])
        ensures
            token@ == old(self)@.take(run_len(old(self)@, k) as int),
            final(self)@ == old(self)@.skip(run_len(old(self)@, k) as int),
    {
        let ghost s = self@;
        let mut n: usize = 0;
        assert(s.skip(0) =~= s);
        while n < self.content.len() && k.holds_for(self.content[n])
            invariant
                self@ == s,
                n <= s.len(),
                run_len(s, k) == n + run_len(s.skip(n as int), k),
            decreases s.len() - n,
        {
            assert(s.skip(n as int).drop_first() =~= s.skip(n + 1));
            n += 1;
        }
        self.chop(n)
    }

    /// Hands out the next white-space-separated word, or `None` once the buffer holds
    /// white space alone.
    pub fn next_word(&mut self) -> (r: Option<&'a [char]>)
        ensures
            words(old(self)@).len() == 0 ==> r is None && words(final(self)@).len() == 0,
            words(old(self)@).len() > 0 ==> {
                &&& r is Some
                &&& r->0@ == words(old(self)@)[0]
                &&& words(final(self)@) == words(old(self)@).drop_first()
                &&& final(self)@.len() < old(self)@.len()
            },
            final(self)@.len() <= old(self)@.len(),
    {
        proof {
            lemma_words_unfold(self@);
        }
        self.trim_left();
        if self.content.len() == 0 {
            proof {
                lemma_words_unfold(self@);
            }
            return None;
        }
        let ghost ws = words(old(self)@);
        let word = self.chop_while(RunKind::Word);
        assert(ws.drop_first() =~= words(self@));
        Some(word)
    }

    /// Hands out the next token, or `None` once the buffer holds white space alone.
    pub fn next(&mut self) -> (r: Option<&'a [char]>)
        ensures
            tokens(old(self)@).len() == 0 ==> r is None && tokens(final(self)@).len() == 0,
            tokens(old(self)@).len() > 0 ==> {
                &&& r is Some
                &&& r->0@ == tokens(old(self)@)[0]
                &&& tokens(final(self)@) == tokens(old(self)@).drop_first()
                &&& 0 < r->0@.len()
                &&& final(self)@.len() + r->0@.len() <= old(self)@.len()
            },
            final(self)@.len() <= old(self)@.len(),
    {
        proof {
            lemma_tokens_unfold(self@);
        }
        self.trim_left();
        if self.content.len() == 0 {
            proof {
                lemma_tokens_unfold(self@);
            }
            return None;
        }
        let ghost r = self@;
        let ghost ts = tokens(old(self)@);
        if is_alpha(self.content[0]) {
            let token = self.chop_while(RunKind::Word);
            assert(ts.drop_first() =~= tokens(self@));
            return Some(token);
        }
        if is_digit(self.content[0]) {
            let token = self.chop_while(RunKind::Digits);
            assert(ts.drop_first() =~= tokens(self@));
            return Some(token);
        }
        let token = self.chop(1);
        assert(ts.drop_first() =~= tokens(self@));
        Some(token)
    }
}

} // verus!
