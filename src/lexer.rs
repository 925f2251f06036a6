//! Splits text into tokens, recording the whitespace in front of each one.
use vstd::prelude::*;
use vstd::string::StringExecFns;

verus! {

/// The class of a character, which decides how it is grouped into lexemes.
#[derive(Clone, Copy, Debug, PartialEq, Eq, Structural)]
pub enum Category {
    Letter,
    Digit,
    Symbol,
    Whitespace,
}

/// The Unicode `Alphabetic` property, which `char::is_alphabetic` consults
/// for characters beyond ASCII.
pub uninterp spec fn alphabetic(c: char) -> bool;

/// The Unicode `White_Space` property, which `char::is_whitespace` consults
/// for characters beyond ASCII.
pub uninterp spec fn white_space(c: char) -> bool;

/// What `char::is_alphabetic` returns: ASCII letters, and the characters
/// beyond ASCII that have the `Alphabetic` property.
pub open spec fn is_letter(c: char) -> bool {
    ('a' <= c && c <= 'z') || ('A' <= c && c <= 'Z') || ((c as u32) > 127 && alphabetic(c))
}

/// What `char::is_whitespace` returns: the space and `\t..=\r`, and the
/// characters beyond ASCII that have the `White_Space` property.
pub open spec fn is_space(c: char) -> bool {
    c == ' ' || ('\t' <= c && c <= '\r') || ((c as u32) > 127 && white_space(c))
}

/// Relies on `char::is_alphabetic`, whose source answers `a..=z` and
/// `A..=Z` itself and asks the `Alphabetic` table beyond ASCII.
#[verifier::external_body]
fn is_alphabetic(c: char) -> (r: bool)
    ensures
        r == (('a' <= c && c <= 'z') || ('A' <= c && c <= 'Z') || ((c as u32) > 127 && alphabetic(c))),
{
    c.is_alphabetic()
}

/// Relies on `char::is_whitespace`, whose source answers `' '` and
/// `\t..=\r` itself and asks the `White_Space` table beyond ASCII.
#[verifier::external_body]
fn is_whitespace(c: char) -> (r: bool)
    ensures
        r == (c == ' ' || ('\t' <= c && c <= '\r') || ((c as u32) > 127 && white_space(c))),
{
    c.is_whitespace()
}

pub open spec fn is_digit(c: char) -> bool {
    '0' <= c && c <= '9'
}

pub open spec fn category_of(c: char) -> Category {
    if is_letter(c) || c == '_' {
        Category::Letter
    } else if is_digit(c) || c == '.' {
        Category::Digit
    } else if is_space(c) {
        Category::Whitespace
    } else {
        Category::Symbol
    }
}

impl Category {
    /// Classifies one character.
    pub fn of(c: char) -> (r: Category)
        ensures
            r == category_of(c),
    {
        if is_alphabetic(c) || c == '_' {
            Category::Letter
        } else if ('0' <= c && c <= '9') || c == '.' {
            Category::Digit
        } else if is_whitespace(c) {
            Category::Whitespace
        } else {
            Category::Symbol
        }
    }
}

/// The end of the longest run of characters of class `cat` that starts at `i`.
pub open spec fn run_end(s: Seq<char>, i: int, cat: Category) -> int
    decreases s.len() - i,
{
    if 0 <= i < s.len() && category_of(s[i]) == cat {
        run_end(s, i + 1, cat)
    } else {
        i
    }
}

pub proof fn lemma_run_end_bounds(s: Seq<char>, i: int, cat: Category)
    requires
        0 <= i <= s.len(),
    ensures
        i <= run_end(s, i, cat) <= s.len(),
        forall|j: int| i <= j < run_end(s, i, cat) ==> category_of(#[trigger] s[j]) == cat,
    decreases s.len() - i,
{
    if i < s.len() && category_of(s[i]) == cat {
        lemma_run_end_bounds(s, i + 1, cat);
    }
}

/// Returns the end of the longest run of characters of class `category`
/// that starts at `start`.
pub fn gobble(category: Category, chars: &Vec<char>, start: usize) -> (end: usize)
    requires
        start <= chars@.len(),
    ensures
        end == run_end(chars@, start as int, category),
{
    let mut i: usize = start;
    while i < chars.len() && Category::of(chars[i]) == category
        invariant
            start <= i <= chars@.len(),
            run_end(chars@, i as int, category) == run_end(chars@, start as int, category),
        decreases chars@.len() - i,
    {
        i = i + 1;
    }
    i
}

pub open spec fn digit_seq(t: Seq<char>) -> bool {
    forall|i: int| 0 <= i < t.len() ==> is_digit(#[trigger] t[i])
}

/// `t` is a numeral with its one decimal point at `k`.
pub open spec fn point_at(t: Seq<char>, k: int) -> bool {
    &&& 0 <= k < t.len()
    &&& t[k] == '.'
    &&& t.len() >= 2
    &&& digit_seq(t.take(k))
    &&& digit_seq(t.skip(k + 1))
}

pub open spec fn digit_value(c: char) -> u8 {
    (c as u32 - '0' as u32) as u8
}

pub open spec fn digit_values(t: Seq<char>) -> Seq<u8> {
    t.map_values(|c: char| digit_value(c))
}

/// The digits before and after the point of a well-formed numeral: digits
/// with at most one `.`, and a digit on at least one side of it.
pub open spec fn numeral_parts(t: Seq<char>) -> Option<(Seq<u8>, Seq<u8>)> {
    if t.len() > 0 && digit_seq(t) {
        Some((digit_values(t), Seq::empty()))
    } else if exists|k: int| point_at(t, k) {
        let k = choose|k: int| point_at(t, k);
        Some((digit_values(t.take(k)), digit_values(t.skip(k + 1))))
    } else {
        None
    }
}

/// The number that a digit sequence writes, most significant digit first.
pub open spec fn digits_value(d: Seq<u8>) -> nat
    decreases d.len(),
{
    if d.len() == 0 {
        0
    } else {
        digits_value(d.drop_last()) * 10 + d.last() as nat
    }
}

/// A decimal number as written: the digits before the point and after it.
/// Its value is `numerator() / 10^scale()`.
pub struct Numeral {
    whole: Vec<u8>,
    fraction: Vec<u8>,
}

impl Numeral {
    pub closed spec fn whole(&self) -> Seq<u8> {
        self.whole@
    }

    pub closed spec fn fraction(&self) -> Seq<u8> {
        self.fraction@
    }

    pub open spec fn numerator(&self) -> nat {
        digits_value(self.whole() + self.fraction())
    }

    pub open spec fn scale(&self) -> nat {
        self.fraction().len()
    }

    #[verifier::type_invariant]
    closed spec fn digits_in_range(&self) -> bool {
        &&& forall|i: int| 0 <= i < self.whole@.len() ==> #[trigger] self.whole@[i] <= 9
        &&& forall|i: int| 0 <= i < self.fraction@.len() ==> #[trigger] self.fraction@[i] <= 9
    }

    /// The digits before the point, most significant first.
    pub fn whole_digits(&self) -> (r: Vec<u8>)
        ensures
            r@ == self.whole(),
    {
        copy_digits(&self.whole)
    }

    /// The digits after the point, most significant first.
    pub fn fraction_digits(&self) -> (r: Vec<u8>)
        ensures
            r@ == self.fraction(),
    {
        copy_digits(&self.fraction)
    }

    pub fn duplicate(&self) -> (r: Numeral)
        ensures
            r.whole() == self.whole(),
            r.fraction() == self.fraction(),
    {
        proof {
            use_type_invariant(self);
        }
        Numeral { whole: copy_digits(&self.whole), fraction: copy_digits(&self.fraction) }
    }
}

fn copy_digits(v: &Vec<u8>) -> (r: Vec<u8>)
    ensures
        r@ == v@,
{
    let mut r: Vec<u8> = Vec::new();
    let mut i: usize = 0;
    while i < v.len()
        invariant
            i <= v@.len(),
            r@ == v@.take(i as int),
        decreases v@.len() - i,
    {
        r.push(v[i]);
        i = i + 1;
        assert(r@ =~= v@.take(i as int));
    }
    assert(r@ =~= v@);
    r
}

/// The digit values of `chars[from..to]`, which are all digits.
fn digits_between(chars: &Vec<char>, from: usize, to: usize) -> (r: Vec<u8>)
    requires
        from <= to <= chars@.len(),
        digit_seq(chars@.subrange(from as int, to as int)),
    ensures
        r@ == digit_values(chars@.subrange(from as int, to as int)),
        forall|i: int| 0 <= i < r@.len() ==> #[trigger] r@[i] <= 9,
{
    let ghost t = chars@.subrange(from as int, to as int);
    let mut r: Vec<u8> = Vec::new();
    let mut i: usize = from;
    while i < to
        invariant
            from <= i <= to <= chars@.len(),
            t == chars@.subrange(from as int, to as int),
            digit_seq(t),
            r@ == digit_values(t.take(i - from)),
            forall|j: int| 0 <= j < r@.len() ==> #[trigger] r@[j] <= 9,
        decreases to - i,
    {
        let c = chars[i];
        assert(t[i - from] == c);
        assert(is_digit(c));
        r.push((c as u32 - '0' as u32) as u8);
        i = i + 1;
        assert(r@ =~= digit_values(t.take(i - from)));
    }
    assert(t.take(to - from) =~= t);
    r
}

/// Reads `chars[from..to]` as a numeral; `None` where it is not well formed.
fn read_numeral(chars: &Vec<char>, from: usize, to: usize) -> (r: Option<Numeral>)
    requires
        from <= to <= chars@.len(),
    ensures
        match numeral_parts(chars@.subrange(from as int, to as int)) {
            Some((w, f)) => r matches Some(n) && n.whole() == w && n.fraction() == f,
            None => r is None,
        },
{
    let ghost t = chars@.subrange(from as int, to as int);
    let mut point: Option<usize> = None;
    let mut i: usize = from;
    while i < to
        invariant
            from <= i <= to <= chars@.len(),
            t == chars@.subrange(from as int, to as int),
            match point {
                None => digit_seq(t.take(i - from)),
                Some(p) => from <= p < i && t[p - from] == '.' && digit_seq(t.take(p - from))
                    && forall|j: int| p - from < j < i - from ==> is_digit(#[trigger] t[j]),
            },
        decreases to - i,
    {
        let c = chars[i];
        assert(t[i - from] == c);
        if '0' <= c && c <= '9' {
        } else if c == '.' && point.is_none() {
            point = Some(i);
        } else {
            proof {
                assert(!digit_seq(t)) by {
                    assert(!is_digit(t[i - from]));
                }
                if c == '.' {
                    let p = point->Some_0;
                    assert forall|k: int| !point_at(t, k) by {
                        if point_at(t, k) {
                            if k < p - from {
                                assert(t.skip(k + 1)[p - from - k - 1] == t[p - from]);
                            } else if k == p - from {
                                assert(t.skip(k + 1)[i - from - k - 1] == t[i - from]);
                            } else {
                                assert(t.take(k)[p - from] == t[p - from]);
                            }
                        }
                    }
                } else {
                    assert forall|k: int| !point_at(t, k) by {
                        if point_at(t, k) {
                            if k < i - from {
                                assert(t.skip(k + 1)[i - from - k - 1] == t[i - from]);
                            } else if k > i - from {
                                assert(t.take(k)[i - from] == t[i - from]);
                            }
                        }
                    }
                }
            }
            return None;
        }
        i = i + 1;
        proof {
            match point {
                None => {
                    assert forall|j: int| 0 <= j < i - from implies is_digit(#[trigger] t.take(i - from)[j]) by {
                        if j < i - from - 1 {
                            assert(t.take(i - from)[j] == t.take(i - from - 1)[j]);
                        }
                    }
                }
                Some(p) => {}
            }
        }
    }
    match point {
        None => {
            assert(t.take(to - from) =~= t);
            if from == to {
                assert(!point_at(t, 0));
                assert(forall|k: int| !point_at(t, k));
                return None;
            }
            let whole = digits_between(chars, from, to);
            Some(Numeral { whole, fraction: Vec::new() })
        }
        Some(p) => {
            assert(!digit_seq(t)) by {
                assert(!is_digit(t[p - from]));
            }
            let ghost k = p - from;
            assert(t.take(k) =~= chars@.subrange(from as int, p as int));
            assert(t.skip(k + 1) =~= chars@.subrange(p + 1, to as int));
            assert forall|j: int| 0 <= j < t.skip(k + 1).len() implies is_digit(#[trigger] t.skip(k + 1)[j]) by {
                assert(t.skip(k + 1)[j] == t[k + 1 + j]);
            }
            if to - from < 2 {
                assert(forall|k: int| !point_at(t, k));
                return None;
            }
            assert(point_at(t, k));
            assert forall|k2: int| point_at(t, k2) implies k2 == k by {
                if k2 < k {
                    assert(t.skip(k2 + 1)[k - k2 - 1] == t[k]);
                } else if k2 > k {
                    assert(t.take(k2)[k] == t[k]);
                }
            }
            let whole = digits_between(chars, from, p);
            let fraction = digits_between(chars, p + 1, to);
            Some(Numeral { whole, fraction })
        }
    }
}

/// A lexical failure: `start..end` holds digits and points that do not
/// form a numeral.
#[derive(Clone, Copy, Debug, PartialEq, Eq, Structural)]
pub struct LexError {
    pub start: usize,
    pub end: usize,
}

/// A token as a mathematical value, with the whitespace count before it.
pub enum TokenView {
    Number(Seq<u8>, Seq<u8>, nat),
    Symbol(char, nat),
    Word(Seq<char>, nat),
}

/// A lexical token, with the number of whitespace characters before it.
pub enum Token {
    Number(Numeral, usize),
    Symbol(char, usize),
    Word(Vec<char>, usize),
}

impl View for Token {
    type V = TokenView;

    open spec fn view(&self) -> TokenView {
        match self {
            Token::Number(n, s) => TokenView::Number(n.whole(), n.fraction(), *s as nat),
            Token::Symbol(c, s) => TokenView::Symbol(*c, *s as nat),
            Token::Word(w, s) => TokenView::Word(w@, *s as nat),
        }
    }
}

impl TokenView {
    pub open spec fn spacing(self) -> nat {
        match self {
            TokenView::Number(_, _, s) => s,
            TokenView::Symbol(_, s) => s,
            TokenView::Word(_, s) => s,
        }
    }
}

impl Token {
    /// The number of whitespace characters before the token.
    pub fn spacing(&self) -> (r: usize)
        ensures
            r == self@.spacing(),
    {
        match self {
            Token::Number(_, s) => *s,
            Token::Symbol(_, s) => *s,
            Token::Word(_, s) => *s,
        }
    }

    pub fn duplicate(&self) -> (r: Token)
        ensures
            r@ == self@,
    {
        match self {
            Token::Number(n, s) => Token::Number(n.duplicate(), *s),
            Token::Symbol(c, s) => Token::Symbol(*c, *s),
            Token::Word(w, s) => {
                let copy = copy_chars(w, 0, w.len());
                assert(copy@ =~= w@);
                Token::Word(copy, *s)
            },
        }
    }
}

fn copy_chars(v: &Vec<char>, from: usize, to: usize) -> (r: Vec<char>)
    requires
        from <= to <= v@.len(),
    ensures
        r@ == v@.subrange(from as int, to as int),
{
    let mut r: Vec<char> = Vec::new();
    let mut i: usize = from;
    while i < to
        invariant
            from <= i <= to <= v@.len(),
            r@ == v@.subrange(from as int, i as int),
        decreases to - i,
    {
        r.push(v[i]);
        i = i + 1;
        assert(r@ =~= v@.subrange(from as int, i as int));
    }
    r
}

/// The token that starts after the whitespace at `i` in `s`, with the
/// position just past it; `None` where only whitespace is left.
pub open spec fn token_at(s: Seq<char>, i: int) -> Result<Option<(TokenView, int)>, LexError> {
    let j = run_end(s, i, Category::Whitespace);
    let spacing = (j - i) as nat;
    if j >= s.len() {
        Ok(None)
    } else {
        match category_of(s[j]) {
            Category::Letter => {
                let k = run_end(s, j, Category::Letter);
                Ok(Some((TokenView::Word(s.subrange(j, k), spacing), k)))
            },
            Category::Digit => {
                let k = run_end(s, j, Category::Digit);
                match numeral_parts(s.subrange(j, k)) {
                    Some((w, f)) => Ok(Some((TokenView::Number(w, f, spacing), k))),
                    None => Err(LexError { start: j as usize, end: k as usize }),
                }
            },
            _ => Ok(Some((TokenView::Symbol(s[j], spacing), j + 1))),
        }
    }
}

pub proof fn lemma_token_at_advances(s: Seq<char>, i: int)
    requires
        0 <= i <= s.len(),
    ensures
        token_at(s, i) matches Ok(Some((_, k))) ==> i < k <= s.len(),
{
    let j = run_end(s, i, Category::Whitespace);
    lemma_run_end_bounds(s, i, Category::Whitespace);
    if j < s.len() {
        if category_of(s[j]) == Category::Letter {
            lemma_run_end_bounds(s, j, Category::Letter);
            assert(run_end(s, j, Category::Letter) == run_end(s, j + 1, Category::Letter));
            lemma_run_end_bounds(s, j + 1, Category::Letter);
        } else if category_of(s[j]) == Category::Digit {
            assert(run_end(s, j, Category::Digit) == run_end(s, j + 1, Category::Digit));
            lemma_run_end_bounds(s, j + 1, Category::Digit);
        }
    }
}

/// A stream of tokens read from a text, one token of lookahead at a time.
pub struct Tokens {
    chars: Vec<char>,
    /// Where the first token not yet handed out begins.
    pos: usize,
    /// The token at `pos`, once `peek` has read it, and where it ends.
    peeked: Option<(Token, usize)>,
}

impl Tokens {
    /// The text being read.
    pub closed spec fn text(&self) -> Seq<char> {
        self.chars@
    }

    /// How far the tokens handed out so far reach into the text.
    pub closed spec fn position(&self) -> int {
        self.pos as int
    }

    pub closed spec fn wf(&self) -> bool {
        &&& self.pos <= self.chars@.len()
        &&& match self.peeked {
            Some((t, e)) => token_at(self.chars@, self.pos as int) == Ok::<_, LexError>(
                Some((t@, e as int)),
            ),
            None => true,
        }
    }

    pub proof fn lemma_position(&self)
        requires
            self.wf(),
        ensures
            0 <= self.position() <= self.text().len(),
    {
    }

    /// Starts reading `string` from its beginning.
    pub fn new(string: &str) -> (r: Tokens)
        ensures
            r.wf(),
            r.text() == string@,
            r.position() == 0,
    {
        let n = string.unicode_len();
        let mut chars: Vec<char> = Vec::new();
        let mut i: usize = 0;
        while i < n
            invariant
                n == string@.len(),
                i <= n,
                chars@ == string@.take(i as int),
            decreases n - i,
        {
            chars.push(string.get_char(i));
            i = i + 1;
            assert(chars@ =~= string@.take(i as int));
        }
        assert(chars@ =~= string@);
        Tokens { chars, pos: 0, peeked: None }
    }

    /// Reads the token at `pos` without touching the lookahead.
    fn read(&self) -> (r: Result<Option<(Token, usize)>, LexError>)
        requires
            self.pos <= self.chars@.len(),
        ensures
            match token_at(self.chars@, self.pos as int) {
                Ok(None) => r == Ok::<Option<(Token, usize)>, LexError>(None),
                Ok(Some((t, k))) => r matches Ok(Some((t2, k2))) && t2@ == t && k2 == k,
                Err(e) => r == Err::<Option<(Token, usize)>, LexError>(e),
            },
    {
        let ghost s = self.chars@;
        let i = self.pos;
        let j = gobble(Category::Whitespace, &self.chars, i);
        proof {
            lemma_run_end_bounds(s, i as int, Category::Whitespace);
        }
        if j >= self.chars.len() {
            return Ok(None);
        }
        let spacing = j - i;
        let first = self.chars[j];
        match Category::of(first) {
            Category::Letter => {
                let k = gobble(Category::Letter, &self.chars, j);
                proof {
                    lemma_run_end_bounds(s, j as int, Category::Letter);
                }
                Ok(Some((Token::Word(copy_chars(&self.chars, j, k), spacing), k)))
            },
            Category::Digit => {
                let k = gobble(Category::Digit, &self.chars, j);
                proof {
                    lemma_run_end_bounds(s, j as int, Category::Digit);
                }
                match read_numeral(&self.chars, j, k) {
                    Some(n) => Ok(Some((Token::Number(n, spacing), k))),
                    None => Err(LexError { start: j, end: k }),
                }
            },
            _ => Ok(Some((Token::Symbol(first, spacing), j + 1))),
        }
    }

    /// Hands out the next token and moves past it; `Ok(None)` at the end of
    /// the text.
    pub fn next(&mut self) -> (r: Result<Option<Token>, LexError>)
        requires
            old(self).wf(),
        ensures
            final(self).wf(),
            final(self).text() == old(self).text(),
            match token_at(old(self).text(), old(self).position()) {
                Ok(None) => r == Ok::<Option<Token>, LexError>(None) && final(self).position()
                    == old(self).position(),
                Ok(Some((t, k))) => r matches Ok(Some(t2)) && t2@ == t && final(self).position()
                    == k,
                Err(e) => r == Err::<Option<Token>, LexError>(e) && final(self).position()
                    == old(self).position(),
            },
    {
        proof {
            lemma_token_at_advances(self.chars@, self.pos as int);
        }
        let peeked = self.peeked.take();
        match peeked {
            Some((t, e)) => {
                self.pos = e;
                Ok(Some(t))
            },
            None => match self.read() {
                Ok(Some((t, k))) => {
                    self.pos = k;
                    Ok(Some(t))
                },
                Ok(None) => Ok(None),
                Err(e) => Err(e),
            },
        }
    }

    /// Returns the next token without moving past it: the following `next`
    /// hands out the same token.
    pub fn peek(&mut self) -> (r: Result<Option<Token>, LexError>)
        requires
            old(self).wf(),
        ensures
            final(self).wf(),
            final(self).text() == old(self).text(),
            final(self).position() == old(self).position(),
            match token_at(old(self).text(), old(self).position()) {
                Ok(None) => r == Ok::<Option<Token>, LexError>(None),
                Ok(Some((t, k))) => r matches Ok(Some(t2)) && t2@ == t,
                Err(e) => r == Err::<Option<Token>, LexError>(e),
            },
    {
        match &self.peeked {
            Some((t, _)) => {
                return Ok(Some(t.duplicate()));
            },
            None => {},
        }
        match self.read() {
            Ok(Some((t, k))) => {
                let copy = t.duplicate();
                self.peeked = Some((t, k));
                Ok(Some(copy))
            },
            Ok(None) => Ok(None),
            Err(e) => Err(e),
        }
    }
}

pub open spec fn digit_char(d: u8) -> char {
    if d == 0 {
        '0'
    } else if d == 1 {
        '1'
    } else if d == 2 {
        '2'
    } else if d == 3 {
        '3'
    } else if d == 4 {
        '4'
    } else if d == 5 {
        '5'
    } else if d == 6 {
        '6'
    } else if d == 7 {
        '7'
    } else if d == 8 {
        '8'
    } else {
        '9'
    }
}

pub open spec fn digit_text(d: Seq<u8>) -> Seq<char> {
    d.map_values(|x: u8| digit_char(x))
}

pub open spec fn trim_leading_zeros(d: Seq<u8>) -> Seq<u8>
    decreases d.len(),
{
    if d.len() > 0 && d[0] == 0 {
        trim_leading_zeros(d.drop_first())
    } else {
        d
    }
}

pub open spec fn trim_trailing_zeros(d: Seq<u8>) -> Seq<u8>
    decreases d.len(),
{
    if d.len() > 0 && d.last() == 0 {
        trim_trailing_zeros(d.drop_last())
    } else {
        d
    }
}

/// The shortest decimal text of a numeral: no leading zeros before the
/// point (but one `0` for a zero whole part), no trailing zeros after it,
/// and no point where nothing follows it.
pub open spec fn numeral_text(whole: Seq<u8>, fraction: Seq<u8>) -> Seq<char> {
    let w = trim_leading_zeros(whole);
    let f = trim_trailing_zeros(fraction);
    (if w.len() == 0 {
        seq!['0']
    } else {
        digit_text(w)
    }) + (if f.len() == 0 {
        Seq::empty()
    } else {
        seq!['.'] + digit_text(f)
    })
}

fn digit_str(d: u8) -> (r: &'static str)
    requires
        d <= 9,
    ensures
        r@ == seq![digit_char(d)],
{
    proof {
        reveal_strlit("0");
        reveal_strlit("1");
        reveal_strlit("2");
        reveal_strlit("3");
        reveal_strlit("4");
        reveal_strlit("5");
        reveal_strlit("6");
        reveal_strlit("7");
        reveal_strlit("8");
        reveal_strlit("9");
    }
    if d == 0 {
        "0"
    } else if d == 1 {
        "1"
    } else if d == 2 {
        "2"
    } else if d == 3 {
        "3"
    } else if d == 4 {
        "4"
    } else if d == 5 {
        "5"
    } else if d == 6 {
        "6"
    } else if d == 7 {
        "7"
    } else if d == 8 {
        "8"
    } else {
        "9"
    }
}

fn append_digits(out: &mut String, d: &Vec<u8>, from: usize, to: usize)
    requires
        from <= to <= d@.len(),
        forall|i: int| 0 <= i < d@.len() ==> #[trigger] d@[i] <= 9,
    ensures
        final(out)@ == old(out)@ + digit_text(d@.subrange(from as int, to as int)),
{
    let mut i: usize = from;
    while i < to
        invariant
            from <= i <= to <= d@.len(),
            forall|i: int| 0 <= i < d@.len() ==> #[trigger] d@[i] <= 9,
            out@ == old(out)@ + digit_text(d@.subrange(from as int, i as int)),
        decreases to - i,
    {
        out.append(digit_str(d[i]));
        proof {
            assert(digit_text(d@.subrange(from as int, i + 1)) =~= digit_text(
                d@.subrange(from as int, i as int),
            ).push(digit_char(d@[i as int])));
        }
        i = i + 1;
        assert(out@ =~= old(out)@ + digit_text(d@.subrange(from as int, i as int)));
    }
}

impl Numeral {
    /// Appends the shortest decimal text of the numeral to `out`.
    pub fn render_into(&self, out: &mut String)
        ensures
            final(out)@ == old(out)@ + numeral_text(self.whole(), self.fraction()),
    {
        proof {
            use_type_invariant(self);
        }
        let ghost w = self.whole@;
        let ghost f = self.fraction@;
        let mut a: usize = 0;
        assert(w.skip(0) =~= w);
        while a < self.whole.len() && self.whole[a] == 0
            invariant
                a <= w.len(),
                w == self.whole@,
                trim_leading_zeros(w) == trim_leading_zeros(w.skip(a as int)),
            decreases w.len() - a,
        {
            assert(w.skip(a as int).drop_first() =~= w.skip(a + 1));
            a = a + 1;
        }
        assert(trim_leading_zeros(w) == w.skip(a as int));
        let mut b: usize = self.fraction.len();
        assert(f.take(f.len() as int) =~= f);
        while b > 0 && self.fraction[b - 1] == 0
            invariant
                b <= f.len(),
                f == self.fraction@,
                trim_trailing_zeros(f) == trim_trailing_zeros(f.take(b as int)),
            decreases b,
        {
            assert(f.take(b as int).drop_last() =~= f.take(b - 1));
            b = b - 1;
        }
        assert(trim_trailing_zeros(f) == f.take(b as int));
        let ghost start = out@;
        if a == self.whole.len() {
            proof {
                reveal_strlit("0");
            }
            out.append("0");
            assert(out@ =~= start + seq!['0']);
        } else {
            append_digits(out, &self.whole, a, self.whole.len());
            assert(w.subrange(a as int, w.len() as int) =~= w.skip(a as int));
        }
        let ghost mid = out@;
        if b > 0 {
            proof {
                reveal_strlit(".");
            }
            out.append(".");
            append_digits(out, &self.fraction, 0, b);
            assert(f.subrange(0, b as int) =~= f.take(b as int));
            assert(out@ =~= mid + (seq!['.'] + digit_text(f.take(b as int))));
        } else {
            assert(out@ =~= mid + Seq::<char>::empty());
        }
        assert(out@ =~= old(out)@ + numeral_text(self.whole(), self.fraction()));
    }
}

/// The run of class `cat` from `i` ends at `j` when every character in
/// between has that class and the one at `j` does not.
pub proof fn lemma_run_end_exact(s: Seq<char>, i: int, j: int, cat: Category)
    requires
        0 <= i <= j <= s.len(),
        forall|m: int| i <= m < j ==> category_of(#[trigger] s[m]) == cat,
        j == s.len() || category_of(s[j]) != cat,
    ensures
        run_end(s, i, cat) == j,
    decreases j - i,
{
    if i < j {
        lemma_run_end_exact(s, i + 1, j, cat);
    }
}

/// Digits with at most one point, and a digit on at least one side of it.
pub open spec fn is_decimal_numeral(t: Seq<char>) -> bool {
    (t.len() > 0 && digit_seq(t)) || exists|k: int| point_at(t, k)
}

proof fn lemma_point_unique(t: Seq<char>, k1: int, k2: int)
    requires
        point_at(t, k1),
        point_at(t, k2),
    ensures
        k1 == k2,
{
    if k1 < k2 {
        assert(t.take(k2)[k1] == t[k1]);
    } else if k2 < k1 {
        assert(t.take(k1)[k2] == t[k2]);
    }
}

/// A decimal numeral read alone is a single number token with no spacing,
/// whose digits before and after the point are those of the numeral.
pub proof fn lemma_numeral_round_trip(t: Seq<char>)
    requires
        is_decimal_numeral(t),
    ensures
        token_at(t, 0) matches Ok(Some((TokenView::Number(w, f, sp), k))) && sp == 0 && k == t.len()
            && (digit_seq(t) ==> w == digit_values(t) && f.len() == 0)
            && (forall|p: int| point_at(t, p) ==> w == digit_values(t.take(p)) && f == digit_values(t.skip(p + 1))),
        token_at(t, t.len() as int) == Ok::<Option<(TokenView, int)>, LexError>(None),
{
    assert forall|m: int| 0 <= m < t.len() implies category_of(#[trigger] t[m]) == Category::Digit by {
        if !digit_seq(t) {
            let k = choose|k: int| point_at(t, k);
            if m < k {
                assert(t.take(k)[m] == t[m]);
            } else if m > k {
                assert(t.skip(k + 1)[m - k - 1] == t[m]);
            }
        }
        assert(is_digit(t[m]) || t[m] == '.');
    }
    assert(t.len() > 0);
    lemma_run_end_exact(t, 0, 0, Category::Whitespace);
    lemma_run_end_exact(t, 0, t.len() as int, Category::Digit);
    lemma_run_end_exact(t, t.len() as int, t.len() as int, Category::Whitespace);
    assert(t.subrange(0, t.len() as int) =~= t);
    if !digit_seq(t) {
        let k = choose|k: int| point_at(t, k);
        assert forall|p: int| point_at(t, p) implies p == k by {
            lemma_point_unique(t, p, k);
        }
    }
}

} // verus!
