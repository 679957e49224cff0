use vstd::prelude::*;

verus! {

/// Bytes that belong to a word: ASCII letters and digits.
pub open spec fn is_word_byte(c: u8) -> bool {
    (48 <= c <= 57) || (65 <= c <= 90) || (97 <= c <= 122)
}

/// Case folding of one byte of a word.
pub open spec fn fold_byte(c: u8, lower: bool) -> u8 {
    if lower && 65 <= c <= 90 {
        (c + 32) as u8
    } else {
        c
    }
}

/// Scanning state after reading `text`: the finished words and the word in progress.
pub open spec fn scan(text: Seq<u8>, lower: bool) -> (Seq<Seq<u8>>, Seq<u8>)
    decreases text.len(),
{
    if text.len() == 0 {
        (Seq::empty(), Seq::empty())
    } else {
        let prior = scan(text.drop_last(), lower);
        let c = text.last();
        if is_word_byte(c) {
            (prior.0, prior.1.push(fold_byte(c, lower)))
        } else if prior.1.len() > 0 {
            (prior.0.push(prior.1), Seq::empty())
        } else {
            prior
        }
    }
}

/// The maximal runs of word bytes in `text`, in order, case-folded if asked.
pub open spec fn words(text: Seq<u8>, lower: bool) -> Seq<Seq<u8>> {
    let s = scan(text, lower);
    if s.1.len() > 0 {
        s.0.push(s.1)
    } else {
        s.0
    }
}

pub struct TokenView {
    pub term: Seq<u8>,
    pub position: u32,
}

/// A term of a text and the index of its word among all the text's words.
#[derive(Debug)]
pub struct Token {
    pub term: Vec<u8>,
    pub position: u32,
}

impl View for Token {
    type V = TokenView;

    open spec fn view(&self) -> TokenView {
        TokenView { term: self.term@, position: self.position }
    }
}

/// The words that are not stop words, each with its index among all words.
pub open spec fn tokens_of(ws: Seq<Seq<u8>>, stop: Seq<Seq<u8>>) -> Seq<TokenView>
    decreases ws.len(),
{
    if ws.len() == 0 {
        Seq::empty()
    } else {
        let rest = tokens_of(ws.drop_last(), stop);
        if stop.contains(ws.last()) {
            rest
        } else {
            rest.push(TokenView { term: ws.last(), position: (ws.len() - 1) as u32 })
        }
    }
}

/// Tokenizer settings: case folding and a stop-word list (compared after folding).
pub struct TokenizerConfig {
    pub lower_case: bool,
    pub stop_words: Vec<Vec<u8>>,
}

impl TokenizerConfig {
    pub open spec fn stop_view(&self) -> Seq<Seq<u8>> {
        byte_strings(self.stop_words@)
    }

    pub fn new(lower_case: bool, stop_words: Vec<Vec<u8>>) -> (r: TokenizerConfig)
        ensures
            r.lower_case == lower_case,
            r.stop_words@ == stop_words@,
    {
        TokenizerConfig { lower_case, stop_words }
    }
}

/// The tokens of `text` under `config`.
pub open spec fn tokenize_spec(text: Seq<u8>, config: TokenizerConfig) -> Seq<TokenView> {
    tokens_of(words(text, config.lower_case), config.stop_view())
}

/// The contents of a list of byte vectors.
pub open spec fn byte_strings(list: Seq<Vec<u8>>) -> Seq<Seq<u8>> {
    list.map_values(|x: Vec<u8>| x@)
}

/// Whether two byte strings are equal.
pub fn bytes_eq(a: &Vec<u8>, b: &Vec<u8>) -> (r: bool)
    ensures
        r == (a@ == b@),
{
    if a.len() != b.len() {
        return false;
    }
    let mut i: usize = 0;
    while i < a.len()
        invariant
            i <= a@.len(),
            a@.len() == b@.len(),
            forall|k: int| 0 <= k < i ==> a@[k] == b@[k],
        decreases a@.len() - i,
    {
        if a[i] != b[i] {
            return false;
        }
        i = i + 1;
    }
    assert(a@ =~= b@);
    true
}

/// Lexicographic order on byte strings: a proper prefix comes first.
pub open spec fn lex_lt(a: Seq<u8>, b: Seq<u8>) -> bool
    decreases a.len(),
{
    if a.len() == 0 {
        b.len() > 0
    } else if b.len() == 0 {
        false
    } else if a[0] != b[0] {
        a[0] < b[0]
    } else {
        lex_lt(a.drop_first(), b.drop_first())
    }
}

/// Of two different byte strings, one comes before the other.
pub proof fn lemma_lex_total(a: Seq<u8>, b: Seq<u8>)
    requires
        a != b,
        !lex_lt(a, b),
    ensures
        lex_lt(b, a),
    decreases a.len(),
{
    if a.len() == 0 {
        assert(b.len() == 0);
        assert(a =~= b);
    } else if b.len() > 0 && a[0] == b[0] {
        if a.drop_first() == b.drop_first() {
            assert(a =~= seq![a[0]] + a.drop_first());
            assert(b =~= seq![b[0]] + b.drop_first());
        }
        lemma_lex_total(a.drop_first(), b.drop_first());
    }
}

/// Whether `a` comes before `b` in lexicographic order.
pub fn bytes_lt(a: &Vec<u8>, b: &Vec<u8>) -> (r: bool)
    ensures
        r == lex_lt(a@, b@),
{
    let mut i: usize = 0;
    assert(a@.skip(0) =~= a@);
    assert(b@.skip(0) =~= b@);
    while i < a.len() && i < b.len() && a[i] == b[i]
        invariant
            i <= a@.len(),
            i <= b@.len(),
            lex_lt(a@, b@) == lex_lt(a@.skip(i as int), b@.skip(i as int)),
        decreases a@.len() - i,
    {
        let ghost sa = a@.skip(i as int);
        let ghost sb = b@.skip(i as int);
        assert(sa.drop_first() =~= a@.skip(i + 1));
        assert(sb.drop_first() =~= b@.skip(i + 1));
        i = i + 1;
    }
    let ghost sa = a@.skip(i as int);
    let ghost sb = b@.skip(i as int);
    if i == a.len() {
        i < b.len()
    } else if i == b.len() {
        false
    } else {
        assert(sa[0] == a@[i as int] && sb[0] == b@[i as int]);
        a[i] < b[i]
    }
}

/// Whether `w` is among `list`.
pub fn contains_bytes(list: &Vec<Vec<u8>>, w: &Vec<u8>) -> (r: bool)
    ensures
        r == byte_strings(list@).contains(w@),
{
    let ghost lv = byte_strings(list@);
    let mut i: usize = 0;
    while i < list.len()
        invariant
            i <= list@.len(),
            lv == byte_strings(list@),
            forall|k: int| 0 <= k < i ==> lv[k] != w@,
        decreases list@.len() - i,
    {
        if bytes_eq(&list[i], w) {
            assert(lv[i as int] == w@);
            return true;
        }
        i = i + 1;
    }
    false
}

/// Splits `text` into maximal runs of ASCII letters and digits, folds case if
/// configured, drops stop words, and numbers each kept term by the index of its
/// word among all words.
pub fn tokenize(text: &Vec<u8>, config: &TokenizerConfig) -> (r: Vec<Token>)
    requires
        text@.len() < u32::MAX,
    ensures
        r@.map_values(|t: Token| t@) == tokenize_spec(text@, *config),
{
    let ghost lower = config.lower_case;
    let ghost stop = config.stop_view();
    let mut out: Vec<Token> = Vec::new();
    let mut cur: Vec<u8> = Vec::new();
    let mut nwords: u32 = 0;
    let mut i: usize = 0;
    let ghost mut done: Seq<Seq<u8>> = Seq::empty();
    while i < text.len()
        invariant
            i <= text@.len(),
            text@.len() < u32::MAX,
            lower == config.lower_case,
            stop == config.stop_view(),
            scan(text@.take(i as int), lower) == (done, cur@),
            nwords == done.len(),
            done.len() <= i,
            out@.map_values(|t: Token| t@) == tokens_of(done, stop),
        decreases text@.len() - i,
    {
        let c = text[i];
        assert(text@.take(i + 1).drop_last() =~= text@.take(i as int));
        assert(text@.take(i + 1).last() == c);
        if (48 <= c && c <= 57) || (65 <= c && c <= 90) || (97 <= c && c <= 122) {
            let f = if config.lower_case && 65 <= c && c <= 90 { c + 32 } else { c };
            cur.push(f);
        } else if cur.len() > 0 {
            let ghost old_out = out@.map_values(|t: Token| t@);
            let w = cur;
            cur = Vec::new();
            let ghost old_done = done;
            proof {
                done = done.push(w@);
            }
            assert(done.drop_last() =~= old_done);
            if !contains_bytes(&config.stop_words, &w) {
                out.push(Token { term: w, position: nwords });
                assert(out@.map_values(|t: Token| t@) =~= old_out.push(
                    TokenView { term: done.last(), position: (done.len() - 1) as u32 },
                ));
            } else {
                assert(out@.map_values(|t: Token| t@) =~= old_out);
            }
            nwords = nwords + 1;
        }
        i = i + 1;
    }
    assert(text@.take(i as int) =~= text@);
    if cur.len() > 0 {
        let ghost old_out = out@.map_values(|t: Token| t@);
        let ghost cv = cur@;
        let w = cur;
        if !contains_bytes(&config.stop_words, &w) {
            out.push(Token { term: w, position: nwords });
            assert(out@.map_values(|t: Token| t@) =~= old_out.push(
                TokenView { term: cv, position: done.len() as u32 },
            ));
        } else {
            assert(out@.map_values(|t: Token| t@) =~= old_out);
        }
        proof {
            assert(done.push(cv).drop_last() =~= done);
        }
    }
    out
}

proof fn lemma_scan_len(text: Seq<u8>, lower: bool)
    ensures
        scan(text, lower).0.len() + scan(text, lower).1.len() <= text.len(),
    decreases text.len(),
{
    if text.len() > 0 {
        lemma_scan_len(text.drop_last(), lower);
    }
}

proof fn lemma_tokens_of_len(ws: Seq<Seq<u8>>, stop: Seq<Seq<u8>>)
    ensures
        tokens_of(ws, stop).len() <= ws.len(),
    decreases ws.len(),
{
    if ws.len() > 0 {
        lemma_tokens_of_len(ws.drop_last(), stop);
    }
}

/// A text never has more tokens than bytes.
pub proof fn lemma_tokenize_len(text: Seq<u8>, config: TokenizerConfig)
    ensures
        tokenize_spec(text, config).len() <= text.len(),
{
    lemma_scan_len(text, config.lower_case);
    lemma_tokens_of_len(words(text, config.lower_case), config.stop_view());
}

} // verus!
