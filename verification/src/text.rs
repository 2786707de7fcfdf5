use vstd::prelude::*;

verus! {

/// Whether `c` has the Unicode `White_Space` property, as `char::is_whitespace` decides it.
pub uninterp spec fn is_white_space(c: char) -> bool;

/// `char::is_whitespace`.  Claimed: the answer is the fixed property `is_white_space` of the
/// character alone, and the four examples of the method's documentation hold (a space, a
/// line feed and a no-break space are whitespace; U+8D8A is not).
#[verifier::external_body]
pub fn char_is_whitespace(c: char) -> (r: bool)
    ensures
        r == is_white_space(c),
        (c == ' ' || c == '\n' || c == '\u{A0}') ==> r,
        c == '\u{8D8A}' ==> !r,
{
    c.is_whitespace()
}

/// `String::push`.  Claimed: the character is appended at the end of the string.
#[verifier::external_body]
pub fn push_char(s: &mut String, c: char)
    ensures
        final(s)@ == old(s)@.push(c),
{
    s.push(c);
}

/// The characters of `s`, in order.
pub fn chars_of(s: &str) -> (cs: Vec<char>)
    ensures
        cs@ == s@,
{
    let mut cs: Vec<char> = Vec::new();
    for c in it: s.chars()
        invariant
            cs@ == it.seq().take(it.index() as int),
            it.seq() == s@,
    {
        cs.push(c);
    }
    cs
}


/// The views of a sequence of strings.
pub open spec fn views(v: Seq<String>) -> Seq<Seq<char>> {
    v.map_values(|x: String| x@)
}

/// Ends the token being read, if there is one.
pub open spec fn flush(done: Seq<Seq<char>>, cur: Seq<char>) -> Seq<Seq<char>> {
    if cur.len() > 0 {
        done.push(cur)
    } else {
        done
    }
}

/// The lexer's state after reading `cs`: the tokens finished so far and the token being read.
/// Whitespace ends a token; a character of `specials` ends a token and is a token of its own;
/// every other character extends the token being read.
pub open spec fn lex_state(cs: Seq<char>, specials: Seq<char>) -> (Seq<Seq<char>>, Seq<char>)
    decreases cs.len(),
{
    if cs.len() == 0 {
        (Seq::empty(), Seq::empty())
    } else {
        let (done, cur) = lex_state(cs.drop_last(), specials);
        let c = cs.last();
        if is_white_space(c) {
            (flush(done, cur), Seq::empty())
        } else if specials.contains(c) {
            (flush(done, cur).push(seq![c]), Seq::empty())
        } else {
            (done, cur.push(c))
        }
    }
}

/// The tokens of `cs`: those the lexer finishes, and the one it is reading at the end.
pub open spec fn lex(cs: Seq<char>, specials: Seq<char>) -> Seq<Seq<char>> {
    flush(lex_state(cs, specials).0, lex_state(cs, specials).1)
}

/// The characters of `cs` that are not whitespace, in order.
pub open spec fn non_blank(cs: Seq<char>) -> Seq<char>
    decreases cs.len(),
{
    if cs.len() == 0 {
        Seq::empty()
    } else if is_white_space(cs.last()) {
        non_blank(cs.drop_last())
    } else {
        non_blank(cs.drop_last()).push(cs.last())
    }
}

/// The tokens of `ts` written one after the other.
pub open spec fn concat_all(ts: Seq<Seq<char>>) -> Seq<char>
    decreases ts.len(),
{
    if ts.len() == 0 {
        Seq::empty()
    } else {
        concat_all(ts.drop_last()) + ts.last()
    }
}

/// A token as the lexer makes it: non-empty and free of whitespace; either one special
/// character alone, or a run of ordinary characters.
pub open spec fn well_formed_token(tok: Seq<char>, specials: Seq<char>) -> bool {
    &&& tok.len() > 0
    &&& forall|j: int| 0 <= j < tok.len() ==> !is_white_space(#[trigger] tok[j])
    &&& (tok.len() == 1 && specials.contains(tok[0])) || forall|j: int|
        0 <= j < tok.len() ==> !specials.contains(#[trigger] tok[j])
}

proof fn lemma_lex_state(cs: Seq<char>, specials: Seq<char>)
    ensures
        concat_all(lex_state(cs, specials).0) + lex_state(cs, specials).1 == non_blank(cs),
        forall|i: int|
            0 <= i < lex_state(cs, specials).0.len() ==> well_formed_token(
                #[trigger] lex_state(cs, specials).0[i],
                specials,
            ),
        forall|j: int|
            0 <= j < lex_state(cs, specials).1.len() ==> !is_white_space(
                #[trigger] lex_state(cs, specials).1[j],
            ) && !specials.contains(lex_state(cs, specials).1[j]),
    decreases cs.len(),
{
    if cs.len() > 0 {
        let front = cs.drop_last();
        lemma_lex_state(front, specials);
        let (done, cur) = lex_state(front, specials);
        let c = cs.last();
        let fl = flush(done, cur);
        assert(concat_all(fl) == concat_all(done) + cur) by {
            if cur.len() > 0 {
                assert(fl.drop_last() =~= done);
            } else {
                assert(concat_all(done) + cur =~= concat_all(done));
            }
        }
        assert forall|i: int| 0 <= i < fl.len() implies well_formed_token(#[trigger] fl[i], specials) by {
            if i < done.len() {
                assert(fl[i] == done[i]);
            }
        }
        if is_white_space(c) {
            assert(concat_all(fl) + Seq::<char>::empty() =~= concat_all(fl));
        } else if specials.contains(c) {
            let out = fl.push(seq![c]);
            assert(out.drop_last() =~= fl);
            assert(concat_all(out) + Seq::<char>::empty() =~= non_blank(cs));
            assert forall|i: int| 0 <= i < out.len() implies well_formed_token(#[trigger] out[i], specials) by {
                if i < fl.len() {
                    assert(out[i] == fl[i]);
                }
            }
        } else {
            assert(concat_all(done) + cur.push(c) =~= (concat_all(done) + cur).push(c));
        }
    }
}

/// The lexer only splits: its tokens, written one after the other, are the text without its
/// whitespace; and every token is well formed (see `well_formed_token`).
pub proof fn law_lex_splits(cs: Seq<char>, specials: Seq<char>)
    ensures
        concat_all(lex(cs, specials)) == non_blank(cs),
        forall|i: int|
            0 <= i < lex(cs, specials).len() ==> well_formed_token(
                #[trigger] lex(cs, specials)[i],
                specials,
            ),
{
    lemma_lex_state(cs, specials);
    let (done, cur) = lex_state(cs, specials);
    let out = flush(done, cur);
    if cur.len() > 0 {
        assert(out.drop_last() =~= done);
        assert(well_formed_token(cur, specials));
        assert forall|i: int| 0 <= i < out.len() implies well_formed_token(#[trigger] out[i], specials) by {
            if i < done.len() {
                assert(out[i] == done[i]);
            }
        }
    } else {
        assert(concat_all(done) + cur =~= concat_all(done));
    }
}

/// `flush` distributes over finished tokens written in front.
proof fn lemma_flush_prefix(front: Seq<Seq<char>>, done: Seq<Seq<char>>, cur: Seq<char>)
    ensures
        flush(front + done, cur) == front + flush(done, cur),
{
    if cur.len() > 0 {
        assert((front + done).push(cur) =~= front + done.push(cur));
    }
}

/// Once the lexer stands between tokens, what follows is lexed on its own: the tokens of the
/// rest come after those finished so far.
proof fn lemma_lex_state_append(x: Seq<char>, y: Seq<char>, specials: Seq<char>)
    requires
        lex_state(x, specials).1.len() == 0,
    ensures
        lex_state(x + y, specials) == (lex_state(x, specials).0 + lex_state(y, specials).0, lex_state(
            y,
            specials,
        ).1),
    decreases y.len(),
{
    let d0 = lex_state(x, specials).0;
    if y.len() == 0 {
        assert(x + y =~= x);
        assert(d0 + Seq::<Seq<char>>::empty() =~= d0);
    } else {
        let yf = y.drop_last();
        let c = y.last();
        lemma_lex_state_append(x, yf, specials);
        assert((x + y).drop_last() =~= x + yf);
        assert((x + y).last() == c);
        let (d1, c1) = lex_state(yf, specials);
        lemma_flush_prefix(d0, d1, c1);
        if is_white_space(c) {
        } else if specials.contains(c) {
            assert((d0 + flush(d1, c1)).push(seq![c]) =~= d0 + flush(d1, c1).push(seq![c]));
        } else {
        }
    }
}

/// A character that is neither whitespace nor special.
pub open spec fn is_ordinary(c: char, specials: Seq<char>) -> bool {
    !is_white_space(c) && !specials.contains(c)
}

proof fn lemma_lex_state_run(r: Seq<char>, specials: Seq<char>)
    requires
        forall|j: int| 0 <= j < r.len() ==> is_ordinary(#[trigger] r[j], specials),
    ensures
        lex_state(r, specials) == (Seq::<Seq<char>>::empty(), r),
    decreases r.len(),
{
    if r.len() > 0 {
        let front = r.drop_last();
        assert forall|j: int| 0 <= j < front.len() implies is_ordinary(#[trigger] front[j], specials) by {
            assert(front[j] == r[j]);
        }
        lemma_lex_state_run(front, specials);
        assert(is_ordinary(r[r.len() - 1], specials));
        assert(front.push(r.last()) =~= r);
    }
}

/// A non-empty run of ordinary characters is one token: the lexer never cuts between two
/// neighbouring characters that are neither whitespace nor special.
pub proof fn law_lex_run(r: Seq<char>, specials: Seq<char>)
    requires
        r.len() > 0,
        forall|j: int| 0 <= j < r.len() ==> is_ordinary(#[trigger] r[j], specials),
    ensures
        lex(r, specials) == seq![r],
{
    lemma_lex_state_run(r, specials);
    assert(Seq::<Seq<char>>::empty().push(r) =~= seq![r]);
}

/// Whitespace separates: the tokens of a text with a whitespace character in it are the tokens
/// before it followed by the tokens after it.
pub proof fn law_lex_whitespace_splits(a: Seq<char>, w: char, b: Seq<char>, specials: Seq<char>)
    requires
        is_white_space(w),
    ensures
        lex(a + seq![w] + b, specials) == lex(a, specials) + lex(b, specials),
{
    let x = a.push(w);
    assert(x.drop_last() =~= a);
    assert(a + seq![w] =~= x);
    assert(lex_state(x, specials) == (lex(a, specials), Seq::<char>::empty()));
    lemma_lex_state_append(x, b, specials);
    let (db, cb) = lex_state(b, specials);
    lemma_flush_prefix(lex(a, specials), db, cb);
}

/// A special character separates and stands alone: the tokens of a text with a special
/// character (not whitespace) in it are the tokens before it, that character as a token of
/// its own, and the tokens after it.
pub proof fn law_lex_special_splits(a: Seq<char>, s: char, b: Seq<char>, specials: Seq<char>)
    requires
        specials.contains(s),
        !is_white_space(s),
    ensures
        lex(a + seq![s] + b, specials) == lex(a, specials).push(seq![s]) + lex(b, specials),
{
    let x = a.push(s);
    assert(x.drop_last() =~= a);
    assert(a + seq![s] =~= x);
    assert(lex_state(x, specials) == (lex(a, specials).push(seq![s]), Seq::<char>::empty()));
    lemma_lex_state_append(x, b, specials);
    let (db, cb) = lex_state(b, specials);
    lemma_flush_prefix(lex(a, specials).push(seq![s]), db, cb);
}

/// A token starts at position `k` of `cs`: the character there is not whitespace, and it is
/// special, or it follows the start of the text, whitespace or a special character.
pub open spec fn starts_token(cs: Seq<char>, specials: Seq<char>, k: int) -> bool {
    &&& 0 <= k < cs.len()
    &&& !is_white_space(cs[k])
    &&& (specials.contains(cs[k]) || k == 0 || is_white_space(cs[k - 1]) || specials.contains(
        cs[k - 1],
    ))
}

/// Number of positions below `n` where a token starts.
pub open spec fn token_starts(cs: Seq<char>, specials: Seq<char>, n: int) -> nat
    decreases n,
{
    if n <= 0 {
        0
    } else {
        token_starts(cs, specials, n - 1) + (if starts_token(cs, specials, n - 1) {
            1nat
        } else {
            0nat
        })
    }
}

proof fn lemma_token_starts_prefix(cs: Seq<char>, specials: Seq<char>, n: int)
    requires
        0 <= n <= cs.len(),
    ensures
        token_starts(cs.take(n), specials, n) == token_starts(cs, specials, n),
    decreases n,
{
    if n > 0 {
        lemma_token_starts_prefix(cs, specials, n - 1);
        assert(token_starts(cs.take(n), specials, n - 1) == token_starts(cs.take(n - 1), specials, n - 1)) by {
            lemma_token_starts_same(cs.take(n), cs.take(n - 1), specials, n - 1);
        }
        assert(starts_token(cs.take(n), specials, n - 1) == starts_token(cs, specials, n - 1));
    }
}

proof fn lemma_token_starts_same(a: Seq<char>, b: Seq<char>, specials: Seq<char>, n: int)
    requires
        0 <= n <= a.len(),
        n <= b.len(),
        forall|k: int| 0 <= k < n ==> a[k] == b[k],
    ensures
        token_starts(a, specials, n) == token_starts(b, specials, n),
    decreases n,
{
    if n > 0 {
        lemma_token_starts_same(a, b, specials, n - 1);
        assert(starts_token(a, specials, n - 1) == starts_token(b, specials, n - 1));
    }
}

proof fn lemma_lex_state_count(cs: Seq<char>, specials: Seq<char>)
    ensures
        lex_state(cs, specials).0.len() + (if lex_state(cs, specials).1.len() > 0 {
            1int
        } else {
            0int
        }) == token_starts(cs, specials, cs.len() as int),
        lex_state(cs, specials).1.len() > 0 <==> (cs.len() > 0 && !is_white_space(cs.last())
            && !specials.contains(cs.last())),
    decreases cs.len(),
{
    if cs.len() > 0 {
        let front = cs.drop_last();
        lemma_lex_state_count(front, specials);
        let n = cs.len() as int;
        lemma_token_starts_prefix(cs, specials, n - 1);
        assert(cs.take(n - 1) =~= front);
        assert(front.len() > 0 ==> front.last() == cs[n - 2]);
    }
}

/// The lexer cuts only where it must: the number of tokens is the number of positions where
/// a token starts (see `starts_token`), so two neighbouring ordinary characters always stay in
/// one token.
pub proof fn law_lex_token_count(cs: Seq<char>, specials: Seq<char>)
    ensures
        lex(cs, specials).len() == token_starts(cs, specials, cs.len() as int),
{
    lemma_lex_state_count(cs, specials);
}

/// A special character that is not whitespace always stands as a token of its own.
pub proof fn law_special_stands_alone(cs: Seq<char>, specials: Seq<char>, k: int)
    requires
        0 <= k < cs.len(),
        specials.contains(cs[k]),
        !is_white_space(cs[k]),
    ensures
        lex(cs, specials).contains(seq![cs[k]]),
    decreases cs.len(),
{
    let front = cs.drop_last();
    if k == cs.len() - 1 {
        let (done, cur) = lex_state(front, specials);
        let out = flush(done, cur).push(seq![cs[k]]);
        assert(lex_state(cs, specials).0 == out);
        assert(lex(cs, specials) == out);
        assert(out[out.len() - 1] == seq![cs[k]]);
    } else {
        assert(front[k] == cs[k]);
        law_special_stands_alone(front, specials, k);
        lemma_lex_state_grows(front, specials, cs.last());
        let t = choose|t: int| 0 <= t < lex(front, specials).len() && #[trigger] lex(front, specials)[t]
            == seq![cs[k]];
        assert(front.push(cs.last()) =~= cs);
        assert(lex(front, specials)[t].len() == 1);
        assert(lex(front, specials)[t][0] == cs[k]);
        assert(lex(cs, specials)[t] == seq![cs[k]]);
    }
}

/// Reading one more character keeps every token finished so far, and the lone special tokens
/// among the tokens of the shorter text.
proof fn lemma_lex_state_grows(cs: Seq<char>, specials: Seq<char>, c: char)
    ensures
        ({
            let longer = lex(cs.push(c), specials);
            let shorter = lex(cs, specials);
            forall|t: int|
                0 <= t < shorter.len() && shorter[t].len() == 1 && specials.contains(shorter[t][0])
                    ==> t < longer.len() && #[trigger] longer[t] == shorter[t]
        }),
{
    let (done, cur) = lex_state(cs, specials);
    assert(cs.push(c).drop_last() =~= cs);
    assert(cs.push(c).last() == c);
    lemma_lex_state(cs, specials);
    let shorter = lex(cs, specials);
    let longer = lex(cs.push(c), specials);
    assert forall|t: int|
        0 <= t < shorter.len() && shorter[t].len() == 1 && specials.contains(shorter[t][0])
            implies t < longer.len() && #[trigger] longer[t] == shorter[t] by {
        if cur.len() > 0 && t == done.len() {
            // the token being read holds no special character
            assert(shorter[t] == cur);
            assert(!specials.contains(cur[0]));
        } else {
            assert(t < done.len());
            assert(shorter[t] == done[t]);
            let fl = flush(done, cur);
            assert(fl[t] == done[t]);
            if is_white_space(c) {
                assert(longer == flush(fl, Seq::<char>::empty()));
            } else if specials.contains(c) {
                assert(longer == flush(fl.push(seq![c]), Seq::<char>::empty()));
                assert(fl.push(seq![c])[t] == fl[t]);
            } else {
                assert(longer == flush(done, cur.push(c)));
                assert(done.push(cur.push(c))[t] == done[t]);
            }
        }
    }
}

/// A string holding the one character `c`.
pub fn char_string(c: char) -> (s: String)
    ensures
        s@ == seq![c],
{
    let mut s = String::new();
    push_char(&mut s, c);
    s
}

/// Splits `text` into tokens: runs of characters separated by whitespace, where each
/// character of `specials` stands as a token of its own.
pub fn split_tokens(text: &str, specials: &[char]) -> (tokens: Vec<String>)
    ensures
        views(tokens@) == lex(text@, specials@),
        forall|i: int| 0 <= i < tokens@.len() ==> tokens@[i]@.len() > 0,
{
    let cs = chars_of(text);
    let n = cs.len();
    let mut tokens: Vec<String> = Vec::new();
    let mut cur = String::new();
    let mut i: usize = 0;
    while i < n
        invariant
            0 <= i <= n,
            n == cs@.len(),
            cs@ == text@,
            views(tokens@) == lex_state(cs@.take(i as int), specials@).0,
            cur@ == lex_state(cs@.take(i as int), specials@).1,
            forall|k: int| 0 <= k < tokens@.len() ==> tokens@[k]@.len() > 0,
        decreases n - i,
    {
        let c = cs[i];
        let ghost pre = cs@.take(i as int);
        assert(cs@.take(i + 1).drop_last() =~= pre);
        assert(cs@.take(i + 1).last() == c);
        let ghost old_tokens = tokens@;
        if char_is_whitespace(c) {
            if !cur.as_str().is_empty() {
                let t = cur;
                tokens.push(t);
                cur = String::new();
            }
        } else if contains_char(specials, c) {
            if !cur.as_str().is_empty() {
                let t = cur;
                tokens.push(t);
                cur = String::new();
            }
            tokens.push(char_string(c));
        } else {
            push_char(&mut cur, c);
        }
        assert(views(tokens@) =~= lex_state(cs@.take(i + 1), specials@).0);
        i = i + 1;
    }
    assert(cs@.take(n as int) =~= cs@);
    if !cur.as_str().is_empty() {
        tokens.push(cur);
    }
    assert(views(tokens@) =~= lex(text@, specials@));
    tokens
}

/// Whether `c` is one of `cs`.
pub fn contains_char(cs: &[char], c: char) -> (r: bool)
    ensures
        r == cs@.contains(c),
{
    let mut i: usize = 0;
    while i < cs.len()
        invariant
            0 <= i <= cs@.len(),
            forall|k: int| 0 <= k < i ==> cs@[k] != c,
        decreases cs@.len() - i,
    {
        if cs[i] == c {
            return true;
        }
        i = i + 1;
    }
    false
}


/// The decimal digit character for `d` (taken modulo ten).
pub open spec fn digit_char(d: nat) -> char {
    let d = d % 10;
    if d == 0 { '0' }
    else if d == 1 { '1' }
    else if d == 2 { '2' }
    else if d == 3 { '3' }
    else if d == 4 { '4' }
    else if d == 5 { '5' }
    else if d == 6 { '6' }
    else if d == 7 { '7' }
    else if d == 8 { '8' }
    else { '9' }
}

/// The decimal notation of `n`, without leading zeros.
pub open spec fn decimal(n: nat) -> Seq<char>
    decreases n,
{
    if n < 10 {
        seq![digit_char(n)]
    } else {
        decimal(n / 10).push(digit_char(n % 10))
    }
}

/// Appends the decimal notation of `n` to `s`.
pub fn push_decimal(s: &mut String, n: u64)
    ensures
        final(s)@ == old(s)@ + decimal(n as nat),
    decreases n,
{
    if n >= 10 {
        push_decimal(s, n / 10);
    }
    let d = n % 10;
    let c = if d == 0 { '0' }
        else if d == 1 { '1' }
        else if d == 2 { '2' }
        else if d == 3 { '3' }
        else if d == 4 { '4' }
        else if d == 5 { '5' }
        else if d == 6 { '6' }
        else if d == 7 { '7' }
        else if d == 8 { '8' }
        else { '9' };
    push_char(s, c);
    assert(final(s)@ =~= old(s)@ + decimal(n as nat));
}

/// Appends every character of `cs` to `s`.
pub fn push_chars(s: &mut String, cs: &str)
    ensures
        final(s)@ == old(s)@ + cs@,
{
    let v = chars_of(cs);
    let ghost s0 = s@;
    let mut i: usize = 0;
    while i < v.len()
        invariant
            0 <= i <= v@.len(),
            v@ == cs@,
            s@ == s0 + v@.take(i as int),
        decreases v@.len() - i,
    {
        push_char(s, v[i]);
        assert(v@.take(i + 1) =~= v@.take(i as int).push(v@[i as int]));
        i = i + 1;
    }
    assert(v@.take(v@.len() as int) =~= v@);
}

} // verus!
