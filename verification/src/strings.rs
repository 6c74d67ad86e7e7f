//! Rewriting the quotes of short string literals to the quote character the options prefer.

use vstd::prelude::*;

use crate::config::QuoteStyle;

verus! {

/// The number of backslashes right before index `i` of `s`.
pub open spec fn backslashes_before(s: Seq<char>, i: int) -> nat
    decreases i,
{
    if i <= 0 || i > s.len() {
        0
    } else if s[i - 1] == '\\' {
        1 + backslashes_before(s, i - 1)
    } else {
        0
    }
}

/// `quote` stands unescaped in `body`: after an even number of backslashes.
pub open spec fn has_unescaped(body: Seq<char>, quote: char) -> bool {
    exists|i: int|
        0 <= i < body.len() && body[i] == quote && quote != '\\' && #[trigger] backslashes_before(body, i)
            % 2 == 0
}

/// Whether `quote` stands in the body of a short string without a backslash escaping it.
pub fn raw_short_string_contains_unescaped_quote(raw_body: &[char], quote: char) -> (r: bool)
    ensures
        r == has_unescaped(raw_body@, quote),
{
    let mut consecutive_backslashes: usize = 0;
    let mut i: usize = 0;
    while i < raw_body.len()
        invariant
            i <= raw_body.len(),
            consecutive_backslashes == backslashes_before(raw_body@, i as int),
            consecutive_backslashes <= i,
            forall|j: int|
                0 <= j < i ==> !(raw_body@[j] == quote && quote != '\\' && #[trigger] backslashes_before(
                    raw_body@,
                    j,
                ) % 2 == 0),
        decreases raw_body.len() - i,
    {
        let ch = raw_body[i];
        if ch == '\\' {
            consecutive_backslashes = consecutive_backslashes + 1;
            i = i + 1;
            continue;
        }
        let is_escaped = consecutive_backslashes % 2 == 1;
        consecutive_backslashes = 0;
        if ch == quote && !is_escaped {
            assert(backslashes_before(raw_body@, i as int) % 2 == 0);
            return true;
        }
        i = i + 1;
    }
    false
}

/// `n` backslashes.
pub open spec fn backslashes(n: nat) -> Seq<char> {
    Seq::new(n, |_i: int| '\\')
}

/// The character at index `i` of `s` is the backslash that escapes an `orig` quote: the quote
/// comes right after it, at the end of an odd run of backslashes.
pub open spec fn escapes_quote(s: Seq<char>, orig: char, i: int) -> bool {
    &&& 0 <= i
    &&& i + 1 < s.len()
    &&& orig != '\\'
    &&& s[i + 1] == orig
    &&& backslashes_before(s, i + 1) % 2 == 1
}

/// The characters of `s` from index `i` on, without the backslashes that escape an `orig`
/// quote.
pub open spec fn unescaped_from(s: Seq<char>, orig: char, i: int) -> Seq<char>
    decreases s.len() - i,
{
    if i < 0 || i >= s.len() {
        Seq::empty()
    } else if escapes_quote(s, orig, i) {
        unescaped_from(s, orig, i + 1)
    } else {
        seq![s[i]] + unescaped_from(s, orig, i + 1)
    }
}

/// The body of a short string from index `i` on, with `k` backslashes pending before it, as
/// the rewriting loop produces it.
spec fn rewritten_from(s: Seq<char>, orig: char, i: int, k: nat) -> Seq<char>
    decreases s.len() - i,
{
    if i < 0 || i >= s.len() {
        backslashes(k)
    } else if s[i] == '\\' {
        rewritten_from(s, orig, i + 1, k + 1)
    } else {
        (if s[i] == orig && k % 2 == 1 {
            backslashes((k - 1) as nat)
        } else {
            backslashes(k)
        }) + seq![s[i]] + rewritten_from(s, orig, i + 1, 0)
    }
}

/// A run of `m` backslashes that ends at index `i` loses its last backslash exactly when it
/// escapes an `orig` quote at `i`.
proof fn lemma_unescaped_run(s: Seq<char>, orig: char, i: int, m: int)
    requires
        0 <= m <= backslashes_before(s, i),
        0 <= i <= s.len(),
    ensures
        unescaped_from(s, orig, i - m) == (if m >= 1 && i < s.len() && orig != '\\' && s[i] == orig
            && backslashes_before(s, i) % 2 == 1 {
            backslashes((m - 1) as nat)
        } else {
            backslashes(m as nat)
        }) + unescaped_from(s, orig, i),
    decreases m,
{
    if m > 0 {
        lemma_backslashes_bound(s, i);
        lemma_run_chars(s, i, m);
        lemma_unescaped_run(s, orig, i, m - 1);
        let j = i - m;
        assert(0 <= j < s.len());
        assert(s[j] == '\\');
        if m >= 2 {
            assert(s[j + 1] == '\\');
            assert(!escapes_quote(s, orig, j));
        }
        let rest = unescaped_from(s, orig, i);
        if m >= 2 && i < s.len() && orig != '\\' && s[i] == orig && backslashes_before(s, i) % 2 == 1 {
            assert(seq!['\\'] + backslashes((m - 2) as nat) =~= backslashes((m - 1) as nat));
            assert(seq!['\\'] + (backslashes((m - 2) as nat) + rest) =~= backslashes((m - 1) as nat) + rest);
        } else if m == 1 && i < s.len() && orig != '\\' && s[i] == orig && backslashes_before(s, i) % 2 == 1 {
            assert(escapes_quote(s, orig, j));
            assert(backslashes(0) + rest =~= rest);
        } else {
            if m == 1 {
                assert(!escapes_quote(s, orig, j));
            }
            assert(seq!['\\'] + backslashes((m - 1) as nat) =~= backslashes(m as nat));
            assert(seq!['\\'] + (backslashes((m - 1) as nat) + rest) =~= backslashes(m as nat) + rest);
        }
    }
}

/// No more backslashes stand before index `i` than characters.
proof fn lemma_backslashes_bound(s: Seq<char>, i: int)
    ensures
        backslashes_before(s, i) <= if i < 0 { 0 } else { i },
    decreases i,
{
    if i > 0 && i <= s.len() && s[i - 1] == '\\' {
        lemma_backslashes_bound(s, i - 1);
    }
}

/// The `m` characters before index `i` are backslashes when `m` backslashes stand there.
proof fn lemma_run_chars(s: Seq<char>, i: int, m: int)
    requires
        0 < m <= backslashes_before(s, i),
    ensures
        s[i - m] == '\\',
        m >= 2 ==> s[i - m + 1] == '\\',
    decreases m,
{
    if m > 1 {
        lemma_run_chars(s, i - 1, m - 1);
    }
}

/// The rewriting loop's text is the body without the backslashes that escape the old quote.
proof fn lemma_rewritten_unescaped(s: Seq<char>, orig: char, i: int, k: nat)
    requires
        0 <= i,
        k == backslashes_before(s, i),
        k <= i,
    ensures
        rewritten_from(s, orig, i, k) == unescaped_from(s, orig, i - k),
    decreases s.len() - i,
{
    if i >= s.len() {
        if i == s.len() {
            lemma_unescaped_run(s, orig, i, k as int);
            assert(backslashes(k) + Seq::<char>::empty() =~= backslashes(k));
        } else {
            assert(backslashes_before(s, i) == 0);
        }
    } else if s[i] == '\\' {
        assert(backslashes_before(s, i + 1) == k + 1);
        lemma_rewritten_unescaped(s, orig, i + 1, k + 1);
    } else {
        assert(backslashes_before(s, i + 1) == 0);
        lemma_rewritten_unescaped(s, orig, i + 1, 0);
        lemma_unescaped_run(s, orig, i, k as int);
        assert(!escapes_quote(s, orig, i));
        let head = if s[i] == orig && k % 2 == 1 {
            backslashes((k - 1) as nat)
        } else {
            backslashes(k)
        };
        assert(head + seq![s[i]] + unescaped_from(s, orig, i + 1) =~= head + (seq![s[i]] + unescaped_from(s, orig, i + 1)));
    }
}

/// Appends `n` backslashes.
fn push_backslashes(out: &mut Vec<char>, n: usize)
    ensures
        final(out)@ == old(out)@ + backslashes(n as nat),
{
    let mut m: usize = 0;
    while m < n
        invariant
            m <= n,
            out@ == old(out)@ + backslashes(m as nat),
        decreases n - m,
    {
        out.push('\\');
        m = m + 1;
        assert(out@ =~= old(out)@ + backslashes(m as nat));
    }
}

/// The short string with body `raw_body` written between `quote`s, the backslashes that
/// escaped `original_quote` dropped.
pub fn rewrite_short_string_quotes(raw_body: &[char], original_quote: char, quote: char) -> (r: Vec<char>)
    ensures
        r@ == seq![quote] + unescaped_from(raw_body@, original_quote, 0) + seq![quote],
{
    let mut result: Vec<char> = Vec::new();
    result.push(quote);
    let mut consecutive_backslashes: usize = 0;
    let mut i: usize = 0;
    while i < raw_body.len()
        invariant
            i <= raw_body.len(),
            consecutive_backslashes <= i,
            seq![quote] + rewritten_from(raw_body@, original_quote, 0, 0) == result@ + rewritten_from(
                raw_body@,
                original_quote,
                i as int,
                consecutive_backslashes as nat,
            ),
        decreases raw_body.len() - i,
    {
        let ch = raw_body[i];
        if ch == '\\' {
            consecutive_backslashes = consecutive_backslashes + 1;
            i = i + 1;
            continue;
        }
        let ghost before = result@;
        let ghost k = consecutive_backslashes as nat;
        if ch == original_quote && consecutive_backslashes % 2 == 1 {
            push_backslashes(&mut result, consecutive_backslashes - 1);
        } else {
            push_backslashes(&mut result, consecutive_backslashes);
        }
        result.push(ch);
        proof {
            let head = if ch == original_quote && k % 2 == 1 {
                backslashes((k - 1) as nat)
            } else {
                backslashes(k)
            };
            assert(result@ =~= before + head + seq![ch]);
            assert(rewritten_from(raw_body@, original_quote, i as int, k) == head + seq![ch]
                + rewritten_from(raw_body@, original_quote, i + 1, 0));
            assert(before + (head + seq![ch] + rewritten_from(raw_body@, original_quote, i + 1, 0))
                =~= result@ + rewritten_from(raw_body@, original_quote, i + 1, 0));
        }
        consecutive_backslashes = 0;
        i = i + 1;
    }
    let ghost before = result@;
    push_backslashes(&mut result, consecutive_backslashes);
    result.push(quote);
    proof {
        assert(rewritten_from(raw_body@, original_quote, i as int, consecutive_backslashes as nat)
            == backslashes(consecutive_backslashes as nat));
        assert(result@ =~= before + backslashes(consecutive_backslashes as nat) + seq![quote]);
        lemma_rewritten_unescaped(raw_body@, original_quote, 0, 0);
    }
    result
}

/// The quote character that short strings are written with, if the options ask for one.
pub open spec fn preferred_quote(style: QuoteStyle) -> Option<char> {
    match style {
        QuoteStyle::Preserve => None,
        QuoteStyle::Double => Some('"'),
        QuoteStyle::Single => Some('\''),
    }
}

/// A short string literal as written with the preferred quote: rewritten when it is quoted
/// with the other quote and its body holds no unescaped preferred quote; otherwise as it is.
pub open spec fn requoted(style: QuoteStyle, text: Seq<char>) -> Seq<char> {
    match preferred_quote(style) {
        Some(q) => if text.len() >= 2 && (text[0] == '\'' || text[0] == '"') && text[0] != q
            && !has_unescaped(text.subrange(1, text.len() - 1), q) {
            seq![q] + unescaped_from(text.subrange(1, text.len() - 1), text[0], 0) + seq![q]
        } else {
            text
        },
        None => text,
    }
}

/// A short string literal written with the quote character the options prefer.
pub fn requote_short_string(style: QuoteStyle, text: Vec<char>) -> (r: Vec<char>)
    ensures
        r@ == requoted(style, text@),
{
    let q = match style {
        QuoteStyle::Preserve => return text,
        QuoteStyle::Double => '"',
        QuoteStyle::Single => '\'',
    };
    if text.len() < 2 {
        return text;
    }
    let original_quote = text[0];
    if !(original_quote == '\'' || original_quote == '"') || original_quote == q {
        return text;
    }
    let body = crate::text::slice_chars(text.as_slice(), 1, text.len() - 1);
    if raw_short_string_contains_unescaped_quote(body.as_slice(), q) {
        return text;
    }
    rewrite_short_string_quotes(body.as_slice(), original_quote, q)
}


/// A short string written with the quote the options do not prefer, and whose body holds no
/// unescaped preferred quote, comes out between preferred quotes, its body kept but for the
/// backslashes that escaped the old quote; the empty string `''` or `""` included.
pub proof fn law_requote_rewrites_the_other_quote(style: QuoteStyle, text: Seq<char>)
    requires
        preferred_quote(style) is Some,
        text.len() >= 2,
        text[0] == '\'' || text[0] == '"',
        text[0] != preferred_quote(style).unwrap(),
        !has_unescaped(text.subrange(1, text.len() - 1), preferred_quote(style).unwrap()),
    ensures
        requoted(style, text) == seq![preferred_quote(style).unwrap()] + unescaped_from(
            text.subrange(1, text.len() - 1),
            text[0],
            0,
        ) + seq![preferred_quote(style).unwrap()],
        requoted(style, text).len() >= 2,
        requoted(style, text)[0] == preferred_quote(style).unwrap(),
        requoted(style, text).last() == preferred_quote(style).unwrap(),
{
}

/// Text in the preferred quote, or not starting with a quote, or holding the preferred quote
/// unescaped in its body, is left as it is.
pub proof fn law_requote_leaves_the_rest(style: QuoteStyle, text: Seq<char>)
    requires
        preferred_quote(style) is None || text.len() < 2 || !(text[0] == '\'' || text[0] == '"') || text[0]
            == preferred_quote(style).unwrap() || has_unescaped(text.subrange(1, text.len() - 1), preferred_quote(style).unwrap()),
    ensures
        requoted(style, text) == text,
{
}

/// Without backslashes, unescaping keeps every character from `i` on.
proof fn lemma_unescaped_without_backslashes(s: Seq<char>, orig: char, i: int)
    requires
        0 <= i <= s.len(),
        forall|j: int| 0 <= j < s.len() ==> s[j] != '\\',
    ensures
        unescaped_from(s, orig, i) == s.subrange(i, s.len() as int),
    decreases s.len() - i,
{
    if i < s.len() {
        lemma_unescaped_without_backslashes(s, orig, i + 1);
        assert(!escapes_quote(s, orig, i));
        assert(s.subrange(i, s.len() as int) == seq![s[i]] + s.subrange(i + 1, s.len() as int));
    } else {
        assert(s.subrange(i, s.len() as int) == Seq::<char>::empty());
    }
}

/// A short string in the other quote whose body holds no backslash and no preferred quote
/// keeps its body character for character; only its two quotes change.
pub proof fn law_requote_keeps_a_plain_body(style: QuoteStyle, text: Seq<char>)
    requires
        preferred_quote(style) is Some,
        text.len() >= 2,
        text[0] == '\'' || text[0] == '"',
        text[0] != preferred_quote(style).unwrap(),
        forall|j: int|
            1 <= j < text.len() - 1 ==> text[j] != '\\' && text[j] != preferred_quote(style).unwrap(),
    ensures
        requoted(style, text).len() == text.len(),
        requoted(style, text)[0] == preferred_quote(style).unwrap(),
        requoted(style, text)[text.len() - 1] == preferred_quote(style).unwrap(),
        forall|j: int| 1 <= j < text.len() - 1 ==> #[trigger] requoted(style, text)[j] == text[j],
{
    let q = preferred_quote(style).unwrap();
    let body = text.subrange(1, text.len() - 1);
    assert(!has_unescaped(body, q)) by {
        if has_unescaped(body, q) {
            let i = choose|i: int|
                0 <= i < body.len() && body[i] == q && q != '\\' && #[trigger] backslashes_before(body, i) % 2 == 0;
            assert(body[i] == text[i + 1]);
        }
    }
    lemma_unescaped_without_backslashes(body, text[0], 0);
    assert(body.subrange(0, body.len() as int) == body);
    let r = seq![q] + body + seq![q];
    assert(requoted(style, text) == r);
    assert forall|j: int| 1 <= j < text.len() - 1 implies #[trigger] requoted(style, text)[j] == text[j] by {
        assert(r[j] == body[j - 1]);
    }
}

/// Rewriting quotes a second time changes nothing.
pub proof fn law_requoting_is_stable(style: QuoteStyle, text: Seq<char>)
    ensures
        requoted(style, requoted(style, text)) == requoted(style, text),
{
    let r = requoted(style, text);
    match preferred_quote(style) {
        Some(q) => {
            if r != text {
                assert(r[0] == q);
                assert(r.len() >= 2);
            }
        },
        None => {},
    }
}

} // verus!
