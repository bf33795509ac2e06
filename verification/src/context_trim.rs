//! Context trimming: shrinking an oversized conversation to a token budget.
//!
//! The default mode drops whole messages, always keeping the last message,
//! every system or prompt message, and the first user/assistant pair, then
//! re-adds recent pairs while the budget allows. The smart mode instead
//! summarizes unprotected messages towards per-message target lengths, with
//! a progressive and an extreme shrink pass when the budget is still
//! exceeded.

use vstd::prelude::*;
use crate::api_model::{
    clone_message, clone_messages, messages_view, ChatMessageJson, MessageV,
    lemma_messages_view_index,
};
use crate::tokens::{
    estimate_tokens, estimate_tokens_of, lemma_estimate_tokens_bound, str_chars,
};

verus! {

/// Sum of the token estimates of a message list.
pub open spec fn total_tokens_of(ms: Seq<MessageV>) -> int
    decreases ms.len(),
{
    if ms.len() == 0 {
        0
    } else {
        total_tokens_of(ms.drop_last()) + estimate_tokens_of(ms.last().content)
    }
}

pub proof fn lemma_total_tokens_nonneg(ms: Seq<MessageV>)
    ensures
        total_tokens_of(ms) >= 0,
    decreases ms.len(),
{
    if ms.len() > 0 {
        lemma_total_tokens_nonneg(ms.drop_last());
        lemma_estimate_tokens_bound(ms.last().content);
    }
}

/// Each message's estimate is at most the total of the whole list.
pub proof fn lemma_total_tokens_term(ms: Seq<MessageV>, i: int)
    requires
        0 <= i < ms.len(),
    ensures
        estimate_tokens_of(ms[i].content) <= total_tokens_of(ms),
    decreases ms.len(),
{
    lemma_estimate_tokens_bound(ms.last().content);
    if i == ms.len() - 1 {
        lemma_total_tokens_nonneg(ms.drop_last());
    } else {
        lemma_total_tokens_term(ms.drop_last(), i);
    }
}

/// Sums the token estimates of a message list.
pub fn calculate_total_tokens(messages: &Vec<ChatMessageJson>) -> (r: usize)
    requires
        total_tokens_of(messages_view(messages@)) <= usize::MAX,
    ensures
        r == total_tokens_of(messages_view(messages@)),
{
    broadcast use lemma_messages_view_index;

    let ghost mv = messages_view(messages@);
    let n = messages.len();
    let mut total: usize = 0;
    let mut i: usize = 0;
    while i < n
        invariant
            i <= n,
            n == messages@.len(),
            mv == messages_view(messages@),
            total == total_tokens_of(mv.subrange(0, i as int)),
            total_tokens_of(mv) <= usize::MAX,
        decreases n - i,
    {
        proof {
            assert(mv.subrange(0, i + 1).drop_last() =~= mv.subrange(0, i as int));
            assert(mv.subrange(0, i + 1).last() == mv[i as int]);
            lemma_total_tokens_term(mv, i as int);
            lemma_total_tokens_prefix(mv, i + 1);
            lemma_estimate_tokens_bound(mv[i as int].content);
            lemma_total_tokens_nonneg(mv.subrange(0, i as int));
        }
        total = total + estimate_tokens(messages[i].content.as_str());
        i += 1;
    }
    proof {
        assert(mv.subrange(0, n as int) =~= mv);
    }
    total
}

/// A prefix of the list never counts more tokens than the whole.
pub proof fn lemma_total_tokens_prefix(ms: Seq<MessageV>, i: int)
    requires
        0 <= i <= ms.len(),
    ensures
        total_tokens_of(ms.subrange(0, i)) <= total_tokens_of(ms),
    decreases ms.len() - i,
{
    if i < ms.len() {
        lemma_total_tokens_prefix(ms, i + 1);
        assert(ms.subrange(0, i + 1).drop_last() =~= ms.subrange(0, i));
        assert(ms.subrange(0, i + 1).last() == ms[i]);
        lemma_estimate_tokens_bound(ms[i].content);
    } else {
        assert(ms.subrange(0, i) =~= ms);
    }
}

/// ASCII whitespace, the separator used when truncating by words.
pub open spec fn is_space(c: char) -> bool {
    c == ' ' || c == '\t' || c == '\n' || c == '\r'
}

fn is_space_exec(c: char) -> (r: bool)
    ensures
        r == is_space(c),
{
    c == ' ' || c == '\t' || c == '\n' || c == '\r'
}

/// A sentence-ending mark. A full stop only ends a sentence when the next
/// character is whitespace or an ASCII capital, or the text ends.
pub open spec fn is_terminal_mark(c: char) -> bool {
    c == '.' || c == '!' || c == '?' || c == '。' || c == '！' || c == '？' || c == '\n'
}

fn is_terminal_mark_exec(c: char) -> (r: bool)
    ensures
        r == is_terminal_mark(c),
{
    c == '.' || c == '!' || c == '?' || c == '。' || c == '！' || c == '？' || c == '\n'
}

/// Builds a string from a range of a character list.
fn string_of_chars(chars: &Vec<char>, from: usize, to: usize) -> (r: String)
    requires
        from <= to <= chars@.len(),
    ensures
        r@ == chars@.subrange(from as int, to as int),
{
    let mut r = String::new();
    let mut i = from;
    while i < to
        invariant
            from <= i <= to <= chars@.len(),
            r@ =~= chars@.subrange(from as int, i as int),
        decreases to - i,
    {
        r = push_char(r, chars[i]);
        i += 1;
        proof {
            assert(r@ =~= chars@.subrange(from as int, i as int));
        }
    }
    r
}

/// Relies on `String::push`: appends exactly one character.
#[verifier::external_body]
pub fn push_char(s: String, c: char) -> (r: String)
    ensures
        r@ == s@.push(c),
{
    let mut s = s;
    s.push(c);
    s
}

/// The range `[from, to)` with leading and trailing whitespace removed.
fn trimmed_range(chars: &Vec<char>, from: usize, to: usize) -> (r: (usize, usize))
    requires
        from <= to <= chars@.len(),
    ensures
        from <= r.0 <= r.1 <= to,
        forall|i: int| from <= i < r.0 ==> is_space(#[trigger] chars@[i]),
        forall|i: int| r.1 <= i < to ==> is_space(#[trigger] chars@[i]),
{
    let mut a = from;
    let mut b = to;
    while a < b && is_space_exec(chars[a])
        invariant
            from <= a <= b <= to <= chars@.len(),
            forall|i: int| from <= i < a ==> is_space(#[trigger] chars@[i]),
            b == to,
        decreases b - a,
    {
        a += 1;
    }
    while b > a && is_space_exec(chars[b - 1])
        invariant
            from <= a <= b <= to <= chars@.len(),
            forall|i: int| b <= i < to ==> is_space(#[trigger] chars@[i]),
        decreases b,
    {
        b -= 1;
    }
    (a, b)
}

/// `part` is a contiguous piece of `whole`.
pub open spec fn is_piece_of(part: Seq<char>, whole: Seq<char>) -> bool {
    exists|a: int, b: int| 0 <= a <= b <= whole.len() && part == whole.subrange(a, b)
}

/// Index of the first non-space character at or after `i`, or the length.
pub open spec fn first_nonspace_from(s: Seq<char>, i: int) -> int
    decreases s.len() - i,
{
    if i < 0 || i >= s.len() {
        s.len() as int
    } else if is_space(s[i]) {
        first_nonspace_from(s, i + 1)
    } else {
        i
    }
}

/// Index of the first space at or after `i`, or the length.
pub open spec fn word_end_from(s: Seq<char>, i: int) -> int
    decreases s.len() - i,
{
    if i < 0 || i >= s.len() {
        s.len() as int
    } else if is_space(s[i]) {
        i
    } else {
        word_end_from(s, i + 1)
    }
}

/// `[a, b)` is a whole whitespace-delimited word of `s`.
pub open spec fn is_word_at(s: Seq<char>, a: int, b: int) -> bool {
    &&& 0 <= a < b <= s.len()
    &&& forall|x: int| a <= x < b ==> !is_space(#[trigger] s[x])
    &&& a == 0 || is_space(s[a - 1])
    &&& b == s.len() || is_space(s[b])
}

/// An ordered list of whole words of `s`, left to right.
pub open spec fn word_bounds_ok(s: Seq<char>, bounds: Seq<(int, int)>) -> bool {
    &&& forall|k: int|
        0 <= k < bounds.len() ==> is_word_at(s, (#[trigger] bounds[k]).0, bounds[k].1)
    &&& forall|k: int| 0 <= k < bounds.len() - 1 ==> (#[trigger] bounds[k]).1 < bounds[k + 1].0
}

/// The words named by `bounds`, joined with single spaces.
pub open spec fn joined_words(s: Seq<char>, bounds: Seq<(int, int)>) -> Seq<char>
    decreases bounds.len(),
{
    if bounds.len() == 0 {
        Seq::empty()
    } else if bounds.len() == 1 {
        s.subrange(bounds[0].0, bounds[0].1)
    } else {
        joined_words(s, bounds.drop_last()) + seq![' '] + s.subrange(
            bounds.last().0,
            bounds.last().1,
        )
    }
}

/// Splits a text into trimmed, non-empty sentences, on terminal marks.
/// Every sentence is a contiguous piece of the text, and a text with any
/// non-space character yields at least one sentence.
pub fn split_into_sentences(text: &str) -> (r: Vec<String>)
    ensures
        forall|i: int| 0 <= i < r@.len() ==> (#[trigger] r@[i])@.len() >= 1,
        forall|i: int| 0 <= i < r@.len() ==> is_piece_of((#[trigger] r@[i])@, text@),
        (exists|j: int| 0 <= j < text@.len() && !is_space(#[trigger] text@[j])) ==> r@.len() >= 1,
{
    let chars = str_chars(text);
    let n = chars.len();
    let mut sentences: Vec<String> = Vec::new();
    let mut start: usize = 0;
    let mut i: usize = 0;
    while i < n
        invariant
            start <= n,
            i <= n,
            n == chars@.len(),
            chars@ == text@,
            start <= i || start == i + 1,
            forall|k: int| 0 <= k < sentences@.len() ==> (#[trigger] sentences@[k])@.len() >= 1,
            forall|k: int| 0 <= k < sentences@.len() ==> is_piece_of((#[trigger] sentences@[k])@, text@),
            sentences@.len() >= 1 || forall|j: int|
                0 <= j < start ==> is_space(#[trigger] text@[j]),
        decreases n - i,
    {
        let c = chars[i];
        if is_terminal_mark_exec(c) {
            let sentence_end = if c == '.' {
                if i + 1 >= n {
                    true
                } else {
                    let nx = chars[i + 1] as u32;
                    is_space_exec(chars[i + 1]) || (65 <= nx && nx <= 90)
                }
            } else {
                true
            };
            if sentence_end {
                let lo = if start <= i + 1 {
                    start
                } else {
                    i + 1
                };
                let (a, b) = trimmed_range(&chars, lo, i + 1);
                if b > a {
                    let ghost before = sentences@;
                    sentences.push(string_of_chars(&chars, a, b));
                    proof {
                        assert forall|k: int| 0 <= k < sentences@.len() implies is_piece_of(
                            (#[trigger] sentences@[k])@,
                            text@,
                        ) by {
                            if k < sentences@.len() - 1 {
                                assert(sentences@[k] == before[k]);
                                assert(is_piece_of(before[k]@, text@));
                            } else {
                                assert(sentences@[k]@ == text@.subrange(a as int, b as int));
                            }
                        }
                    }
                }
                proof {
                    if sentences@.len() == 0 {
                        assert(b <= a);
                        assert forall|j: int| 0 <= j < i + 1 implies is_space(
                            #[trigger] text@[j],
                        ) by {
                            if j >= start {
                                assert(lo == start);
                                assert(lo <= j < i + 1);
                            }
                        }
                    }
                }
                start = i + 1;
            }
        }
        i += 1;
    }
    if start < n {
        let (a, b) = trimmed_range(&chars, start, n);
        if b > a {
            let ghost before = sentences@;
            sentences.push(string_of_chars(&chars, a, b));
            proof {
                assert forall|k: int| 0 <= k < sentences@.len() implies is_piece_of(
                    (#[trigger] sentences@[k])@,
                    text@,
                ) by {
                    if k < sentences@.len() - 1 {
                        assert(sentences@[k] == before[k]);
                        assert(is_piece_of(before[k]@, text@));
                    } else {
                        assert(sentences@[k]@ == text@.subrange(a as int, b as int));
                    }
                }
            }
        } else {
            proof {
                if sentences@.len() == 0 {
                    assert forall|j: int| 0 <= j < n implies is_space(#[trigger] text@[j]) by {
                        if j >= start {
                            assert(start <= j < n);
                        }
                    }
                }
            }
        }
    }
    sentences
}

/// Keeps whole whitespace-separated words while they fit in `max_chars`
/// characters, one space between words: the result is exactly a run of
/// whole words of the text, in order, and it is non-empty whenever the
/// first word alone fits the budget.
pub fn truncate_by_words(text: &str, max_chars: usize) -> (r: String)
    ensures
        r@.len() <= max_chars,
        exists|bounds: Seq<(int, int)>|
            word_bounds_ok(text@, bounds) && r@ == joined_words(text@, bounds),
        ({
            let a = first_nonspace_from(text@, 0);
            a < text@.len() && word_end_from(text@, a) - a <= max_chars
        }) ==> r@.len() >= 1,
{
    let chars = str_chars(text);
    let n = chars.len();
    let mut result = String::new();
    let ghost mut bounds: Seq<(int, int)> = Seq::empty();
    let mut i: usize = 0;
    while i < n
        invariant
            i <= n,
            n == chars@.len(),
            chars@ == text@,
            result@.len() <= max_chars,
            word_bounds_ok(text@, bounds),
            result@ == joined_words(text@, bounds),
            bounds.len() > 0 ==> bounds.last().1 <= i,
            (result@.len() == 0) == (bounds.len() == 0),
            result@.len() == 0 ==> first_nonspace_from(text@, 0) == first_nonspace_from(
                text@,
                i as int,
            ),
            i == 0 || i >= n || is_space(text@[i - 1]) || is_space(text@[i as int]),
        decreases n - i,
    {
        if is_space_exec(chars[i]) {
            i += 1;
        } else {
            let word_start = i;
            let mut j = i;
            while j < n && !is_space_exec(chars[j])
                invariant
                    i <= j <= n,
                    n == chars@.len(),
                    chars@ == text@,
                    forall|x: int| i <= x < j ==> !is_space(#[trigger] text@[x]),
                    word_end_from(text@, i as int) == word_end_from(text@, j as int),
                decreases n - j,
            {
                j += 1;
            }
            proof {
                assert(j > word_start);
                assert(word_end_from(text@, word_start as int) == j);
                assert(is_word_at(text@, word_start as int, j as int));
            }
            let word_len = j - word_start;
            let result_len = result.as_str().unicode_len();
            let sep: usize = if result_len == 0 {
                0
            } else {
                1
            };
            let fits = word_len <= max_chars && sep <= max_chars - word_len && result_len
                <= max_chars - word_len - sep;
            if fits {
                let ghost before = bounds;
                if sep == 1 {
                    result = push_char(result, ' ');
                }
                let word = string_of_chars(&chars, word_start, j);
                result.append(word.as_str());
                proof {
                    if before.len() > 0 {
                        assert(is_word_at(text@, before.last().0, before.last().1));
                        assert(before.last().1 < word_start as int);
                    }
                    bounds = before.push((word_start as int, j as int));
                    assert(bounds.drop_last() =~= before);
                    assert(word_bounds_ok(text@, bounds)) by {
                        assert forall|k: int| 0 <= k < bounds.len() implies is_word_at(
                            text@,
                            (#[trigger] bounds[k]).0,
                            bounds[k].1,
                        ) by {
                            if k < bounds.len() - 1 {
                                assert(bounds[k] == before[k]);
                            }
                        }
                        assert forall|k: int|
                            0 <= k < bounds.len() - 1 implies (#[trigger] bounds[k]).1 < bounds[
                                k + 1
                            ].0 by {
                            if k < bounds.len() - 2 {
                                assert(bounds[k] == before[k]);
                                assert(bounds[k + 1] == before[k + 1]);
                            } else {
                                assert(bounds[k] == before[k]);
                            }
                        }
                    }
                    assert(result@ == joined_words(text@, bounds)) by {
                        if before.len() == 0 {
                            assert(joined_words(text@, bounds) == text@.subrange(
                                word_start as int,
                                j as int,
                            ));
                        } else {
                            assert(joined_words(text@, bounds) == joined_words(text@, before)
                                + seq![' '] + text@.subrange(word_start as int, j as int));
                        }
                    }
                }
            } else {
                proof {
                    if result@.len() == 0 {
                        assert(first_nonspace_from(text@, i as int) == i);
                        assert(word_end_from(text@, word_start as int) - word_start <= max_chars
                            ==> fits);
                    }
                }
                return result;
            }
            i = j;
        }
    }
    proof {
        if result@.len() == 0 {
            assert(first_nonspace_from(text@, n as int) == n);
        }
    }
    result
}

/// Shrinks a text to about `max_chars` characters: unchanged when it
/// already fits; else whole sentences while they fit, then whole words,
/// then a bare character cut; an ellipsis marks any actual truncation, so
/// the result stays within one character over the bound.
pub fn summarize_content(content: &str, max_chars: usize) -> (r: String)
    ensures
        content@.len() <= max_chars ==> r@ == content@,
        r@.len() <= max_chars + 1,
        content@.len() > max_chars ==> 1 <= r@.len() && r@.last() == '…',
{
    let content_len = content.unicode_len();
    if content_len <= max_chars {
        return content.to_owned();
    }
    let sentences = split_into_sentences(content);
    let mut result = String::new();
    let mut current_len: usize = 0;
    let k = sentences.len();
    let mut s: usize = 0;
    while s < k
        invariant
            s <= k,
            k == sentences@.len(),
            current_len == result@.len(),
            current_len <= max_chars,
        decreases k - s,
    {
        let sentence = &sentences[s];
        let sentence_len = sentence.as_str().unicode_len();
        if sentence_len <= max_chars - current_len {
            result.append(sentence.as_str());
            current_len = current_len + sentence_len;
        } else {
            if current_len == 0 {
                result = truncate_by_words(sentence.as_str(), max_chars);
                current_len = result.as_str().unicode_len();
            }
            break ;
        }
        s += 1;
    }
    if result.as_str().unicode_len() == 0 || result.as_str().unicode_len() < max_chars / 2 {
        let chars = str_chars(content);
        let take = if max_chars >= 1 {
            max_chars - 1
        } else {
            0
        };
        let upto = if take <= chars.len() {
            take
        } else {
            chars.len()
        };
        result = string_of_chars(&chars, 0, upto);
    }
    // The kept text is always shorter than the over-long content, so the
    // truncation is marked.
    proof {
        assert(result@.len() <= max_chars);
        assert(result@.len() < content@.len());
    }
    if result.as_str().unicode_len() < content_len {
        result = push_char(result, '…');
    }
    proof {
        assert(result@.last() == '…');
    }
    result
}

} // verus!

verus! {

pub open spec fn is_upper(c: char) -> bool {
    65 <= c as u32 && c as u32 <= 90
}

/// Character equality up to ASCII case.
pub open spec fn char_eq_ic(a: char, b: char) -> bool {
    a == b || (is_upper(a) && a as u32 + 32 == b as u32) || (is_upper(b) && b as u32 + 32
        == a as u32)
}

/// String equality up to ASCII case, the comparison applied to role names.
pub open spec fn str_eq_ic(a: Seq<char>, b: Seq<char>) -> bool {
    a.len() == b.len() && (forall|i: int| 0 <= i < a.len() ==> char_eq_ic(a[i], b[i]))
}

pub open spec fn is_user_role(role: Seq<char>) -> bool {
    str_eq_ic(role, "user"@)
}

pub open spec fn is_assistant_role(role: Seq<char>) -> bool {
    str_eq_ic(role, "assistant"@)
}

pub open spec fn is_system_role(role: Seq<char>) -> bool {
    str_eq_ic(role, "system"@)
}

/// Roles that the default trim always keeps.
pub open spec fn is_protected_role(role: Seq<char>) -> bool {
    str_eq_ic(role, "prompt"@) || str_eq_ic(role, "system"@)
}

pub fn char_eq_ic_exec(a: char, b: char) -> (r: bool)
    ensures
        r == char_eq_ic(a, b),
{
    let ua = a as u32;
    let ub = b as u32;
    a == b || ((65 <= ua && ua <= 90) && ua + 32 == ub) || ((65 <= ub && ub <= 90) && ub + 32
        == ua)
}

/// String comparison up to ASCII case.
pub fn str_eq_ic_exec(a: &str, b: &str) -> (r: bool)
    ensures
        r == str_eq_ic(a@, b@),
{
    let ca = str_chars(a);
    let cb = str_chars(b);
    let n = ca.len();
    if n != cb.len() {
        return false;
    }
    let mut i: usize = 0;
    while i < n
        invariant
            i <= n,
            n == a@.len(),
            n == b@.len(),
            ca@ == a@,
            cb@ == b@,
            forall|j: int| 0 <= j < i ==> char_eq_ic(a@[j], b@[j]),
        decreases n - i,
    {
        if !char_eq_ic_exec(ca[i], cb[i]) {
            return false;
        }
        i += 1;
    }
    true
}

fn is_user_exec(role: &str) -> (r: bool)
    ensures
        r == is_user_role(role@),
{
    str_eq_ic_exec(role, "user")
}

fn is_assistant_exec(role: &str) -> (r: bool)
    ensures
        r == is_assistant_role(role@),
{
    str_eq_ic_exec(role, "assistant")
}

fn is_protected_exec(role: &str) -> (r: bool)
    ensures
        r == is_protected_role(role@),
{
    str_eq_ic_exec(role, "prompt") || str_eq_ic_exec(role, "system")
}

/// Index of the first user message at or after `i`, or the length.
pub open spec fn first_user_from(ms: Seq<MessageV>, i: int) -> int
    decreases ms.len() - i,
{
    if i < 0 || i >= ms.len() {
        ms.len() as int
    } else if is_user_role(ms[i].role) {
        i
    } else {
        first_user_from(ms, i + 1)
    }
}

/// Index of the first assistant message at or after `i`, or the length.
pub open spec fn first_assistant_from(ms: Seq<MessageV>, i: int) -> int
    decreases ms.len() - i,
{
    if i < 0 || i >= ms.len() {
        ms.len() as int
    } else if is_assistant_role(ms[i].role) {
        i
    } else {
        first_assistant_from(ms, i + 1)
    }
}

/// What the default trim always keeps: the last message, every protected
/// role, and the first user/assistant pair when one exists.
pub open spec fn base_keep(ms: Seq<MessageV>, i: int) -> bool {
    let u = first_user_from(ms, 0);
    let a = first_assistant_from(ms, u + 1);
    i == ms.len() - 1 || is_protected_role(ms[i].role) || (u < ms.len() && a < ms.len() && (i == u
        || i == a))
}

/// The flag sequence of `base_keep`.
pub open spec fn base_keep_seq(ms: Seq<MessageV>) -> Seq<bool> {
    Seq::new(ms.len(), |i: int| base_keep(ms, i))
}

/// Tokens of the flagged messages.
pub open spec fn kept_tokens(ms: Seq<MessageV>, keep: Seq<bool>) -> int
    recommends
        keep.len() == ms.len(),
    decreases ms.len(),
{
    if ms.len() == 0 {
        0
    } else {
        kept_tokens(ms.drop_last(), keep.drop_last()) + if keep.len() == ms.len()
            && keep.last() {
            estimate_tokens_of(ms.last().content)
        } else {
            0
        }
    }
}

/// Tokens that the base keep-set of the default trim costs.
pub open spec fn base_keep_tokens(ms: Seq<MessageV>) -> int {
    kept_tokens(ms, base_keep_seq(ms))
}

/// The flagged messages, in order.
pub open spec fn kept_view(ms: Seq<MessageV>, keep: Seq<bool>) -> Seq<MessageV>
    recommends
        keep.len() == ms.len(),
    decreases ms.len(),
{
    if ms.len() == 0 {
        Seq::empty()
    } else {
        kept_view(ms.drop_last(), keep.drop_last()) + if keep.len() == ms.len()
            && keep.last() {
            seq![ms.last()]
        } else {
            Seq::empty()
        }
    }
}

pub proof fn lemma_kept_tokens_nonneg(ms: Seq<MessageV>, keep: Seq<bool>)
    ensures
        kept_tokens(ms, keep) >= 0,
    decreases ms.len(),
{
    if ms.len() > 0 {
        lemma_kept_tokens_nonneg(ms.drop_last(), keep.drop_last());
        lemma_estimate_tokens_bound(ms.last().content);
    }
}

/// Flagged tokens never exceed the whole list's tokens.
pub proof fn lemma_kept_tokens_le_total(ms: Seq<MessageV>, keep: Seq<bool>)
    ensures
        kept_tokens(ms, keep) <= total_tokens_of(ms),
    decreases ms.len(),
{
    if ms.len() > 0 {
        lemma_kept_tokens_le_total(ms.drop_last(), keep.drop_last());
        lemma_estimate_tokens_bound(ms.last().content);
    }
}

/// Raising one flag adds exactly that message's tokens.
pub proof fn lemma_kept_tokens_set_true(ms: Seq<MessageV>, keep: Seq<bool>, i: int)
    requires
        keep.len() == ms.len(),
        0 <= i < ms.len(),
        !keep[i],
    ensures
        kept_tokens(ms, keep.update(i, true)) == kept_tokens(ms, keep) + estimate_tokens_of(
            ms[i].content,
        ),
    decreases ms.len(),
{
    let upd = keep.update(i, true);
    if i == ms.len() - 1 {
        assert(upd.drop_last() =~= keep.drop_last());
    } else {
        assert(upd.drop_last() =~= keep.drop_last().update(i, true));
        lemma_kept_tokens_set_true(ms.drop_last(), keep.drop_last(), i);
        assert(upd.last() == keep.last());
    }
}

/// The flagged tokens equal the tokens of the flagged view.
pub proof fn lemma_kept_view_tokens(ms: Seq<MessageV>, keep: Seq<bool>)
    requires
        keep.len() == ms.len(),
    ensures
        total_tokens_of(kept_view(ms, keep)) == kept_tokens(ms, keep),
    decreases ms.len(),
{
    if ms.len() > 0 {
        lemma_kept_view_tokens(ms.drop_last(), keep.drop_last());
        let pre = kept_view(ms.drop_last(), keep.drop_last());
        if keep.last() {
            let whole = pre.push(ms.last());
            assert(kept_view(ms, keep) =~= whole);
            assert(whole.drop_last() =~= pre);
        } else {
            assert(kept_view(ms, keep) =~= pre);
        }
    }
}

/// A flagged message appears in the flagged view.
pub proof fn lemma_kept_view_contains(ms: Seq<MessageV>, keep: Seq<bool>, i: int)
    requires
        keep.len() == ms.len(),
        0 <= i < ms.len(),
        keep[i],
    ensures
        exists|j: int|
            0 <= j < kept_view(ms, keep).len() && kept_view(ms, keep)[j] == ms[i],
    decreases ms.len(),
{
    let kv = kept_view(ms, keep);
    if i == ms.len() - 1 {
        assert(kv[kv.len() - 1] == ms[i]);
    } else {
        lemma_kept_view_contains(ms.drop_last(), keep.drop_last(), i);
        let pre = kept_view(ms.drop_last(), keep.drop_last());
        let j = choose|j: int| 0 <= j < pre.len() && pre[j] == ms.drop_last()[i];
        assert(kv[j] == ms[i]);
    }
}

/// Every message of the flagged view comes from the input.
pub proof fn lemma_kept_view_from_input(ms: Seq<MessageV>, keep: Seq<bool>, j: int)
    requires
        keep.len() == ms.len(),
        0 <= j < kept_view(ms, keep).len(),
    ensures
        exists|i: int| 0 <= i < ms.len() && ms[i] == kept_view(ms, keep)[j],
    decreases ms.len(),
{
    if ms.len() > 0 {
        let pre = kept_view(ms.drop_last(), keep.drop_last());
        if j < pre.len() {
            lemma_kept_view_from_input(ms.drop_last(), keep.drop_last(), j);
            let i = choose|i: int|
                0 <= i < ms.drop_last().len() && ms.drop_last()[i] == kept_view(
                    ms.drop_last(),
                    keep.drop_last(),
                )[j];
            assert(ms[i] == kept_view(ms, keep)[j]);
        } else {
            assert(ms[ms.len() - 1] == kept_view(ms, keep)[j]);
        }
    }
}

/// Two distinct flags give the flagged view at least two messages.
pub proof fn lemma_kept_view_two(ms: Seq<MessageV>, keep: Seq<bool>, i: int, k: int)
    requires
        keep.len() == ms.len(),
        0 <= i < k < ms.len(),
        keep[i],
        keep[k],
    ensures
        kept_view(ms, keep).len() >= 2,
    decreases ms.len(),
{
    if k == ms.len() - 1 {
        lemma_kept_view_contains(ms.drop_last(), keep.drop_last(), i);
    } else {
        lemma_kept_view_two(ms.drop_last(), keep.drop_last(), i, k);
    }
}

/// A mask that is false before `k` and true from `k` on keeps exactly
/// the suffix from `k`.
pub proof fn lemma_kept_view_suffix(ms: Seq<MessageV>, keep: Seq<bool>, k: int)
    requires
        keep.len() == ms.len(),
        0 <= k <= ms.len(),
        forall|i: int| 0 <= i < k ==> !(#[trigger] keep[i]),
        forall|i: int| k <= i < ms.len() ==> #[trigger] keep[i],
    ensures
        kept_view(ms, keep) == ms.subrange(k, ms.len() as int),
    decreases ms.len(),
{
    if ms.len() == 0 {
        assert(kept_view(ms, keep) =~= ms.subrange(k, 0));
    } else if k == ms.len() {
        lemma_kept_view_suffix(ms.drop_last(), keep.drop_last(), k - 1);
        assert(kept_view(ms, keep) =~= ms.subrange(k, ms.len() as int));
    } else {
        lemma_kept_view_suffix(ms.drop_last(), keep.drop_last(), k);
        assert(kept_view(ms, keep) =~= ms.drop_last().subrange(k, ms.len() - 1).push(ms.last()));
        assert(ms.drop_last().subrange(k, ms.len() - 1).push(ms.last()) =~= ms.subrange(
            k,
            ms.len() as int,
        ));
    }
}

/// Default trim. Keeps every message while the list fits the budget or is
/// no longer than two messages; otherwise drops unprotected messages,
/// re-adding the newest user/assistant pairs that still fit. The result
/// always holds the last message and every system/prompt message, only
/// messages of the input, and — whenever the mandatory keep-set itself
/// fits the budget — either fits the budget or falls back to the last two
/// messages.
pub fn trim_context(messages: &Vec<ChatMessageJson>, max_tokens: usize) -> (r: Vec<
    ChatMessageJson,
>)
    requires
        total_tokens_of(messages_view(messages@)) <= usize::MAX,
    ensures
        messages@.len() == 0 ==> r@.len() == 0,
        total_tokens_of(messages_view(messages@)) <= max_tokens ==> messages_view(r@)
            == messages_view(messages@),
        messages@.len() <= 2 ==> messages_view(r@) == messages_view(messages@),
        messages@.len() > 0 ==> exists|j: int|
            0 <= j < r@.len() && messages_view(r@)[j] == messages_view(messages@).last(),
        forall|i: int|
            0 <= i < messages@.len() && is_protected_role(
                #[trigger] messages_view(messages@)[i].role,
            ) ==> exists|j: int|
                0 <= j < r@.len() && messages_view(r@)[j] == messages_view(messages@)[i],
        forall|j: int|
            0 <= j < r@.len() ==> exists|i: int|
                0 <= i < messages@.len() && messages_view(messages@)[i]
                    == #[trigger] messages_view(r@)[j],
        (messages@.len() > 2 && base_keep_tokens(messages_view(messages@)) <= max_tokens) ==> (
        total_tokens_of(messages_view(r@)) <= max_tokens || r@.len() == 2),
        exists|keep: Seq<bool>|
            #![auto]
            keep.len() == messages@.len() && (forall|i: int|
                0 <= i < messages@.len() && base_keep(messages_view(messages@), i)
                    ==> keep[i]) && messages_view(r@) == kept_view(
                messages_view(messages@),
                keep,
            ),
{
    broadcast use lemma_messages_view_index;

    let ghost mv = messages_view(messages@);
    let n = messages.len();
    if n == 0 {
        let r: Vec<ChatMessageJson> = Vec::new();
        proof {
            assert(messages_view(r@) =~= mv);
            let w = Seq::<bool>::empty();
            assert(kept_view(mv, w) =~= messages_view(r@));
        }
        return r;
    }
    let total = calculate_total_tokens(messages);
    if total <= max_tokens || n <= 2 {
        let r = clone_messages(messages);
        proof {
            assert(messages_view(r@)[mv.len() - 1] == mv.last());
            assert forall|i: int|
                0 <= i < mv.len() && is_protected_role(#[trigger] mv[i].role) implies exists|j: int|
                0 <= j < r@.len() && messages_view(r@)[j] == mv[i] by {
                assert(messages_view(r@)[i] == mv[i]);
            }
            assert forall|j: int| 0 <= j < r@.len() implies exists|i: int|
                0 <= i < mv.len() && mv[i] == #[trigger] messages_view(r@)[j] by {
                assert(mv[j] == messages_view(r@)[j]);
            }
            let w = Seq::new(mv.len(), |i: int| true);
            lemma_kept_view_suffix(mv, w, 0);
            assert(mv.subrange(0, mv.len() as int) =~= mv);
            assert(kept_view(mv, w) == messages_view(r@));
        }
        return r;
    }

    // Per-message token estimates.
    let mut token_cache: Vec<usize> = Vec::new();
    let mut t: usize = 0;
    while t < n
        invariant
            t <= n,
            n == messages@.len(),
            mv == messages_view(messages@),
            total_tokens_of(mv) <= usize::MAX,
            token_cache@.len() == t,
            forall|j: int|
                0 <= j < t ==> #[trigger] token_cache@[j] == estimate_tokens_of(mv[j].content),
        decreases n - t,
    {
        proof {
            lemma_total_tokens_term(mv, t as int);
            lemma_estimate_tokens_bound(mv[t as int].content);
        }
        token_cache.push(estimate_tokens(messages[t].content.as_str()));
        t += 1;
    }

    // The mandatory keep-set: last message, protected roles, first pair.
    let first_user = find_first_user(messages, 0);
    let from = if first_user < n {
        first_user + 1
    } else {
        n
    };
    let first_assistant = find_first_assistant(messages, from);
    proof {
        if first_user >= n {
            assert(first_assistant_from(mv, first_user_from(mv, 0) + 1) == first_assistant_from(
                mv,
                n as int,
            ));
        }
    }
    let pair_found = first_user < n && first_assistant < n;
    let mut keep: Vec<bool> = Vec::new();
    let mut b: usize = 0;
    while b < n
        invariant
            b <= n,
            n == messages@.len(),
            mv == messages_view(messages@),
            keep@.len() == b,
            first_user == first_user_from(mv, 0),
            first_assistant as int == first_assistant_from(mv, first_user_from(mv, 0) + 1),
            pair_found == (first_user < n && first_assistant < n),
            forall|j: int| 0 <= j < b ==> #[trigger] keep@[j] == base_keep(mv, j),
        decreases n - b,
    {
        let flag = b == n - 1 || is_protected_exec(messages[b].role.as_str()) || (pair_found && (b
            == first_user || b == first_assistant));
        keep.push(flag);
        b += 1;
    }
    proof {
        assert(keep@ =~= base_keep_seq(mv));
    }

    // Tokens of the mandatory set.
    let mut current_tokens: usize = 0;
    let mut c: usize = 0;
    while c < n
        invariant
            c <= n,
            n == messages@.len(),
            mv == messages_view(messages@),
            total_tokens_of(mv) <= usize::MAX,
            keep@.len() == n,
            token_cache@.len() == n,
            forall|j: int|
                0 <= j < n ==> #[trigger] token_cache@[j] == estimate_tokens_of(mv[j].content),
            current_tokens == kept_tokens(mv.subrange(0, c as int), keep@.subrange(0, c as int)),
        decreases n - c,
    {
        proof {
            assert(mv.subrange(0, c + 1).drop_last() =~= mv.subrange(0, c as int));
            assert(keep@.subrange(0, c + 1).drop_last() =~= keep@.subrange(0, c as int));
            lemma_kept_tokens_le_total(mv.subrange(0, c + 1), keep@.subrange(0, c + 1));
            lemma_total_tokens_prefix(mv, c + 1);
            lemma_kept_tokens_nonneg(mv.subrange(0, c as int), keep@.subrange(0, c as int));
            lemma_estimate_tokens_bound(mv[c as int].content);
            lemma_kept_tokens_le_total(mv.subrange(0, c as int), keep@.subrange(0, c as int));
            lemma_total_tokens_prefix(mv, c as int);
        }
        if keep[c] {
            current_tokens = current_tokens + token_cache[c];
        }
        c += 1;
    }
    proof {
        assert(mv.subrange(0, n as int) =~= mv);
        assert(keep@.subrange(0, n as int) =~= keep@);
    }
    let ghost initial_ok = current_tokens <= max_tokens;

    // Walk from newest to oldest, re-adding what still fits, pairs first.
    let mut idx: usize = n;
    while idx > 0
        invariant
            idx <= n,
            n == messages@.len(),
            mv == messages_view(messages@),
            keep@.len() == n,
            token_cache@.len() == n,
            forall|j: int|
                0 <= j < n ==> #[trigger] token_cache@[j] == estimate_tokens_of(mv[j].content),
            forall|j: int| 0 <= j < n && base_keep(mv, j) ==> #[trigger] keep@[j],
            kept_tokens(mv, keep@) <= current_tokens,
            initial_ok ==> current_tokens <= max_tokens,
        decreases idx,
    {
        let i = idx - 1;
        if keep[i] {
            idx = i;
        } else {
            let ghost keep_before = keep@;
            let role_assistant = is_assistant_exec(messages[i].role.as_str());
            let role_user = is_user_exec(messages[i].role.as_str());
            if role_assistant && i >= 1 && is_user_exec(messages[i - 1].role.as_str()) {
                let t_hi = token_cache[i];
                let t_lo = token_cache[i - 1];
                proof {
                    lemma_estimate_tokens_bound(mv[i as int].content);
                    lemma_estimate_tokens_bound(mv[i - 1].content);
                }
                if current_tokens <= max_tokens && t_hi <= max_tokens - current_tokens && t_lo
                    <= max_tokens - current_tokens - t_hi {
                    keep[i] = true;
                    keep[i - 1] = true;
                    proof {
                        lemma_kept_tokens_set_true(mv, keep_before, i as int);
                        let mid = keep_before.update(i as int, true);
                        if mid[i - 1] {
                            assert(mid.update(i - 1, true) =~= mid);
                            lemma_kept_tokens_nonneg(mv, mid);
                        } else {
                            lemma_kept_tokens_set_true(mv, mid, i - 1);
                        }
                        assert(keep@ =~= mid.update(i - 1, true));
                    }
                    current_tokens = current_tokens + t_hi + t_lo;
                }
                idx = i - 1;
            } else if role_user && i + 1 < n && is_assistant_exec(messages[i + 1].role.as_str()) {
                let t_hi = token_cache[i + 1];
                let t_lo = token_cache[i];
                proof {
                    lemma_estimate_tokens_bound(mv[i as int].content);
                    lemma_estimate_tokens_bound(mv[i + 1].content);
                }
                if current_tokens <= max_tokens && t_hi <= max_tokens - current_tokens && t_lo
                    <= max_tokens - current_tokens - t_hi {
                    keep[i] = true;
                    keep[i + 1] = true;
                    proof {
                        lemma_kept_tokens_set_true(mv, keep_before, i as int);
                        let mid = keep_before.update(i as int, true);
                        if mid[i + 1] {
                            assert(mid.update(i + 1, true) =~= mid);
                            lemma_kept_tokens_nonneg(mv, mid);
                        } else {
                            lemma_kept_tokens_set_true(mv, mid, i + 1);
                        }
                        assert(keep@ =~= mid.update(i + 1, true));
                    }
                    current_tokens = current_tokens + t_hi + t_lo;
                }
                idx = i;
            } else {
                let t_i = token_cache[i];
                proof {
                    lemma_estimate_tokens_bound(mv[i as int].content);
                }
                if current_tokens <= max_tokens && t_i <= max_tokens - current_tokens {
                    keep[i] = true;
                    proof {
                        lemma_kept_tokens_set_true(mv, keep_before, i as int);
                    }
                    current_tokens = current_tokens + t_i;
                }
                idx = i;
            }
        }
    }

    // Assemble the kept messages in their original order.
    let mut result: Vec<ChatMessageJson> = Vec::new();
    let mut a: usize = 0;
    while a < n
        invariant
            a <= n,
            n == messages@.len(),
            mv == messages_view(messages@),
            keep@.len() == n,
            messages_view(result@) =~= kept_view(
                mv.subrange(0, a as int),
                keep@.subrange(0, a as int),
            ),
        decreases n - a,
    {
        proof {
            assert(mv.subrange(0, a + 1).drop_last() =~= mv.subrange(0, a as int));
            assert(keep@.subrange(0, a + 1).drop_last() =~= keep@.subrange(0, a as int));
        }
        if keep[a] {
            let ghost prev = result@;
            result.push(clone_message(&messages[a]));
            proof {
                assert forall|j: int|
                    0 <= j < result@.len() implies #[trigger] messages_view(result@)[j]
                    == kept_view(mv.subrange(0, a + 1), keep@.subrange(0, a + 1))[j] by {
                    assert(messages_view(result@)[j] == result@[j]@);
                    if j < result@.len() - 1 {
                        assert(result@[j] == prev[j]);
                        assert(messages_view(prev)[j] == prev[j]@);
                    }
                }
                assert(messages_view(result@) =~= kept_view(
                    mv.subrange(0, a + 1),
                    keep@.subrange(0, a + 1),
                ));
            }
        }
        a += 1;
    }
    proof {
        assert(mv.subrange(0, n as int) =~= mv);
        assert(keep@.subrange(0, n as int) =~= keep@);
    }

    if result.len() < 2 {
        // Only the last message survived: return the last two instead.
        proof {
            assert(keep@[n - 1]);
            assert forall|i: int|
                0 <= i < n - 1 implies !(is_protected_role(#[trigger] mv[i].role)) by {
                if is_protected_role(mv[i].role) {
                    assert(keep@[i]);
                    lemma_kept_view_two(mv, keep@, i, n - 1);
                }
            }
        }
        let mut fallback: Vec<ChatMessageJson> = Vec::new();
        fallback.push(clone_message(&messages[n - 2]));
        fallback.push(clone_message(&messages[n - 1]));
        proof {
            assert(messages_view(fallback@)[1] == mv[n - 1]);
            assert(messages_view(fallback@)[0] == mv[n - 2]);
            assert forall|i: int| 0 <= i < n - 1 implies !base_keep(mv, i) by {
                if base_keep(mv, i) {
                    assert(keep@[i]);
                    lemma_kept_view_two(mv, keep@, i, n - 1);
                }
            }
            let w = Seq::new(mv.len(), |i: int| i >= n - 2);
            lemma_kept_view_suffix(mv, w, n - 2);
            assert(kept_view(mv, w) == mv.subrange(n - 2, n as int));
            assert(messages_view(fallback@) =~= mv.subrange(n - 2, n as int));
            assert(forall|i: int|
                0 <= i < mv.len() && base_keep(mv, i) ==> #[trigger] w[i]);
            assert forall|i: int|
                0 <= i < mv.len() && is_protected_role(#[trigger] mv[i].role) implies exists|j: int|
                0 <= j < fallback@.len() && messages_view(fallback@)[j] == mv[i] by {
                assert(i == n - 1);
                assert(messages_view(fallback@)[1] == mv[i]);
            }
            assert forall|j: int| 0 <= j < fallback@.len() implies exists|i: int|
                0 <= i < mv.len() && mv[i] == #[trigger] messages_view(fallback@)[j] by {
                if j == 0 {
                    assert(mv[n - 2] == messages_view(fallback@)[j]);
                } else {
                    assert(mv[n - 1] == messages_view(fallback@)[j]);
                }
            }
        }
        return fallback;
    }

    proof {
        lemma_kept_view_tokens(mv, keep@);
        assert(keep@[n - 1]);
        lemma_kept_view_contains(mv, keep@, n - 1);
        assert forall|i: int|
            0 <= i < mv.len() && is_protected_role(#[trigger] mv[i].role) implies exists|j: int|
            0 <= j < result@.len() && messages_view(result@)[j] == mv[i] by {
            assert(keep@[i]);
            lemma_kept_view_contains(mv, keep@, i);
        }
        assert forall|j: int| 0 <= j < result@.len() implies exists|i: int|
            0 <= i < mv.len() && mv[i] == #[trigger] messages_view(result@)[j] by {
            lemma_kept_view_from_input(mv, keep@, j);
        }
        assert(keep@.len() == mv.len() && (forall|i: int|
            0 <= i < mv.len() && base_keep(mv, i) ==> keep@[i]) && messages_view(result@)
            == kept_view(mv, keep@));
    }
    result
}

/// Index of the first user message at or after `from`, or the length.
pub fn find_first_user(messages: &Vec<ChatMessageJson>, from: usize) -> (r: usize)
    requires
        from <= messages@.len(),
    ensures
        r == first_user_from(messages_view(messages@), from as int),
        r <= messages@.len(),
{
    broadcast use lemma_messages_view_index;

    let ghost mv = messages_view(messages@);
    let n = messages.len();
    let mut i = from;
    while i < n
        invariant
            from <= i <= n,
            n == messages@.len(),
            mv == messages_view(messages@),
            first_user_from(mv, from as int) == first_user_from(mv, i as int),
        decreases n - i,
    {
        if is_user_exec(messages[i].role.as_str()) {
            return i;
        }
        i += 1;
    }
    n
}

/// Index of the first assistant message at or after `from`, or the length.
fn find_first_assistant(messages: &Vec<ChatMessageJson>, from: usize) -> (r: usize)
    requires
        from <= messages@.len(),
    ensures
        r == first_assistant_from(messages_view(messages@), from as int),
        r <= messages@.len(),
{
    broadcast use lemma_messages_view_index;

    let ghost mv = messages_view(messages@);
    let n = messages.len();
    let mut i = from;
    while i < n
        invariant
            from <= i <= n,
            n == messages@.len(),
            mv == messages_view(messages@),
            first_assistant_from(mv, from as int) == first_assistant_from(mv, i as int),
        decreases n - i,
    {
        if is_assistant_exec(messages[i].role.as_str()) {
            return i;
        }
        i += 1;
    }
    n
}

} // verus!

verus! {

/// Per-mille importance weight of a role.
pub open spec fn role_score_milli(role: Seq<char>) -> int {
    if is_protected_role(role) {
        1000
    } else if is_user_role(role) {
        800
    } else if is_assistant_role(role) {
        600
    } else {
        400
    }
}

/// Per-mille importance weight of a content length in bytes.
pub open spec fn length_band_milli(len: int) -> int {
    if len < 50 {
        300
    } else if len < 500 {
        1000
    } else if len < 2000 {
        800
    } else {
        600
    }
}

/// The importance score of a message, in thousandths: recency, role
/// weight, length band, and a bonus when the message belongs to a
/// user/assistant pair.
pub open spec fn importance_milli(
    role: Seq<char>,
    content_len: int,
    idx: int,
    n: int,
    in_pair: bool,
) -> int
    recommends
        0 <= idx < n,
{
    400 * (n - idx) / n + 300 * role_score_milli(role) / 1000 + 200 * length_band_milli(
        content_len,
    ) / 1000 + if in_pair {
        100int
    } else {
        0int
    }
}

/// The importance score of one message.
pub fn calculate_message_importance(
    role: &str,
    content_len: usize,
    idx: usize,
    n: usize,
    in_pair: bool,
) -> (r: usize)
    requires
        idx < n,
    ensures
        r == importance_milli(role@, content_len as int, idx as int, n as int, in_pair),
        r <= 1000,
{
    proof {
        assert(400 * ((n - idx) as int) / (n as int) <= 400) by {
            vstd::arithmetic::mul::lemma_mul_inequality((n - idx) as int, n as int, 400);
            vstd::arithmetic::div_mod::lemma_div_is_ordered(
                400 * ((n - idx) as int),
                400 * (n as int),
                n as int,
            );
            vstd::arithmetic::mul::lemma_mul_is_commutative(400, n as int);
            vstd::arithmetic::div_mod::lemma_div_by_multiple(400, n as int);
        }
        assert(400 * ((n - idx) as int) / (n as int) >= 0) by {
            vstd::arithmetic::mul::lemma_mul_nonnegative(400, (n - idx) as int);
            vstd::arithmetic::div_mod::lemma_div_pos_is_pos(400 * ((n - idx) as int), n as int);
        }
    }
    let recency = ((400u128 * ((n - idx) as u128)) / (n as u128)) as usize;
    let role_part: usize = if is_protected_exec(role) {
        300
    } else if is_user_exec(role) {
        240
    } else if is_assistant_exec(role) {
        180
    } else {
        120
    };
    let band: usize = if content_len < 50 {
        60
    } else if content_len < 500 {
        200
    } else if content_len < 2000 {
        160
    } else {
        120
    };
    let pair_part: usize = if in_pair {
        100
    } else {
        0
    };
    recency + role_part + band + pair_part
}

/// Per-mille attenuation from the aggressiveness setting: one tenth per
/// level, capped at seven tenths.
pub open spec fn aggr_factor_milli(aggressiveness: int) -> int {
    if aggressiveness >= 7 {
        300
    } else {
        1000 - 100 * aggressiveness
    }
}

/// Per-mille role multiplier for summary targets.
pub open spec fn role_multiplier_milli(role: Seq<char>) -> int {
    if is_protected_role(role) {
        1500
    } else if is_user_role(role) {
        1200
    } else if is_assistant_role(role) {
        1000
    } else {
        800
    }
}

/// Target summary length in characters: the base keep-ratio grows with
/// importance, shrinks with aggressiveness, is scaled by the role, and is
/// clamped to role-independent floors and ceilings.
pub open spec fn summary_target_len(
    content_len: int,
    importance: int,
    aggressiveness: int,
    role: Seq<char>,
) -> int {
    let base_ratio = 200 + 600 * importance / 1000;
    let adjusted = base_ratio * aggr_factor_milli(aggressiveness) / 1000;
    let raw = content_len * adjusted * role_multiplier_milli(role) / 1000000;
    let min_len: int = if content_len < 100 {
        15
    } else {
        30
    };
    let max_len: int = if importance > 700 {
        500
    } else {
        300
    };
    if raw < min_len {
        min_len
    } else if raw > max_len {
        max_len
    } else {
        raw
    }
}

/// The target summary length of one message.
pub fn calculate_summary_length(
    content_length: usize,
    importance: usize,
    aggressiveness: usize,
    role: &str,
) -> (r: usize)
    requires
        importance <= 1000,
    ensures
        r == summary_target_len(
            content_length as int,
            importance as int,
            aggressiveness as int,
            role@,
        ),
        15 <= r <= 500,
{
    let base_ratio: u128 = 200 + (600u128 * importance as u128) / 1000;
    let aggr: u128 = if aggressiveness >= 7 {
        300
    } else {
        1000 - 100 * (aggressiveness as u128)
    };
    proof {
        assert(base_ratio <= 800) by {
            assert(600 * (importance as int) <= 600000) by (nonlinear_arith)
                requires importance <= 1000;
            vstd::arithmetic::div_mod::lemma_div_is_ordered(
                600 * (importance as int),
                600000,
                1000,
            );
        }
        assert(base_ratio * aggr <= 800000) by (nonlinear_arith)
            requires 0 <= base_ratio <= 800, 0 <= aggr <= 1000;
    }
    let adjusted: u128 = base_ratio * aggr / 1000;
    proof {
        assert(adjusted <= 800) by {
            vstd::arithmetic::div_mod::lemma_div_is_ordered(
                (base_ratio * aggr) as int,
                800000,
                1000,
            );
        }
    }
    let mult: u128 = if is_protected_exec(role) {
        1500
    } else if is_user_exec(role) {
        1200
    } else if is_assistant_exec(role) {
        1000
    } else {
        800
    };
    proof {
        assert((content_length as u128) * adjusted <= 0xFFFF_FFFF_FFFF_FFFF * 800) by (
        nonlinear_arith)
            requires content_length as u128 <= 0xFFFF_FFFF_FFFF_FFFF, 0 <= adjusted <= 800;
        assert(((content_length as u128) * adjusted) * mult <= 0xFFFF_FFFF_FFFF_FFFF * 800 * 1500)
            by (nonlinear_arith)
            requires
                0 <= (content_length as u128) * adjusted <= 0xFFFF_FFFF_FFFF_FFFF * 800,
                0 <= mult <= 1500,
        ;
    }
    let raw: u128 = ((content_length as u128) * adjusted) * mult / 1000000;
    let min_len: u128 = if content_length < 100 {
        15
    } else {
        30
    };
    let max_len: u128 = if importance > 700 {
        500
    } else {
        300
    };
    let clamped: u128 = if raw < min_len {
        min_len
    } else if raw > max_len {
        max_len
    } else {
        raw
    };
    clamped as usize
}

/// Smart-trim targets shrink as aggressiveness grows: a higher setting
/// never yields a longer summary target for the same message.
pub proof fn lemma_summary_length_antitone(
    content_len: int,
    importance: int,
    a1: int,
    a2: int,
    role: Seq<char>,
)
    requires
        content_len >= 0,
        importance >= 0,
        0 <= a1 < a2,
    ensures
        summary_target_len(content_len, importance, a1, role) >= summary_target_len(
            content_len,
            importance,
            a2,
            role,
        ),
{
    let base_ratio = 200 + 600 * importance / 1000;
    let f1 = aggr_factor_milli(a1);
    let f2 = aggr_factor_milli(a2);
    assert(f2 <= f1);
    assert(0 <= f2);
    assert(base_ratio >= 200) by {
        vstd::arithmetic::div_mod::lemma_div_pos_is_pos(600 * importance, 1000);
        vstd::arithmetic::mul::lemma_mul_nonnegative(600, importance);
    }
    let adj1 = base_ratio * f1 / 1000;
    let adj2 = base_ratio * f2 / 1000;
    assert(base_ratio * f2 <= base_ratio * f1) by {
        vstd::arithmetic::mul::lemma_mul_inequality(f2, f1, base_ratio);
        vstd::arithmetic::mul::lemma_mul_is_commutative(f2, base_ratio);
        vstd::arithmetic::mul::lemma_mul_is_commutative(f1, base_ratio);
    }
    assert(adj2 <= adj1) by {
        vstd::arithmetic::div_mod::lemma_div_is_ordered(base_ratio * f2, base_ratio * f1, 1000);
    }
    assert(0 <= adj2) by {
        vstd::arithmetic::mul::lemma_mul_nonnegative(base_ratio, f2);
        vstd::arithmetic::div_mod::lemma_div_pos_is_pos(base_ratio * f2, 1000);
    }
    let m = role_multiplier_milli(role);
    let raw1 = content_len * adj1 * m / 1000000;
    let raw2 = content_len * adj2 * m / 1000000;
    assert(content_len * adj2 <= content_len * adj1) by {
        vstd::arithmetic::mul::lemma_mul_inequality(adj2, adj1, content_len);
        vstd::arithmetic::mul::lemma_mul_is_commutative(adj2, content_len);
        vstd::arithmetic::mul::lemma_mul_is_commutative(adj1, content_len);
    }
    assert(0 <= content_len * adj2) by {
        vstd::arithmetic::mul::lemma_mul_nonnegative(content_len, adj2);
    }
    assert(content_len * adj2 * m <= content_len * adj1 * m) by {
        vstd::arithmetic::mul::lemma_mul_inequality(content_len * adj2, content_len * adj1, m);
    }
    assert(raw2 <= raw1) by {
        vstd::arithmetic::div_mod::lemma_div_is_ordered(
            content_len * adj2 * m,
            content_len * adj1 * m,
            1000000,
        );
    }
}

} // verus!

verus! {

/// Sum of the token estimates of a message list, each message charged a
/// fixed extra overhead.
pub open spec fn total_tokens_overhead_of(ms: Seq<MessageV>, overhead: int) -> int
    decreases ms.len(),
{
    if ms.len() == 0 {
        0
    } else {
        total_tokens_overhead_of(ms.drop_last(), overhead) + estimate_tokens_of(ms.last().content)
            + overhead
    }
}

/// The assistant reply answering the user message just before position
/// `j`: the first assistant at or after `j`, unless a user message comes
/// first.
pub open spec fn assistant_before_next_user(ms: Seq<MessageV>, j: int) -> Option<int>
    decreases ms.len() - j,
{
    if j < 0 || j >= ms.len() {
        None
    } else if is_user_role(ms[j].role) {
        None
    } else if is_assistant_role(ms[j].role) {
        Some(j)
    } else {
        assistant_before_next_user(ms, j + 1)
    }
}

/// A found reply lies at or after the position searched from.
pub proof fn lemma_assistant_bounds(ms: Seq<MessageV>, j: int)
    ensures
        match assistant_before_next_user(ms, j) {
            Some(x) => j <= x < ms.len(),
            None => true,
        },
    decreases ms.len() - j,
{
    if 0 <= j < ms.len() && !is_user_role(ms[j].role) && !is_assistant_role(ms[j].role) {
        lemma_assistant_bounds(ms, j + 1);
    }
}

/// The user/assistant pairs of the conversation, scanned from position
/// `i`: every user message, with the reply before the next user message
/// when there is one.
pub open spec fn smart_pairs_from(ms: Seq<MessageV>, i: int) -> Seq<(int, Option<int>)>
    decreases ms.len() - i,
    via smart_pairs_from_decreases
{
    if i < 0 || i >= ms.len() {
        Seq::empty()
    } else if is_user_role(ms[i].role) {
        let a = assistant_before_next_user(ms, i + 1);
        seq![(i, a)] + smart_pairs_from(
            ms,
            match a {
                Some(x) => x + 1,
                None => i + 1,
            },
        )
    } else {
        smart_pairs_from(ms, i + 1)
    }
}

#[via_fn]
proof fn smart_pairs_from_decreases(ms: Seq<MessageV>, i: int) {
    if 0 <= i < ms.len() && is_user_role(ms[i].role) {
        lemma_assistant_bounds(ms, i + 1);
    }
}

/// All user/assistant pairs of the conversation.
pub open spec fn smart_pairs(ms: Seq<MessageV>) -> Seq<(int, Option<int>)> {
    smart_pairs_from(ms, 0)
}

/// Whether position `i` belongs to one of the pairs numbered `lo` up to
/// `hi` (exclusive).
pub open spec fn pair_member_upto(
    pairs: Seq<(int, Option<int>)>,
    lo: int,
    hi: int,
    i: int,
) -> bool {
    exists|p: int|
        lo <= p < hi && p < pairs.len() && ((#[trigger] pairs[p]).0 == i || pairs[p].1 == Some(i))
}

/// Whether position `i` belongs to one of the pairs from `lo` on.
pub open spec fn pair_member(pairs: Seq<(int, Option<int>)>, lo: int, i: int) -> bool {
    pair_member_upto(pairs, lo, pairs.len() as int, i)
}

/// View of a scanned pair list over machine indices.
pub open spec fn pairs_int_view(s: Seq<(usize, Option<usize>)>) -> Seq<(int, Option<int>)> {
    s.map_values(
        |p: (usize, Option<usize>)|
            (
                p.0 as int,
                match p.1 {
                    Some(a) => Some(a as int),
                    None => None,
                },
            ),
    )
}

pub broadcast proof fn lemma_pairs_int_view_index(s: Seq<(usize, Option<usize>)>, k: int)
    requires
        0 <= k < s.len(),
    ensures
        #[trigger] pairs_int_view(s)[k] == (
            s[k].0 as int,
            match s[k].1 {
                Some(a) => Some(a as int),
                None => None::<int>,
            },
        ),
{
}

/// How many of the newest pairs the smart trim protects: the configured
/// number, at least one, at most all.
pub open spec fn smart_protect_count(ms: Seq<MessageV>, min_keep_pairs: int) -> int {
    let pairs = smart_pairs(ms);
    let want: int = if min_keep_pairs >= 1 {
        min_keep_pairs
    } else {
        1
    };
    if want <= pairs.len() {
        want
    } else {
        pairs.len() as int
    }
}

/// The protection mask of the smart trim: system/prompt messages, the
/// members of the newest protected pairs, and the final message.
pub open spec fn smart_protected(ms: Seq<MessageV>, min_keep_pairs: int) -> Seq<bool> {
    let pairs = smart_pairs(ms);
    let k = smart_protect_count(ms, min_keep_pairs);
    Seq::new(
        ms.len(),
        |i: int|
            is_protected_role(ms[i].role) || i == ms.len() - 1 || pair_member(
                pairs,
                pairs.len() - k,
                i,
            ),
    )
}

/// The byte length of a message's content, as `str::len` reports it.
pub open spec fn content_byte_len(m: MessageV) -> int {
    (vstd::utf8::encode_utf8(m.content).len() as usize) as int
}

/// The planned summary target of message `i`.
pub open spec fn spec_summary_target(ms: Seq<MessageV>, aggressiveness: int, i: int) -> int {
    summary_target_len(
        content_byte_len(ms[i]),
        importance_milli(
            ms[i].role,
            content_byte_len(ms[i]),
            i,
            ms.len() as int,
            pair_member(smart_pairs(ms), 0, i),
        ),
        aggressiveness,
        ms[i].role,
    )
}

/// The unprotected positions below `upto`, in order.
pub open spec fn unprotected_indices(protected: Seq<bool>, upto: int) -> Seq<int>
    decreases upto,
{
    if upto <= 0 {
        Seq::empty()
    } else if protected[upto - 1] {
        unprotected_indices(protected, upto - 1)
    } else {
        unprotected_indices(protected, upto - 1).push(upto - 1)
    }
}

/// The unprotected positions listed are below `upto` and ascending.
pub proof fn lemma_unprotected_indices_bounds(protected: Seq<bool>, upto: int)
    requires
        upto <= protected.len(),
    ensures
        forall|t: int|
            0 <= t < unprotected_indices(protected, upto).len() ==> 0 <= #[trigger] unprotected_indices(
                protected,
                upto,
            )[t] < upto,
    decreases upto,
{
    if upto > 0 {
        lemma_unprotected_indices_bounds(protected, upto - 1);
        let pre = unprotected_indices(protected, upto - 1);
        assert forall|t: int|
            0 <= t < unprotected_indices(protected, upto).len() implies 0
            <= #[trigger] unprotected_indices(protected, upto)[t] < upto by {
            if t < pre.len() {
                assert(unprotected_indices(protected, upto)[t] == pre[t]);
            }
        }
    }
}

/// The unprotected positions are listed in strictly ascending order.
pub proof fn lemma_unprotected_indices_sorted(protected: Seq<bool>, upto: int)
    requires
        upto <= protected.len(),
    ensures
        forall|a: int, b: int|
            0 <= a < b < unprotected_indices(protected, upto).len()
                ==> #[trigger] unprotected_indices(protected, upto)[a]
                < #[trigger] unprotected_indices(protected, upto)[b],
    decreases upto,
{
    if upto > 0 {
        lemma_unprotected_indices_sorted(protected, upto - 1);
        lemma_unprotected_indices_bounds(protected, upto - 1);
        let pre = unprotected_indices(protected, upto - 1);
        assert forall|a: int, b: int|
            0 <= a < b < unprotected_indices(protected, upto).len()
                implies #[trigger] unprotected_indices(protected, upto)[a]
            < #[trigger] unprotected_indices(protected, upto)[b] by {
            if b < pre.len() {
                assert(unprotected_indices(protected, upto)[a] == pre[a]);
                assert(unprotected_indices(protected, upto)[b] == pre[b]);
            } else {
                assert(unprotected_indices(protected, upto)[a] == pre[a]);
            }
        }
    }
}

/// Every unprotected position below `upto` is listed.
pub proof fn lemma_unprotected_indices_complete(protected: Seq<bool>, upto: int, i: int)
    requires
        upto <= protected.len(),
        0 <= i < upto,
        !protected[i],
    ensures
        exists|t: int|
            0 <= t < unprotected_indices(protected, upto).len()
                && #[trigger] unprotected_indices(protected, upto)[t] == i,
    decreases upto,
{
    let whole = unprotected_indices(protected, upto);
    if i == upto - 1 {
        assert(whole[whole.len() - 1] == i);
    } else {
        lemma_unprotected_indices_complete(protected, upto - 1, i);
        let pre = unprotected_indices(protected, upto - 1);
        let t = choose|t: int| 0 <= t < pre.len() && #[trigger] pre[t] == i;
        assert(whole[t] == i);
    }
}

/// Sum of the planned targets of the unprotected positions below `upto`.
pub open spec fn sum_targets(
    ms: Seq<MessageV>,
    protected: Seq<bool>,
    aggressiveness: int,
    upto: int,
) -> int
    decreases upto,
{
    if upto <= 0 {
        0
    } else if protected[upto - 1] {
        sum_targets(ms, protected, aggressiveness, upto - 1)
    } else {
        sum_targets(ms, protected, aggressiveness, upto - 1) + spec_summary_target(
            ms,
            aggressiveness,
            upto - 1,
        )
    }
}

/// The common character budget of the planned summaries: the mean of the
/// per-message targets over the unprotected messages, zero when nothing
/// is unprotected.
pub open spec fn smart_avg_target(ms: Seq<MessageV>, min_keep_pairs: int, aggressiveness: int) -> int {
    let protected = smart_protected(ms, min_keep_pairs);
    let cnt = unprotected_indices(protected, ms.len() as int).len() as int;
    if cnt == 0 {
        0
    } else {
        sum_targets(ms, protected, aggressiveness, ms.len() as int) / cnt
    }
}

/// One message to be summarized: which one, its text, and the character
/// budget the summary should aim for.
pub struct SummaryTask {
    pub index: usize,
    pub content: String,
    pub max_chars: usize,
}

/// Picks the messages the smart trim may summarize, and their common
/// character budget. The protection mask is exactly the system/prompt
/// messages, the members of the newest `min_keep_pairs` (at least one)
/// user/assistant pairs, and the final message; the tasks are exactly the
/// unprotected messages, in order, each carrying its text and the mean of
/// the per-message summary targets.
pub fn plan_smart_summaries(
    messages: &Vec<ChatMessageJson>,
    min_keep_pairs: usize,
    summary_aggressiveness: usize,
) -> (r: (Vec<bool>, Vec<SummaryTask>))
    ensures
        r.0@ == smart_protected(messages_view(messages@), min_keep_pairs as int),
        r.1@.len() == unprotected_indices(
            smart_protected(messages_view(messages@), min_keep_pairs as int),
            messages@.len() as int,
        ).len(),
        forall|t: int|
            0 <= t < r.1@.len() ==> (#[trigger] r.1@[t]).index == unprotected_indices(
                smart_protected(messages_view(messages@), min_keep_pairs as int),
                messages@.len() as int,
            )[t] && r.1@[t].content@ == messages_view(messages@)[r.1@[t].index as int].content
                && r.1@[t].max_chars == smart_avg_target(
                messages_view(messages@),
                min_keep_pairs as int,
                summary_aggressiveness as int,
            ),
        r.0@.len() == messages@.len(),
        messages@.len() > 0 ==> r.0@[messages@.len() - 1],
        forall|i: int|
            0 <= i < messages@.len() && is_protected_role(
                #[trigger] messages_view(messages@)[i].role,
            ) ==> r.0@[i],
        forall|t: int|
            0 <= t < r.1@.len() ==> (#[trigger] r.1@[t]).index < messages@.len() && !r.0@[
                r.1@[t].index as int
            ],
{
    broadcast use lemma_messages_view_index;
    broadcast use lemma_pairs_int_view_index;

    let ghost mv = messages_view(messages@);
    let n = messages.len();

    // The user/assistant pairs: each user message, with the assistant
    // reply that answers it before the next user message, if any.
    let mut pairs: Vec<(usize, Option<usize>)> = Vec::new();
    let mut i: usize = 0;
    while i < n
        invariant
            i <= n,
            n == messages@.len(),
            mv == messages_view(messages@),
            smart_pairs(mv) == pairs_int_view(pairs@) + smart_pairs_from(mv, i as int),
            forall|k: int|
                0 <= k < pairs@.len() ==> (#[trigger] pairs@[k]).0 < n && (match pairs@[k].1 {
                    Some(a) => a < n,
                    None => true,
                }),
        decreases n - i,
    {
        let ghost before = pairs@;
        if is_user_exec(messages[i].role.as_str()) {
            let assistant = find_reply(messages, i + 1);
            let next = match assistant {
                Some(a) => a + 1,
                None => i + 1,
            };
            pairs.push((i, assistant));
            proof {
                let ghost a_int: Option<int> = match assistant {
                    Some(a) => Some(a as int),
                    None => None,
                };
                assert(assistant_before_next_user(mv, i + 1) == a_int);
                assert(smart_pairs_from(mv, i as int) == seq![(i as int, a_int)]
                    + smart_pairs_from(mv, next as int));
                assert(pairs_int_view(pairs@) =~= pairs_int_view(before).push((i as int, a_int)));
                assert(smart_pairs(mv) =~= pairs_int_view(pairs@) + smart_pairs_from(
                    mv,
                    next as int,
                ));
            }
            i = next;
        } else {
            proof {
                assert(smart_pairs_from(mv, i as int) == smart_pairs_from(mv, i + 1));
            }
            i += 1;
        }
    }
    proof {
        assert(smart_pairs_from(mv, n as int) =~= Seq::<(int, Option<int>)>::empty());
        assert(pairs_int_view(pairs@) =~= smart_pairs(mv));
    }
    let ghost spairs = smart_pairs(mv);

    // Protection flags: the roles first, then the newest pairs, then the
    // final message.
    let mut protected: Vec<bool> = Vec::new();
    let mut b: usize = 0;
    while b < n
        invariant
            b <= n,
            n == messages@.len(),
            mv == messages_view(messages@),
            protected@.len() == b,
            forall|x: int| 0 <= x < b ==> #[trigger] protected@[x] == is_protected_role(mv[x].role),
        decreases n - b,
    {
        protected.push(is_protected_exec(messages[b].role.as_str()));
        b += 1;
    }
    let keep_pairs = if min_keep_pairs >= 1 {
        min_keep_pairs
    } else {
        1
    };
    let pairs_to_protect = if keep_pairs <= pairs.len() {
        keep_pairs
    } else {
        pairs.len()
    };
    proof {
        assert(pairs_to_protect as int == smart_protect_count(mv, min_keep_pairs as int));
    }
    let start = pairs.len() - pairs_to_protect;
    let mut k = start;
    while k < pairs.len()
        invariant
            start <= k <= pairs@.len(),
            n == messages@.len(),
            mv == messages_view(messages@),
            protected@.len() == n,
            spairs == pairs_int_view(pairs@),
            spairs.len() == pairs@.len(),
            forall|x: int|
                0 <= x < pairs@.len() ==> (#[trigger] pairs@[x]).0 < n && (match pairs@[x].1 {
                    Some(a) => a < n,
                    None => true,
                }),
            forall|x: int|
                0 <= x < n ==> #[trigger] protected@[x] == (is_protected_role(mv[x].role)
                    || pair_member_upto(spairs, start as int, k as int, x)),
        decreases pairs@.len() - k,
    {
        let ghost before = protected@;
        let (u, a) = pairs[k];
        protected[u] = true;
        match a {
            Some(ai) => {
                protected[ai] = true;
            },
            None => {
            },
        }
        k += 1;
        proof {
            assert forall|x: int|
                0 <= x < n implies #[trigger] protected@[x] == (is_protected_role(mv[x].role)
                || pair_member_upto(spairs, start as int, k as int, x)) by {
                let hit = spairs[k - 1].0 == x || spairs[k - 1].1 == Some(x);
                if hit {
                    assert(protected@[x]);
                } else {
                    assert(protected@[x] == before[x]);
                    if pair_member_upto(spairs, start as int, k as int, x) {
                        let p = choose|p: int|
                            start <= p < k && p < spairs.len() && ((#[trigger] spairs[p]).0 == x
                                || spairs[p].1 == Some(x));
                        assert(p < k - 1);
                        assert(pair_member_upto(spairs, start as int, k - 1, x));
                    }
                    if pair_member_upto(spairs, start as int, k - 1, x) {
                        assert(pair_member_upto(spairs, start as int, k as int, x));
                    }
                }
            }
        }
    }
    if n > 0 {
        protected[n - 1] = true;
    }
    proof {
        assert(protected@ =~= smart_protected(mv, min_keep_pairs as int));
    }
    let ghost prot = smart_protected(mv, min_keep_pairs as int);

    // Importance and target length of each unprotected message.
    let mut targets: Vec<(usize, usize)> = Vec::new();
    let mut total_target: u128 = 0;
    let mut idx: usize = 0;
    while idx < n
        invariant
            idx <= n,
            n == messages@.len(),
            mv == messages_view(messages@),
            protected@ == prot,
            protected@.len() == n,
            spairs == pairs_int_view(pairs@),
            spairs.len() == pairs@.len(),
            prot == smart_protected(mv, min_keep_pairs as int),
            spairs == smart_pairs(mv),
            targets@.len() == unprotected_indices(prot, idx as int).len(),
            targets@.len() <= idx,
            total_target == sum_targets(
                mv,
                prot,
                summary_aggressiveness as int,
                idx as int,
            ),
            total_target <= 500 * (targets@.len() as u128),
            forall|t: int|
                0 <= t < targets@.len() ==> (#[trigger] targets@[t]).0 == unprotected_indices(
                    prot,
                    idx as int,
                )[t] && targets@[t].0 < n && !prot[targets@[t].0 as int] && 15 <= targets@[t].1
                    <= 500,
            forall|x: int|
                0 <= x < pairs@.len() ==> (#[trigger] pairs@[x]).0 < n && (match pairs@[x].1 {
                    Some(a) => a < n,
                    None => true,
                }),
        decreases n - idx,
    {
        if !protected[idx] {
            let mut in_pair = false;
            let mut p: usize = 0;
            while p < pairs.len()
                invariant
                    p <= pairs@.len(),
                    spairs == pairs_int_view(pairs@),
                    spairs.len() == pairs@.len(),
                    in_pair == pair_member_upto(spairs, 0, p as int, idx as int),
                decreases pairs@.len() - p,
            {
                let ghost was = in_pair;
                let (u, a) = pairs[p];
                if u == idx {
                    in_pair = true;
                }
                match a {
                    Some(ai) => {
                        if ai == idx {
                            in_pair = true;
                        }
                    },
                    None => {
                    },
                }
                p += 1;
                proof {
                    let hit = spairs[p - 1].0 == idx as int || spairs[p - 1].1 == Some(
                        idx as int,
                    );
                    if hit {
                        assert(in_pair);
                        assert(pair_member_upto(spairs, 0, p as int, idx as int));
                    } else if !was {
                        assert(!in_pair);
                        if pair_member_upto(spairs, 0, p as int, idx as int) {
                            let w = choose|w: int|
                                0 <= w < p && w < spairs.len() && ((#[trigger] spairs[w]).0
                                    == idx as int || spairs[w].1 == Some(idx as int));
                            assert(w < p - 1);
                            assert(pair_member_upto(spairs, 0, p - 1, idx as int));
                        }
                    } else {
                        assert(pair_member_upto(spairs, 0, p - 1, idx as int));
                        assert(pair_member_upto(spairs, 0, p as int, idx as int));
                    }
                }
            }
            proof {
                assert(in_pair == pair_member(spairs, 0, idx as int));
            }
            let content_len = messages[idx].content.as_str().len();
            let importance = calculate_message_importance(
                messages[idx].role.as_str(),
                content_len,
                idx,
                n,
                in_pair,
            );
            let target = calculate_summary_length(
                content_len,
                importance,
                summary_aggressiveness,
                messages[idx].role.as_str(),
            );
            proof {
                assert(content_len as int == content_byte_len(mv[idx as int]));
                assert(mv[idx as int].role == messages@[idx as int].role@);
                assert(importance as int == importance_milli(
                    mv[idx as int].role,
                    content_byte_len(mv[idx as int]),
                    idx as int,
                    n as int,
                    pair_member(smart_pairs(mv), 0, idx as int),
                ));
                assert(target as int == spec_summary_target(
                    mv,
                    summary_aggressiveness as int,
                    idx as int,
                ));
            }
            let ghost before_targets = targets@;
            targets.push((idx, target));
            total_target = total_target + target as u128;
            proof {
                assert(unprotected_indices(prot, idx + 1) =~= unprotected_indices(
                    prot,
                    idx as int,
                ).push(idx as int));
                assert forall|t: int|
                    0 <= t < targets@.len() implies (#[trigger] targets@[t]).0
                        == unprotected_indices(prot, idx + 1)[t] && targets@[t].0 < n && !prot[
                    targets@[t].0 as int] && 15 <= targets@[t].1 <= 500 by {
                    if t < targets@.len() - 1 {
                        assert(targets@[t] == before_targets[t]);
                    }
                }
            }
        } else {
            proof {
                assert(unprotected_indices(prot, idx + 1) =~= unprotected_indices(
                    prot,
                    idx as int,
                ));
            }
        }
        idx += 1;
    }
    proof {
        assert(total_target == sum_targets(mv, prot, summary_aggressiveness as int, n as int));
    }

    // The summaries all aim at the mean target length.
    let avg: usize = if targets.len() == 0 {
        0
    } else {
        proof {
            assert(total_target / (targets@.len() as u128) <= 500) by {
                vstd::arithmetic::div_mod::lemma_div_is_ordered(
                    total_target as int,
                    500 * (targets@.len() as int),
                    targets@.len() as int,
                );
                vstd::arithmetic::mul::lemma_mul_is_commutative(500, targets@.len() as int);
                vstd::arithmetic::div_mod::lemma_div_by_multiple(500, targets@.len() as int);
            }
        }
        (total_target / (targets.len() as u128)) as usize
    };
    proof {
        assert(avg as int == smart_avg_target(
            mv,
            min_keep_pairs as int,
            summary_aggressiveness as int,
        ));
    }
    let mut tasks: Vec<SummaryTask> = Vec::new();
    let mut t: usize = 0;
    while t < targets.len()
        invariant
            t <= targets@.len(),
            n == messages@.len(),
            mv == messages_view(messages@),
            protected@ == prot,
            protected@.len() == n,
            prot == smart_protected(mv, min_keep_pairs as int),
            targets@.len() == unprotected_indices(prot, n as int).len(),
            tasks@.len() == t,
            avg as int == smart_avg_target(
                mv,
                min_keep_pairs as int,
                summary_aggressiveness as int,
            ),
            forall|x: int|
                0 <= x < targets@.len() ==> (#[trigger] targets@[x]).0 == unprotected_indices(
                    prot,
                    n as int,
                )[x] && targets@[x].0 < n && !prot[targets@[x].0 as int],
            forall|x: int|
                0 <= x < tasks@.len() ==> (#[trigger] tasks@[x]).index == unprotected_indices(
                    prot,
                    n as int,
                )[x] && tasks@[x].index < n && !prot[tasks@[x].index as int] && tasks@[x].content@
                    == mv[tasks@[x].index as int].content && tasks@[x].max_chars == avg,
        decreases targets@.len() - t,
    {
        let (index, _) = targets[t];
        let ghost before_tasks = tasks@;
        tasks.push(
            SummaryTask {
                index,
                content: crate::memory_cache::clone_string(&messages[index].content),
                max_chars: avg,
            },
        );
        t += 1;
        proof {
            assert forall|x: int|
                0 <= x < tasks@.len() implies (#[trigger] tasks@[x]).index == unprotected_indices(
                prot,
                n as int,
            )[x] && tasks@[x].index < n && !prot[tasks@[x].index as int] && tasks@[x].content@
                == mv[tasks@[x].index as int].content && tasks@[x].max_chars == avg by {
                if x < tasks@.len() - 1 {
                    assert(tasks@[x] == before_tasks[x]);
                }
            }
        }
    }
    (protected, tasks)
}

/// The assistant reply before the next user message, scanning from
/// `from`: the first assistant at or after it, unless a user comes first.
fn find_reply(messages: &Vec<ChatMessageJson>, from: usize) -> (r: Option<usize>)
    requires
        from <= messages@.len(),
    ensures
        match r {
            Some(a) => from <= a && (a as int) < messages@.len()
                && assistant_before_next_user(messages_view(messages@), from as int) == Some(
                a as int,
            ),
            None => assistant_before_next_user(messages_view(messages@), from as int) is None,
        },
{
    broadcast use lemma_messages_view_index;

    let ghost mv = messages_view(messages@);
    let n = messages.len();
    let mut j = from;
    while j < n
        invariant
            from <= j <= n,
            n == messages@.len(),
            mv == messages_view(messages@),
            assistant_before_next_user(mv, from as int) == assistant_before_next_user(
                mv,
                j as int,
            ),
        decreases n - j,
    {
        if is_user_exec(messages[j].role.as_str()) {
            return None;
        }
        if is_assistant_exec(messages[j].role.as_str()) {
            return Some(j);
        }
        j += 1;
    }
    None
}

/// View of a summary list: target positions and replacement texts.
pub open spec fn summaries_view(s: Seq<(usize, String)>) -> Seq<(int, Seq<char>)> {
    s.map_values(|p: (usize, String)| (p.0 as int, p.1@))
}

pub broadcast proof fn lemma_summaries_view_index(s: Seq<(usize, String)>, k: int)
    requires
        0 <= k < s.len(),
    ensures
        #[trigger] summaries_view(s)[k] == (s[k].0 as int, s[k].1@),
{
}

/// The replacement the list finally leaves at position `i`: the last
/// entry for `i` wins.
pub open spec fn last_summary_for(subs: Seq<(int, Seq<char>)>, i: int) -> Option<Seq<char>>
    decreases subs.len(),
{
    if subs.len() == 0 {
        None
    } else if subs.last().0 == i {
        Some(subs.last().1)
    } else {
        last_summary_for(subs.drop_last(), i)
    }
}

/// What an unprotected message holds after the summaries are applied:
/// its replacement when the list has one, else its original text.
pub open spec fn applied_content(
    ms: Seq<MessageV>,
    subs: Seq<(int, Seq<char>)>,
    protected: Seq<bool>,
    i: int,
) -> Seq<char> {
    if 0 <= i < ms.len() && !protected[i] {
        match last_summary_for(subs, i) {
            Some(c) => c,
            None => ms[i].content,
        }
    } else {
        ms[i].content
    }
}

/// With pairwise distinct positions, the final replacement at a listed
/// position is its listed text.
pub proof fn lemma_last_summary_unique(subs: Seq<(int, Seq<char>)>, t: int)
    requires
        forall|a: int, b: int|
            0 <= a < b < subs.len() ==> (#[trigger] subs[a]).0 != (#[trigger] subs[b]).0,
        0 <= t < subs.len(),
    ensures
        last_summary_for(subs, subs[t].0) == Some(subs[t].1),
    decreases subs.len(),
{
    if t == subs.len() - 1 {
    } else {
        assert(subs[t].0 != subs[subs.len() - 1].0);
        lemma_last_summary_unique(subs.drop_last(), t);
    }
}

/// Applies the summaries to their messages (a later entry for the same
/// position wins), then shrinks further while the list still exceeds the
/// budget: a progressive pass over unprotected messages, then an extreme
/// pass that cuts everything but the final message and system messages
/// down to a few characters. Roles are never touched; a protected
/// message's text survives the first two passes; the final message and
/// system-role messages survive all three; and an unprotected message
/// ends up holding its applied replacement, or an ellipsis-marked cut of
/// it that is never longer.
pub fn apply_smart_summaries(
    messages: &Vec<ChatMessageJson>,
    protected: &Vec<bool>,
    summaries: Vec<(usize, String)>,
    max_tokens: usize,
    per_message_overhead: usize,
) -> (r: Vec<ChatMessageJson>)
    requires
        protected@.len() == messages@.len(),
        messages@.len() > 0 ==> protected@[messages@.len() - 1],
    ensures
        r@.len() == messages@.len(),
        forall|i: int|
            0 <= i < messages@.len() ==> (#[trigger] messages_view(r@)[i]).role == messages_view(
                messages@,
            )[i].role,
        messages@.len() > 0 ==> messages_view(r@).last().content == messages_view(
            messages@,
        ).last().content,
        forall|i: int|
            0 <= i < messages@.len() && is_system_role(#[trigger] messages_view(messages@)[i].role)
                && protected@[i] ==> messages_view(r@)[i].content == messages_view(
                messages@,
            )[i].content,
        forall|i: int|
            0 <= i < messages@.len() && !protected@[i] ==> ((#[trigger] messages_view(
                r@,
            )[i]).content == applied_content(
                messages_view(messages@),
                summaries_view(summaries@),
                protected@,
                i,
            ) || (messages_view(r@)[i].content.len() >= 1 && messages_view(r@)[i].content.last()
                == '…')) && messages_view(r@)[i].content.len() <= applied_content(
                messages_view(messages@),
                summaries_view(summaries@),
                protected@,
                i,
            ).len(),
        total_tokens_overhead_of(messages_view(r@), per_message_overhead as int) > max_tokens
            ==> forall|i: int|
            0 <= i < messages@.len() && i != messages@.len() - 1 && !is_system_role(
                #[trigger] messages_view(messages@)[i].role,
            ) ==> messages_view(r@)[i].content.len() <= (if is_assistant_role(
                messages_view(messages@)[i].role,
            ) {
                11int
            } else {
                6int
            }),
{
    broadcast use lemma_messages_view_index;
    broadcast use lemma_summaries_view_index;

    let ghost mv = messages_view(messages@);
    let ghost subs = summaries_view(summaries@);
    let n = messages.len();
    let mut output = clone_messages(messages);
    proof {
        assert(output@.len() == n) by {
            assert(messages_view(output@).len() == mv.len());
        }
        assert(subs.subrange(0, 0) =~= Seq::<(int, Seq<char>)>::empty());
    }

    // Apply the summaries to unprotected messages, in order.
    let total = summaries.len();
    let mut m: usize = 0;
    while m < total
        invariant
            m <= total,
            total == summaries@.len(),
            n == messages@.len(),
            mv == messages_view(messages@),
            subs == summaries_view(summaries@),
            protected@.len() == n,
            output@.len() == n,
            forall|i: int|
                0 <= i < n ==> (#[trigger] messages_view(output@)[i]).role == mv[i].role,
            forall|i: int|
                0 <= i < n && protected@[i] ==> (#[trigger] messages_view(output@)[i]).content
                    == mv[i].content,
            forall|i: int|
                0 <= i < n && !protected@[i] ==> (#[trigger] messages_view(output@)[i]).content
                    == applied_content(mv, subs.subrange(0, m as int), protected@, i),
        decreases total - m,
    {
        let idx = summaries[m].0;
        proof {
            assert(subs.subrange(0, m + 1).drop_last() =~= subs.subrange(0, m as int));
            assert(subs.subrange(0, m + 1).last() == subs[m as int]);
        }
        if idx < n && !protected[idx] {
            let text = crate::memory_cache::clone_string(&summaries[m].1);
            let ghost before = output@;
            output[idx] = ChatMessageJson {
                role: crate::memory_cache::clone_string(&messages[idx].role),
                content: text,
            };
            proof {
                assert forall|i: int|
                    0 <= i < n implies (#[trigger] messages_view(output@)[i]).role
                    == mv[i].role by {
                    assert(messages_view(output@)[i] == output@[i]@);
                    if i != idx as int {
                        assert(output@[i] == before[i]);
                        assert(messages_view(before)[i] == before[i]@);
                    }
                }
                assert forall|i: int|
                    0 <= i < n && protected@[i] implies (#[trigger] messages_view(
                    output@,
                )[i]).content == mv[i].content by {
                    assert(messages_view(output@)[i] == output@[i]@);
                    assert(output@[i] == before[i]);
                    assert(messages_view(before)[i] == before[i]@);
                }
                assert forall|i: int|
                    0 <= i < n && !protected@[i] implies (#[trigger] messages_view(
                    output@,
                )[i]).content == applied_content(mv, subs.subrange(0, m + 1), protected@, i) by {
                    assert(messages_view(output@)[i] == output@[i]@);
                    if i != idx as int {
                        assert(output@[i] == before[i]);
                        assert(messages_view(before)[i] == before[i]@);
                    }
                }
            }
        } else {
            proof {
                assert forall|i: int|
                    0 <= i < n && !protected@[i] implies (#[trigger] messages_view(
                    output@,
                )[i]).content == applied_content(mv, subs.subrange(0, m + 1), protected@, i) by {
                    assert(subs[m as int].0 != i);
                }
            }
        }
        m += 1;
    }
    proof {
        assert(subs.subrange(0, total as int) =~= subs);
    }

    // Current token load.
    let mut cache: Vec<u128> = Vec::new();
    let mut c: usize = 0;
    while c < n
        invariant
            c <= n,
            n == output@.len(),
            cache@.len() == c,
            forall|i: int|
                0 <= i < c ==> #[trigger] cache@[i] == cap_or(
                    estimate_tokens_of(messages_view(output@)[i].content)
                        + per_message_overhead,
                ),
        decreases n - c,
    {
        let e = crate::tokens::estimate_tokens_wide(output[c].content.as_str());
        cache.push(add_cap(e, per_message_overhead as u128));
        c += 1;
    }
    let mut current: u128 = sum_cache(&cache);

    // Progressive pass: shrink unprotected messages, oldest influence
    // first, until the budget is met.
    if current > max_tokens as u128 {
        let mut idx: usize = 0;
        while idx < n
            invariant
                idx <= n,
                n == messages@.len(),
                mv == messages_view(messages@),
                protected@.len() == n,
                output@.len() == n,
                cache@.len() == n,
                forall|i: int|
                    0 <= i < n ==> #[trigger] cache@[i] == cap_or(
                        estimate_tokens_of(messages_view(output@)[i].content)
                            + per_message_overhead,
                    ),
                forall|i: int|
                    0 <= i < n ==> (#[trigger] messages_view(output@)[i]).role == mv[i].role,
                forall|i: int|
                    0 <= i < n && protected@[i] ==> (#[trigger] messages_view(output@)[i]).content
                        == mv[i].content,
                subs == summaries_view(summaries@),
                forall|i: int|
                    0 <= i < n && !protected@[i] ==> ((#[trigger] messages_view(
                        output@,
                    )[i]).content == applied_content(mv, subs, protected@, i) || (messages_view(
                        output@,
                    )[i].content.len() >= 1 && messages_view(output@)[i].content.last() == '…'))
                        && messages_view(output@)[i].content.len() <= applied_content(
                        mv,
                        subs,
                        protected@,
                        i,
                    ).len(),
            decreases n - idx,
        {
            if !protected[idx] {
                let len_chars = output[idx].content.as_str().unicode_len();
                proof {
                    assert((400u128 * ((n - idx) as u128)) <= 400 * (n as u128) < 0x1_0000_0000_0000_0000_0000)
                        by (nonlinear_arith)
                        requires (n - idx) as u128 <= n as u128, n as u128 <= 0xFFFF_FFFF_FFFF_FFFFu128;
                    assert((400 * ((n - idx) as int)) / (n as int) <= 400) by {
                        vstd::arithmetic::mul::lemma_mul_inequality((n - idx) as int, n as int, 400);
                        vstd::arithmetic::div_mod::lemma_div_is_ordered(
                            400 * ((n - idx) as int),
                            400 * (n as int),
                            n as int,
                        );
                        vstd::arithmetic::mul::lemma_mul_is_commutative(400, n as int);
                        vstd::arithmetic::div_mod::lemma_div_by_multiple(400, n as int);
                    }
                }
                let ratio: u128 = 100 + (400u128 * ((n - idx) as u128)) / (n as u128);
                proof {
                    assert((len_chars as u128) * ratio <= (len_chars as u128) * 500) by (
                    nonlinear_arith)
                        requires 0 <= len_chars as u128, ratio <= 500;
                }
                let shrunk: u128 = ((len_chars as u128) * ratio) / 1000;
                let target: usize = if shrunk >= 8 {
                    proof {
                        assert(shrunk <= len_chars as u128) by {
                            vstd::arithmetic::div_mod::lemma_div_is_ordered(
                                ((len_chars as u128) * ratio) as int,
                                (len_chars as u128 * 500) as int,
                                1000,
                            );
                            assert((len_chars as u128 * 500) as int / 1000 <= len_chars as int)
                                by (nonlinear_arith);
                        }
                    }
                    shrunk as usize
                } else {
                    8
                };
                let ghost before = output@;
                let ghost cache_before = cache@;
                let new_content = summarize_content(output[idx].content.as_str(), target);
                output[idx] = ChatMessageJson {
                    role: crate::memory_cache::clone_string(&messages[idx].role),
                    content: new_content,
                };
                let e = crate::tokens::estimate_tokens_wide(output[idx].content.as_str());
                cache[idx] = add_cap(e, per_message_overhead as u128);
                proof {
                    assert forall|i: int|
                        0 <= i < n implies #[trigger] cache@[i] == cap_or(
                        estimate_tokens_of(messages_view(output@)[i].content)
                            + per_message_overhead,
                    ) by {
                        assert(messages_view(output@)[i] == output@[i]@);
                        if i != idx as int {
                            assert(cache@[i] == cache_before[i]);
                            assert(output@[i] == before[i]);
                            assert(messages_view(before)[i] == before[i]@);
                        }
                    }
                    assert forall|i: int|
                        0 <= i < n implies (#[trigger] messages_view(output@)[i]).role
                        == mv[i].role by {
                        assert(messages_view(output@)[i] == output@[i]@);
                        if i != idx as int {
                            assert(output@[i] == before[i]);
                            assert(messages_view(before)[i] == before[i]@);
                        }
                    }
                    assert forall|i: int|
                        0 <= i < n && protected@[i] implies (#[trigger] messages_view(
                        output@,
                    )[i]).content == mv[i].content by {
                        assert(messages_view(output@)[i] == output@[i]@);
                        assert(output@[i] == before[i]);
                        assert(messages_view(before)[i] == before[i]@);
                    }
                    assert forall|i: int|
                        0 <= i < n && !protected@[i] implies ((#[trigger] messages_view(
                        output@,
                    )[i]).content == applied_content(mv, subs, protected@, i) || (messages_view(
                        output@,
                    )[i].content.len() >= 1 && messages_view(output@)[i].content.last() == '…'))
                        && messages_view(output@)[i].content.len() <= applied_content(
                        mv,
                        subs,
                        protected@,
                        i,
                    ).len() by {
                        assert(messages_view(output@)[i] == output@[i]@);
                        if i != idx as int {
                            assert(output@[i] == before[i]);
                            assert(messages_view(before)[i] == before[i]@);
                        } else {
                            let argc = messages_view(before)[i].content;
                            assert(argc == before[i]@.content);
                            if argc.len() > target {
                                assert(messages_view(output@)[i].content.len() <= target + 1);
                            }
                        }
                    }
                }
                current = sum_cache(&cache);
                if current <= max_tokens as u128 {
                    break ;
                }
            }
            idx += 1;
        }
    }

    // Extreme pass: every message but the final one and system messages
    // goes down to a handful of characters until the budget is met.
    current = sum_cache(&cache);
    if current > max_tokens as u128 {
        let mut idx: usize = 0;
        let mut done = false;
        while idx < n && !done
            invariant
                idx <= n,
                n == messages@.len(),
                mv == messages_view(messages@),
                protected@.len() == n,
                output@.len() == n,
                cache@.len() == n,
                forall|i: int|
                    0 <= i < n ==> #[trigger] cache@[i] == cap_or(
                        estimate_tokens_of(messages_view(output@)[i].content)
                            + per_message_overhead,
                    ),
                forall|i: int|
                    0 <= i < idx && i != n - 1 && !is_system_role(#[trigger] mv[i].role)
                        ==> messages_view(output@)[i].content.len() <= (if is_assistant_role(
                        mv[i].role,
                    ) {
                        11int
                    } else {
                        6int
                    }),
                done ==> cap_sum(cache@) <= max_tokens as u128,
                forall|i: int|
                    0 <= i < n ==> (#[trigger] messages_view(output@)[i]).role == mv[i].role,
                n > 0 ==> messages_view(output@)[n - 1].content == mv[n - 1].content,
                forall|i: int|
                    0 <= i < n && is_system_role(#[trigger] mv[i].role) && protected@[i]
                        ==> messages_view(output@)[i].content == mv[i].content,
                subs == summaries_view(summaries@),
                forall|i: int|
                    0 <= i < n && !protected@[i] ==> ((#[trigger] messages_view(
                        output@,
                    )[i]).content == applied_content(mv, subs, protected@, i) || (messages_view(
                        output@,
                    )[i].content.len() >= 1 && messages_view(output@)[i].content.last() == '…'))
                        && messages_view(output@)[i].content.len() <= applied_content(
                        mv,
                        subs,
                        protected@,
                        i,
                    ).len(),
            decreases n - idx,
        {
            let skip = idx == n - 1 || str_eq_ic_exec(messages[idx].role.as_str(), "system");
            if !skip {
                let min_chars: usize = if is_assistant_exec(messages[idx].role.as_str()) {
                    10
                } else {
                    5
                };
                let ghost before = output@;
                let ghost cache_before = cache@;
                let new_content = summarize_content(output[idx].content.as_str(), min_chars);
                output[idx] = ChatMessageJson {
                    role: crate::memory_cache::clone_string(&messages[idx].role),
                    content: new_content,
                };
                let e = crate::tokens::estimate_tokens_wide(output[idx].content.as_str());
                cache[idx] = add_cap(e, per_message_overhead as u128);
                proof {
                    assert forall|i: int|
                        0 <= i < n implies #[trigger] cache@[i] == cap_or(
                        estimate_tokens_of(messages_view(output@)[i].content)
                            + per_message_overhead,
                    ) by {
                        assert(messages_view(output@)[i] == output@[i]@);
                        if i != idx as int {
                            assert(cache@[i] == cache_before[i]);
                            assert(output@[i] == before[i]);
                            assert(messages_view(before)[i] == before[i]@);
                        }
                    }
                    assert(messages_view(output@)[idx as int].content.len() <= min_chars + 1);
                    assert forall|i: int|
                        0 <= i < n implies (#[trigger] messages_view(output@)[i]).role
                        == mv[i].role by {
                        assert(messages_view(output@)[i] == output@[i]@);
                        if i != idx as int {
                            assert(output@[i] == before[i]);
                            assert(messages_view(before)[i] == before[i]@);
                        }
                    }
                    assert forall|i: int|
                        0 <= i < n && is_system_role(#[trigger] mv[i].role) && protected@[i]
                            implies messages_view(output@)[i].content == mv[i].content by {
                        assert(messages_view(output@)[i] == output@[i]@);
                        assert(output@[i] == before[i]);
                        assert(messages_view(before)[i] == before[i]@);
                    }
                    assert(messages_view(output@)[n - 1].content == mv[n - 1].content) by {
                        assert(messages_view(output@)[n - 1] == output@[n - 1]@);
                        assert(output@[n - 1] == before[n - 1]);
                        assert(messages_view(before)[n - 1] == before[n - 1]@);
                    }
                    assert forall|i: int|
                        0 <= i < n && !protected@[i] implies ((#[trigger] messages_view(
                        output@,
                    )[i]).content == applied_content(mv, subs, protected@, i) || (messages_view(
                        output@,
                    )[i].content.len() >= 1 && messages_view(output@)[i].content.last() == '…'))
                        && messages_view(output@)[i].content.len() <= applied_content(
                        mv,
                        subs,
                        protected@,
                        i,
                    ).len() by {
                        assert(messages_view(output@)[i] == output@[i]@);
                        if i != idx as int {
                            assert(output@[i] == before[i]);
                            assert(messages_view(before)[i] == before[i]@);
                        } else {
                            let argc = messages_view(before)[i].content;
                            assert(argc == before[i]@.content);
                            if argc.len() > min_chars {
                                assert(messages_view(output@)[i].content.len() <= min_chars + 1);
                            }
                        }
                    }
                }
                let total_now = sum_cache(&cache);
                if total_now <= max_tokens as u128 {
                    done = true;
                }
            }
            proof {
                assert forall|i: int|
                    0 <= i < idx + 1 && i != n - 1 && !is_system_role(#[trigger] mv[i].role)
                        implies messages_view(output@)[i].content.len() <= (if is_assistant_role(
                    mv[i].role,
                ) {
                    11int
                } else {
                    6int
                }) by {}
            }
            idx += 1;
        }
        proof {
            if done {
                lemma_cache_sum_bounds_total(
                    cache@,
                    messages_view(output@),
                    per_message_overhead as int,
                    max_tokens as int,
                );
            }
        }
    } else {
        proof {
            lemma_cache_sum_bounds_total(
                cache@,
                messages_view(output@),
                per_message_overhead as int,
                max_tokens as int,
            );
        }
    }
    output
}

/// Smart trim with local summarization: plans the targets, summarizes each
/// unprotected message by truncation, and runs the shrink passes.
pub fn trim_context_smart(
    messages: &Vec<ChatMessageJson>,
    max_tokens: usize,
    per_message_overhead: usize,
    min_keep_pairs: usize,
    summary_aggressiveness: usize,
) -> (r: Vec<ChatMessageJson>)
    ensures
        r@.len() == messages@.len(),
        forall|i: int|
            0 <= i < messages@.len() ==> (#[trigger] messages_view(r@)[i]).role == messages_view(
                messages@,
            )[i].role,
        messages@.len() > 0 ==> messages_view(r@).last().content == messages_view(
            messages@,
        ).last().content,
        total_tokens_overhead_of(messages_view(messages@), per_message_overhead as int)
            <= max_tokens ==> messages_view(r@) == messages_view(messages@),
        forall|i: int|
            0 <= i < messages@.len() && total_tokens_overhead_of(
                messages_view(messages@),
                per_message_overhead as int,
            ) > max_tokens && !smart_protected(messages_view(messages@), min_keep_pairs as int)[i]
                ==> ((#[trigger] messages_view(r@)[i]).content == messages_view(
                messages@,
            )[i].content || (messages_view(r@)[i].content.len() >= 1 && messages_view(
                r@,
            )[i].content.last() == '…')) && messages_view(r@)[i].content.len()
                <= smart_avg_target(
                messages_view(messages@),
                min_keep_pairs as int,
                summary_aggressiveness as int,
            ) + 1,
{
    broadcast use lemma_messages_view_index;
    broadcast use lemma_summaries_view_index;

    let ghost mv = messages_view(messages@);
    let n = messages.len();
    if n == 0 {
        let r: Vec<ChatMessageJson> = Vec::new();
        proof {
            assert(messages_view(r@) =~= mv);
        }
        return r;
    }

    // Within budget: nothing to do.
    let mut total: u128 = 0;
    let mut c: usize = 0;
    while c < n
        invariant
            c <= n,
            n == messages@.len(),
            mv == messages_view(messages@),
            total == cap_or(total_tokens_overhead_of(mv.subrange(0, c as int), per_message_overhead as int)),
        decreases n - c,
    {
        proof {
            assert(mv.subrange(0, c + 1).drop_last() =~= mv.subrange(0, c as int));
            assert(mv.subrange(0, c + 1).last() == mv[c as int]);
            lemma_estimate_tokens_bound(mv[c as int].content);
            lemma_total_tokens_overhead_nonneg(mv.subrange(0, c as int), per_message_overhead as int);
        }
        let e = crate::tokens::estimate_tokens_wide(messages[c].content.as_str());
        total = add_cap(add_cap(total, e), per_message_overhead as u128);
        c += 1;
    }
    proof {
        assert(mv.subrange(0, n as int) =~= mv);
    }
    if total <= max_tokens as u128 {
        let r = clone_messages(messages);
        proof {
            lemma_total_tokens_overhead_nonneg(mv, per_message_overhead as int);
            assert(messages_view(r@).last() == mv.last());
        }
        return r;
    }

    let (protected, tasks) = plan_smart_summaries(messages, min_keep_pairs, summary_aggressiveness);
    let ghost prot = smart_protected(mv, min_keep_pairs as int);
    let ghost idxs = unprotected_indices(prot, n as int);
    let ghost avg = smart_avg_target(mv, min_keep_pairs as int, summary_aggressiveness as int);
    let mut summaries: Vec<(usize, String)> = Vec::new();
    let k = tasks.len();
    let mut t: usize = 0;
    while t < k
        invariant
            t <= k,
            k == tasks@.len(),
            n == messages@.len(),
            mv == messages_view(messages@),
            prot == smart_protected(mv, min_keep_pairs as int),
            idxs == unprotected_indices(prot, n as int),
            avg == smart_avg_target(mv, min_keep_pairs as int, summary_aggressiveness as int),
            k == idxs.len(),
            forall|x: int|
                0 <= x < k ==> (#[trigger] tasks@[x]).index == idxs[x] && tasks@[x].content@
                    == mv[tasks@[x].index as int].content && tasks@[x].max_chars == avg,
            summaries@.len() == t,
            forall|x: int|
                0 <= x < t ==> (#[trigger] summaries@[x]).0 == idxs[x] && ((summaries@[x].1@
                    == mv[summaries@[x].0 as int].content) || (summaries@[x].1@.len() >= 1
                    && summaries@[x].1@.last() == '…')) && summaries@[x].1@.len() <= avg + 1,
        decreases k - t,
    {
        let task = &tasks[t];
        let summary = summarize_content(task.content.as_str(), task.max_chars);
        let ghost before = summaries@;
        summaries.push((task.index, summary));
        t += 1;
        proof {
            assert forall|x: int|
                0 <= x < t implies (#[trigger] summaries@[x]).0 == idxs[x] && ((summaries@[x].1@
                == mv[summaries@[x].0 as int].content) || (summaries@[x].1@.len() >= 1
                && summaries@[x].1@.last() == '…')) && summaries@[x].1@.len() <= avg + 1 by {
                if x < t - 1 {
                    assert(summaries@[x] == before[x]);
                }
            }
        }
    }
    let ghost subs = summaries_view(summaries@);
    let r = apply_smart_summaries(messages, &protected, summaries, max_tokens, per_message_overhead);
    proof {
        lemma_total_tokens_overhead_nonneg(mv, per_message_overhead as int);
        if total_tokens_overhead_of(mv, per_message_overhead as int) <= max_tokens {
            assert(total <= max_tokens as u128);
        }
        lemma_unprotected_indices_bounds(prot, n as int);
        lemma_unprotected_indices_sorted(prot, n as int);
        assert forall|i: int|
            0 <= i < n && total_tokens_overhead_of(mv, per_message_overhead as int) > max_tokens
                && !prot[i] implies ((#[trigger] messages_view(r@)[i]).content == mv[i].content
            || (messages_view(r@)[i].content.len() >= 1 && messages_view(r@)[i].content.last()
                == '…')) && messages_view(r@)[i].content.len() <= avg + 1 by {
            lemma_unprotected_indices_complete(prot, n as int, i);
            let t0 = choose|t0: int| 0 <= t0 < idxs.len() && #[trigger] idxs[t0] == i;
            assert(subs[t0] == (i, summaries@[t0].1@));
            assert forall|a: int, b: int|
                0 <= a < b < subs.len() implies (#[trigger] subs[a]).0 != (#[trigger] subs[b]).0 by {
                assert(idxs[a] < idxs[b]);
            }
            lemma_last_summary_unique(subs, t0);
            assert(applied_content(mv, subs, protected@, i) == summaries@[t0].1@);
        }
    }
    r
}

pub proof fn lemma_total_tokens_overhead_nonneg(ms: Seq<MessageV>, overhead: int)
    requires
        overhead >= 0,
    ensures
        total_tokens_overhead_of(ms, overhead) >= 0,
    decreases ms.len(),
{
    if ms.len() > 0 {
        lemma_total_tokens_overhead_nonneg(ms.drop_last(), overhead);
        lemma_estimate_tokens_bound(ms.last().content);
    }
}

/// Saturating sum of two wide counters; only budget comparisons read it.
fn add_cap(a: u128, b: u128) -> (r: u128)
    ensures
        r == cap_or(a + b),
        r >= a,
        r >= b,
{
    if a <= u128::MAX - b {
        a + b
    } else {
        u128::MAX
    }
}

/// The saturating image of a mathematical count.
pub open spec fn cap_or(x: int) -> u128 {
    if x <= u128::MAX {
        (if x >= 0 {
            x as u128
        } else {
            0
        })
    } else {
        u128::MAX
    }
}

/// The saturating fold of the token cache.
pub open spec fn cap_sum(s: Seq<u128>) -> u128
    decreases s.len(),
{
    if s.len() == 0 {
        0
    } else {
        cap_or(cap_sum(s.drop_last()) + s.last())
    }
}

/// A saturating sum below the cap saturated nowhere: it is the exact sum,
/// and it bounds every term.
pub proof fn lemma_cap_sum_exact(s: Seq<u128>)
    requires
        cap_sum(s) < u128::MAX,
    ensures
        forall|i: int| 0 <= i < s.len() ==> #[trigger] s[i] <= cap_sum(s),
        s.len() > 0 ==> cap_sum(s) == cap_sum(s.drop_last()) + s.last(),
    decreases s.len(),
{
    if s.len() > 0 {
        lemma_cap_sum_exact(s.drop_last());
        assert forall|i: int| 0 <= i < s.len() implies #[trigger] s[i] <= cap_sum(s) by {
            if i < s.len() - 1 {
                assert(s.drop_last()[i] == s[i]);
            }
        }
    }
}

/// Saturating sum of the token cache.
fn sum_cache(cache: &Vec<u128>) -> (r: u128)
    ensures
        r == cap_sum(cache@),
{
    let mut acc: u128 = 0;
    let mut i: usize = 0;
    while i < cache.len()
        invariant
            i <= cache@.len(),
            acc == cap_sum(cache@.subrange(0, i as int)),
        decreases cache@.len() - i,
    {
        proof {
            assert(cache@.subrange(0, i + 1).drop_last() =~= cache@.subrange(0, i as int));
            assert(cache@.subrange(0, i + 1).last() == cache@[i as int]);
        }
        acc = add_cap(acc, cache[i]);
        i += 1;
    }
    proof {
        assert(cache@.subrange(0, cache@.len() as int) =~= cache@);
    }
    acc
}

/// A token cache whose entries are the capped per-message charges and
/// whose saturating sum stays within the budget describes a list whose
/// real token total is within the budget.
pub proof fn lemma_cache_sum_bounds_total(
    cache: Seq<u128>,
    ms: Seq<MessageV>,
    overhead: int,
    budget: int,
)
    requires
        overhead >= 0,
        cache.len() == ms.len(),
        forall|i: int|
            0 <= i < cache.len() ==> #[trigger] cache[i] == cap_or(
                estimate_tokens_of(ms[i].content) + overhead,
            ),
        cap_sum(cache) <= budget,
        budget < u128::MAX,
    ensures
        total_tokens_overhead_of(ms, overhead) <= budget,
    decreases ms.len(),
{
    lemma_total_tokens_overhead_nonneg(ms, overhead);
    if ms.len() > 0 {
        lemma_cap_sum_exact(cache);
        lemma_estimate_tokens_bound(ms.last().content);
        assert(cache.last() == cap_or(estimate_tokens_of(ms.last().content) + overhead));
        assert(cache.last() < u128::MAX);
        assert(cache.last() == estimate_tokens_of(ms.last().content) + overhead);
        lemma_cache_sum_bounds_total(
            cache.drop_last(),
            ms.drop_last(),
            overhead,
            cap_sum(cache.drop_last()) as int,
        );
    }
}

} // verus!

verus! {

/// The instruction put before a text handed to the summary endpoint: keep
/// the language, keep the core meaning, answer with the condensed text
/// alone.
pub fn build_summary_prompt(content: &str) -> (r: String)
    ensures
        r@ == "请根据以下规则处理输入文本：\n- 回答必须使用与输入文本相同的语言\n- 在保持核心含义的前提下精简文本\n- 仅返回精简结果，不要任何解释\n"@
            + content@,
{
    let mut r =
        "请根据以下规则处理输入文本：\n- 回答必须使用与输入文本相同的语言\n- 在保持核心含义的前提下精简文本\n- 仅返回精简结果，不要任何解释\n".to_owned();
    r.append(content);
    r
}

/// The synthetic chat-completion request that asks a summary endpoint to
/// condense one message.
pub fn build_summary_request(
    content: &str,
    model: Option<&String>,
    max_tokens: i32,
    temperature_milli: i32,
) -> (r: crate::api_model::ChatRequestJson)
    ensures
        r@.model == (match model {
            Some(m) => m@,
            None => "gpt-3.5-turbo"@,
        }),
        r@.messages.len() == 1,
        r@.messages[0].role == "user"@,
        r@.messages[0].content
            == "请根据以下规则处理输入文本：\n- 回答必须使用与输入文本相同的语言\n- 在保持核心含义的前提下精简文本\n- 仅返回精简结果，不要任何解释\n"@
            + content@,
        r@.temperature_milli == temperature_milli,
        r@.max_tokens == max_tokens,
        r@.stream == false,
        r@.enable_thinking is None,
{
    broadcast use crate::api_model::lemma_messages_view_index;

    let prompt = build_summary_prompt(content);
    let mut messages: Vec<ChatMessageJson> = Vec::new();
    messages.push(ChatMessageJson { role: "user".to_owned(), content: prompt });
    crate::api_model::ChatRequestJson {
        model: match model {
            Some(m) => crate::memory_cache::clone_string(m),
            None => "gpt-3.5-turbo".to_owned(),
        },
        messages,
        temperature_milli,
        max_tokens,
        stream: false,
        enable_thinking: None,
    }
}

} // verus!
