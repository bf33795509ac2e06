//! Heuristic token estimator for context-budget checks.
//!
//! One pass over the characters: runs of ASCII alphanumerics form words
//! (one token for a short word, three quarters of the length rounded up
//! otherwise); every other ASCII character costs one; CJK code points cost
//! two; other code points cost three when their UTF-8 form is longer than
//! two bytes, else two. A fixed overhead of three is added per message,
//! and a non-empty message counts at least one token before the overhead.

use vstd::prelude::*;
use vstd::hash_map::StringHashMap;

verus! {

/// Cap on the memoization table.
pub const TOKEN_CACHE_MAX_ENTRIES: usize = 10000;

/// Bytes charged per table entry besides the key.
pub const TOKEN_CACHE_ENTRY_OVERHEAD: usize = 8;

pub open spec fn is_ascii_char(c: char) -> bool {
    (c as u32) < 128
}

pub open spec fn is_ascii_alnum(c: char) -> bool {
    (48 <= c as u32 && c as u32 <= 57) || (65 <= c as u32 && c as u32 <= 90) || (97 <= c as u32
        && c as u32 <= 122)
}

/// The CJK ranges that cost two tokens per character.
pub open spec fn is_cjk(c: char) -> bool {
    let u = c as u32;
    (0x4E00 <= u && u <= 0x9FFF) || (0x3400 <= u && u <= 0x4DBF) || (0x20000 <= u && u <= 0x2A6DF)
        || (0x3040 <= u && u <= 0x309F) || (0x30A0 <= u && u <= 0x30FF) || (0xAC00 <= u && u
        <= 0xD7AF)
}

/// Length of the UTF-8 encoding of a character.
pub open spec fn char_utf8_len(c: char) -> int {
    let u = c as u32;
    if u < 0x80 {
        1
    } else if u < 0x800 {
        2
    } else if u < 0x10000 {
        3
    } else {
        4
    }
}

/// Tokens charged for a finished word: one for up to three characters,
/// else three quarters of the length, rounded up.
pub open spec fn word_cost(len: int) -> int
    recommends
        len >= 1,
{
    if len <= 3 {
        1
    } else {
        (3 * len + 3) / 4
    }
}

/// Tokens charged for one character outside a word.
pub open spec fn nonword_cost(c: char) -> int {
    if is_ascii_char(c) {
        1
    } else if is_cjk(c) {
        2
    } else if char_utf8_len(c) > 2 {
        3
    } else {
        2
    }
}

/// Cost of the word accumulated so far, if any.
pub open spec fn flush_word(word: int) -> int {
    if word > 0 {
        word_cost(word)
    } else {
        0
    }
}

/// The single scan: position `i`, with `word` alphanumeric characters
/// accumulated just before it.
pub open spec fn token_scan(s: Seq<char>, i: int, word: int) -> int
    decreases s.len() - i,
{
    if i < 0 || i >= s.len() {
        flush_word(word)
    } else if is_ascii_alnum(s[i]) {
        token_scan(s, i + 1, word + 1)
    } else {
        flush_word(word) + nonword_cost(s[i]) + token_scan(s, i + 1, 0)
    }
}

/// The pre-overhead token count of a message.
pub open spec fn token_count(s: Seq<char>) -> int {
    token_scan(s, 0, 0)
}

/// The estimate: zero for the empty message; otherwise the scan, floored
/// at one, plus the fixed overhead of three.
pub open spec fn estimate_tokens_of(s: Seq<char>) -> int {
    if s.len() == 0 {
        0
    } else {
        (if token_count(s) == 0 {
            1
        } else {
            token_count(s)
        }) + 3
    }
}

/// The scan charges at least the pending word, and never less than zero.
pub proof fn lemma_token_scan_lower(s: Seq<char>, i: int, word: int)
    requires
        word >= 0,
    ensures
        token_scan(s, i, word) >= flush_word(word),
        token_scan(s, i, word) >= 0,
    decreases s.len() - i,
{
    if 0 <= i < s.len() {
        if is_ascii_alnum(s[i]) {
            lemma_token_scan_lower(s, i + 1, word + 1);
            if word > 0 {
                assert(word_cost(word + 1) >= word_cost(word));
            }
        } else {
            lemma_token_scan_lower(s, i + 1, 0);
        }
    }
}

/// The scan charges at most three tokens per remaining character, plus the
/// pending word.
pub proof fn lemma_token_scan_upper(s: Seq<char>, i: int, word: int)
    requires
        0 <= i <= s.len(),
        word >= 0,
    ensures
        token_scan(s, i, word) <= 3 * (s.len() - i) + word + 1,
    decreases s.len() - i,
{
    if i < s.len() {
        if is_ascii_alnum(s[i]) {
            lemma_token_scan_upper(s, i + 1, word + 1);
        } else {
            lemma_token_scan_upper(s, i + 1, 0);
        }
    }
}

/// The whole estimate is at most three tokens per character plus four.
pub proof fn lemma_estimate_tokens_bound(s: Seq<char>)
    ensures
        0 <= estimate_tokens_of(s) <= 3 * s.len() + 4,
{
    if s.len() > 0 {
        lemma_token_scan_upper(s, 0, 0);
        lemma_token_scan_lower(s, 0, 0);
    }
}

/// Whether a character lies in the CJK ranges.
pub fn is_cjk_char(ch: char) -> (r: bool)
    ensures
        r == is_cjk(ch),
{
    let code = ch as u32;
    (0x4E00 <= code && code <= 0x9FFF) || (0x3400 <= code && code <= 0x4DBF) || (0x20000 <= code
        && code <= 0x2A6DF) || (0x3040 <= code && code <= 0x309F) || (0x30A0 <= code && code
        <= 0x30FF) || (0xAC00 <= code && code <= 0xD7AF)
}

/// The characters of a string, in order.
pub fn str_chars(s: &str) -> (r: Vec<char>)
    ensures
        r@ == s@,
{
    let n = s.unicode_len();
    let mut r: Vec<char> = Vec::new();
    let mut i: usize = 0;
    while i < n
        invariant
            i <= n,
            n == s@.len(),
            r@ =~= s@.subrange(0, i as int),
        decreases n - i,
    {
        r.push(s.get_char(i));
        i += 1;
    }
    proof {
        assert(r@ =~= s@);
    }
    r
}

/// Tokens for a finished word of `len` characters.
fn word_cost_exec(len: usize) -> (r: usize)
    requires
        len >= 1,
    ensures
        r == word_cost(len as int),
{
    if len <= 3 {
        1
    } else {
        let wide = (3 * (len as u128) + 3) / 4;
        proof {
            assert(word_cost(len as int) <= len as int);
        }
        wide as usize
    }
}

/// One pass over the message, without the memoization table.
pub fn estimate_tokens_internal(message: &str) -> (r: usize)
    requires
        estimate_tokens_of(message@) <= usize::MAX,
    ensures
        r == estimate_tokens_of(message@),
{
    let ghost s = message@;
    let chars = str_chars(message);
    let n = chars.len();
    if n == 0 {
        return 0;
    }
    proof {
        lemma_token_scan_lower(s, 0, 0);
    }
    let mut tokens: usize = 0;
    let mut word: usize = 0;
    let mut i: usize = 0;
    while i < n
        invariant
            i <= n,
            n == s.len(),
            chars@ == s,
            word <= i,
            n >= 1,
            tokens + token_scan(s, i as int, word as int) == token_count(s),
            token_count(s) + 3 <= usize::MAX,
        decreases n - i,
    {
        let c = chars[i];
        let code = c as u32;
        let alnum = (48 <= code && code <= 57) || (65 <= code && code <= 90) || (97 <= code
            && code <= 122);
        if alnum {
            word += 1;
        } else {
            proof {
                lemma_token_scan_lower(s, i + 1, 0);
            }
            if word > 0 {
                tokens = tokens + word_cost_exec(word);
                word = 0;
            }
            let cost: usize = if code < 128 {
                1
            } else if is_cjk_char(c) {
                2
            } else if code >= 0x800 {
                3
            } else {
                2
            };
            proof {
                assert(cost == nonword_cost(s[i as int]));
            }
            tokens = tokens + cost;
        }
        i += 1;
    }
    proof {
        lemma_token_scan_lower(s, n as int, word as int);
    }
    if word > 0 {
        tokens = tokens + word_cost_exec(word);
    }
    if tokens == 0 {
        tokens = 1;
    }
    tokens + 3
}

/// One pass over the message, accumulated in a wide integer, so that no
/// bound on the input is needed.
pub fn estimate_tokens_wide(message: &str) -> (r: u128)
    ensures
        r == estimate_tokens_of(message@),
{
    let ghost s = message@;
    let chars = str_chars(message);
    let n = chars.len();
    if n == 0 {
        return 0;
    }
    proof {
        lemma_token_scan_lower(s, 0, 0);
        lemma_token_scan_upper(s, 0, 0);
    }
    let mut tokens: u128 = 0;
    let mut word: usize = 0;
    let mut i: usize = 0;
    while i < n
        invariant
            i <= n,
            n == s.len(),
            chars@ == s,
            word <= i,
            n >= 1,
            tokens + token_scan(s, i as int, word as int) == token_count(s),
            token_count(s) <= 3 * s.len() + 1,
        decreases n - i,
    {
        proof {
            lemma_token_scan_lower(s, i as int, word as int);
        }
        let c = chars[i];
        let code = c as u32;
        let alnum = (48 <= code && code <= 57) || (65 <= code && code <= 90) || (97 <= code
            && code <= 122);
        if alnum {
            word += 1;
        } else {
            proof {
                lemma_token_scan_lower(s, i + 1, 0);
            }
            if word > 0 {
                tokens = tokens + word_cost_exec(word) as u128;
                word = 0;
            }
            let cost: u128 = if code < 128 {
                1
            } else if is_cjk_char(c) {
                2
            } else if code >= 0x800 {
                3
            } else {
                2
            };
            proof {
                assert(cost == nonword_cost(s[i as int]));
            }
            tokens = tokens + cost;
        }
        i += 1;
    }
    proof {
        lemma_token_scan_lower(s, n as int, word as int);
    }
    if word > 0 {
        tokens = tokens + word_cost_exec(word) as u128;
    }
    if tokens == 0 {
        tokens = 1;
    }
    tokens + 3
}

/// One pass over the message; equal to the memoized path.
pub fn estimate_tokens(message: &str) -> (r: usize)
    requires
        estimate_tokens_of(message@) <= usize::MAX,
    ensures
        r == estimate_tokens_of(message@),
{
    if message.is_empty() {
        return 0;
    }
    estimate_tokens_internal(message)
}

/// A value clipped to the `usize` range, as the saturating additions of
/// the byte-charge counter leave it.
pub open spec fn sat_usize(x: int) -> usize {
    if x > usize::MAX {
        usize::MAX
    } else if x < 0 {
        0
    } else {
        x as usize
    }
}

/// The byte charge of a memoized key list: for each key, its UTF-8 byte
/// length (as `str::len` reports it) plus the per-entry overhead,
/// accumulated with saturation.
pub open spec fn token_cache_mem_charge(keys: Seq<Seq<char>>) -> usize
    decreases keys.len(),
{
    if keys.len() == 0 {
        0
    } else {
        sat_usize(
            token_cache_mem_charge(keys.drop_last()) + sat_usize(
                (vstd::utf8::encode_utf8(keys.last()).len() as usize)
                    + TOKEN_CACHE_ENTRY_OVERHEAD as int,
            ),
        )
    }
}

/// Bounded memoization table for the estimator, keyed by the exact
/// message text. The ghost key list records the memoized keys in
/// insertion order, so the entry cap and the byte charge can be stated.
pub struct TokenCache {
    map: StringHashMap<usize>,
    mem_bytes: usize,
    keys: Ghost<Seq<Seq<char>>>,
}

impl TokenCache {
    /// Every stored count is the estimate of its key; the ghost key list
    /// carries exactly the memoized keys, never more than the cap; and the
    /// byte counter equals the charge of those keys.
    pub closed spec fn wf(&self) -> bool {
        &&& forall|k: Seq<char>|
            self.map@.contains_key(k) ==> #[trigger] self.map@[k] == estimate_tokens_of(k)
        &&& self.keys@.no_duplicates()
        &&& self.map@.dom() == self.keys@.to_set()
        &&& self.keys@.len() <= TOKEN_CACHE_MAX_ENTRIES
        &&& self.mem_bytes == token_cache_mem_charge(self.keys@)
    }

    /// Number of memoized messages.
    pub closed spec fn spec_len(&self) -> int {
        self.map@.len() as int
    }

    /// The memoized keys, in insertion order.
    pub closed spec fn spec_keys(&self) -> Seq<Seq<char>> {
        self.keys@
    }

    /// A well-formed table never holds more than the configured number of
    /// entries, and its byte counter is the charge of its keys.
    pub proof fn lemma_table_bounds(&self)
        requires
            self.wf(),
        ensures
            self.spec_len() <= TOKEN_CACHE_MAX_ENTRIES,
            self.spec_len() == self.spec_keys().len(),
            self.spec_mem_bytes() == token_cache_mem_charge(self.spec_keys()),
    {
        self.keys@.unique_seq_to_set();
    }

    /// The tracked memory charge of the table.
    pub closed spec fn spec_mem_bytes(&self) -> usize {
        self.mem_bytes
    }

    pub fn new() -> (r: Self)
        ensures
            r.wf(),
            r.spec_len() == 0,
            r.spec_mem_bytes() == 0,
            r.spec_keys().len() == 0,
    {
        let r = TokenCache {
            map: StringHashMap::new(),
            mem_bytes: 0,
            keys: Ghost(Seq::empty()),
        };
        proof {
            assert(r.map@.dom() =~= r.keys@.to_set());
        }
        r
    }

    /// The estimate, served from the table when the message was seen
    /// before; a fresh message is added unless the table is full.
    pub fn estimate_tokens(&mut self, message: &str) -> (r: usize)
        requires
            old(self).wf(),
            estimate_tokens_of(message@) <= usize::MAX,
        ensures
            final(self).wf(),
            r == estimate_tokens_of(message@),
    {
        if message.is_empty() {
            return 0;
        }
        match self.map.get(message) {
            Some(v) => *v,
            None => {
                let tokens = estimate_tokens_internal(message);
                if self.map.len() < TOKEN_CACHE_MAX_ENTRIES {
                    let ghost before_keys = self.keys@;
                    proof {
                        self.keys@.unique_seq_to_set();
                    }
                    self.map.insert(message.to_owned(), tokens);
                    self.mem_bytes = self.mem_bytes.saturating_add(
                        message.len().saturating_add(TOKEN_CACHE_ENTRY_OVERHEAD),
                    );
                    proof {
                        self.keys@ = before_keys.push(message@);
                        assert forall|k: Seq<char>| self.map@.contains_key(k) implies #[trigger] self
                            .map@[k] == estimate_tokens_of(k) by {
                            if k != message@ {
                                assert(old(self).map@.contains_key(k));
                            }
                        }
                        assert(!before_keys.to_set().contains(message@));
                        assert(!before_keys.contains(message@));
                        assert(self.keys@.no_duplicates()) by {
                            assert forall|i: int, j: int|
                                0 <= i < self.keys@.len() && 0 <= j < self.keys@.len() && i
                                    != j implies self.keys@[i] != self.keys@[j] by {
                                if i < before_keys.len() && j < before_keys.len() {
                                    assert(before_keys[i] != before_keys[j]);
                                } else if i < before_keys.len() {
                                    assert(before_keys.contains(before_keys[i]));
                                } else if j < before_keys.len() {
                                    assert(before_keys.contains(before_keys[j]));
                                }
                            }
                        }
                        assert(self.map@.dom() == self.keys@.to_set()) by {
                            broadcast use vstd::map::axiom_map_insert_domain;

                            before_keys.lemma_push_to_set_commute(message@);
                            assert(self.map@.dom() =~= before_keys.to_set().insert(message@));
                        }
                        assert(self.keys@.drop_last() =~= before_keys);
                        assert(self.keys@.last() == message@);
                        assert(token_cache_mem_charge(self.keys@) == sat_usize(
                            token_cache_mem_charge(before_keys) + sat_usize(
                                (vstd::utf8::encode_utf8(message@).len() as usize)
                                    + TOKEN_CACHE_ENTRY_OVERHEAD as int,
                            ),
                        ));
                        assert(self.mem_bytes == token_cache_mem_charge(self.keys@));
                    }
                }
                tokens
            },
        }
    }

    /// Empties the table.
    pub fn clear_token_cache(&mut self)
        ensures
            final(self).wf(),
            final(self).spec_len() == 0,
            final(self).spec_mem_bytes() == 0,
            final(self).spec_keys().len() == 0,
    {
        self.map.clear();
        self.mem_bytes = 0;
        proof {
            self.keys@ = Seq::empty();
            assert(self.map@.dom() =~= self.keys@.to_set());
        }
    }

    /// Entry count and tracked byte charge of the table: the charge of
    /// the memoized keys, each costing its UTF-8 length plus the
    /// per-entry overhead.
    pub fn get_token_cache_stats(&self) -> (r: (usize, usize))
        requires
            self.wf(),
        ensures
            r.0 == self.spec_len(),
            r.0 == self.spec_keys().len(),
            r.1 == token_cache_mem_charge(self.spec_keys()),
    {
        proof {
            self.lemma_table_bounds();
        }
        (self.map.len(), self.mem_bytes)
    }
}

} // verus!
