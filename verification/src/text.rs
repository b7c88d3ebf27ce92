//! Character-sequence model shared by the scraper, the store and the ranker:
//! substring matching, occurrence counting, splitting, joining and ASCII
//! lowercasing, each with an executable form proved against its spec.

use vstd::prelude::*;

verus! {

/// The pattern `pat` occurs in `text` starting at index `i`.
pub open spec fn match_at(text: Seq<char>, pat: Seq<char>, i: int) -> bool {
    0 <= i && i + pat.len() <= text.len() && text.subrange(i, i + pat.len() as int) == pat
}

/// The pattern occurs somewhere in `text`.
pub open spec fn contains_pat(text: Seq<char>, pat: Seq<char>) -> bool {
    exists|i: int| match_at(text, pat, i)
}

/// Index of the leftmost occurrence of `pat` in `text`, if any.
pub open spec fn spec_find(text: Seq<char>, pat: Seq<char>) -> Option<nat>
    decreases text.len(),
{
    if pat.len() > text.len() {
        None
    } else if text.subrange(0, pat.len() as int) == pat {
        Some(0nat)
    } else if text.len() == 0 {
        None
    } else {
        match spec_find(text.skip(1), pat) {
            None => None,
            Some(j) => Some((j + 1) as nat),
        }
    }
}

/// `spec_find` returns the first match: a found index is in range, matches,
/// and nothing before it matches; `None` means nothing matches at all.
pub proof fn lemma_spec_find(text: Seq<char>, pat: Seq<char>)
    ensures
        match spec_find(text, pat) {
            Some(i) => i + pat.len() <= text.len() && match_at(text, pat, i as int)
                && (forall|j: int| 0 <= j < i ==> !match_at(text, pat, j)),
            None => forall|j: int| !match_at(text, pat, j),
        },
    decreases text.len(),
{
    if pat.len() > text.len() {
        assert(forall|j: int| j + pat.len() > text.len() || j < 0 ==> !match_at(text, pat, j));
    } else if text.subrange(0, pat.len() as int) == pat {
        assert(match_at(text, pat, 0));
    } else if text.len() == 0 {
        assert(forall|j: int| !match_at(text, pat, j));
    } else {
        lemma_spec_find(text.skip(1), pat);
        assert forall|j: int| 0 <= j implies
            match_at(text, pat, j + 1) == match_at(text.skip(1), pat, j) by {
            lemma_match_shift(text, pat, j);
        }
        match spec_find(text.skip(1), pat) {
            None => {
                assert forall|j: int| !match_at(text, pat, j) by {
                    if 0 <= j {
                        if j == 0 {
                            assert(!match_at(text, pat, 0));
                        } else {
                            assert(!match_at(text.skip(1), pat, j - 1));
                            lemma_match_shift(text, pat, j - 1);
                        }
                    }
                }
            },
            Some(j) => {
                lemma_match_shift(text, pat, j as int);
                assert forall|k: int| 0 <= k < j + 1 implies !match_at(text, pat, k) by {
                    if k == 0 {
                        assert(!match_at(text, pat, 0));
                    } else {
                        assert(!match_at(text.skip(1), pat, k - 1));
                        lemma_match_shift(text, pat, k - 1);
                    }
                }
            },
        }
    }
}

/// Matching inside the tail `text.skip(1)` is matching in `text` one
/// position later.
pub proof fn lemma_match_shift(text: Seq<char>, pat: Seq<char>, j: int)
    requires
        text.len() > 0,
        0 <= j,
    ensures
        match_at(text.skip(1), pat, j) == match_at(text, pat, j + 1),
{
    if j + 1 + pat.len() <= text.len() {
        assert(text.skip(1).subrange(j, j + pat.len() as int)
            =~= text.subrange(j + 1, j + 1 + pat.len() as int));
    }
}

/// Matching inside the suffix `text.skip(k)` is matching in `text` shifted
/// by `k`.
pub proof fn lemma_match_skip(text: Seq<char>, pat: Seq<char>, k: int, j: int)
    requires
        0 <= k <= text.len(),
        0 <= j,
    ensures
        match_at(text.skip(k), pat, j) == match_at(text, pat, j + k),
    decreases k,
{
    if k == 0 {
        assert(text.skip(0) =~= text);
    } else {
        lemma_match_skip(text.skip(1), pat, k - 1, j);
        assert(text.skip(1).skip(k - 1) =~= text.skip(k));
        lemma_match_shift(text, pat, j + k - 1);
    }
}

/// Number of non-overlapping occurrences of `pat` in `text`, scanning left
/// to right. An empty pattern counts zero occurrences.
pub open spec fn count_occ(text: Seq<char>, pat: Seq<char>) -> nat
    decreases text.len(),
{
    if pat.len() == 0 || text.len() < pat.len() {
        0
    } else if text.subrange(0, pat.len() as int) == pat {
        1 + count_occ(text.skip(pat.len() as int), pat)
    } else {
        count_occ(text.skip(1), pat)
    }
}

/// Occurrences are disjoint, so the count is bounded by the length divided
/// by the pattern length.
pub proof fn lemma_count_occ_bound(text: Seq<char>, pat: Seq<char>)
    requires
        pat.len() > 0,
    ensures
        count_occ(text, pat) * pat.len() <= text.len(),
    decreases text.len(),
{
    if text.len() < pat.len() {
        assert(count_occ(text, pat) == 0);
    } else if text.subrange(0, pat.len() as int) == pat {
        lemma_count_occ_bound(text.skip(pat.len() as int), pat);
        let c = count_occ(text.skip(pat.len() as int), pat);
        assert(text.skip(pat.len() as int).len() == text.len() - pat.len());
        assert(count_occ(text, pat) == 1 + c);
        assert((1 + c) * pat.len() == pat.len() + c * pat.len()) by (nonlinear_arith);
    } else {
        lemma_count_occ_bound(text.skip(1), pat);
        assert(text.skip(1).len() == text.len() - 1);
        assert(count_occ(text, pat) == count_occ(text.skip(1), pat));
    }
}

/// ASCII lowercasing of a single character; other characters are unchanged.
pub open spec fn lower_char(c: char) -> char {
    if 'A' <= c && c <= 'Z' {
        ((c as u8) + 32) as char
    } else {
        c
    }
}

/// ASCII lowercasing of a character sequence.
pub open spec fn lower_seq(s: Seq<char>) -> Seq<char> {
    s.map_values(|c: char| lower_char(c))
}

/// ASCII whitespace.
pub open spec fn is_space_char(c: char) -> bool {
    c == ' ' || c == '\t' || c == '\n' || c == '\r' || c == '\u{b}' || c == '\u{c}'
}

/// A word character in the sense of the whole-word boundary rule.
pub open spec fn word_char(c: char) -> bool {
    ('a' <= c && c <= 'z') || ('A' <= c && c <= 'Z') || ('0' <= c && c <= '9') || c == '_'
}

/// `s` without its leading ASCII whitespace.
pub open spec fn trim_start_seq(s: Seq<char>) -> Seq<char>
    decreases s.len(),
{
    if s.len() > 0 && is_space_char(s[0]) {
        trim_start_seq(s.skip(1))
    } else {
        s
    }
}

/// The fields of `s` separated by `sep`, in order. The empty sequence
/// splits into one empty field, and every separator ends one field and
/// starts the next, so `n` separators always give `n + 1` fields.
pub open spec fn split_char_seq(s: Seq<char>, sep: char) -> Seq<Seq<char>>
    decreases s.len(),
{
    if s.len() == 0 {
        seq![Seq::<char>::empty()]
    } else if s[0] == sep {
        seq![Seq::<char>::empty()] + split_char_seq(s.skip(1), sep)
    } else {
        let rest = split_char_seq(s.skip(1), sep);
        seq![seq![s[0]] + rest[0]] + rest.skip(1)
    }
}

/// A split is never empty.
pub proof fn lemma_split_len(s: Seq<char>, sep: char)
    ensures
        split_char_seq(s, sep).len() >= 1,
    decreases s.len(),
{
    if s.len() > 0 {
        lemma_split_len(s.skip(1), sep);
    }
}

/// The fields joined back together with `sep` between consecutive fields.
pub open spec fn join_with(parts: Seq<Seq<char>>, sep: Seq<char>) -> Seq<char>
    decreases parts.len(),
{
    if parts.len() == 0 {
        Seq::<char>::empty()
    } else if parts.len() == 1 {
        parts[0]
    } else {
        parts[0] + sep + join_with(parts.skip(1), sep)
    }
}

/// Appending one more field extends the join by a separator and the field.
pub proof fn lemma_join_push(parts: Seq<Seq<char>>, sep: Seq<char>, p: Seq<char>)
    ensures
        parts.len() == 0 ==> join_with(parts.push(p), sep) == p,
        parts.len() > 0 ==> join_with(parts.push(p), sep) =~= join_with(parts, sep) + sep + p,
    decreases parts.len(),
{
    if parts.len() == 0 {
        assert(join_with(parts.push(p), sep) == parts.push(p)[0]);
        assert(parts.push(p)[0] == p);
    } else if parts.len() == 1 {
        reveal_with_fuel(join_with, 3);
        assert(parts.push(p).skip(1) =~= seq![p]);
        assert(join_with(parts.push(p), sep) == parts[0] + sep + p);
    } else {
        lemma_join_push(parts.skip(1), sep, p);
        assert(parts.push(p).skip(1) =~= parts.skip(1).push(p));
        assert(join_with(parts.push(p), sep)
            == parts[0] + sep + join_with(parts.skip(1).push(p), sep));
    }
}

// ---------------------------------------------------------------------------
// Executable forms
// ---------------------------------------------------------------------------

/// The characters of `s` as a vector, for index-based scanning.
pub fn chars_of(s: &str) -> (r: Vec<char>)
    ensures
        r@ == s@,
{
    let n = s.unicode_len();
    let mut r: Vec<char> = Vec::new();
    let mut i: usize = 0;
    while i < n
        invariant
            i <= n,
            n == s@.len(),
            r@ == s@.take(i as int),
        decreases n - i,
    {
        r.push(s.get_char(i));
        assert(r@ =~= s@.take(i + 1));
        i += 1;
    }
    assert(s@.take(n as int) =~= s@);
    r
}

/// Whether `pat` occurs in `text` at exactly position `i`.
pub fn matches_at(text: &Vec<char>, pat: &Vec<char>, i: usize) -> (r: bool)
    requires
        i + pat@.len() <= text@.len(),
    ensures
        r == match_at(text@, pat@, i as int),
{
    let tl = text.len();
    let pl = pat.len();
    let mut k: usize = 0;
    while k < pl
        invariant
            k <= pat@.len(),
            tl == text@.len(),
            pl == pat@.len(),
            i + pat@.len() <= text@.len(),
            forall|m: int| 0 <= m < k ==> text@[i + m] == pat@[m],
        decreases pat@.len() - k,
    {
        if text[i + k] != pat[k] {
            assert(text@.subrange(i as int, i + pat@.len() as int)[k as int] != pat@[k as int]);
            return false;
        }
        k += 1;
    }
    assert(text@.subrange(i as int, i + pat@.len() as int) =~= pat@);
    true
}

/// Index of the first occurrence of `pat` in `text` at or after `from`.
pub fn find_from(text: &Vec<char>, pat: &Vec<char>, from: usize) -> (r: Option<usize>)
    requires
        from <= text@.len(),
    ensures
        match r {
            Some(i) => from <= i && match_at(text@, pat@, i as int)
                && (forall|j: int| from <= j < i ==> !match_at(text@, pat@, j)),
            None => forall|j: int| from <= j ==> !match_at(text@, pat@, j),
        },
{
    let tl = text.len();
    let pl = pat.len();
    if pl == 0 {
        assert(text@.subrange(from as int, from as int) =~= pat@);
        return Some(from);
    }
    if pl > tl || from > tl - pl {
        return None;
    }
    let mut i: usize = from;
    while i <= tl - pl
        invariant
            from <= i,
            1 <= pl <= tl,
            tl == text@.len(),
            pl == pat@.len(),
            i <= tl - pl + 1,
            forall|j: int| from <= j < i ==> !match_at(text@, pat@, j),
        decreases tl - i,
    {
        if matches_at(text, pat, i) {
            return Some(i);
        }
        i += 1;
    }
    None
}

/// Whether `pat` occurs anywhere in `text`.
pub fn contains_chars(text: &Vec<char>, pat: &Vec<char>) -> (r: bool)
    ensures
        r == contains_pat(text@, pat@),
{
    match find_from(text, pat, 0) {
        Some(_) => true,
        None => false,
    }
}

/// Non-overlapping occurrence count of `pat` in `text`.
pub fn count_pat(text: &Vec<char>, pat: &Vec<char>) -> (r: usize)
    ensures
        r == count_occ(text@, pat@),
{
    let tl = text.len();
    let pl = pat.len();
    if pl == 0 || tl < pl {
        return 0;
    }
    let mut i: usize = 0;
    let mut count: usize = 0;
    proof {
        assert(text@.skip(0) =~= text@);
    }
    while i <= tl - pl
        invariant
            pl >= 1,
            pl <= tl,
            tl == text@.len(),
            pl == pat@.len(),
            i <= tl,
            count <= i,
            count + count_occ(text@.skip(i as int), pat@) == count_occ(text@, pat@),
        decreases tl - i,
    {
        if matches_at(text, pat, i) {
            proof {
                let suf = text@.skip(i as int);
                assert(suf.subrange(0, pl as int) =~= text@.subrange(i as int, i + pl));
                assert(suf.skip(pl as int) =~= text@.skip(i + pl));
                assert(count_occ(suf, pat@) == 1 + count_occ(text@.skip(i + pl), pat@));
            }
            count += 1;
            i += pl;
        } else {
            proof {
                let suf = text@.skip(i as int);
                assert(suf.subrange(0, pl as int) =~= text@.subrange(i as int, i + pl));
                assert(suf.skip(1) =~= text@.skip(i + 1));
                assert(count_occ(suf, pat@) == count_occ(text@.skip(i + 1), pat@));
            }
            i += 1;
        }
    }
    proof {
        assert(count_occ(text@.skip(i as int), pat@) == 0);
    }
    count
}

/// ASCII-lowercased copy of `text`.
pub fn to_lower_vec(text: &Vec<char>) -> (r: Vec<char>)
    ensures
        r@ == lower_seq(text@),
{
    let mut r: Vec<char> = Vec::new();
    let mut i: usize = 0;
    while i < text.len()
        invariant
            i <= text@.len(),
            r@ == lower_seq(text@).take(i as int),
        decreases text@.len() - i,
    {
        let c = text[i];
        let lc: char = if 'A' <= c && c <= 'Z' {
            (((c as u8) + 32) as char)
        } else {
            c
        };
        assert(lc == lower_char(text@[i as int]));
        r.push(lc);
        assert(r@ =~= lower_seq(text@).take(i + 1));
        i += 1;
    }
    assert(lower_seq(text@).take(text@.len() as int) =~= lower_seq(text@));
    r
}


/// The word `word` occurs in `text` at `i` with at least one non-word
/// character on each side.
pub open spec fn whole_word_at(text: Seq<char>, word: Seq<char>, i: int) -> bool {
    match_at(text, word, i) && 1 <= i && i + word.len() < text.len() && !word_char(
        text[i - 1],
    ) && !word_char(text[i + word.len()])
}

/// Case-insensitive whole-word containment: the lowercased word occurs in
/// the lowercased text delimited on both sides by a non-word character.
pub open spec fn has_whole_word(text: Seq<char>, word: Seq<char>) -> bool {
    exists|i: int| whole_word_at(lower_seq(text), lower_seq(word), i)
}

/// Whole-word search over already-lowercased character vectors.
pub fn find_whole_word(text: &Vec<char>, word: &Vec<char>) -> (r: bool)
    ensures
        r == exists|i: int| whole_word_at(text@, word@, i),
{
    let tl = text.len();
    let wl = word.len();
    if tl < 2 || wl > tl - 2 {
        assert(forall|i: int| !whole_word_at(text@, word@, i));
        return false;
    }
    let mut i: usize = 1;
    while i <= tl - wl - 1
        invariant
            1 <= i,
            wl + 2 <= tl,
            tl == text@.len(),
            wl == word@.len(),
            i <= tl - wl,
            forall|j: int| j < i ==> !whole_word_at(text@, word@, j),
        decreases tl - i,
    {
        if matches_at(text, word, i) && !is_word_char(text[i - 1]) && !is_word_char(
            text[i + wl],
        ) {
            assert(whole_word_at(text@, word@, i as int));
            return true;
        }
        i += 1;
    }
    assert(forall|j: int| i <= j ==> !whole_word_at(text@, word@, j));
    false
}

/// Executable form of `word_char`.
pub fn is_word_char(c: char) -> (r: bool)
    ensures
        r == word_char(c),
{
    ('a' <= c && c <= 'z') || ('A' <= c && c <= 'Z') || ('0' <= c && c <= '9') || c == '_'
}

/// Executable form of `is_space_char`.
pub fn is_space(c: char) -> (r: bool)
    ensures
        r == is_space_char(c),
{
    c == ' ' || c == '\t' || c == '\n' || c == '\r' || c == '\u{b}' || c == '\u{c}'
}

/// Index of the first non-whitespace character, so that trimming is the
/// same as skipping that many characters.
pub fn skip_spaces(text: &Vec<char>) -> (r: usize)
    ensures
        r <= text@.len(),
        trim_start_seq(text@) == text@.skip(r as int),
{
    let mut i: usize = 0;
    proof {
        assert(text@.skip(0) =~= text@);
    }
    while i < text.len()
        invariant
            i <= text@.len(),
            trim_start_seq(text@) == trim_start_seq(text@.skip(i as int)),
        decreases text@.len() - i,
    {
        if !is_space(text[i]) {
            return i;
        }
        proof {
            assert(text@.skip(i as int).skip(1) =~= text@.skip(i + 1));
        }
        i += 1;
    }
    proof {
        assert(text@.skip(text@.len() as int) =~= Seq::<char>::empty());
    }
    i
}

/// One step of splitting: the text up to the first separator is the first
/// field, and the rest splits on its own.
pub proof fn lemma_split_step(s: Seq<char>, sep: char, i: int)
    requires
        0 <= i <= s.len(),
        forall|j: int| 0 <= j < i ==> s[j] != sep,
    ensures
        i < s.len() && s[i] == sep ==> split_char_seq(s, sep) =~= seq![s.take(i)]
            + split_char_seq(s.skip(i + 1), sep),
        i == s.len() ==> split_char_seq(s, sep) =~= seq![s],
    decreases i,
{
    lemma_split_len(s, sep);
    if i == 0 {
        if 0 < s.len() && s[0] == sep {
            assert(s.take(0) =~= Seq::<char>::empty());
            assert(s.skip(1) == s.skip((0 + 1) as int));
        } else if s.len() == 0 {
            assert(s =~= Seq::<char>::empty());
            assert(split_char_seq(s, sep) =~= seq![s]);
        }
    } else {
        lemma_split_step(s.skip(1), sep, i - 1);
        lemma_split_len(s.skip(1), sep);
        let rest = split_char_seq(s.skip(1), sep);
        if i < s.len() && s[i] == sep {
            assert(s.skip(1)[i - 1] == sep);
            assert(s.skip(1).take(i - 1) =~= s.take(i).skip(1));
            assert(s.skip(1).skip(i) =~= s.skip(i + 1));
            assert(rest =~= seq![s.take(i).skip(1)] + split_char_seq(s.skip(i + 1), sep));
            assert(seq![s[0]] + rest[0] =~= s.take(i));
            assert(split_char_seq(s, sep) =~= seq![seq![s[0]] + rest[0]] + rest.skip(1));
            assert(rest.skip(1) =~= split_char_seq(s.skip(i + 1), sep));
        } else if i == s.len() {
            assert(rest =~= seq![s.skip(1)]);
            assert(seq![s[0]] + s.skip(1) =~= s);
            assert(rest.skip(1) =~= Seq::<Seq<char>>::empty());
        }
    }
}

/// The fields of `text` separated by `sep`, as vectors.
pub fn split_tokens(text: &Vec<char>, sep: char) -> (r: Vec<Vec<char>>)
    ensures
        r.deep_view() == split_char_seq(text@, sep),
{
    let tl = text.len();
    let mut r: Vec<Vec<char>> = Vec::new();
    let mut start: usize = 0;
    let mut i: usize = 0;
    proof {
        assert(text@.skip(0) =~= text@);
        assert(r.deep_view() + split_char_seq(text@, sep) =~~= split_char_seq(text@, sep));
    }
    while i < tl
        invariant
            start <= i <= tl,
            tl == text@.len(),
            forall|j: int| start <= j < i ==> text@[j] != sep,
            split_char_seq(text@, sep) == r.deep_view() + split_char_seq(
                text@.skip(start as int),
                sep,
            ),
        decreases tl - i,
    {
        if text[i] == sep {
            let field = copy_range(text, start, i);
            let ghost pre = r.deep_view();
            r.push(field);
            proof {
                assert(r.deep_view() =~~= pre.push(field@));
                let suf = text@.skip(start as int);
                assert(forall|j: int|
                    0 <= j < i - start ==> suf[j] == text@[start + j] && suf[j] != sep);
                assert(suf[i - start] == sep);
                lemma_split_step(suf, sep, i - start);
                assert(suf.take(i - start) =~= text@.subrange(start as int, i as int));
                assert(suf.skip(i - start + 1) =~= text@.skip(i + 1));
                assert(split_char_seq(text@, sep) =~~= r.deep_view() + split_char_seq(
                    text@.skip(i + 1),
                    sep,
                ));
            }
            start = i + 1;
        }
        i += 1;
    }
    let field = copy_range(text, start, tl);
    let ghost pre = r.deep_view();
    r.push(field);
    proof {
        assert(r.deep_view() =~~= pre.push(field@));
        let suf = text@.skip(start as int);
        assert(forall|j: int| 0 <= j < suf.len() ==> suf[j] == text@[start + j] && suf[j] != sep);
        lemma_split_step(suf, sep, suf.len() as int);
        assert(split_char_seq(suf, sep) =~= seq![suf]);
        assert(suf =~= text@.subrange(start as int, tl as int));
        assert(split_char_seq(text@, sep) =~~= r.deep_view());
    }
    r
}

/// The characters of `text` from `from` (inclusive) to `to` (exclusive).
pub fn copy_range(text: &Vec<char>, from: usize, to: usize) -> (r: Vec<char>)
    requires
        from <= to <= text@.len(),
    ensures
        r@ == text@.subrange(from as int, to as int),
{
    let mut r: Vec<char> = Vec::new();
    let mut i: usize = from;
    while i < to
        invariant
            from <= i <= to <= text@.len(),
            r@ == text@.subrange(from as int, i as int),
        decreases to - i,
    {
        r.push(text[i]);
        assert(r@ =~= text@.subrange(from as int, i + 1));
        i += 1;
    }
    r
}

/// Addition capped at the largest machine word.
pub open spec fn sat_add(a: int, b: int) -> int {
    if a + b > usize::MAX {
        usize::MAX as int
    } else {
        a + b
    }
}

/// Executable saturating addition.
pub fn sat_add_usize(a: usize, b: usize) -> (r: usize)
    ensures
        r == sat_add(a as int, b as int),
{
    if a <= usize::MAX - b {
        a + b
    } else {
        usize::MAX
    }
}


/// The parts joined with `sep` between consecutive parts.
pub fn join_str(parts: &Vec<&str>, sep: &str) -> (r: String)
    ensures
        r@ == join_with(parts.deep_view(), sep@),
{
    let mut r = String::new();
    let mut i: usize = 0;
    proof {
        assert(parts.deep_view().take(0) =~= Seq::<Seq<char>>::empty());
    }
    while i < parts.len()
        invariant
            i <= parts@.len(),
            parts.deep_view().len() == parts@.len(),
            r@ == join_with(parts.deep_view().take(i as int), sep@),
        decreases parts@.len() - i,
    {
        if i > 0 {
            r.append(sep);
        }
        r.append(parts[i]);
        proof {
            let dv = parts.deep_view();
            assert(dv.take(i + 1) =~~= dv.take(i as int).push(dv[i as int]));
            lemma_join_push(dv.take(i as int), sep@, dv[i as int]);
        }
        i += 1;
    }
    proof {
        assert(parts.deep_view().take(parts@.len() as int) =~= parts.deep_view());
    }
    r
}

} // verus!
