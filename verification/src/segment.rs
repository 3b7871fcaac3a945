//! Segmenter: splits input text into byte-bounded segments along natural
//! punctuation boundaries.
//!
//! The text is first cut into *natural units* — the shortest runs of
//! characters ending at a boundary character (sentence and clause
//! punctuation, dashes, ellipsis, brackets, newline), or the whole
//! remaining text when no boundary follows.  Units are then accumulated
//! greedily into segments whose UTF-8 byte length stays within the
//! configured limit.  A unit that alone exceeds the limit is broken at
//! whitespace into tokens, re-joined with single spaces; a single token
//! that alone exceeds the limit is emitted whole as one oversized
//! segment (tokens are never split internally).  An accumulation that
//! holds only whitespace is discarded instead of emitted, so
//! whitespace-only input produces no segments at all.

use vstd::prelude::*;
use vstd::math::min;

verus! {

/// A punctuation or structural character that ends a natural unit.
pub open spec fn is_boundary_char(c: char) -> bool {
    c == '.' || c == ',' || c == '!' || c == '?' || c == ':' || c == ';'
        || c == '-' || c == '\u{2014}' || c == '\u{2026}'
        || c == '(' || c == ')' || c == '{' || c == '}'
        || c == '<' || c == '>' || c == '[' || c == ']' || c == '\n'
}

/// Runtime test for [`is_boundary_char`].
pub fn is_boundary(c: char) -> (b: bool)
    ensures
        b == is_boundary_char(c),
{
    c == '.' || c == ',' || c == '!' || c == '?' || c == ':' || c == ';'
        || c == '-' || c == '\u{2014}' || c == '\u{2026}'
        || c == '(' || c == ')' || c == '{' || c == '}'
        || c == '<' || c == '>' || c == '[' || c == ']' || c == '\n'
}

/// A Unicode whitespace character (the `White_Space` set, as used by
/// `str::split_whitespace`).
pub open spec fn is_ws_char(c: char) -> bool {
    c == ' ' || c == '\t' || c == '\n' || c == '\r'
        || c == '\u{b}' || c == '\u{c}' || c == '\u{85}' || c == '\u{a0}'
        || c == '\u{1680}'
        || (0x2000 <= c as u32 && c as u32 <= 0x200a)
        || c == '\u{2028}' || c == '\u{2029}' || c == '\u{202f}'
        || c == '\u{205f}' || c == '\u{3000}'
}

/// Runtime test for [`is_ws_char`].
pub fn is_ws(c: char) -> (b: bool)
    ensures
        b == is_ws_char(c),
{
    c == ' ' || c == '\t' || c == '\n' || c == '\r'
        || c == '\u{b}' || c == '\u{c}' || c == '\u{85}' || c == '\u{a0}'
        || c == '\u{1680}'
        || (0x2000 <= c as u32 && c as u32 <= 0x200a)
        || c == '\u{2028}' || c == '\u{2029}' || c == '\u{202f}'
        || c == '\u{205f}' || c == '\u{3000}'
}

/// UTF-8 byte length of a character sequence.
pub open spec fn blen(s: Seq<char>) -> nat {
    vstd::utf8::encode_utf8(s).len()
}

/// UTF-8 encoding is additive over concatenation, so `blen` is too.
pub proof fn lemma_blen_concat(a: Seq<char>, b: Seq<char>)
    ensures
        blen(a + b) == blen(a) + blen(b),
    decreases a.len(),
{
    if a.len() == 0 {
        assert(a + b =~= b);
    } else {
        assert((a + b).drop_first() =~= a.drop_first() + b);
        lemma_blen_concat(a.drop_first(), b);
    }
}

/// A single space occupies one byte.
pub proof fn lemma_blen_space()
    ensures
        blen(seq![' ']) == 1,
{
    reveal_with_fuel(vstd::utf8::encode_utf8, 2);
    assert(seq![' '].drop_first() =~= Seq::<char>::empty());
    assert(' ' as u32 == 0x20);
    assert(vstd::utf8::encode_scalar(' ' as u32).len() == 1);
}

/// Number of characters in the first natural unit of `s`: everything up
/// to and including the first boundary character, or all of `s`.
pub open spec fn unit_len(s: Seq<char>) -> nat
    decreases s.len(),
{
    if s.len() == 0 {
        0
    } else if is_boundary_char(s[0]) {
        1
    } else {
        1 + unit_len(s.drop_first())
    }
}

pub proof fn lemma_unit_len_le(s: Seq<char>)
    ensures
        unit_len(s) <= s.len(),
    decreases s.len(),
{
    if s.len() > 0 && !is_boundary_char(s[0]) {
        lemma_unit_len_le(s.drop_first());
    }
}

/// The natural units of `s`, in order; they partition `s`.
pub open spec fn units_of(s: Seq<char>) -> Seq<Seq<char>>
    decreases s.len(),
{
    if s.len() == 0 {
        seq![]
    } else {
        let k = min(unit_len(s) as int, s.len() as int);
        seq![s.take(k)] + units_of(s.skip(k))
    }
}

/// Number of characters in the leading whitespace-free token of `s`.
pub open spec fn word_len(s: Seq<char>) -> nat
    decreases s.len(),
{
    if s.len() == 0 || is_ws_char(s[0]) {
        0
    } else {
        1 + word_len(s.drop_first())
    }
}

pub proof fn lemma_word_len_le(s: Seq<char>)
    ensures
        word_len(s) <= s.len(),
    decreases s.len(),
{
    if s.len() > 0 && !is_ws_char(s[0]) {
        lemma_word_len_le(s.drop_first());
    }
}

/// The whitespace-delimited tokens of `s`, in order.
pub open spec fn words_of(s: Seq<char>) -> Seq<Seq<char>>
    decreases s.len(),
{
    if s.len() == 0 {
        seq![]
    } else if is_ws_char(s[0]) {
        words_of(s.drop_first())
    } else {
        let k = min(word_len(s) as int, s.len() as int);
        seq![s.take(k)] + words_of(s.skip(k))
    }
}

/// Nothing in `s` but whitespace (vacuously true of the empty sequence).
pub open spec fn all_ws(s: Seq<char>) -> bool {
    forall|i: int| 0 <= i < s.len() ==> is_ws_char(s[i])
}

/// Emit the accumulator as a segment, unless it holds nothing visible:
/// an empty or whitespace-only accumulation produces no segment.
pub open spec fn flush(emitted: Seq<Seq<char>>, acc: Seq<char>) -> Seq<Seq<char>> {
    if all_ws(acc) {
        emitted
    } else {
        emitted.push(acc)
    }
}

/// Fold one whitespace-delimited token into the accumulating segment:
/// flush and restart when the token (plus a joining space) does not fit,
/// otherwise join it with a single space.
pub open spec fn word_step(
    emitted: Seq<Seq<char>>,
    acc: Seq<char>,
    word: Seq<char>,
    limit: nat,
) -> (Seq<Seq<char>>, Seq<char>) {
    if blen(acc) + blen(word) + 1 > limit {
        (flush(emitted, acc), word)
    } else if acc.len() == 0 {
        (emitted, word)
    } else {
        (emitted, acc + seq![' '] + word)
    }
}

pub open spec fn words_fold(
    emitted: Seq<Seq<char>>,
    acc: Seq<char>,
    words: Seq<Seq<char>>,
    limit: nat,
) -> (Seq<Seq<char>>, Seq<char>)
    decreases words.len(),
{
    if words.len() == 0 {
        (emitted, acc)
    } else {
        let next = word_step(emitted, acc, words[0], limit);
        words_fold(next.0, next.1, words.drop_first(), limit)
    }
}

/// Fold one natural unit into the accumulating segment: a unit over the
/// limit is broken at whitespace; a unit that does not fit the current
/// segment flushes it; a fitting unit (even exactly) is appended verbatim.
pub open spec fn unit_step(
    emitted: Seq<Seq<char>>,
    acc: Seq<char>,
    unit: Seq<char>,
    limit: nat,
) -> (Seq<Seq<char>>, Seq<char>) {
    if blen(unit) > limit {
        words_fold(emitted, acc, words_of(unit), limit)
    } else if blen(acc) + blen(unit) > limit {
        (flush(emitted, acc), unit)
    } else {
        (emitted, acc + unit)
    }
}

pub open spec fn units_fold(
    emitted: Seq<Seq<char>>,
    acc: Seq<char>,
    units: Seq<Seq<char>>,
    limit: nat,
) -> (Seq<Seq<char>>, Seq<char>)
    decreases units.len(),
{
    if units.len() == 0 {
        (emitted, acc)
    } else {
        let next = unit_step(emitted, acc, units[0], limit);
        units_fold(next.0, next.1, units.drop_first(), limit)
    }
}

/// The segments of `text` under byte limit `limit`, in order.
pub open spec fn split_spec(text: Seq<char>, limit: nat) -> Seq<Seq<char>> {
    let folded = units_fold(seq![], seq![], units_of(text), limit);
    flush(folded.0, folded.1)
}

/// A scan that saw no boundary character before position `k`, and a
/// boundary (or the end) at `k`, has found the first unit's length.
proof fn lemma_unit_len_from(s: Seq<char>, k: int)
    requires
        0 <= k <= s.len(),
        forall|j: int| 0 <= j < k ==> !is_boundary_char(s[j]),
        k == s.len() || is_boundary_char(s[k]),
    ensures
        unit_len(s) == if k < s.len() { k + 1 } else { k },
    decreases k,
{
    if k > 0 {
        assert(!is_boundary_char(s[0]));
        assert(forall|j: int| 0 <= j < k - 1 ==> s.drop_first()[j] == s[j + 1]);
        lemma_unit_len_from(s.drop_first(), k - 1);
    }
}

/// The analogue of [`lemma_unit_len_from`] for whitespace-free tokens.
proof fn lemma_word_len_from(s: Seq<char>, k: int)
    requires
        0 <= k <= s.len(),
        forall|j: int| 0 <= j < k ==> !is_ws_char(s[j]),
        k == s.len() || is_ws_char(s[k]),
    ensures
        word_len(s) == k,
    decreases k,
{
    if k > 0 {
        assert(!is_ws_char(s[0]));
        assert(forall|j: int| 0 <= j < k - 1 ==> s.drop_first()[j] == s[j + 1]);
        lemma_word_len_from(s.drop_first(), k - 1);
    }
}

/// A contiguous piece of a sequence never takes more bytes than the whole.
pub proof fn lemma_blen_subrange(s: Seq<char>, i: int, j: int)
    requires
        0 <= i <= j <= s.len(),
    ensures
        blen(s.subrange(i, j)) <= blen(s),
{
    assert(s =~= s.subrange(0, i) + s.subrange(i, j) + s.subrange(j, s.len() as int));
    lemma_blen_concat(s.subrange(0, i) + s.subrange(i, j), s.subrange(j, s.len() as int));
    lemma_blen_concat(s.subrange(0, i), s.subrange(i, j));
}

/// Whether `s` holds at least one non-whitespace character.
fn has_visible_char(s: &str) -> (b: bool)
    ensures
        b == !all_ws(s@),
{
    let n = s.unicode_len();
    let mut i: usize = 0;
    while i < n
        invariant
            i <= n,
            n == s@.len(),
            forall|j: int| 0 <= j < i ==> is_ws_char(s@[j]),
        decreases n - i,
    {
        if !is_ws(s.get_char(i)) {
            return true;
        }
        i = i + 1;
    }
    false
}

/// Push the accumulated segment onto the emitted list unless it holds
/// only whitespace.
fn emit_segment(merged: &mut Vec<String>, current: String)
    ensures
        final(merged).deep_view() == flush(old(merged).deep_view(), current@),
{
    let ghost pre = merged.deep_view();
    let ghost cv = current@;
    if has_visible_char(current.as_str()) {
        merged.push(current);
        proof {
            assert(merged.deep_view() =~= pre.push(cv));
        }
    }
}

/// Split `text` into segments along natural boundaries so that every
/// segment stays within `byte_limit` UTF-8 bytes, except a segment made
/// of a single whitespace-free token that alone exceeds the limit.
pub fn split_text(text: &str, byte_limit: usize) -> (res: Vec<String>)
    requires
        byte_limit >= 1,
        blen(text@) <= usize::MAX,
    ensures
        res.deep_view() == split_spec(text@, byte_limit as nat),
{
    let ghost lim = byte_limit as nat;
    let n = text.unicode_len();
    let mut merged: Vec<String> = Vec::new();
    let mut current: String = String::new();
    let mut current_len: usize = 0;
    let mut i: usize = 0;

    proof {
        assert(merged.deep_view() =~= Seq::<Seq<char>>::empty());
        assert(text@.skip(0) =~= text@);
    }
    while i < n
        invariant
            byte_limit >= 1,
            lim == byte_limit as nat,
            blen(text@) <= usize::MAX,
            i <= n,
            n == text@.len(),
            current_len == blen(current@),
            split_spec(text@, lim) == ({
                let folded = units_fold(
                    merged.deep_view(),
                    current@,
                    units_of(text@.skip(i as int)),
                    lim,
                );
                flush(folded.0, folded.1)
            }),
        decreases n - i,
    {
        // scan to the first boundary character of the current unit
        let mut e = i;
        while e < n && !is_boundary(text.get_char(e))
            invariant
                i <= e <= n,
                n == text@.len(),
                forall|j: int| i <= j < e ==> !is_boundary_char(text@[j]),
            decreases n - e,
        {
            e = e + 1;
        }
        let end = if e < n { e + 1 } else { n };
        proof {
            let s = text@.skip(i as int);
            assert(forall|j: int| 0 <= j < e - i ==> s[j] == text@[j + i]);
            lemma_unit_len_from(s, e - i);
            lemma_unit_len_le(s);
            assert(unit_len(s) == end - i);
            assert(s.take(end - i) =~= text@.subrange(i as int, end as int));
            assert(s.skip(end - i) =~= text@.skip(end as int));
        }
        let unit = text.substring_char(i, end);
        proof {
            lemma_blen_subrange(text@, i as int, end as int);
            let s = text@.skip(i as int);
            assert(units_of(s) == seq![unit@] + units_of(text@.skip(end as int)));
            assert(units_of(s)[0] == unit@);
            assert(units_of(s).drop_first() =~= units_of(text@.skip(end as int)));
        }
        let ulen = unit.len();
        let ghost e1 = merged.deep_view();
        let ghost a1 = current@;
        let ghost step = unit_step(e1, a1, unit@, lim);

        if ulen > byte_limit {
            // the unit alone exceeds the limit: break it at whitespace
            let un = unit.unicode_len();
            let mut j: usize = 0;
            proof {
                assert(unit@.skip(0) =~= unit@);
            }
            while j < un
                invariant
                    byte_limit >= 1,
                    lim == byte_limit as nat,
                    j <= un,
                    un == unit@.len(),
                    blen(unit@) <= usize::MAX,
                    current_len == blen(current@),
                    words_fold(merged.deep_view(), current@, words_of(unit@.skip(j as int)), lim)
                        == words_fold(e1, a1, words_of(unit@), lim),
                decreases un - j,
            {
                let c = unit.get_char(j);
                if is_ws(c) {
                    proof {
                        assert(unit@.skip(j as int).drop_first() =~= unit@.skip(j as int + 1));
                    }
                    j = j + 1;
                } else {
                    // scan to the end of the whitespace-free token
                    let mut w = j + 1;
                    while w < un && !is_ws(unit.get_char(w))
                        invariant
                            j < w <= un,
                            un == unit@.len(),
                            forall|t: int| j <= t < w ==> !is_ws_char(unit@[t]),
                        decreases un - w,
                    {
                        w = w + 1;
                    }
                    proof {
                        let s = unit@.skip(j as int);
                        assert(forall|t: int| 0 <= t < w - j ==> s[t] == unit@[t + j]);
                        lemma_word_len_from(s, w - j);
                        lemma_word_len_le(s);
                        assert(s.take(w - j) =~= unit@.subrange(j as int, w as int));
                        assert(s.skip(w - j) =~= unit@.skip(w as int));
                    }
                    let word = unit.substring_char(j, w);
                    proof {
                        lemma_blen_subrange(unit@, j as int, w as int);
                        let s = unit@.skip(j as int);
                        assert(words_of(s) == seq![word@] + words_of(unit@.skip(w as int)));
                        assert(words_of(s)[0] == word@);
                        assert(words_of(s).drop_first() =~= words_of(unit@.skip(w as int)));
                    }
                    let wlen = word.len();
                    let ghost e2 = merged.deep_view();
                    let ghost a2 = current@;
                    let ghost wstep = word_step(e2, a2, word@, lim);

                    if wlen >= byte_limit || current_len > byte_limit - wlen - 1 {
                        assert(blen(a2) + blen(word@) + 1 > lim);
                        emit_segment(&mut merged, current);
                        current = String::from_str(word);
                        current_len = wlen;
                        assert(merged.deep_view() == wstep.0 && current@ == wstep.1);
                    } else {
                        assert(blen(a2) + blen(word@) + 1 <= lim);
                        if current.as_str().is_empty() {
                            current = String::from_str(word);
                            current_len = wlen;
                            assert(merged.deep_view() == wstep.0 && current@ == wstep.1);
                        } else {
                            current.append(" ");
                            current.append(word);
                            proof {
                                reveal_strlit(" ");
                                assert(" "@ =~= seq![' ']);
                                assert(current@ == a2 + seq![' '] + word@);
                                lemma_blen_concat(a2, seq![' ']);
                                lemma_blen_concat(a2 + seq![' '], word@);
                                lemma_blen_space();
                            }
                            current_len = current_len + wlen + 1;
                            assert(merged.deep_view() == wstep.0 && current@ == wstep.1);
                        }
                    }
                    j = w;
                }
            }
            proof {
                assert(unit@.skip(un as int) =~= Seq::<char>::empty());
                assert(words_of(unit@.skip(un as int)) =~= Seq::<Seq<char>>::empty());
                assert((merged.deep_view(), current@) == words_fold(e1, a1, words_of(unit@), lim));
                assert(blen(unit@) > lim);
                assert((merged.deep_view(), current@) == step);
            }
        } else {
            // the unit fits within the limit on its own
            if current_len > byte_limit - ulen {
                assert(blen(a1) + blen(unit@) > lim);
                emit_segment(&mut merged, current);
                current = String::from_str(unit);
                current_len = ulen;
                assert(merged.deep_view() == step.0 && current@ == step.1);
            } else {
                assert(blen(a1) + blen(unit@) <= lim);
                current.append(unit);
                proof {
                    lemma_blen_concat(a1, unit@);
                }
                current_len = current_len + ulen;
                assert(merged.deep_view() == step.0 && current@ == step.1);
            }
        }
        i = end;
    }
    proof {
        assert(text@.skip(n as int) =~= Seq::<char>::empty());
        assert(units_of(text@.skip(n as int)) =~= Seq::<Seq<char>>::empty());
    }
    let ghost efin = merged.deep_view();
    let ghost afin = current@;
    emit_segment(&mut merged, current);
    assert(merged.deep_view() == flush(efin, afin));
    merged
}

/// A segment consisting of one whitespace-free token.
pub open spec fn single_token(s: Seq<char>) -> bool {
    forall|i: int| 0 <= i < s.len() ==> !is_ws_char(s[i])
}

/// Every segment respects the byte limit, except a single oversized token.
pub open spec fn within_limit(segs: Seq<Seq<char>>, limit: nat) -> bool {
    forall|k: int| 0 <= k < segs.len() ==> blen(#[trigger] segs[k]) <= limit || single_token(segs[k])
}

/// The non-whitespace characters of `s`, in order.
pub open spec fn squash(s: Seq<char>) -> Seq<char>
    decreases s.len(),
{
    if s.len() == 0 {
        seq![]
    } else if is_ws_char(s[0]) {
        squash(s.drop_first())
    } else {
        seq![s[0]] + squash(s.drop_first())
    }
}

pub proof fn lemma_squash_concat(a: Seq<char>, b: Seq<char>)
    ensures
        squash(a + b) == squash(a) + squash(b),
    decreases a.len(),
{
    if a.len() == 0 {
        assert(a + b =~= b);
        assert(squash(a) + squash(b) =~= squash(b));
    } else {
        assert((a + b).drop_first() =~= a.drop_first() + b);
        lemma_squash_concat(a.drop_first(), b);
        if !is_ws_char(a[0]) {
            assert(seq![a[0]] + (squash(a.drop_first()) + squash(b))
                =~= (seq![a[0]] + squash(a.drop_first())) + squash(b));
        }
    }
}

/// Characters inside the leading token are not whitespace.
proof fn lemma_word_prefix_no_ws(s: Seq<char>, j: int)
    requires
        0 <= j < word_len(s),
    ensures
        !is_ws_char(s[j]),
    decreases j,
{
    lemma_word_len_le(s);
    if j > 0 {
        lemma_word_prefix_no_ws(s.drop_first(), j - 1);
        assert(s.drop_first()[j - 1] == s[j]);
    }
}

/// `squash` drops a lone whitespace character.
proof fn lemma_squash_ws_singleton(c: char)
    requires
        is_ws_char(c),
    ensures
        squash(seq![c]) == Seq::<char>::empty(),
{
    reveal_with_fuel(squash, 2);
    assert(seq![c].drop_first() =~= Seq::<char>::empty());
}

/// Every token delivered by `words_of` is whitespace-free.
proof fn lemma_words_single_tokens(s: Seq<char>)
    ensures
        forall|k: int| 0 <= k < words_of(s).len() ==> single_token(#[trigger] words_of(s)[k]),
    decreases s.len(),
{
    if s.len() == 0 {
    } else if is_ws_char(s[0]) {
        lemma_words_single_tokens(s.drop_first());
        assert(words_of(s) == words_of(s.drop_first()));
        assert forall|t: int| 0 <= t < words_of(s).len() implies single_token(
            #[trigger] words_of(s)[t],
        ) by {
            assert(words_of(s)[t] == words_of(s.drop_first())[t]);
        }
    } else {
        let k = min(word_len(s) as int, s.len() as int);
        lemma_word_len_le(s);
        assert forall|j: int| 0 <= j < s.take(k).len() implies !is_ws_char(s.take(k)[j]) by {
            lemma_word_prefix_no_ws(s, j);
        }
        lemma_words_single_tokens(s.skip(k));
        assert forall|t: int| 0 <= t < words_of(s).len() implies single_token(
            #[trigger] words_of(s)[t],
        ) by {
            if t == 0 {
                assert(words_of(s)[0] == s.take(k));
            } else {
                assert(words_of(s)[t] == words_of(s.skip(k))[t - 1]);
            }
        }
    }
}

/// The tokens of `s` carry exactly its non-whitespace characters.
proof fn lemma_words_squash(s: Seq<char>)
    ensures
        squash(words_of(s).flatten()) == squash(s),
    decreases s.len(),
{
    if s.len() == 0 {
    } else if is_ws_char(s[0]) {
        lemma_words_squash(s.drop_first());
        assert(seq![s[0]] + s.drop_first() =~= s);
        lemma_squash_concat(seq![s[0]], s.drop_first());
        lemma_squash_ws_singleton(s[0]);
        assert(Seq::<char>::empty() + squash(s.drop_first()) =~= squash(s.drop_first()));
    } else {
        let k = min(word_len(s) as int, s.len() as int);
        lemma_word_len_le(s);
        lemma_words_squash(s.skip(k));
        vstd::seq_lib::lemma_flatten_concat(seq![s.take(k)], words_of(s.skip(k)));
        seq![s.take(k)].lemma_flatten_singleton();
        assert(words_of(s).flatten() == s.take(k) + words_of(s.skip(k)).flatten());
        lemma_squash_concat(s.take(k), words_of(s.skip(k)).flatten());
        assert(s.take(k) + s.skip(k) =~= s);
        lemma_squash_concat(s.take(k), s.skip(k));
    }
}

/// A whitespace-only sequence squashes to nothing.
proof fn lemma_squash_all_ws(s: Seq<char>)
    requires
        all_ws(s),
    ensures
        squash(s) == Seq::<char>::empty(),
    decreases s.len(),
{
    if s.len() > 0 {
        assert(forall|i: int|
            0 <= i < s.drop_first().len() ==> is_ws_char(s.drop_first()[i]));
        lemma_squash_all_ws(s.drop_first());
    }
}

/// The natural units of `s` partition it.
proof fn lemma_units_cover(s: Seq<char>)
    ensures
        units_of(s).flatten() == s,
    decreases s.len(),
{
    if s.len() > 0 {
        let k = min(unit_len(s) as int, s.len() as int);
        lemma_unit_len_le(s);
        lemma_units_cover(s.skip(k));
        vstd::seq_lib::lemma_flatten_concat(seq![s.take(k)], units_of(s.skip(k)));
        seq![s.take(k)].lemma_flatten_singleton();
        assert(units_of(s).flatten() == s.take(k) + units_of(s.skip(k)).flatten());
        assert(s.take(k) + s.skip(k) =~= s);
    }
}

/// One word step neither loses nor reorders non-whitespace characters.
proof fn lemma_word_step_coverage(
    emitted: Seq<Seq<char>>,
    acc: Seq<char>,
    word: Seq<char>,
    limit: nat,
)
    ensures
        ({
            let next = word_step(emitted, acc, word, limit);
            squash(next.0.flatten() + next.1) == squash(emitted.flatten() + acc + word)
        }),
{
    let next = word_step(emitted, acc, word, limit);
    if blen(acc) + blen(word) + 1 > limit {
        if all_ws(acc) {
            lemma_squash_all_ws(acc);
            lemma_squash_concat(emitted.flatten(), acc);
            assert(squash(emitted.flatten()) + Seq::<char>::empty()
                =~= squash(emitted.flatten()));
            lemma_squash_concat(emitted.flatten(), word);
        } else {
            emitted.lemma_flatten_push(acc);
        }
        lemma_squash_concat(emitted.flatten() + acc, word);
        lemma_squash_concat(next.0.flatten(), word);
    } else if acc.len() == 0 {
        assert(emitted.flatten() + acc =~= emitted.flatten());
    } else {
        assert(next.0.flatten() + (acc + seq![' '] + word)
            =~= ((emitted.flatten() + acc) + seq![' ']) + word);
        lemma_squash_concat((emitted.flatten() + acc) + seq![' '], word);
        lemma_squash_concat(emitted.flatten() + acc, seq![' ']);
        lemma_squash_ws_singleton(' ');
        assert(squash(emitted.flatten() + acc) + Seq::<char>::empty()
            =~= squash(emitted.flatten() + acc));
        lemma_squash_concat(emitted.flatten() + acc, word);
    }
}

proof fn lemma_words_fold_coverage(
    emitted: Seq<Seq<char>>,
    acc: Seq<char>,
    words: Seq<Seq<char>>,
    limit: nat,
)
    ensures
        ({
            let folded = words_fold(emitted, acc, words, limit);
            squash(folded.0.flatten() + folded.1)
                == squash(emitted.flatten() + acc + words.flatten())
        }),
    decreases words.len(),
{
    let folded = words_fold(emitted, acc, words, limit);
    if words.len() == 0 {
        assert(words.flatten() =~= Seq::<char>::empty());
        assert(emitted.flatten() + acc + words.flatten() =~= emitted.flatten() + acc);
    } else {
        let next = word_step(emitted, acc, words[0], limit);
        lemma_word_step_coverage(emitted, acc, words[0], limit);
        lemma_words_fold_coverage(next.0, next.1, words.drop_first(), limit);
        // words.flatten() splits as the first word plus the rest
        assert(words =~= seq![words[0]] + words.drop_first());
        vstd::seq_lib::lemma_flatten_concat(seq![words[0]], words.drop_first());
        seq![words[0]].lemma_flatten_singleton();
        lemma_squash_concat(next.0.flatten() + next.1, words.drop_first().flatten());
        lemma_squash_concat(emitted.flatten() + acc, words[0]);
        lemma_squash_concat(emitted.flatten() + acc + words[0], words.drop_first().flatten());
        lemma_squash_concat(emitted.flatten() + acc, words.flatten());
        lemma_squash_concat(words[0], words.drop_first().flatten());
        assert(emitted.flatten() + acc + words.flatten()
            =~= (emitted.flatten() + acc) + words.flatten());
    }
}

proof fn lemma_unit_step_coverage(
    emitted: Seq<Seq<char>>,
    acc: Seq<char>,
    unit: Seq<char>,
    limit: nat,
)
    ensures
        ({
            let next = unit_step(emitted, acc, unit, limit);
            squash(next.0.flatten() + next.1) == squash(emitted.flatten() + acc + unit)
        }),
{
    let next = unit_step(emitted, acc, unit, limit);
    if blen(unit) > limit {
        lemma_words_fold_coverage(emitted, acc, words_of(unit), limit);
        lemma_words_squash(unit);
        lemma_squash_concat(emitted.flatten() + acc, words_of(unit).flatten());
        lemma_squash_concat(emitted.flatten() + acc, unit);
        assert(emitted.flatten() + acc + words_of(unit).flatten()
            =~= (emitted.flatten() + acc) + words_of(unit).flatten());
        assert(emitted.flatten() + acc + unit =~= (emitted.flatten() + acc) + unit);
    } else if blen(acc) + blen(unit) > limit {
        if all_ws(acc) {
            lemma_squash_all_ws(acc);
            lemma_squash_concat(emitted.flatten(), acc);
            assert(squash(emitted.flatten()) + Seq::<char>::empty()
                =~= squash(emitted.flatten()));
            lemma_squash_concat(emitted.flatten(), unit);
        } else {
            emitted.lemma_flatten_push(acc);
        }
        lemma_squash_concat(emitted.flatten() + acc, unit);
        lemma_squash_concat(next.0.flatten(), unit);
    } else {
        assert(next.0.flatten() + (acc + unit) =~= emitted.flatten() + acc + unit);
    }
}

proof fn lemma_units_fold_coverage(
    emitted: Seq<Seq<char>>,
    acc: Seq<char>,
    units: Seq<Seq<char>>,
    limit: nat,
)
    ensures
        ({
            let folded = units_fold(emitted, acc, units, limit);
            squash(folded.0.flatten() + folded.1)
                == squash(emitted.flatten() + acc + units.flatten())
        }),
    decreases units.len(),
{
    let folded = units_fold(emitted, acc, units, limit);
    if units.len() == 0 {
        assert(units.flatten() =~= Seq::<char>::empty());
        assert(emitted.flatten() + acc + units.flatten() =~= emitted.flatten() + acc);
    } else {
        let next = unit_step(emitted, acc, units[0], limit);
        lemma_unit_step_coverage(emitted, acc, units[0], limit);
        lemma_units_fold_coverage(next.0, next.1, units.drop_first(), limit);
        assert(units =~= seq![units[0]] + units.drop_first());
        vstd::seq_lib::lemma_flatten_concat(seq![units[0]], units.drop_first());
        seq![units[0]].lemma_flatten_singleton();
        lemma_squash_concat(next.0.flatten() + next.1, units.drop_first().flatten());
        lemma_squash_concat(emitted.flatten() + acc, units[0]);
        lemma_squash_concat(emitted.flatten() + acc + units[0], units.drop_first().flatten());
        lemma_squash_concat(emitted.flatten() + acc, units.flatten());
        lemma_squash_concat(units[0], units.drop_first().flatten());
        assert(emitted.flatten() + acc + units.flatten()
            =~= (emitted.flatten() + acc) + units.flatten());
    }
}

/// Coverage: concatenating all emitted segments reproduces the original
/// text's non-whitespace characters, in order — nothing is dropped or
/// reordered, only whitespace is rearranged.
pub proof fn lemma_coverage(text: Seq<char>, limit: nat)
    ensures
        squash(split_spec(text, limit).flatten()) == squash(text),
{
    let folded = units_fold(seq![], seq![], units_of(text), limit);
    lemma_units_fold_coverage(seq![], seq![], units_of(text), limit);
    lemma_units_cover(text);
    assert(Seq::<Seq<char>>::empty().flatten() =~= Seq::<char>::empty());
    assert(Seq::<char>::empty() + Seq::<char>::empty() + text =~= text);
    if all_ws(folded.1) {
        lemma_squash_all_ws(folded.1);
        lemma_squash_concat(folded.0.flatten(), folded.1);
        assert(squash(folded.0.flatten()) + Seq::<char>::empty()
            =~= squash(folded.0.flatten()));
    } else {
        folded.0.lemma_flatten_push(folded.1);
    }
}

proof fn lemma_words_fold_limit(
    emitted: Seq<Seq<char>>,
    acc: Seq<char>,
    words: Seq<Seq<char>>,
    limit: nat,
)
    requires
        within_limit(emitted, limit),
        blen(acc) <= limit || single_token(acc),
        forall|k: int| 0 <= k < words.len() ==> single_token(#[trigger] words[k]),
    ensures
        within_limit(words_fold(emitted, acc, words, limit).0, limit),
        blen(words_fold(emitted, acc, words, limit).1) <= limit
            || single_token(words_fold(emitted, acc, words, limit).1),
    decreases words.len(),
{
    if words.len() > 0 {
        let next = word_step(emitted, acc, words[0], limit);
        assert(single_token(words[0]));
        if blen(acc) + blen(words[0]) + 1 > limit {
            assert(within_limit(next.0, limit)) by {
                if !all_ws(acc) {
                    assert(forall|k: int|
                        0 <= k < emitted.len() ==> next.0[k] == emitted[k]);
                    assert(next.0[emitted.len() as int] == acc);
                }
            }
        } else if acc.len() > 0 {
            lemma_blen_concat(acc, seq![' ']);
            lemma_blen_concat(acc + seq![' '], words[0]);
            lemma_blen_space();
        }
        lemma_words_fold_limit(next.0, next.1, words.drop_first(), limit);
    }
}

proof fn lemma_units_fold_limit(
    emitted: Seq<Seq<char>>,
    acc: Seq<char>,
    units: Seq<Seq<char>>,
    limit: nat,
)
    requires
        within_limit(emitted, limit),
        blen(acc) <= limit || single_token(acc),
    ensures
        within_limit(units_fold(emitted, acc, units, limit).0, limit),
        blen(units_fold(emitted, acc, units, limit).1) <= limit
            || single_token(units_fold(emitted, acc, units, limit).1),
    decreases units.len(),
{
    if units.len() > 0 {
        let next = unit_step(emitted, acc, units[0], limit);
        if blen(units[0]) > limit {
            lemma_words_single_tokens(units[0]);
            lemma_words_fold_limit(emitted, acc, words_of(units[0]), limit);
        } else if blen(acc) + blen(units[0]) > limit {
            assert(within_limit(next.0, limit)) by {
                if !all_ws(acc) {
                    assert(forall|k: int|
                        0 <= k < emitted.len() ==> next.0[k] == emitted[k]);
                    assert(next.0[emitted.len() as int] == acc);
                }
            }
        } else {
            lemma_blen_concat(acc, units[0]);
        }
        lemma_units_fold_limit(next.0, next.1, units.drop_first(), limit);
    }
}

/// Byte limit: every emitted segment fits in `limit` UTF-8 bytes, except
/// a segment that is one whitespace-free token kept whole.
pub proof fn lemma_byte_limit(text: Seq<char>, limit: nat)
    requires
        limit >= 1,
    ensures
        within_limit(split_spec(text, limit), limit),
{
    let folded = units_fold(seq![], seq![], units_of(text), limit);
    lemma_units_fold_limit(seq![], seq![], units_of(text), limit);
    if !all_ws(folded.1) {
        assert(forall|k: int|
            0 <= k < folded.0.len() ==> flush(folded.0, folded.1)[k] == folded.0[k]);
        assert(flush(folded.0, folded.1)[folded.0.len() as int] == folded.1);
    }
}

/// Idempotence: splitting the same text with the same limit twice yields
/// identical segment sequences — the split is a function of the text and
/// the limit alone, with no hidden state.
pub proof fn lemma_split_idempotent(
    text: Seq<char>,
    limit: nat,
    first: Seq<Seq<char>>,
    second: Seq<Seq<char>>,
)
    requires
        first == split_spec(text, limit),
        second == split_spec(text, limit),
    ensures
        first == second,
{
}

} // verus!
