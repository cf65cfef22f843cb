//! Search for several patterns of one length in a text, by rolling hashes.

use vstd::arithmetic::div_mod::{
    lemma_fundamental_div_mod, lemma_mod_add_multiples_vanish, lemma_mod_multiples_vanish,
    lemma_mul_mod_noop_right, lemma_sub_mod_noop,
};
use vstd::prelude::*;

verus! {

/// The code point of a character, as a number.
pub open spec fn code(c: char) -> nat {
    c as nat
}

/// The hash of a string in base `b` modulo `q`: starting from zero, each
/// character in turn takes the hash `h` to `(h * b + c) mod q`.
pub open spec fn hash_of(s: Seq<char>, b: nat, q: nat) -> nat
    decreases s.len(),
{
    if s.len() == 0 {
        0
    } else {
        (hash_of(s.drop_last(), b, q) * b + code(s.last())) % q
    }
}

/// Takes the hash of a string to the hash of that string with `c` appended.
fn hash_push(h: usize, c: char, b: usize, q: usize) -> (next: usize)
    requires
        q > 0,
    ensures
        next as nat == (h as nat * b as nat + code(c)) % (q as nat),
{
    let wide_h: u128 = h as u128;
    let wide_b: u128 = b as u128;
    assert(wide_h * wide_b <= 0xFFFF_FFFF_FFFF_FFFF * 0xFFFF_FFFF_FFFF_FFFF) by (nonlinear_arith)
        requires
            wide_h <= 0xFFFF_FFFF_FFFF_FFFF,
            wide_b <= 0xFFFF_FFFF_FFFF_FFFF,
    ;
    let wide_c: u128 = c as u32 as u128;
    let reduced: u128 = (wide_h * wide_b + wide_c) % (q as u128);
    reduced as usize
}

/// The characters of a string, one by one.
fn chars_of(s: &str) -> (v: Vec<char>)
    ensures
        v@ == s@,
{
    let mut v: Vec<char> = Vec::new();
    for c in it: s.chars()
        invariant
            it.seq() == s@,
            v@ == s@.take(it.index()),
    {
        v.push(c);
    }
    assert(s@.take(s@.len() as int) =~= s@);
    v
}

/// The hash of `string_to_hash` in base `b` modulo `q`.
pub fn rolling_hash(string_to_hash: &str, b: usize, q: usize) -> (h: usize)
    requires
        q > 0 || string_to_hash@.len() == 0,
    ensures
        h as nat == hash_of(string_to_hash@, b as nat, q as nat),
{
    let mut h: usize = 0;
    for c in it: string_to_hash.chars()
        invariant
            q > 0 || string_to_hash@.len() == 0,
            it.seq() == string_to_hash@,
            h as nat == hash_of(string_to_hash@.take(it.index()), b as nat, q as nat),
    {
        proof {
            let longer = string_to_hash@.take(it.index() + 1);
            assert(longer.drop_last() =~= string_to_hash@.take(it.index()));
            assert(longer.last() == c);
        }
        h = hash_push(h, c, b, q);
    }
    assert(string_to_hash@.take(string_to_hash@.len() as int) =~= string_to_hash@);
    h
}

/// The pattern `segment` stands in `text` at position `i`, in a window of
/// `width` characters.
pub open spec fn occurs_at(text: Seq<char>, segment: Seq<char>, width: int, i: int) -> bool {
    0 <= i && i + width <= text.len() && text.subrange(i, i + width) == segment
}

/// The positions below `upto` at which `segment` stands in `text`, in
/// ascending order.
pub open spec fn occurrences(text: Seq<char>, segment: Seq<char>, width: int, upto: int) -> Seq<
    usize,
>
    decreases upto,
{
    if upto <= 0 {
        Seq::empty()
    } else {
        let earlier = occurrences(text, segment, width, upto - 1);
        if occurs_at(text, segment, width, upto - 1) {
            earlier.push((upto - 1) as usize)
        } else {
            earlier
        }
    }
}

/// The positions listed are those below `upto` at which the pattern stands:
/// every one of them, each once, the smaller first.
pub proof fn lemma_occurrences_are_the_matches(
    text: Seq<char>,
    segment: Seq<char>,
    width: int,
    upto: int,
)
    requires
        upto <= usize::MAX + 1,
    ensures
        ({
            let found = occurrences(text, segment, width, upto);
            &&& forall|k: int|
                0 <= k < found.len() ==> 0 <= (#[trigger] found[k]) < upto && occurs_at(
                    text,
                    segment,
                    width,
                    found[k] as int,
                )
            &&& forall|k: int, l: int|
                0 <= k < l < found.len() ==> (#[trigger] found[k]) < (#[trigger] found[l])
            &&& forall|i: int|
                0 <= i < upto && #[trigger] occurs_at(text, segment, width, i) ==> found.contains(
                    i as usize,
                )
        }),
    decreases upto,
{
    if upto > 0 {
        lemma_occurrences_are_the_matches(text, segment, width, upto - 1);
        let earlier = occurrences(text, segment, width, upto - 1);
        let found = occurrences(text, segment, width, upto);
        if occurs_at(text, segment, width, upto - 1) {
            assert(found[found.len() - 1] == (upto - 1) as usize);
        }
        assert forall|i: int|
            0 <= i < upto && #[trigger] occurs_at(text, segment, width, i) implies found.contains(
            i as usize,
        ) by {
            if i < upto - 1 {
                let k = choose|k: int| 0 <= k < earlier.len() && earlier[k] == i as usize;
                assert(found[k] == i as usize);
            } else {
                assert(found[found.len() - 1] == i as usize);
            }
        }
    }
}

/// A string read as a number in base `b`, its first character the most
/// significant digit.
pub open spec fn value_of(s: Seq<char>, b: nat) -> nat
    decreases s.len(),
{
    if s.len() == 0 {
        0
    } else {
        value_of(s.drop_last(), b) * b + code(s.last())
    }
}

/// `b` to the power `e`.
pub open spec fn power(b: nat, e: nat) -> nat
    decreases e,
{
    if e == 0 {
        1
    } else {
        power(b, (e - 1) as nat) * b
    }
}

/// Appending a digit to congruent numbers gives congruent numbers.
proof fn lemma_congruent_push(h: int, p: int, b: int, c: int, q: int)
    requires
        q > 0,
        h == p % q,
    ensures
        (h * b + c) % q == (p * b + c) % q,
{
    lemma_fundamental_div_mod(p, q);
    let k = (p / q) * b;
    assert(p * b + c == q * k + (h * b + c)) by (nonlinear_arith)
        requires
            p == q * (p / q) + h,
            k == (p / q) * b,
    ;
    lemma_mod_multiples_vanish(k, h * b + c, q);
}

/// The hash of a string is its value in base `b`, reduced modulo `q`.
pub proof fn lemma_hash_is_value_mod(s: Seq<char>, b: nat, q: nat)
    requires
        q > 0,
    ensures
        hash_of(s, b, q) == value_of(s, b) % q,
    decreases s.len(),
{
    if s.len() > 0 {
        lemma_hash_is_value_mod(s.drop_last(), b, q);
        lemma_congruent_push(
            hash_of(s.drop_last(), b, q) as int,
            value_of(s.drop_last(), b) as int,
            b as int,
            code(s.last()) as int,
            q as int,
        );
    } else {
        vstd::arithmetic::div_mod::lemma_small_mod(0, q);
    }
}

/// A character put in front of a string of `n` characters adds its code
/// times `b^n` to the value.
proof fn lemma_value_prepend(x: char, t: Seq<char>, b: nat)
    ensures
        value_of(seq![x] + t, b) == code(x) * power(b, t.len()) + value_of(t, b),
    decreases t.len(),
{
    let whole = seq![x] + t;
    if t.len() == 0 {
        assert(whole.drop_last() =~= Seq::<char>::empty());
        assert(whole.last() == x);
        assert(value_of(whole.drop_last(), b) * b == 0) by (nonlinear_arith)
            requires
                value_of(whole.drop_last(), b) == 0,
        ;
        assert(code(x) * power(b, 0) == code(x)) by (nonlinear_arith)
            requires
                power(b, 0) == 1,
        ;
    } else {
        assert(whole.drop_last() =~= seq![x] + t.drop_last());
        assert(whole.last() == t.last());
        lemma_value_prepend(x, t.drop_last(), b);
        let pw = power(b, (t.len() - 1) as nat);
        let pt = value_of(t.drop_last(), b);
        let l = code(t.last());
        assert((code(x) * pw + pt) * b + l == code(x) * (pw * b) + (pt * b + l))
            by (nonlinear_arith);
    }
}

/// Rolling a window one character on: from the hash of the window, the
/// character that leaves it and the character that enters it comes the hash
/// of the next window.
proof fn lemma_slide(w: Seq<char>, come: char, b: nat, q: nat, b_star: nat, next: int)
    requires
        q > 0,
        w.len() >= 1,
        b_star == power(b, w.len()) % q,
        next == (((hash_of(w, b, q) * b + code(come)) % q) + q - ((code(w[0]) * b_star) % q))
            % (q as int),
    ensures
        next == hash_of(w.drop_first().push(come), b, q),
{
    let rest = w.drop_first();
    let moved = rest.push(come);
    let qi = q as int;
    let gone = code(w[0]) as int;
    let full = power(b, w.len()) as int;
    let whole = value_of(w, b) as int;
    let tail = value_of(rest, b) as int;
    assert(moved.drop_last() =~= rest);
    assert(moved.last() == come);
    assert(w =~= seq![w[0]] + rest);
    lemma_value_prepend(w[0], rest, b);
    lemma_hash_is_value_mod(w, b, q);
    lemma_hash_is_value_mod(moved, b, q);
    // the value of the next window
    let raised = whole * b + code(come) as int;
    let dropped = gone * full;
    assert(value_of(moved, b) == raised - dropped) by (nonlinear_arith)
        requires
            value_of(moved, b) == tail * b + code(come) as int,
            whole == gone * power(b, (w.len() - 1) as nat) + tail,
            full == power(b, (w.len() - 1) as nat) * b,
            raised == whole * b + code(come) as int,
            dropped == gone * full,
    ;
    // the two terms of the rolled hash
    lemma_congruent_push(hash_of(w, b, q) as int, whole, b as int, code(come) as int, qi);
    lemma_mul_mod_noop_right(gone, full, qi);
    let first = raised % qi;
    let second = dropped % qi;
    assert((hash_of(w, b, q) * b + code(come)) % q == first);
    assert((code(w[0]) * b_star) % q == second);
    lemma_sub_mod_noop(raised, dropped, qi);
    lemma_mod_add_multiples_vanish(first - second, qi);
    assert(first + qi - second == qi + (first - second));
}

/// `b^e mod q`.
fn power_mod(b: usize, e: usize, q: usize) -> (r: usize)
    requires
        q > 0,
    ensures
        r as nat == power(b as nat, e as nat) % (q as nat),
{
    let mut r: usize = 1 % q;
    let mut k: usize = 0;
    while k < e
        invariant
            q > 0,
            k <= e,
            r as nat == power(b as nat, k as nat) % (q as nat),
        decreases e - k,
    {
        proof {
            lemma_congruent_push(r as int, power(b as nat, k as nat) as int, b as int, 0, q as int);
        }
        let wide_r: u128 = r as u128;
        let wide_b: u128 = b as u128;
        assert(wide_r * wide_b <= 0xFFFF_FFFF_FFFF_FFFF * 0xFFFF_FFFF_FFFF_FFFF)
            by (nonlinear_arith)
            requires
                wide_r <= 0xFFFF_FFFF_FFFF_FFFF,
                wide_b <= 0xFFFF_FFFF_FFFF_FFFF,
        ;
        let reduced: u128 = (wide_r * wide_b) % (q as u128);
        r = reduced as usize;
        k = k + 1;
    }
    r
}

/// The rolled hash: `h * b + come`, less `gone * b_star`, modulo `q`.
fn hash_slide(h: usize, gone: char, come: char, b: usize, b_star: usize, q: usize) -> (next: usize)
    requires
        q > 0,
        b_star < q,
    ensures
        next as int == (((h as nat * b as nat + code(come)) % (q as nat)) + q - ((code(gone)
            * b_star as nat) % (q as nat))) % (q as int),
{
    let raised: usize = hash_push(h, come, b, q);
    let wide_gone: u128 = gone as u32 as u128;
    let wide_star: u128 = b_star as u128;
    assert(wide_gone * wide_star <= 0xFFFF_FFFF * 0xFFFF_FFFF_FFFF_FFFF) by (nonlinear_arith)
        requires
            wide_gone <= 0xFFFF_FFFF,
            wide_star <= 0xFFFF_FFFF_FFFF_FFFF,
    ;
    let dropped: u128 = (wide_gone * wide_star) % (q as u128);
    let rolled: u128 = (raised as u128 + q as u128 - dropped) % (q as u128);
    rolled as usize
}

/// Whether the `width` characters of `text` from `start` on are `segment`.
fn window_matches(text: &Vec<char>, start: usize, segment: &Vec<char>, width: usize) -> (same: bool)
    requires
        start + width <= text.len(),
    ensures
        same == (text@.subrange(start as int, start + width) == segment@),
{
    if segment.len() != width {
        return false;
    }
    let mut k: usize = 0;
    while k < width
        invariant
            k <= width,
            segment.len() == width,
            start + width <= text.len(),
            text@.subrange(start as int, start + k) == segment@.take(k as int),
        decreases width - k,
    {
        if text[start + k] != segment[k] {
            assert(text@.subrange(start as int, start + width)[k as int] != segment@[k as int]);
            return false;
        }
        assert(text@.subrange(start as int, start + k + 1) =~= text@.subrange(
            start as int,
            start + k,
        ).push(text@[start + k]));
        assert(segment@.take(k + 1) =~= segment@.take(k as int).push(segment@[k as int]));
        k = k + 1;
    }
    assert(segment@.take(width as int) =~= segment@);
    true
}

/// For each pattern of `segments`, the positions in `long_text` at which it
/// stands, in ascending order. A position counts characters from the start of
/// the text.
///
/// The first pattern gives the width of the window that is slid over the
/// text, so a pattern of another length is found nowhere. Hashes are taken in
/// base `b` modulo `q`; they only spare comparisons and do not change the
/// result. The last window of the text, the one that ends with it, is not
/// examined.
pub fn rabin_karp(long_text: &str, segments: &[&str], b: usize, q: usize) -> (positions: Vec<
    Vec<usize>,
>)
    requires
        segments@.len() > 0,
        q > 0,
        segments@[0]@.len() <= long_text@.len(),
        segments@[0]@.len() >= 1 || long_text@.len() == 0,
    ensures
        positions@.len() == segments@.len(),
        forall|j: int|
            0 <= j < segments@.len() ==> (#[trigger] positions@[j])@ == occurrences(
                long_text@,
                segments@[j]@,
                segments@[0]@.len() as int,
                long_text@.len() - segments@[0]@.len(),
            ),
{
    let text: Vec<char> = chars_of(long_text);
    let text_length: usize = text.len();
    let num_segments: usize = segments.len();
    let first: Vec<char> = chars_of(segments[0]);
    let segment_length: usize = first.len();
    let b_star: usize = power_mod(b, segment_length, q);

    let mut segment_chars: Vec<Vec<char>> = Vec::new();
    let mut segment_hashes: Vec<usize> = Vec::new();
    let mut positions: Vec<Vec<usize>> = Vec::new();
    let mut j: usize = 0;
    while j < num_segments
        invariant
            q > 0,
            j <= num_segments,
            num_segments == segments@.len(),
            segment_chars@.len() == j,
            segment_hashes@.len() == j,
            positions@.len() == j,
            forall|k: int| 0 <= k < j ==> (#[trigger] segment_chars@[k])@ == segments@[k]@,
            forall|k: int|
                0 <= k < j ==> (#[trigger] segment_hashes@[k]) as nat == hash_of(
                    segments@[k]@,
                    b as nat,
                    q as nat,
                ),
            forall|k: int| 0 <= k < j ==> (#[trigger] positions@[k])@ == Seq::<usize>::empty(),
        decreases num_segments - j,
    {
        segment_chars.push(chars_of(segments[j]));
        segment_hashes.push(rolling_hash(segments[j], b, q));
        positions.push(Vec::new());
        j = j + 1;
    }

    let mut hash_cur_pattern: usize = 0;
    let mut k: usize = 0;
    while k < segment_length
        invariant
            q > 0,
            k <= segment_length <= text_length,
            text_length == text@.len(),
            hash_cur_pattern as nat == hash_of(text@.take(k as int), b as nat, q as nat),
        decreases segment_length - k,
    {
        proof {
            let longer = text@.take(k + 1);
            assert(longer.drop_last() =~= text@.take(k as int));
            assert(longer.last() == text@[k as int]);
        }
        hash_cur_pattern = hash_push(hash_cur_pattern, text[k], b, q);
        k = k + 1;
    }
    assert(text@.take(segment_length as int) =~= text@.subrange(0, segment_length as int));

    let mut i: usize = segment_length;
    while i < text_length
        invariant
            q > 0,
            segment_length <= i <= text_length,
            segment_length >= 1 || text_length == 0,
            text_length == text@.len(),
            text@ == long_text@,
            num_segments == segments@.len(),
            segment_length == segments@[0]@.len(),
            b_star as nat == power(b as nat, segment_length as nat) % (q as nat),
            segment_chars@.len() == num_segments,
            segment_hashes@.len() == num_segments,
            positions@.len() == num_segments,
            forall|k: int|
                0 <= k < num_segments ==> (#[trigger] segment_chars@[k])@ == segments@[k]@,
            forall|k: int|
                0 <= k < num_segments ==> (#[trigger] segment_hashes@[k]) as nat == hash_of(
                    segments@[k]@,
                    b as nat,
                    q as nat,
                ),
            hash_cur_pattern as nat == hash_of(
                text@.subrange(i - segment_length, i as int),
                b as nat,
                q as nat,
            ),
            forall|k: int|
                0 <= k < num_segments ==> (#[trigger] positions@[k])@ == occurrences(
                    text@,
                    segments@[k]@,
                    segment_length as int,
                    i - segment_length,
                ),
        decreases text_length - i,
    {
        let start: usize = i - segment_length;
        let ghost window = text@.subrange(start as int, i as int);
        let mut j: usize = 0;
        while j < num_segments
            invariant
                j <= num_segments,
                start + segment_length == i,
                i < text_length,
                text_length == text@.len(),
                window == text@.subrange(start as int, i as int),
                num_segments == segments@.len(),
                segment_chars@.len() == num_segments,
                segment_hashes@.len() == num_segments,
                positions@.len() == num_segments,
                forall|k: int|
                    0 <= k < num_segments ==> (#[trigger] segment_chars@[k])@ == segments@[k]@,
                forall|k: int|
                    0 <= k < num_segments ==> (#[trigger] segment_hashes@[k]) as nat == hash_of(
                        segments@[k]@,
                        b as nat,
                        q as nat,
                    ),
                hash_cur_pattern as nat == hash_of(window, b as nat, q as nat),
                forall|k: int|
                    0 <= k < j ==> (#[trigger] positions@[k])@ == occurrences(
                        text@,
                        segments@[k]@,
                        segment_length as int,
                        start + 1,
                    ),
                forall|k: int|
                    j <= k < num_segments ==> (#[trigger] positions@[k])@ == occurrences(
                        text@,
                        segments@[k]@,
                        segment_length as int,
                        start as int,
                    ),
            decreases num_segments - j,
        {
            // the hash is compared first: it spares most comparisons
            if hash_cur_pattern == segment_hashes[j] && window_matches(
                &text,
                start,
                &segment_chars[j],
                segment_length,
            ) {
                positions[j].push(start);
            }
            j = j + 1;
        }

        proof {
            lemma_slide(
                window,
                text@[i as int],
                b as nat,
                q as nat,
                b_star as nat,
                (((hash_cur_pattern as nat * b as nat + code(text@[i as int])) % (q as nat)) + q
                    - ((code(text@[start as int]) * b_star as nat) % (q as nat))) % (q as int),
            );
            assert(window.drop_first().push(text@[i as int]) =~= text@.subrange(
                start + 1,
                i + 1,
            ));
        }
        hash_cur_pattern = hash_slide(hash_cur_pattern, text[start], text[i], b, b_star, q);
        i = i + 1;
    }
    positions
}

} // verus!
