use vstd::prelude::*;

verus! {

/// Length in bytes of the UTF-8 encoded whitespace character (Unicode
/// `White_Space`, as `char::is_whitespace`) that starts at byte `i` of `t`, or
/// zero when none starts there.
pub open spec fn ws_len(t: Seq<u8>, i: int) -> int {
    if !(0 <= i < t.len()) {
        0
    } else if t[i] == 9 || t[i] == 10 || t[i] == 11 || t[i] == 12 || t[i] == 13 || t[i] == 32 {
        1
    } else if t[i] == 0xc2 && i + 1 < t.len() && (t[i + 1] == 0x85 || t[i + 1] == 0xa0) {
        2
    } else if i + 2 < t.len() && ((t[i] == 0xe1 && t[i + 1] == 0x9a && t[i + 2] == 0x80) || (t[i]
        == 0xe2 && t[i + 1] == 0x80 && ((0x80 <= t[i + 2] <= 0x8a) || t[i + 2] == 0xa8 || t[i + 2]
        == 0xa9 || t[i + 2] == 0xaf)) || (t[i] == 0xe2 && t[i + 1] == 0x81 && t[i + 2] == 0x9f)
        || (t[i] == 0xe3 && t[i + 1] == 0x80 && t[i + 2] == 0x80)) {
        3
    } else {
        0
    }
}

/// Whether `c` is a code point with the Unicode `White_Space` property, the
/// set that `char::is_whitespace` tests.
pub open spec fn is_white_space_code_point(c: int) -> bool {
    ||| 0x09 <= c <= 0x0d
    ||| c == 0x20
    ||| c == 0x85
    ||| c == 0xa0
    ||| c == 0x1680
    ||| 0x2000 <= c <= 0x200a
    ||| c == 0x2028
    ||| c == 0x2029
    ||| c == 0x202f
    ||| c == 0x205f
    ||| c == 0x3000
}

/// Whether `b` is a UTF-8 continuation byte.
pub open spec fn is_continuation(b: u8) -> bool {
    0x80 <= b < 0xc0
}

/// The character that UTF-8 encodes at byte `q` of `t`, as its code point and
/// its length in bytes, when a character of at most three bytes in shortest
/// form starts there.
pub open spec fn utf8_char_at(t: Seq<u8>, q: int) -> Option<(int, int)> {
    if !(0 <= q < t.len()) {
        None
    } else if t[q] < 0x80 {
        Some((t[q] as int, 1))
    } else if 0xc2 <= t[q] < 0xe0 && q + 1 < t.len() && is_continuation(t[q + 1]) {
        Some(((t[q] - 0xc0) * 0x40 + (t[q + 1] - 0x80), 2))
    } else if 0xe0 <= t[q] < 0xf0 && q + 2 < t.len() && is_continuation(t[q + 1])
        && is_continuation(t[q + 2]) && (t[q] > 0xe0 || t[q + 1] >= 0xa0) {
        Some(((t[q] - 0xe0) * 0x1000 + (t[q + 1] - 0x80) * 0x40 + (t[q + 2] - 0x80), 3))
    } else {
        None
    }
}

/// Length in bytes of the white-space character that starts at byte `q` of
/// `t`, read by decoding UTF-8, or zero when none starts there.
pub open spec fn white_space_len(t: Seq<u8>, q: int) -> int {
    match utf8_char_at(t, q) {
        Some((c, n)) => if is_white_space_code_point(c) {
            n
        } else {
            0
        },
        None => 0,
    }
}

/// Whether byte `p` of `t` belongs to a white-space character.
pub open spec fn in_white_space(t: Seq<u8>, p: int) -> bool {
    exists|q: int| 0 <= q <= p && p < q + #[trigger] white_space_len(t, q)
}

/// Whether position `p` lies inside one of the byte ranges `toks`.
pub open spec fn covered(toks: Seq<(int, int)>, p: int) -> bool {
    exists|k: int| 0 <= k < toks.len() && (#[trigger] toks[k]).0 <= p && p < toks[k].1
}

/// Law: the white space that the tokenizer skips is exactly the Unicode
/// `White_Space` characters of the UTF-8 text, each skipped whole.
pub proof fn lemma_ws_len_is_white_space(t: Seq<u8>, q: int)
    ensures
        ws_len(t, q) == white_space_len(t, q),
{
    if 0 <= q < t.len() && 0xe0 <= t[q] < 0xf0 && q + 2 < t.len() && is_continuation(t[q + 1])
        && is_continuation(t[q + 2]) && (t[q] > 0xe0 || t[q + 1] >= 0xa0) {
        let c = (t[q] - 0xe0) * 0x1000 + (t[q + 1] - 0x80) * 0x40 + (t[q + 2] - 0x80);
        assert(is_white_space_code_point(c) <==> ((t[q] == 0xe1 && t[q + 1] == 0x9a && t[q + 2]
            == 0x80) || (t[q] == 0xe2 && t[q + 1] == 0x80 && ((0x80 <= t[q + 2] <= 0x8a) || t[q
            + 2] == 0xa8 || t[q + 2] == 0xa9 || t[q + 2] == 0xaf)) || (t[q] == 0xe2 && t[q + 1]
            == 0x81 && t[q + 2] == 0x9f) || (t[q] == 0xe3 && t[q + 1] == 0x80 && t[q + 2]
            == 0x80)));
    }
}

/// End of the token that starts at `i`: the first position at or after `i`
/// where the text ends or whitespace starts.
pub open spec fn token_end(t: Seq<u8>, i: int) -> int
    decreases t.len() - i,
{
    if i >= t.len() || ws_len(t, i) > 0 {
        i
    } else {
        token_end(t, i + 1)
    }
}

/// A token that starts inside the text ends after its start and no later than the text.
pub proof fn lemma_token_end_bounds(t: Seq<u8>, i: int)
    requires
        0 <= i,
    ensures
        i <= token_end(t, i),
        i < t.len() ==> token_end(t, i) <= t.len(),
        i < t.len() && ws_len(t, i) == 0 ==> i < token_end(t, i),
    decreases t.len() - i,
{
    if i < t.len() && ws_len(t, i) == 0 {
        lemma_token_end_bounds(t, i + 1);
    }
}

/// Byte ranges `[start, end)` of the whitespace-separated tokens of `t` from
/// position `i` on, in order.
pub open spec fn tokens_from(t: Seq<u8>, i: int) -> Seq<(int, int)>
    decreases t.len() - i,
{
    if i < 0 || i >= t.len() {
        Seq::empty()
    } else if ws_len(t, i) > 0 {
        tokens_from(t, i + ws_len(t, i))
    } else {
        proof {
            lemma_token_end_bounds(t, i);
        }
        seq![(i, token_end(t, i))] + tokens_from(t, token_end(t, i))
    }
}

/// Byte ranges of the whitespace-separated tokens of `t`, in order.
pub open spec fn whitespace_tokens(t: Seq<u8>) -> Seq<(int, int)> {
    tokens_from(t, 0)
}

fn ws_len_at(t: &[u8], i: usize) -> (w: usize)
    requires
        i < t@.len(),
    ensures
        w == ws_len(t@, i as int),
{
    let b = t[i];
    if b == 9 || b == 10 || b == 11 || b == 12 || b == 13 || b == 32 {
        1
    } else if b == 0xc2 && i + 1 < t.len() && (t[i + 1] == 0x85 || t[i + 1] == 0xa0) {
        2
    } else if t.len() >= 3 && i <= t.len() - 3 {
        let b1 = t[i + 1];
        let b2 = t[i + 2];
        if (b == 0xe1 && b1 == 0x9a && b2 == 0x80) || (b == 0xe2 && b1 == 0x80 && ((0x80 <= b2
            && b2 <= 0x8a) || b2 == 0xa8 || b2 == 0xa9 || b2 == 0xaf)) || (b == 0xe2 && b1 == 0x81
            && b2 == 0x9f) || (b == 0xe3 && b1 == 0x80 && b2 == 0x80) {
            3
        } else {
            0
        }
    } else {
        0
    }
}

/// Splits a line of text at whitespace (as `str::split_whitespace` does for
/// UTF-8 text) and returns the byte range `(start, end)` of each token.
pub fn split_whitespace_ranges(line: &[u8]) -> (res: Vec<(usize, usize)>)
    ensures
        res@.len() == whitespace_tokens(line@).len(),
        forall|k: int|
            0 <= k < res@.len() ==> (#[trigger] res@[k]).0 == whitespace_tokens(line@)[k].0
                && res@[k].1 == whitespace_tokens(line@)[k].1,
        forall|k: int| 0 <= k < res@.len() ==> (#[trigger] res@[k]).0 < res@[k].1 <= line@.len(),
        forall|k1: int, k2: int| 0 <= k1 < k2 < res@.len() ==> res@[k1].1 < res@[k2].0,
        forall|p: int|
            #![trigger in_white_space(line@, p)]
            0 <= p < line@.len() ==> ((exists|k: int|
                0 <= k < res@.len() && (#[trigger] res@[k]).0 <= p && p < res@[k].1)
                <==> !in_white_space(line@, p)),
        forall|p: int|
            0 <= p < line@.len() && #[trigger] line@[p] < 0x80 ==> ((exists|k: int|
                0 <= k < res@.len() && (#[trigger] res@[k]).0 <= p && p < res@[k].1) <==> !(
            line@[p] == 9 || line@[p] == 10 || line@[p] == 11 || line@[p] == 12 || line@[p] == 13
                || line@[p] == 32)),
{
    let ghost t = line@;
    let n = line.len();
    let mut res: Vec<(usize, usize)> = Vec::new();
    let mut i: usize = 0;
    while i < n
        invariant
            n == t.len(),
            line@ == t,
            i <= n,
            res@.len() + tokens_from(t, i as int).len() == tokens_from(t, 0).len(),
            forall|k: int|
                0 <= k < res@.len() ==> (#[trigger] res@[k]).0 == tokens_from(t, 0)[k].0
                    && res@[k].1 == tokens_from(t, 0)[k].1,
            forall|k: int|
                0 <= k < tokens_from(t, i as int).len() ==> #[trigger] tokens_from(t, i as int)[k]
                    == tokens_from(t, 0)[res@.len() + k],
        decreases n - i,
    {
        let w = ws_len_at(line, i);
        if w > 0 {
            assert(tokens_from(t, i as int) == tokens_from(t, i + w));
            i = i + w;
        } else {
            let start = i;
            proof {
                lemma_token_end_bounds(t, start as int);
            }
            while i < n && ws_len_at(line, i) == 0
                invariant
                    n == t.len(),
                    line@ == t,
                    start <= i <= n,
                    start < n,
                    ws_len(t, start as int) == 0,
                    token_end(t, start as int) == token_end(t, i as int),
                decreases n - i,
            {
                i = i + 1;
            }
            let ghost rest = tokens_from(t, start as int);
            assert(token_end(t, i as int) == i);
            assert(rest == seq![(start as int, i as int)] + tokens_from(t, i as int));
            assert(rest[0] == (start as int, i as int));
            assert forall|k: int| 0 <= k < tokens_from(t, i as int).len() implies #[trigger]
                tokens_from(t, i as int)[k] == tokens_from(t, 0)[res@.len() + 1 + k] by {
                assert(rest[k + 1] == tokens_from(t, i as int)[k]);
            }
            res.push((start, i));
        }
    }
    proof {
        let toks = tokens_from(t, 0);
        lemma_tokens_well_formed(t, 0);
        lemma_tokens_cover_non_white_space(t);
        assert forall|k: int| 0 <= k < res@.len() implies (#[trigger] res@[k]).0 < res@[k].1
            <= t.len() by {
            assert(toks[k] == (res@[k].0 as int, res@[k].1 as int));
        }
        assert forall|k1: int, k2: int| 0 <= k1 < k2 < res@.len() implies res@[k1].1
            < res@[k2].0 by {
            assert(toks[k1] == (res@[k1].0 as int, res@[k1].1 as int));
            assert(toks[k2] == (res@[k2].0 as int, res@[k2].1 as int));
        }
        assert forall|p: int| 0 <= p < t.len() implies ((exists|k: int|
            0 <= k < res@.len() && (#[trigger] res@[k]).0 <= p && p < res@[k].1) <==> covered(
            toks,
            p,
        )) by {
            if exists|k: int| 0 <= k < res@.len() && (#[trigger] res@[k]).0 <= p && p < res@[k].1 {
                let k = choose|k: int|
                    0 <= k < res@.len() && (#[trigger] res@[k]).0 <= p && p < res@[k].1;
                assert(toks[k] == (res@[k].0 as int, res@[k].1 as int));
            }
            if covered(toks, p) {
                let k = choose|k: int|
                    0 <= k < toks.len() && (#[trigger] toks[k]).0 <= p && p < toks[k].1;
                assert(toks[k] == (res@[k].0 as int, res@[k].1 as int));
            }
        }
        assert forall|p: int| 0 <= p < t.len() && #[trigger] t[p] < 0x80 implies (in_white_space(
            t,
            p,
        ) <==> (t[p] == 9 || t[p] == 10 || t[p] == 11 || t[p] == 12 || t[p] == 13 || t[p]
            == 32)) by {
            lemma_ascii_white_space(t, p);
        }
    }
    res
}

proof fn lemma_token_end_content(t: Seq<u8>, i: int)
    requires
        0 <= i <= t.len(),
    ensures
        forall|p: int| i <= p < token_end(t, i) ==> ws_len(t, p) == 0,
        token_end(t, i) == t.len() || ws_len(t, token_end(t, i)) > 0,
    decreases t.len() - i,
{
    if i < t.len() && ws_len(t, i) == 0 {
        lemma_token_end_content(t, i + 1);
    }
}

/// Law: the tokens are non-empty, hold no byte where a whitespace character
/// starts, end where the text ends or whitespace starts, and come in increasing
/// order with whitespace between consecutive tokens.
pub proof fn lemma_tokens_well_formed(t: Seq<u8>, i: int)
    requires
        0 <= i,
    ensures
        forall|k: int|
            0 <= k < tokens_from(t, i).len() ==> {
                let (s, e) = #[trigger] tokens_from(t, i)[k];
                &&& i <= s < e <= t.len()
                &&& forall|p: int| s <= p < e ==> ws_len(t, p) == 0
                &&& e == t.len() || ws_len(t, e) > 0
            },
        forall|k1: int, k2: int|
            0 <= k1 < k2 < tokens_from(t, i).len() ==> tokens_from(t, i)[k1].1 < tokens_from(
                t,
                i,
            )[k2].0,
    decreases t.len() - i,
{
    if 0 <= i < t.len() {
        if ws_len(t, i) > 0 {
            lemma_tokens_well_formed(t, i + ws_len(t, i));
            assert(tokens_from(t, i) == tokens_from(t, i + ws_len(t, i)));
        } else {
            let e = token_end(t, i);
            lemma_token_end_bounds(t, i);
            lemma_token_end_content(t, i);
            lemma_tokens_well_formed(t, e);
            let rest = tokens_from(t, e);
            let all = tokens_from(t, i);
            assert(all == seq![(i, e)] + rest);
            assert forall|k: int| 0 <= k < rest.len() implies #[trigger] rest[k].0 > e by {
                let (s, _) = rest[k];
                if s == e {
                    // position `e` starts whitespace (or the text ends), so no token starts there
                    assert(ws_len(t, s) == 0);
                }
            }
            assert forall|k1: int, k2: int| 0 <= k1 < k2 < all.len() implies all[k1].1
                < all[k2].0 by {
                if k1 > 0 {
                    assert(all[k1] == rest[k1 - 1]);
                    assert(all[k2] == rest[k2 - 1]);
                } else {
                    assert(all[k2] == rest[k2 - 1]);
                }
            }
            assert forall|k: int| 0 <= k < all.len() implies {
                let (s, e2) = #[trigger] all[k];
                &&& i <= s < e2 <= t.len()
                &&& forall|p: int| s <= p < e2 ==> ws_len(t, p) == 0
                &&& e2 == t.len() || ws_len(t, e2) > 0
            } by {
                if k > 0 {
                    assert(all[k] == rest[k - 1]);
                }
            }
        }
    }
}

/// No white-space character starts inside another one.
proof fn lemma_white_space_tail(t: Seq<u8>, j: int, q: int)
    requires
        0 <= j,
        j < q < j + ws_len(t, j),
    ensures
        ws_len(t, q) == 0,
{
}

/// From position `i` on, a byte lies inside a token exactly when no white-space
/// character that starts at or after `i` holds it.
proof fn lemma_tokens_cover(t: Seq<u8>, i: int)
    requires
        0 <= i,
    ensures
        forall|p: int|
            i <= p < t.len() ==> (covered(tokens_from(t, i), p) <==> !(exists|q: int|
                i <= q <= p && p < q + #[trigger] ws_len(t, q))),
    decreases t.len() - i,
{
    if i < t.len() {
        let w = ws_len(t, i);
        let all = tokens_from(t, i);
        if w > 0 {
            lemma_tokens_cover(t, i + w);
            lemma_tokens_well_formed(t, i + w);
            let rest = tokens_from(t, i + w);
            assert(all == rest);
            assert forall|p: int| i <= p < t.len() implies (covered(all, p) <==> !(exists|q: int|
                i <= q <= p && p < q + #[trigger] ws_len(t, q))) by {
                if p < i + w {
                    assert(p < i + ws_len(t, i));
                    if covered(rest, p) {
                        let k = choose|k: int|
                            0 <= k < rest.len() && (#[trigger] rest[k]).0 <= p && p < rest[k].1;
                        assert(rest[k].0 >= i + w);
                    }
                } else if exists|q: int| i <= q <= p && p < q + #[trigger] ws_len(t, q) {
                    let q = choose|q: int| i <= q <= p && p < q + #[trigger] ws_len(t, q);
                    if i < q < i + w {
                        lemma_white_space_tail(t, i, q);
                    }
                    assert(i + w <= q <= p && p < q + ws_len(t, q));
                }
            }
        } else {
            let e = token_end(t, i);
            lemma_token_end_bounds(t, i);
            lemma_token_end_content(t, i);
            lemma_tokens_cover(t, e);
            let rest = tokens_from(t, e);
            assert(all == seq![(i, e)] + rest);
            assert(all[0] == (i, e));
            assert forall|p: int| i <= p < t.len() implies (covered(all, p) <==> !(exists|q: int|
                i <= q <= p && p < q + #[trigger] ws_len(t, q))) by {
                if exists|q: int| i <= q <= p && p < q + #[trigger] ws_len(t, q) {
                    let q = choose|q: int| i <= q <= p && p < q + #[trigger] ws_len(t, q);
                    if q < e {
                        assert(ws_len(t, q) == 0);
                    }
                    assert(e <= q <= p && p < q + ws_len(t, q));
                }
                if p >= e {
                    if covered(all, p) {
                        let k = choose|k: int|
                            0 <= k < all.len() && (#[trigger] all[k]).0 <= p && p < all[k].1;
                        assert(k > 0);
                        assert(all[k] == rest[k - 1]);
                    }
                    if covered(rest, p) {
                        let k = choose|k: int|
                            0 <= k < rest.len() && (#[trigger] rest[k]).0 <= p && p < rest[k].1;
                        assert(all[k + 1] == rest[k]);
                    }
                }
            }
        }
    }
}

/// Law: a byte of the text lies inside one of the tokens exactly when it is not
/// part of a Unicode white-space character; so no non-blank byte is dropped,
/// whatever the length of its token.
pub proof fn lemma_tokens_cover_non_white_space(t: Seq<u8>)
    ensures
        forall|p: int|
            #![trigger in_white_space(t, p)]
            0 <= p < t.len() ==> (covered(whitespace_tokens(t), p) <==> !in_white_space(t, p)),
{
    lemma_tokens_cover(t, 0);
    assert forall|q: int| #[trigger] ws_len(t, q) == white_space_len(t, q) by {
        lemma_ws_len_is_white_space(t, q);
    }
    assert forall|p: int| 0 <= p < t.len() implies (covered(whitespace_tokens(t), p)
        <==> !in_white_space(t, p)) by {
        if in_white_space(t, p) {
            let q = choose|q: int| 0 <= q <= p && p < q + #[trigger] white_space_len(t, q);
            assert(ws_len(t, q) == white_space_len(t, q));
        }
        if exists|q: int| 0 <= q <= p && p < q + #[trigger] ws_len(t, q) {
            let q = choose|q: int| 0 <= q <= p && p < q + #[trigger] ws_len(t, q);
            assert(ws_len(t, q) == white_space_len(t, q));
        }
    }
}

/// Law: an ASCII byte is part of white space exactly when it is a tab, a line
/// feed, a vertical tab, a form feed, a carriage return or a space.
pub proof fn lemma_ascii_white_space(t: Seq<u8>, p: int)
    requires
        0 <= p < t.len(),
        t[p] < 0x80,
    ensures
        in_white_space(t, p) <==> (t[p] == 9 || t[p] == 10 || t[p] == 11 || t[p] == 12 || t[p]
            == 13 || t[p] == 32),
{
    if in_white_space(t, p) {
        let q = choose|q: int| 0 <= q <= p && p < q + #[trigger] white_space_len(t, q);
        assert(q == p);
    }
    assert(white_space_len(t, p) == (if t[p] == 9 || t[p] == 10 || t[p] == 11 || t[p] == 12
        || t[p] == 13 || t[p] == 32 {
        1int
    } else {
        0int
    }));
}

/// Shape of a table with `rows` non-empty lines holding `cells` values in all:
/// `None` for an empty table, else `(rows, cells / rows)`. The shape covers all
/// the cells exactly when `cells` is a multiple of `rows`.
pub fn table_shape(rows: usize, cells: usize) -> (res: Option<(usize, usize)>)
    ensures
        res is None <==> rows == 0,
        res matches Some(shape) ==> shape.0 == rows && shape.1 == cells / rows,
        res matches Some(shape) ==> (shape.0 * shape.1 == cells <==> cells % rows == 0),
{
    if rows == 0 {
        None
    } else {
        let cols = cells / rows;
        proof {
            vstd::arithmetic::div_mod::lemma_fundamental_div_mod(cells as int, rows as int);
            vstd::arithmetic::div_mod::lemma_mod_bound(cells as int, rows as int);
        }
        Some((rows, cols))
    }
}

} // verus!
