//! Cutting text into pieces: at a separator, at white space, and at both
//! ends.

use crate::afd::symbols;
use crate::model::names_view;
use vstd::prelude::*;

verus! {

/// Whether `c` is white space: one of the characters that Unicode gives
/// the property `White_Space`.
pub open spec fn is_space(c: char) -> bool {
    let n = c as u32;
    ||| 0x09 <= n <= 0x0d
    ||| n == 0x20
    ||| n == 0x85
    ||| n == 0xa0
    ||| n == 0x1680
    ||| 0x2000 <= n <= 0x200a
    ||| n == 0x2028
    ||| n == 0x2029
    ||| n == 0x202f
    ||| n == 0x205f
    ||| n == 0x3000
}

/// Tells whether `c` is white space.
pub fn space(c: char) -> (b: bool)
    ensures
        b == is_space(c),
{
    let n = c as u32;
    (0x09 <= n && n <= 0x0d) || n == 0x20 || n == 0x85 || n == 0xa0 || n == 0x1680 || (0x2000 <= n
        && n <= 0x200a) || n == 0x2028 || n == 0x2029 || n == 0x202f || n == 0x205f || n == 0x3000
}

/// The pieces of `s` from `i` on between one `sep` and the next, where
/// the piece at hand began at `start`.
pub open spec fn fields_from(s: Seq<char>, sep: char, start: int, i: int) -> Seq<Seq<char>>
    decreases s.len() - i,
{
    if i < 0 || i >= s.len() {
        seq![s.subrange(start, s.len() as int)]
    } else if s[i] == sep {
        seq![s.subrange(start, i)] + fields_from(s, sep, i + 1, i + 1)
    } else {
        fields_from(s, sep, start, i + 1)
    }
}

/// The pieces of `s` between one `sep` and the next: one more than `s`
/// has separators, empty pieces included.
pub open spec fn fields(s: Seq<char>, sep: char) -> Seq<Seq<char>> {
    fields_from(s, sep, 0, 0)
}

/// The piece at hand, if it is not empty.
pub open spec fn token_at(s: Seq<char>, start: int, i: int) -> Seq<Seq<char>> {
    if start < i {
        seq![s.subrange(start, i)]
    } else {
        seq![]
    }
}

/// The runs of characters other than white space in `s` from `i` on,
/// where the run at hand began at `start`.
pub open spec fn tokens_from(s: Seq<char>, start: int, i: int) -> Seq<Seq<char>>
    decreases s.len() - i,
{
    if i < 0 || i >= s.len() {
        token_at(s, start, s.len() as int)
    } else if is_space(s[i]) {
        token_at(s, start, i) + tokens_from(s, i + 1, i + 1)
    } else {
        tokens_from(s, start, i + 1)
    }
}

/// The longest runs of characters other than white space in `s`, in
/// order.
pub open spec fn tokens(s: Seq<char>) -> Seq<Seq<char>> {
    tokens_from(s, 0, 0)
}

/// The first place from `i` on where `s` holds something other than
/// white space, or its length.
pub open spec fn first_solid(s: Seq<char>, i: int) -> int
    decreases s.len() - i,
{
    if i < 0 || i >= s.len() {
        s.len() as int
    } else if is_space(s[i]) {
        first_solid(s, i + 1)
    } else {
        i
    }
}

/// The place behind the last character before `j` that is not white
/// space, or 0.
pub open spec fn last_solid(s: Seq<char>, j: int) -> int
    decreases j,
{
    if j <= 0 || j > s.len() {
        0
    } else if is_space(s[j - 1]) {
        last_solid(s, j - 1)
    } else {
        j
    }
}

/// `s` without the white space at its two ends.
pub open spec fn trimmed(s: Seq<char>) -> Seq<char> {
    if first_solid(s, 0) >= s.len() {
        Seq::empty()
    } else {
        s.subrange(first_solid(s, 0), last_solid(s, s.len() as int))
    }
}

/// From the first place that is not white space on, the end of the last
/// such run is where it is for the whole.
pub proof fn lemma_first_before_last(s: Seq<char>, i: int)
    requires
        0 <= i <= s.len(),
        first_solid(s, i) < s.len(),
    ensures
        i <= first_solid(s, i) < last_solid(s, s.len() as int),
    decreases s.len() - i,
{
    if is_space(s[i]) {
        lemma_first_before_last(s, i + 1);
    } else {
        lemma_last_after(s, i, s.len() as int);
    }
}

/// The end of the last run that is not white space lies behind every
/// place that is not white space.
pub proof fn lemma_last_after(s: Seq<char>, i: int, j: int)
    requires
        0 <= i < j <= s.len(),
        !is_space(s[i]),
    ensures
        i < last_solid(s, j),
    decreases j,
{
    if is_space(s[j - 1]) {
        lemma_last_after(s, i, j - 1);
    }
}

/// The pieces put together again, with `sep` between one and the next.
pub open spec fn joined(pieces: Seq<Seq<char>>, sep: char) -> Seq<char>
    decreases pieces.len(),
{
    if pieces.len() == 0 {
        Seq::empty()
    } else if pieces.len() == 1 {
        pieces[0]
    } else {
        pieces[0] + seq![sep] + joined(pieces.drop_first(), sep)
    }
}

/// No character of `s` is the separator.
pub open spec fn free_of(s: Seq<char>, sep: char) -> bool {
    forall|i: int| 0 <= i < s.len() ==> #[trigger] s[i] != sep
}

/// No character of `s` is white space, and `s` is not empty.
pub open spec fn solid(s: Seq<char>) -> bool {
    s.len() > 0 && forall|i: int| 0 <= i < s.len() ==> !is_space(#[trigger] s[i])
}

/// Every character of `s` is white space.
pub open spec fn blank(s: Seq<char>) -> bool {
    forall|i: int| 0 <= i < s.len() ==> is_space(#[trigger] s[i])
}

/// The pieces that are cut from `i` on hold no separator, and put
/// together again they are what `s` holds from `start` on.
proof fn lemma_fields_from(s: Seq<char>, sep: char, start: int, i: int)
    requires
        0 <= start <= i <= s.len(),
        free_of(s.subrange(start, i), sep),
    ensures
        fields_from(s, sep, start, i).len() >= 1,
        forall|k: int|
            0 <= k < fields_from(s, sep, start, i).len() ==> free_of(
                #[trigger] fields_from(s, sep, start, i)[k],
                sep,
            ),
        joined(fields_from(s, sep, start, i), sep) == s.subrange(start, s.len() as int),
    decreases s.len() - i,
{
    let all = fields_from(s, sep, start, i);
    if i >= s.len() {
        assert(all[0] == s.subrange(start, i));
    } else if s[i] == sep {
        let rest = fields_from(s, sep, i + 1, i + 1);
        assert(s.subrange(i + 1, i + 1) =~= Seq::<char>::empty());
        lemma_fields_from(s, sep, i + 1, i + 1);
        assert(all == seq![s.subrange(start, i)] + rest);
        assert(all[0] == s.subrange(start, i));
        assert(all.drop_first() =~= rest);
        assert forall|k: int| 0 <= k < all.len() implies free_of(#[trigger] all[k], sep) by {
            if k > 0 {
                assert(all[k] == rest[k - 1]);
            }
        }
        assert(s.subrange(start, i) + seq![sep] + s.subrange(i + 1, s.len() as int)
            =~= s.subrange(start, s.len() as int));
    } else {
        let longer = s.subrange(start, i + 1);
        assert forall|k: int| 0 <= k < longer.len() implies #[trigger] longer[k] != sep by {
            if k < i - start {
                assert(s.subrange(start, i)[k] == longer[k]);
            }
        }
        lemma_fields_from(s, sep, start, i + 1);
    }
}

/// Cutting at a separator loses nothing: no piece holds the separator,
/// and the pieces put together again, with the separator between them,
/// are the text that was cut.
pub proof fn lemma_fields(s: Seq<char>, sep: char)
    ensures
        fields(s, sep).len() >= 1,
        forall|k: int|
            0 <= k < fields(s, sep).len() ==> free_of(#[trigger] fields(s, sep)[k], sep),
        joined(fields(s, sep), sep) == s,
{
    assert(s.subrange(0, 0) =~= Seq::<char>::empty());
    lemma_fields_from(s, sep, 0, 0);
    assert(s.subrange(0, s.len() as int) =~= s);
}

/// The runs that are cut from `i` on are not empty and hold no white
/// space.
proof fn lemma_tokens_from(s: Seq<char>, start: int, i: int)
    requires
        0 <= start <= i <= s.len(),
        forall|k: int| start <= k < i ==> !is_space(s[k]),
    ensures
        forall|k: int|
            0 <= k < tokens_from(s, start, i).len() ==> solid(#[trigger] tokens_from(s, start, i)[k]),
    decreases s.len() - i,
{
    let all = tokens_from(s, start, i);
    let token = s.subrange(start, i);
    if start < i {
        assert forall|k: int| 0 <= k < token.len() implies !is_space(#[trigger] token[k]) by {
            assert(token[k] == s[start + k]);
        }
        assert(solid(token));
    }
    if i >= s.len() {
        assert(all == token_at(s, start, i));
        assert forall|k: int| 0 <= k < all.len() implies solid(#[trigger] all[k]) by {
            assert(all[0] == token);
        }
    } else if is_space(s[i]) {
        let rest = tokens_from(s, i + 1, i + 1);
        lemma_tokens_from(s, i + 1, i + 1);
        assert(all == token_at(s, start, i) + rest);
        assert forall|k: int| 0 <= k < all.len() implies solid(#[trigger] all[k]) by {
            if start < i {
                if k > 0 {
                    assert(all[k] == rest[k - 1]);
                } else {
                    assert(all[0] == token);
                }
            } else {
                assert(all =~= rest);
            }
        }
    } else {
        lemma_tokens_from(s, start, i + 1);
        assert(all == tokens_from(s, start, i + 1));
    }
}

/// Every word that is cut from a text is a run of characters that are
/// not white space, and is not empty.
pub proof fn lemma_tokens(s: Seq<char>)
    ensures
        forall|k: int| 0 <= k < tokens(s).len() ==> solid(#[trigger] tokens(s)[k]),
{
    lemma_tokens_from(s, 0, 0);
}

/// What stands before the first character that is not white space is
/// white space.
proof fn lemma_first_solid(s: Seq<char>, i: int)
    requires
        0 <= i <= s.len(),
    ensures
        i <= first_solid(s, i) <= s.len(),
        forall|k: int| i <= k < first_solid(s, i) ==> is_space(s[k]),
        first_solid(s, i) < s.len() ==> !is_space(s[first_solid(s, i)]),
    decreases s.len() - i,
{
    if i < s.len() && is_space(s[i]) {
        lemma_first_solid(s, i + 1);
    }
}

/// What stands behind the last character that is not white space is
/// white space.
proof fn lemma_last_solid(s: Seq<char>, j: int)
    requires
        0 <= j <= s.len(),
    ensures
        0 <= last_solid(s, j) <= j,
        forall|k: int| last_solid(s, j) <= k < j ==> is_space(s[k]),
        last_solid(s, j) > 0 ==> !is_space(s[last_solid(s, j) - 1]),
    decreases j,
{
    if j > 0 && is_space(s[j - 1]) {
        lemma_last_solid(s, j - 1);
    }
}

/// Trimming takes white space away, at the two ends, and nothing else:
/// the text is white space, what is left of it, and white space again;
/// and what is left neither begins nor ends with white space.
pub proof fn lemma_trimmed(s: Seq<char>) -> (r: (Seq<char>, Seq<char>))
    ensures
        s == r.0 + trimmed(s) + r.1,
        blank(r.0),
        blank(r.1),
        trimmed(s).len() > 0 ==> !is_space(trimmed(s)[0]) && !is_space(trimmed(s).last()),
{
    let n = s.len() as int;
    lemma_first_solid(s, 0);
    lemma_last_solid(s, n);
    let a = first_solid(s, 0);
    if a >= n {
        assert(s =~= s + Seq::<char>::empty() + Seq::<char>::empty());
        (s, Seq::empty())
    } else {
        lemma_first_before_last(s, 0);
        let b = last_solid(s, n);
        let r = (s.subrange(0, a), s.subrange(b, n));
        assert(s =~= r.0 + s.subrange(a, b) + r.1);
        r
    }
}

/// Cuts `text` at each `sep`: the pieces between them, empty ones
/// included, in order.
pub fn split(text: &str, sep: char) -> (r: Vec<String>)
    ensures
        names_view(r@) == fields(text@, sep),
        r@.len() >= 1,
{
    let chars = symbols(text);
    let ghost s = text@;
    let n = chars.len();
    let mut r: Vec<String> = Vec::new();
    let mut start: usize = 0;
    let mut i: usize = 0;
    assert(names_view(r@) =~= Seq::<Seq<char>>::empty());
    while i < n
        invariant
            s == text@,
            chars@ == s,
            n == s.len(),
            start <= i <= n,
            fields(s, sep) == names_view(r@) + fields_from(s, sep, start as int, i as int),
        decreases n - i,
    {
        if chars[i] == sep {
            let piece = text.substring_char(start, i).to_owned();
            let ghost before = names_view(r@);
            r.push(piece);
            proof {
                assert(names_view(r@) =~= before.push(s.subrange(start as int, i as int)));
                assert(before + (seq![s.subrange(start as int, i as int)] + fields_from(
                    s,
                    sep,
                    i + 1,
                    i + 1,
                )) =~= before.push(s.subrange(start as int, i as int)) + fields_from(
                    s,
                    sep,
                    i + 1,
                    i + 1,
                ));
            }
            start = i + 1;
        }
        i += 1;
    }
    let piece = text.substring_char(start, n).to_owned();
    let ghost before = names_view(r@);
    r.push(piece);
    proof {
        assert(names_view(r@) =~= before.push(s.subrange(start as int, n as int)));
        assert(before + seq![s.subrange(start as int, n as int)] =~= before.push(
            s.subrange(start as int, n as int),
        ));
    }
    r
}

/// Cuts `text` at white space: the runs of other characters, in order.
pub fn split_whitespace(text: &str) -> (r: Vec<String>)
    ensures
        names_view(r@) == tokens(text@),
{
    let chars = symbols(text);
    let ghost s = text@;
    let n = chars.len();
    let mut r: Vec<String> = Vec::new();
    let mut start: usize = 0;
    let mut i: usize = 0;
    assert(names_view(r@) =~= Seq::<Seq<char>>::empty());
    while i < n
        invariant
            s == text@,
            chars@ == s,
            n == s.len(),
            start <= i <= n,
            tokens(s) == names_view(r@) + tokens_from(s, start as int, i as int),
        decreases n - i,
    {
        if space(chars[i]) {
            if start < i {
                let piece = text.substring_char(start, i).to_owned();
                let ghost before = names_view(r@);
                r.push(piece);
                proof {
                    let token = s.subrange(start as int, i as int);
                    assert(names_view(r@) =~= before.push(token));
                    assert(before + (seq![token] + tokens_from(s, i + 1, i + 1)) =~= before.push(
                        token,
                    ) + tokens_from(s, i + 1, i + 1));
                }
            } else {
                assert(Seq::<Seq<char>>::empty() + tokens_from(s, i + 1, i + 1) =~= tokens_from(
                    s,
                    i + 1,
                    i + 1,
                ));
            }
            start = i + 1;
        }
        i += 1;
    }
    if start < n {
        let piece = text.substring_char(start, n).to_owned();
        let ghost before = names_view(r@);
        r.push(piece);
        proof {
            let token = s.subrange(start as int, n as int);
            assert(names_view(r@) =~= before.push(token));
            assert(before + seq![token] =~= before.push(token));
        }
    } else {
        assert(names_view(r@) + Seq::<Seq<char>>::empty() =~= names_view(r@));
    }
    r
}

/// `text` without the white space at its two ends.
pub fn trim(text: &str) -> (r: String)
    ensures
        r@ == trimmed(text@),
{
    let chars = symbols(text);
    let ghost s = text@;
    let n = chars.len();
    let mut from: usize = 0;
    while from < n && space(chars[from])
        invariant
            chars@ == s,
            n == s.len(),
            from <= n,
            first_solid(s, 0) == first_solid(s, from as int),
        decreases n - from,
    {
        from += 1;
    }
    if from >= n {
        return String::new();
    }
    let mut to: usize = n;
    while to > 0 && space(chars[to - 1])
        invariant
            chars@ == s,
            n == s.len(),
            to <= n,
            last_solid(s, n as int) == last_solid(s, to as int),
        decreases to,
    {
        to -= 1;
    }
    proof {
        lemma_first_before_last(s, 0);
    }
    text.substring_char(from, to).to_owned()
}

} // verus!
