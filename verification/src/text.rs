//! Character-level text operations on sequences of `char`.

use vstd::prelude::*;
use vstd::string::*;

verus! {

/// The characters with the Unicode property `White_Space`.
pub open spec fn white_space(c: char) -> bool {
    ||| '\u{9}' <= c <= '\u{d}'
    ||| c == '\u{20}'
    ||| c == '\u{85}'
    ||| c == '\u{a0}'
    ||| c == '\u{1680}'
    ||| '\u{2000}' <= c <= '\u{200a}'
    ||| c == '\u{2028}'
    ||| c == '\u{2029}'
    ||| c == '\u{202f}'
    ||| c == '\u{205f}'
    ||| c == '\u{3000}'
}

/// `s` without its leading white space.
pub open spec fn trim_start(s: Seq<char>) -> Seq<char>
    decreases s.len(),
{
    if s.len() > 0 && white_space(s.first()) {
        trim_start(s.drop_first())
    } else {
        s
    }
}

/// `s` without its trailing white space.
pub open spec fn trim_end(s: Seq<char>) -> Seq<char>
    decreases s.len(),
{
    if s.len() > 0 && white_space(s.last()) {
        trim_end(s.drop_last())
    } else {
        s
    }
}

/// `s` without its leading and trailing white space.
pub open spec fn trimmed(s: Seq<char>) -> Seq<char> {
    trim_end(trim_start(s))
}

/// The pieces of `s` between the occurrences of `sep`.
///
/// There is always one more piece than there are separators, so the result is never empty.
pub open spec fn pieces(s: Seq<char>, sep: char) -> Seq<Seq<char>>
    decreases s.len(),
{
    if s.len() == 0 {
        seq![s]
    } else {
        let before = pieces(s.drop_last(), sep);
        if s.last() == sep {
            before.push(Seq::empty())
        } else {
            before.drop_last().push(before.last().push(s.last()))
        }
    }
}

/// Every piece without its surrounding white space.
pub open spec fn all_trimmed(parts: Seq<Seq<char>>) -> Seq<Seq<char>> {
    Seq::new(parts.len(), |i: int| trimmed(parts[i]))
}

/// The concatenation of `parts` with `sep` between neighbours.
pub open spec fn joined(parts: Seq<Seq<char>>, sep: char) -> Seq<char>
    decreases parts.len(),
{
    if parts.len() == 0 {
        Seq::empty()
    } else if parts.len() == 1 {
        parts[0]
    } else {
        joined(parts.drop_last(), sep).push(sep) + parts.last()
    }
}

/// The decimal numeral of `n`, without leading zeros.
pub open spec fn numeral(n: nat) -> Seq<char>
    decreases n,
{
    if n < 10 {
        seq![digit(n)]
    } else {
        numeral(n / 10).push(digit(n % 10))
    }
}

/// The decimal digit of value `d`.
pub open spec fn digit(d: nat) -> char {
    ('0' as nat + d) as char
}

/// Every element of `s` seen through its view.
pub open spec fn views<T: View>(s: Seq<T>) -> Seq<T::V> {
    Seq::new(s.len(), |i: int| s[i]@)
}

/// Whether `c` has the Unicode property `White_Space`.
pub fn is_white_space(c: char) -> (r: bool)
    ensures
        r == white_space(c),
{
    ('\u{9}' <= c && c <= '\u{d}') || c == '\u{20}' || c == '\u{85}' || c == '\u{a0}' || c
        == '\u{1680}' || ('\u{2000}' <= c && c <= '\u{200a}') || c == '\u{2028}' || c == '\u{2029}'
        || c == '\u{202f}' || c == '\u{205f}' || c == '\u{3000}'
}

/// The characters of `s`.
pub fn chars_of(s: &str) -> (r: Vec<char>)
    ensures
        r@ == s@,
{
    let mut r: Vec<char> = Vec::new();
    for c in it: s.chars()
        invariant
            it.seq() == s@,
            r@ == s@.take(it.index()),
    {
        assert(s@.take(it.index() + 1) == s@.take(it.index()).push(s@[it.index()]));
        r.push(c);
    }
    assert(s@.take(s@.len() as int) == s@);
    r
}

/// Whether `c` occurs in `s`.
pub fn has_char(s: &str, c: char) -> (r: bool)
    ensures
        r == s@.contains(c),
{
    let chars = chars_of(s);
    let mut i: usize = 0;
    while i < chars.len()
        invariant
            chars@ == s@,
            i <= chars.len(),
            forall|k: int| 0 <= k < i ==> s@[k] != c,
        decreases chars.len() - i,
    {
        if chars[i] == c {
            assert(s@[i as int] == c);
            return true;
        }
        i += 1;
    }
    false
}

/// Whether `s` starts with `prefix`.
pub fn has_prefix(s: &str, prefix: &str) -> (r: bool)
    ensures
        r == prefix@.is_prefix_of(s@),
{
    let chars = chars_of(s);
    let wanted = chars_of(prefix);
    if wanted.len() > chars.len() {
        return false;
    }
    let mut i: usize = 0;
    while i < wanted.len()
        invariant
            chars@ == s@,
            wanted@ == prefix@,
            i <= wanted.len() <= chars.len(),
            forall|k: int| 0 <= k < i ==> s@[k] == prefix@[k],
        decreases wanted.len() - i,
    {
        if chars[i] != wanted[i] {
            assert(s@.subrange(0, prefix@.len() as int)[i as int] == s@[i as int]);
            return false;
        }
        i += 1;
    }
    assert(prefix@ =~= s@.subrange(0, prefix@.len() as int));
    true
}

/// Removes leading and trailing white space from `s`.
pub fn trim(s: &str) -> (r: String)
    ensures
        r@ == trimmed(s@),
{
    let chars = chars_of(s);
    let mut from: usize = 0;
    assert(s@.skip(0) =~= s@);
    while from < chars.len() && is_white_space(chars[from])
        invariant
            chars@ == s@,
            from <= chars.len(),
            trim_start(s@) == trim_start(s@.skip(from as int)),
        decreases chars.len() - from,
    {
        assert(s@.skip(from as int).drop_first() =~= s@.skip(from + 1));
        from += 1;
    }
    let mut to: usize = chars.len();
    assert(s@.subrange(from as int, to as int) =~= s@.skip(from as int));
    while from < to && is_white_space(chars[to - 1])
        invariant
            chars@ == s@,
            from <= to <= chars.len(),
            trimmed(s@) == trim_end(s@.subrange(from as int, to as int)),
        decreases to - from,
    {
        assert(s@.subrange(from as int, to as int).drop_last() =~= s@.subrange(
            from as int,
            to - 1,
        ));
        to -= 1;
    }
    s.substring_char(from, to).to_owned()
}

/// Splits `s` at every `sep` and trims each piece.
pub fn split_and_trim(s: &str, sep: char) -> (r: Vec<String>)
    ensures
        views(r@) == all_trimmed(pieces(s@, sep)),
{
    let chars = chars_of(s);
    let mut r: Vec<String> = Vec::new();
    let mut from: usize = 0;
    let mut i: usize = 0;
    let ghost mut done: Seq<Seq<char>> = Seq::empty();
    assert(done.push(s@.subrange(0, 0)) =~= pieces(s@.take(0), sep));
    while i < chars.len()
        invariant
            chars@ == s@,
            from <= i <= chars.len(),
            done.push(s@.subrange(from as int, i as int)) == pieces(s@.take(i as int), sep),
            views(r@) == all_trimmed(done),
        decreases chars.len() - i,
    {
        let ghost upto = s@.take(i + 1);
        assert(upto.drop_last() =~= s@.take(i as int));
        assert(upto.last() == s@[i as int]);
        let ghost open_piece = s@.subrange(from as int, i as int);
        if chars[i] == sep {
            let piece = trim(s.substring_char(from, i));
            let ghost before = r@;
            r.push(piece);
            proof {
                done = done.push(open_piece);
                assert(views(r@) =~= all_trimmed(done)) by {
                    assert(views(r@) =~= views(before).push(piece@));
                }
                assert(s@.subrange(i + 1, i + 1) =~= Seq::empty());
            }
            from = i + 1;
        } else {
            assert(done.push(open_piece).drop_last() =~= done);
            assert(open_piece.push(s@[i as int]) =~= s@.subrange(from as int, i + 1));
        }
        i += 1;
    }
    let piece = trim(s.substring_char(from, i));
    let ghost before = r@;
    r.push(piece);
    proof {
        assert(s@.take(i as int) =~= s@);
        assert(views(r@) =~= views(before).push(piece@));
        assert(views(r@) =~= all_trimmed(pieces(s@, sep)));
    }
    r
}

/// Concatenates `parts` with the separator `sep` between neighbours.
pub fn join(parts: &Vec<String>, sep: &str) -> (r: String)
    requires
        sep@.len() == 1,
    ensures
        r@ == joined(views(parts@), sep@[0]),
{
    let ghost c = sep@[0];
    let mut r = String::new();
    let mut i: usize = 0;
    assert(views(parts@).take(0) =~= Seq::empty());
    while i < parts.len()
        invariant
            sep@.len() == 1,
            c == sep@[0],
            i <= parts.len(),
            r@ == joined(views(parts@).take(i as int), c),
        decreases parts.len() - i,
    {
        let ghost upto = views(parts@).take(i + 1);
        assert(upto.drop_last() =~= views(parts@).take(i as int));
        assert(upto.last() == parts@[i as int]@);
        let ghost before = r@;
        if i > 0 {
            r.append(sep);
        }
        r.append(parts[i].as_str());
        proof {
            if i > 0 {
                assert(r@ =~= before.push(c) + parts@[i as int]@);
            } else {
                assert(r@ =~= parts@[0]@);
                assert(upto[0] == parts@[0]@);
            }
        }
        i += 1;
    }
    assert(views(parts@).take(i as int) =~= views(parts@));
    r
}

/// The decimal numeral of `n`.
pub fn decimal(n: usize) -> (r: String)
    ensures
        r@ == numeral(n as nat),
    decreases n,
{
    let digits = "0123456789";
    proof {
        reveal_strlit("0123456789");
    }
    let d: usize = n % 10;
    let last = digits.substring_char(d, d + 1);
    assert(last@ =~= seq![digit(n as nat % 10)]);
    if n < 10 {
        last.to_owned()
    } else {
        let mut r = decimal(n / 10);
        let ghost before = r@;
        r.append(last);
        assert(r@ =~= before.push(digit(n as nat % 10)));
        r
    }
}

/// A text has two or more pieces exactly when it holds a separator.
pub proof fn lemma_pieces_len(s: Seq<char>, sep: char)
    ensures
        pieces(s, sep).len() >= 1,
        s.contains(sep) <==> pieces(s, sep).len() >= 2,
    decreases s.len(),
{
    if s.len() > 0 {
        let init = s.drop_last();
        lemma_pieces_len(init, sep);
        assert(s =~= init.push(s.last()));
        if init.contains(sep) {
            let k = choose|k: int| 0 <= k < init.len() && init[k] == sep;
            assert(s[k] == sep);
        }
        if s.last() == sep {
            assert(s[s.len() - 1] == sep);
        } else if s.contains(sep) {
            let k = choose|k: int| 0 <= k < s.len() && s[k] == sep;
            assert(init[k] == sep);
        }
    }
}

/// No piece holds the separator, and every character of a piece comes from the text.
pub proof fn lemma_pieces_chars(s: Seq<char>, sep: char, i: int, c: char)
    requires
        0 <= i < pieces(s, sep).len(),
        pieces(s, sep)[i].contains(c),
    ensures
        c != sep,
        s.contains(c),
    decreases s.len(),
{
    if s.len() > 0 {
        let init = s.drop_last();
        let before = pieces(init, sep);
        lemma_pieces_len(init, sep);
        if i < before.len() && before[i].contains(c) {
            lemma_pieces_chars(init, sep, i, c);
            let k = choose|k: int| 0 <= k < init.len() && init[k] == c;
            assert(s[k] == c);
        } else {
            let piece = pieces(s, sep)[i];
            let k = choose|k: int| 0 <= k < piece.len() && piece[k] == c;
            if s.last() != sep {
                assert(i == before.len() - 1);
                assert(piece == before[i].push(s.last()));
                if k < before[i].len() {
                    assert(before[i][k] == c);
                }
            }
            assert(s[s.len() - 1] == c);
        }
    }
}

/// A separator followed by text without one adds exactly that text as a further piece.
pub proof fn lemma_pieces_append(a: Seq<char>, b: Seq<char>, sep: char)
    requires
        !b.contains(sep),
    ensures
        pieces(a.push(sep) + b, sep) == pieces(a, sep).push(b),
    decreases b.len(),
{
    let s = a.push(sep) + b;
    if b.len() == 0 {
        assert(s =~= a.push(sep));
        assert(s.drop_last() =~= a);
        assert(b =~= Seq::empty());
    } else {
        let init = b.drop_last();
        assert forall|k: int| 0 <= k < init.len() implies init[k] != sep by {
            assert(b[k] == init[k]);
            if b[k] == sep {
                assert(b.contains(sep));
            }
        }
        lemma_pieces_append(a, init, sep);
        assert(s.drop_last() =~= a.push(sep) + init);
        assert(s.last() == b.last());
        assert(b[b.len() - 1] == b.last());
        assert(init.push(b.last()) =~= b);
        let before = pieces(a, sep).push(init);
        assert(before.drop_last() =~= pieces(a, sep));
        assert(before.last() == init);
    }
}

/// A text without the separator is its own only piece.
pub proof fn lemma_pieces_whole(s: Seq<char>, sep: char)
    requires
        !s.contains(sep),
    ensures
        pieces(s, sep) == seq![s],
    decreases s.len(),
{
    if s.len() > 0 {
        let init = s.drop_last();
        assert forall|k: int| 0 <= k < init.len() implies init[k] != sep by {
            assert(s[k] == init[k]);
            if s[k] == sep {
                assert(s.contains(sep));
            }
        }
        lemma_pieces_whole(init, sep);
        assert(s[s.len() - 1] == s.last());
        assert(init.push(s.last()) =~= s);
        assert(pieces(s, sep) =~= seq![s]);
    }
}

/// Splitting what was joined gives the parts back, if no part holds the separator.
pub proof fn lemma_pieces_of_joined(parts: Seq<Seq<char>>, sep: char)
    requires
        parts.len() >= 1,
        forall|i: int| 0 <= i < parts.len() ==> !(#[trigger] parts[i]).contains(sep),
    ensures
        pieces(joined(parts, sep), sep) == parts,
    decreases parts.len(),
{
    if parts.len() == 1 {
        lemma_pieces_whole(parts[0], sep);
        assert(seq![parts[0]] =~= parts);
    } else {
        let init = parts.drop_last();
        assert forall|i: int| 0 <= i < init.len() implies !(#[trigger] init[i]).contains(sep) by {
            assert(init[i] == parts[i]);
        }
        lemma_pieces_of_joined(init, sep);
        lemma_pieces_append(joined(init, sep), parts.last(), sep);
        assert(init.push(parts.last()) =~= parts);
    }
}

/// Law: joining the pieces of a text gives the text back.
pub proof fn law_joined_pieces(s: Seq<char>, sep: char)
    ensures
        joined(pieces(s, sep), sep) == s,
    decreases s.len(),
{
    if s.len() > 0 {
        let init = s.drop_last();
        let before = pieces(init, sep);
        let after = pieces(s, sep);
        law_joined_pieces(init, sep);
        lemma_pieces_len(init, sep);
        assert(init.push(s.last()) =~= s);
        if s.last() == sep {
            assert(after.drop_last() =~= before);
            assert(joined(after, sep) =~= init.push(sep));
        } else {
            assert(after.drop_last() =~= before.drop_last());
            assert(after.last() == before.last().push(s.last()));
            if before.len() >= 2 {
                let head = joined(before.drop_last(), sep).push(sep);
                assert(head + before.last().push(s.last()) =~= (head + before.last()).push(
                    s.last(),
                ));
            }
        }
    }
}

/// Trimming keeps only characters of the text.
pub proof fn lemma_trimmed_chars(s: Seq<char>, c: char)
    requires
        trimmed(s).contains(c),
    ensures
        s.contains(c),
{
    lemma_trim_end_prefix(trim_start(s));
    lemma_trim_start_suffix(s);
    let head = trim_start(s);
    let k = choose|k: int| 0 <= k < trimmed(s).len() && trimmed(s)[k] == c;
    assert(head[k] == c);
    assert(s[s.len() - head.len() + k] == c);
}

proof fn lemma_trim_start_suffix(s: Seq<char>)
    ensures
        trim_start(s).len() <= s.len(),
        trim_start(s) == s.skip(s.len() - trim_start(s).len()),
        trim_start(s).len() > 0 ==> !white_space(trim_start(s).first()),
    decreases s.len(),
{
    if s.len() > 0 && white_space(s.first()) {
        lemma_trim_start_suffix(s.drop_first());
        let t = trim_start(s);
        assert(s.drop_first().skip(s.len() - 1 - t.len()) =~= s.skip(s.len() - t.len()));
    } else {
        assert(s.skip(0) =~= s);
    }
}

proof fn lemma_trim_end_prefix(s: Seq<char>)
    ensures
        trim_end(s).len() <= s.len(),
        trim_end(s) == s.take(trim_end(s).len() as int),
        trim_end(s).len() > 0 ==> !white_space(trim_end(s).last()),
    decreases s.len(),
{
    if s.len() > 0 && white_space(s.last()) {
        lemma_trim_end_prefix(s.drop_last());
        let t = trim_end(s);
        assert(s.drop_last().take(t.len() as int) =~= s.take(t.len() as int));
    } else {
        assert(s.take(s.len() as int) =~= s);
    }
}

/// A trimmed text neither starts nor ends with white space.
pub proof fn lemma_trimmed_ends(s: Seq<char>)
    ensures
        trimmed(s).len() > 0 ==> !white_space(trimmed(s).first()) && !white_space(
            trimmed(s).last(),
        ),
{
    lemma_trim_start_suffix(s);
    lemma_trim_end_prefix(trim_start(s));
}

/// Trimming twice is trimming once.
pub proof fn lemma_trimmed_twice(s: Seq<char>)
    ensures
        trimmed(trimmed(s)) == trimmed(s),
{
    lemma_trimmed_ends(s);
}

/// Different numbers have different numerals.
pub proof fn lemma_numeral_distinct(m: nat, n: nat)
    requires
        numeral(m) == numeral(n),
    ensures
        m == n,
    decreases m,
{
    lemma_numeral_len(m);
    lemma_numeral_len(n);
    assert(numeral(m).last() == digit(m % 10));
    assert(numeral(n).last() == digit(n % 10));
    assert(m % 10 == n % 10);
    if m >= 10 && n >= 10 {
        assert(numeral(m).drop_last() =~= numeral(m / 10));
        assert(numeral(n).drop_last() =~= numeral(n / 10));
        lemma_numeral_distinct(m / 10, n / 10);
    }
}

proof fn lemma_numeral_len(n: nat)
    ensures
        numeral(n).len() >= 1,
        n >= 10 <==> numeral(n).len() >= 2,
    decreases n,
{
    if n >= 10 {
        lemma_numeral_len(n / 10);
    }
}

/// Law: white space is what Unicode lists under `White_Space`, and [`is_white_space`] tells so.
pub proof fn law_white_space(c: char, r: bool)
    requires
        call_ensures(is_white_space, (c,), r),
    ensures
        r == white_space(c),
        r <==> seq![
            0x9u32, 0xa, 0xb, 0xc, 0xd, 0x20, 0x85, 0xa0, 0x1680, 0x2000, 0x2001, 0x2002, 0x2003,
            0x2004, 0x2005, 0x2006, 0x2007, 0x2008, 0x2009, 0x200a, 0x2028, 0x2029, 0x202f, 0x205f,
            0x3000,
        ].contains(c as u32),
{
    let listed = seq![
        0x9u32, 0xa, 0xb, 0xc, 0xd, 0x20, 0x85, 0xa0, 0x1680, 0x2000, 0x2001, 0x2002, 0x2003,
        0x2004, 0x2005, 0x2006, 0x2007, 0x2008, 0x2009, 0x200a, 0x2028, 0x2029, 0x202f, 0x205f,
        0x3000,
    ];
    let n = c as u32;
    if white_space(c) {
        let at: int = if n <= 0xd {
            n - 0x9
        } else if n == 0x20 {
            5
        } else if n == 0x85 {
            6
        } else if n == 0xa0 {
            7
        } else if n == 0x1680 {
            8
        } else if n <= 0x200a {
            9 + n - 0x2000
        } else if n == 0x2028 {
            20
        } else if n == 0x2029 {
            21
        } else if n == 0x202f {
            22
        } else if n == 0x205f {
            23
        } else {
            24
        };
        assert(listed[at] == n);
    }
}

/// Law: trimming cuts white space off both ends, and nothing else. What is left is a part of the
/// text that neither starts nor ends with white space, and all that was cut off is white space.
pub proof fn law_trimmed(s: Seq<char>)
    ensures
        exists|from: int, to: int|
            0 <= from <= to <= s.len() && trimmed(s) == #[trigger] s.subrange(from, to) && (forall|
                k: int,
            |
                0 <= k < from || to <= k < s.len() ==> white_space(#[trigger] s[k])) && (from < to
                ==> !white_space(s[from]) && !white_space(s[to - 1])),
{
    let head = trim_start(s);
    lemma_trim_start_white(s);
    lemma_trim_end_white(head);
    lemma_trim_start_suffix(s);
    lemma_trim_end_prefix(head);
    let from = s.len() - head.len();
    let to = from + trimmed(s).len();
    assert(s.subrange(from, to) =~= trimmed(s));
    assert forall|k: int| 0 <= k < from || to <= k < s.len() implies white_space(
        #[trigger] s[k],
    ) by {
        if k >= to {
            assert(head[k - from] == s[k]);
        }
    }
    if from < to {
        assert(s[from] == head.first());
        assert(s[to - 1] == trimmed(s).last());
    }
}

/// Law: [`trim`] trims.
pub proof fn law_trim(s: &str, r: String)
    requires
        call_ensures(trim, (s,), r),
    ensures
        exists|from: int, to: int|
            0 <= from <= to <= s@.len() && r@ == #[trigger] s@.subrange(from, to) && (forall|
                k: int,
            |
                0 <= k < from || to <= k < s@.len() ==> white_space(#[trigger] s@[k])) && (from < to
                ==> !white_space(s@[from]) && !white_space(s@[to - 1])),
{
    law_trimmed(s@);
}

proof fn lemma_trim_start_white(s: Seq<char>)
    ensures
        forall|k: int|
            0 <= k < s.len() - trim_start(s).len() ==> white_space(#[trigger] s[k]),
    decreases s.len(),
{
    if s.len() > 0 && white_space(s.first()) {
        let rest = s.drop_first();
        lemma_trim_start_white(rest);
        assert forall|k: int| 0 <= k < s.len() - trim_start(s).len() implies white_space(
            #[trigger] s[k],
        ) by {
            if k > 0 {
                assert(rest[k - 1] == s[k]);
            }
        }
    }
}

proof fn lemma_trim_end_white(s: Seq<char>)
    ensures
        forall|k: int| trim_end(s).len() <= k < s.len() ==> white_space(#[trigger] s[k]),
    decreases s.len(),
{
    if s.len() > 0 && white_space(s.last()) {
        let init = s.drop_last();
        lemma_trim_end_white(init);
        assert forall|k: int| trim_end(s).len() <= k < s.len() implies white_space(
            #[trigger] s[k],
        ) by {
            if k < init.len() {
                assert(init[k] == s[k]);
            }
        }
    }
}

/// Law: a text has one piece more than it has separators, and piece `i` is all that stands behind
/// the first `i` separators and before the next one.
pub proof fn law_pieces(s: Seq<char>, sep: char, i: int)
    requires
        0 <= i < pieces(s, sep).len(),
    ensures
        pieces(s, sep).len() == s.to_multiset().count(sep) + 1,
        exists|from: int, to: int|
            0 <= from <= to <= s.len() && pieces(s, sep)[i] == #[trigger] s.subrange(from, to)
                && s.take(from).to_multiset().count(sep) == i && (from > 0 ==> s[from - 1] == sep)
                && (to < s.len() ==> s[to] == sep) && !s.subrange(from, to).contains(sep),
    decreases s.len(),
{
    broadcast use vstd::seq_lib::group_to_multiset_ensures, vstd::multiset::group_multiset_axioms;

    let all = pieces(s, sep);
    if s.len() == 0 {
        assert(s.subrange(0, 0) =~= s);
        assert(s.take(0) =~= s);
        assert(s.to_multiset().count(sep) == 0);
        assert(all[0] == s.subrange(0, 0));
    } else {
        let init = s.drop_last();
        let before = pieces(init, sep);
        let last = s.len() - 1;
        lemma_pieces_len(init, sep);
        law_pieces(init, sep, 0);
        assert(init.push(s.last()) =~= s);
        assert(s.to_multiset() =~= init.to_multiset().insert(s.last()));
        if s.last() == sep && i == before.len() {
            assert(s.subrange(last + 1, last + 1) =~= Seq::empty());
            assert(s.take(last + 1) =~= s);
            assert(all[i] == s.subrange(last + 1, last + 1));
        } else {
            law_pieces(init, sep, i);
            let (from, to) = choose|from: int, to: int|
                0 <= from <= to <= init.len() && before[i] == #[trigger] init.subrange(from, to)
                    && init.take(from).to_multiset().count(sep) == i && (from > 0 ==> init[from - 1]
                    == sep) && (to < init.len() ==> init[to] == sep) && !init.subrange(
                    from,
                    to,
                ).contains(sep);
            assert(init.take(from) =~= s.take(from));
            if s.last() == sep || i < before.len() - 1 {
                if to == init.len() && s.last() != sep {
                    lemma_no_sep_after(init, sep, from);
                }
                assert(s.subrange(from, to) =~= init.subrange(from, to));
                assert(all[i] == s.subrange(from, to));
            } else {
                lemma_last_piece_reaches_end(init, sep, from, to, i);
                assert(to == init.len());
                assert(s.subrange(from, to + 1) =~= init.subrange(from, to).push(s.last()));
                assert(all[i] == s.subrange(from, to + 1));
                let longer = s.subrange(from, to + 1);
                assert(!longer.contains(sep)) by {
                    if longer.contains(sep) {
                        let k = choose|k: int| 0 <= k < longer.len() && longer[k] == sep;
                        assert(k < to - from);
                        assert(init.subrange(from, to)[k] == sep);
                    }
                }
            }
        }
    }
}

/// If no separator stands behind `from`, all of them stand before it.
proof fn lemma_no_sep_after(s: Seq<char>, sep: char, from: int)
    requires
        0 <= from <= s.len(),
        !s.subrange(from, s.len() as int).contains(sep),
    ensures
        s.to_multiset().count(sep) == s.take(from).to_multiset().count(sep),
    decreases s.len() - from,
{
    broadcast use vstd::seq_lib::group_to_multiset_ensures, vstd::multiset::group_multiset_axioms;

    if from == s.len() {
        assert(s.take(from) =~= s);
    } else {
        assert(s.subrange(from, s.len() as int)[0] == s[from]);
        assert(s[from] != sep);
        assert forall|k: int| 0 <= k < s.len() - from - 1 implies (#[trigger] s.subrange(
            from + 1,
            s.len() as int,
        )[k]) != sep by {
            assert(s.subrange(from, s.len() as int)[k + 1] == s[from + 1 + k]);
        }
        lemma_no_sep_after(s, sep, from + 1);
        assert(s.take(from + 1) =~= s.take(from).push(s[from]));
    }
}

/// The piece behind all separators reaches to the end of the text.
proof fn lemma_last_piece_reaches_end(s: Seq<char>, sep: char, from: int, to: int, i: int)
    requires
        0 <= from <= to <= s.len(),
        s.take(from).to_multiset().count(sep) == i,
        i == s.to_multiset().count(sep),
        to < s.len() ==> s[to] == sep,
    ensures
        to == s.len(),
{
    if to < s.len() {
        lemma_count_grows(s, sep, from, to);
        lemma_count_grows(s, sep, to + 1, s.len() as int);
        broadcast use vstd::seq_lib::group_to_multiset_ensures, vstd::multiset::group_multiset_axioms;

        assert(s.take(to + 1) =~= s.take(to).push(s[to]));
        assert(s.take(s.len() as int) =~= s);
    }
}

proof fn lemma_count_grows(s: Seq<char>, sep: char, a: int, b: int)
    requires
        0 <= a <= b <= s.len(),
    ensures
        s.take(a).to_multiset().count(sep) <= s.take(b).to_multiset().count(sep),
    decreases b - a,
{
    broadcast use vstd::seq_lib::group_to_multiset_ensures, vstd::multiset::group_multiset_axioms;

    if a < b {
        lemma_count_grows(s, sep, a, b - 1);
        assert(s.take(b) =~= s.take(b - 1).push(s[b - 1]));
    }
}

/// Law: [`split_and_trim`] gives one text more than there are separators. Text `i` is all that stands
/// behind the first `i` separators and before the next one, without surrounding white space.
pub proof fn law_split_and_trim(s: &str, sep: char, r: Vec<String>, i: int)
    requires
        call_ensures(split_and_trim, (s, sep), r),
    ensures
        r@.len() == s@.to_multiset().count(sep) + 1,
        0 <= i < r@.len() ==> exists|from: int, to: int|
            0 <= from <= to <= s@.len() && r@[i]@ == trimmed(#[trigger] s@.subrange(from, to))
                && s@.take(from).to_multiset().count(sep) == i && (from > 0 ==> s@[from - 1] == sep)
                && (to < s@.len() ==> s@[to] == sep) && !s@.subrange(from, to).contains(sep),
{
    lemma_pieces_len(s@, sep);
    law_pieces(s@, sep, 0);
    assert(views(r@).len() == r@.len());
    if 0 <= i < r@.len() {
        law_pieces(s@, sep, i);
        assert(views(r@)[i] == r@[i]@);
        let (from, to) = choose|from: int, to: int|
            0 <= from <= to <= s@.len() && pieces(s@, sep)[i] == #[trigger] s@.subrange(from, to)
                && s@.take(from).to_multiset().count(sep) == i && (from > 0 ==> s@[from - 1] == sep)
                && (to < s@.len() ==> s@[to] == sep) && !s@.subrange(from, to).contains(sep);
        assert(r@[i]@ == trimmed(s@.subrange(from, to)));
    }
}

/// Law: a joining is the parts one behind the other, each but the first with the separator in front.
pub proof fn law_joined(parts: Seq<Seq<char>>, sep: char)
    ensures
        joined(parts, sep) == Seq::new(
            parts.len(),
            |i: int| if i == 0 { parts[i] } else { seq![sep] + parts[i] },
        ).flatten(),
    decreases parts.len(),
{
    let spaced = Seq::new(
        parts.len(),
        |i: int| if i == 0 { parts[i] } else { seq![sep] + parts[i] },
    );
    spaced.lemma_flatten_and_flatten_alt_are_equivalent();
    if parts.len() > 0 {
        let init = parts.drop_last();
        let before = Seq::new(
            init.len(),
            |i: int| if i == 0 { init[i] } else { seq![sep] + init[i] },
        );
        law_joined(init, sep);
        assert(spaced.drop_last() =~= before);
        before.lemma_flatten_and_flatten_alt_are_equivalent();
        if parts.len() == 1 {
            assert(before =~= Seq::empty());
            assert(spaced.flatten_alt() =~= parts[0]);
        } else {
            assert(spaced.flatten_alt() =~= joined(init, sep).push(sep) + parts.last());
        }
    }
}

/// Law: [`join`] joins.
pub proof fn law_join(parts: &Vec<String>, sep: &str, r: String)
    requires
        sep@.len() == 1,
        call_ensures(join, (parts, sep), r),
    ensures
        r@ == Seq::new(
            parts@.len(),
            |i: int| if i == 0 { parts@[i]@ } else { sep@ + parts@[i]@ },
        ).flatten(),
{
    law_joined(views(parts@), sep@[0]);
    assert(seq![sep@[0]] =~= sep@);
    assert(Seq::new(
        views(parts@).len(),
        |i: int| if i == 0 { views(parts@)[i] } else { seq![sep@[0]] + views(parts@)[i] },
    ) =~= Seq::new(parts@.len(), |i: int| if i == 0 { parts@[i]@ } else { sep@ + parts@[i]@ }));
}

/// Law: a numeral consists of decimal digits, has no leading zero but in `0`, and its value is the
/// number that it stands for.
pub proof fn law_numeral(n: nat)
    ensures
        numeral(n).len() >= 1,
        forall|k: int| 0 <= k < numeral(n).len() ==> '0' <= #[trigger] numeral(n)[k] <= '9',
        numeral(n).len() > 1 ==> numeral(n)[0] != '0',
        numeral(n).fold_left(0int, |value: int, c: char| 10 * value + (c as int - '0' as int)) == n,
    decreases n,
{
    let f = |value: int, c: char| 10 * value + (c as int - '0' as int);
    reveal_with_fuel(Seq::fold_left, 3);
    if n >= 10 {
        law_numeral(n / 10);
        let before = numeral(n / 10);
        assert(numeral(n).drop_last() =~= before);
        assert(numeral(n).last() == digit(n % 10));
        assert forall|k: int| 0 <= k < numeral(n).len() implies '0' <= #[trigger] numeral(n)[k]
            <= '9' by {
            if k < before.len() {
                assert(numeral(n)[k] == before[k]);
            }
        }
        assert(numeral(n)[0] == before[0]);
        if before.len() == 1 && before[0] == '0' {
            assert(before.drop_last() =~= Seq::empty());
            assert(before.fold_left(0int, f) == 0);
        }
        assert(numeral(n).fold_left(0int, f) == f(before.fold_left(0int, f), digit(n % 10)));
    } else {
        assert(numeral(n).drop_last() =~= Seq::empty());
        assert(numeral(n).last() == digit(n));
    }
}

/// Law: [`decimal`] gives the numeral of a number.
pub proof fn law_decimal(n: usize, r: String)
    requires
        call_ensures(decimal, (n,), r),
    ensures
        r@.len() >= 1,
        forall|k: int| 0 <= k < r@.len() ==> '0' <= #[trigger] r@[k] <= '9',
        r@.len() > 1 ==> r@[0] != '0',
        r@.fold_left(0int, |value: int, c: char| 10 * value + (c as int - '0' as int)) == n,
{
    law_numeral(n as nat);
}

/// Law: views are taken one by one.
pub proof fn law_views<T: View>(s: Seq<T>)
    ensures
        views(s).len() == s.len(),
        forall|i: int| 0 <= i < s.len() ==> #[trigger] views(s)[i] == s[i]@,
{
}

} // verus!
