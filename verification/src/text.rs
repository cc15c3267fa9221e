//! Strings as sequences of characters: numbers, trimming, splitting.

use vstd::prelude::*;

verus! {

/// `String::push` appends one character.
pub assume_specification[ String::push ](s: &mut String, c: char)
    ensures
        final(s)@ == old(s)@.push(c),
;

/// The character of a decimal digit.
pub open spec fn digit_char(d: nat) -> char {
    (48 + d) as char
}

/// A number in decimal, without leading zeros.
pub open spec fn decimal(n: nat) -> Seq<char>
    decreases n,
{
    if n < 10 {
        seq![digit_char(n)]
    } else {
        decimal(n / 10).push(digit_char(n % 10))
    }
}

/// Appends `n` in decimal.
pub fn push_decimal(out: &mut String, n: u64)
    ensures
        final(out)@ == old(out)@ + decimal(n as nat),
    decreases n,
{
    if n >= 10 {
        push_decimal(out, n / 10);
    }
    let d: u8 = (n % 10) as u8;
    out.push((48 + d) as char);
    proof {
        assert(out@ =~= old(out)@ + decimal(n as nat));
    }
}

/// Appends a string.
pub fn push_text(out: &mut String, text: &str)
    ensures
        final(out)@ == old(out)@ + text@,
{
    out.append(text);
}

/// Appends characters.
pub fn push_chars(out: &mut String, chars: &Vec<char>)
    ensures
        final(out)@ == old(out)@ + chars@,
{
    let ghost before = out@;
    for i in 0..chars.len()
        invariant
            out@ == before + chars@.take(i as int),
    {
        out.push(chars[i]);
        proof {
            assert(before + chars@.take(i + 1) =~= (before + chars@.take(i as int)).push(chars@[i as int]));
        }
    }
    proof {
        assert(chars@.take(chars@.len() as int) =~= chars@);
    }
}

/// The characters of a string.
pub fn chars_of(s: &str) -> (chars: Vec<char>)
    ensures
        chars@ == s@,
{
    let mut chars: Vec<char> = Vec::new();
    for c in it: s.chars()
        invariant
            chars@ == it.seq().take(it.index()),
            it.seq() == s@,
    {
        chars.push(c);
        proof {
            assert(it.seq().take(it.index() + 1) =~= it.seq().take(it.index()).push(c));
        }
    }
    proof {
        assert(s@.take(s@.len() as int) =~= s@);
    }
    chars
}

/// The string of some characters.
pub fn string_of(chars: &Vec<char>) -> (s: String)
    ensures
        s@ == chars@,
{
    let mut s = String::new();
    push_chars(&mut s, chars);
    proof {
        assert(Seq::<char>::empty() + chars@ =~= chars@);
    }
    s
}

/// Characters that trimming removes: those that Unicode calls white space.
pub open spec fn is_space(c: char) -> bool {
    ||| 0x09 <= c as u32 <= 0x0D
    ||| c as u32 == 0x20
    ||| c as u32 == 0x85
    ||| c as u32 == 0xA0
    ||| c as u32 == 0x1680
    ||| 0x2000 <= c as u32 <= 0x200A
    ||| c as u32 == 0x2028
    ||| c as u32 == 0x2029
    ||| c as u32 == 0x202F
    ||| c as u32 == 0x205F
    ||| c as u32 == 0x3000
}

/// Tells white space.
pub fn space(c: char) -> (b: bool)
    ensures
        b == is_space(c),
{
    let u: u32 = c as u32;
    (0x09 <= u && u <= 0x0D) || u == 0x20 || u == 0x85 || u == 0xA0 || u == 0x1680 || (0x2000 <= u && u
        <= 0x200A) || u == 0x2028 || u == 0x2029 || u == 0x202F || u == 0x205F || u == 0x3000
}

/// Without the white space in front.
pub open spec fn trimmed_start(s: Seq<char>) -> Seq<char>
    decreases s.len(),
{
    if s.len() > 0 && is_space(s[0]) {
        trimmed_start(s.drop_first())
    } else {
        s
    }
}

/// Without the white space at the end.
pub open spec fn trimmed_end(s: Seq<char>) -> Seq<char>
    decreases s.len(),
{
    if s.len() > 0 && is_space(s.last()) {
        trimmed_end(s.drop_last())
    } else {
        s
    }
}

/// Without the white space at both ends.
pub open spec fn trimmed(s: Seq<char>) -> Seq<char> {
    trimmed_end(trimmed_start(s))
}

/// Trimming takes the white space from both ends and nothing else: what is left is a part of
/// the text that neither begins nor ends with white space, with nothing but white space around.
pub proof fn law_trimmed_is_inner_part(s: Seq<char>) -> (bounds: (int, int))
    ensures
        0 <= bounds.0 <= bounds.1 <= s.len(),
        trimmed(s) == s.subrange(bounds.0, bounds.1),
        forall|i: int| 0 <= i < bounds.0 || bounds.1 <= i < s.len() ==> is_space(#[trigger] s[i]),
        bounds.0 < bounds.1 ==> !is_space(s[bounds.0]) && !is_space(s[bounds.1 - 1]),
{
    let a = lemma_trimmed_start(s);
    let t = s.skip(a);
    let b = lemma_trimmed_end(t);
    assert(trimmed(s) =~= s.subrange(a, a + b));
    assert forall|i: int| 0 <= i < a || a + b <= i < s.len() implies is_space(#[trigger] s[i]) by {
        if i >= a + b {
            assert(t[i - a] == s[i]);
        }
    }
    if b > 0 {
        assert(t[b - 1] == s[a + b - 1]);
        assert(t[0] == s[a]);
    }
    (a, a + b)
}

proof fn lemma_trimmed_start(s: Seq<char>) -> (a: int)
    ensures
        0 <= a <= s.len(),
        trimmed_start(s) == s.skip(a),
        forall|i: int| 0 <= i < a ==> is_space(#[trigger] s[i]),
        a < s.len() ==> !is_space(s[a]),
    decreases s.len(),
{
    if s.len() > 0 && is_space(s[0]) {
        let rest = s.drop_first();
        let a = lemma_trimmed_start(rest);
        assert(s.skip(a + 1) =~= rest.skip(a));
        assert forall|i: int| 0 <= i < a + 1 implies is_space(#[trigger] s[i]) by {
            if i > 0 {
                assert(rest[i - 1] == s[i]);
            }
        }
        a + 1
    } else {
        assert(s.skip(0) =~= s);
        0
    }
}

proof fn lemma_trimmed_end(s: Seq<char>) -> (b: int)
    ensures
        0 <= b <= s.len(),
        trimmed_end(s) == s.take(b),
        forall|i: int| b <= i < s.len() ==> is_space(#[trigger] s[i]),
        b > 0 ==> !is_space(s[b - 1]),
    decreases s.len(),
{
    if s.len() > 0 && is_space(s.last()) {
        let rest = s.drop_last();
        let b = lemma_trimmed_end(rest);
        assert(s.take(b) =~= rest.take(b));
        assert forall|i: int| b <= i < s.len() implies is_space(#[trigger] s[i]) by {
            if i < s.len() - 1 {
                assert(rest[i] == s[i]);
            }
        }
        b
    } else {
        assert(s.take(s.len() as int) =~= s);
        s.len() as int
    }
}

/// The characters from `from` up to `to`.
pub fn slice_chars(chars: &Vec<char>, from: usize, to: usize) -> (part: Vec<char>)
    requires
        from <= to <= chars@.len(),
    ensures
        part@ == chars@.subrange(from as int, to as int),
{
    let mut part: Vec<char> = Vec::new();
    for i in from..to
        invariant
            from <= to <= chars@.len(),
            part@ == chars@.subrange(from as int, i as int),
    {
        part.push(chars[i]);
        proof {
            assert(part@ =~= chars@.subrange(from as int, i + 1));
        }
    }
    part
}

/// Trims white space at both ends.
pub fn trim(chars: &Vec<char>) -> (part: Vec<char>)
    ensures
        part@ == trimmed(chars@),
{
    let mut from: usize = 0;
    let mut to: usize = chars.len();
    proof {
        assert(chars@.skip(0) =~= chars@);
    }
    while from < to && space(chars[from])
        invariant
            from <= to == chars@.len(),
            trimmed_start(chars@) == trimmed_start(chars@.skip(from as int)),
        decreases to - from,
    {
        proof {
            assert(chars@.skip(from as int).drop_first() =~= chars@.skip(from + 1));
        }
        from += 1;
    }
    let ghost start = trimmed_start(chars@);
    proof {
        assert(start == chars@.skip(from as int));
        assert(chars@.subrange(from as int, to as int) =~= start);
    }
    while from < to && space(chars[to - 1])
        invariant
            from <= to <= chars@.len(),
            trimmed_end(start) == trimmed_end(chars@.subrange(from as int, to as int)),
        decreases to - from,
    {
        proof {
            assert(chars@.subrange(from as int, to as int).drop_last() =~= chars@.subrange(
                from as int,
                to - 1,
            ));
        }
        to -= 1;
    }
    slice_chars(chars, from, to)
}

/// The pieces between separators; there is always one more piece than separators.
pub open spec fn pieces(s: Seq<char>, sep: char) -> Seq<Seq<char>>
    decreases s.len(),
{
    if s.len() == 0 {
        seq![Seq::empty()]
    } else {
        let before = pieces(s.drop_last(), sep);
        if s.last() == sep {
            before.push(Seq::empty())
        } else {
            before.drop_last().push(before.last().push(s.last()))
        }
    }
}

/// Contents of a vector of character vectors.
pub open spec fn contents(v: Seq<Vec<char>>) -> Seq<Seq<char>> {
    Seq::new(v.len(), |i: int| v[i]@)
}

pub proof fn lemma_pieces_len(s: Seq<char>, sep: char)
    ensures
        pieces(s, sep).len() >= 1,
    decreases s.len(),
{
    if s.len() > 0 {
        lemma_pieces_len(s.drop_last(), sep);
    }
}

/// The pieces of a text hold no separator, and put together again with a separator between
/// them they are the text.
pub proof fn law_pieces_make_text(s: Seq<char>, sep: char)
    ensures
        pieces(s, sep).len() >= 1,
        joined(pieces(s, sep), seq![sep]) == s,
        forall|i: int, j: int|
            0 <= i < pieces(s, sep).len() && 0 <= j < pieces(s, sep)[i].len() ==> #[trigger] pieces(
                s,
                sep,
            )[i][j] != sep,
    decreases s.len(),
{
    lemma_pieces_len(s, sep);
    if s.len() == 0 {
        assert(joined(pieces(s, sep), seq![sep]) =~= s);
    } else {
        let p = s.drop_last();
        let before = pieces(p, sep);
        let after = pieces(s, sep);
        law_pieces_make_text(p, sep);
        if s.last() == sep {
            assert(after.drop_last() =~= before);
            assert(joined(after, seq![sep]) =~= s);
        } else {
            assert(after.drop_last() =~= before.drop_last());
            if before.len() == 1 {
                assert(joined(after, seq![sep]) =~= s);
            } else {
                assert(joined(after, seq![sep]) == joined(before.drop_last(), seq![sep]) + seq![sep]
                    + before.last().push(s.last()));
                assert(joined(before, seq![sep]) == joined(before.drop_last(), seq![sep]) + seq![sep]
                    + before.last());
                assert(joined(after, seq![sep]) =~= p.push(s.last()));
                assert(p.push(s.last()) =~= s);
            }
        }
        assert forall|i: int, j: int| 0 <= i < after.len() && 0 <= j < after[i].len() implies #[trigger] after[i][j]
            != sep by {
            if i < after.len() - 1 {
                if s.last() == sep {
                    assert(after[i] == before[i]);
                } else {
                    assert(after[i] == before[i]);
                }
                assert(before[i][j] != sep);
            } else if s.last() != sep {
                assert(after[i] == before.last().push(s.last()));
                if j < before.last().len() {
                    assert(before[before.len() - 1][j] != sep);
                }
            }
        }
    }
}

/// Splits at every separator.
pub fn split(chars: &Vec<char>, sep: char) -> (parts: Vec<Vec<char>>)
    ensures
        contents(parts@) == pieces(chars@, sep),
{
    let mut parts: Vec<Vec<char>> = Vec::new();
    let mut current: Vec<char> = Vec::new();
    for i in 0..chars.len()
        invariant
            contents(parts@).push(current@) == pieces(chars@.take(i as int), sep),
    {
        let c = chars[i];
        let ghost before = pieces(chars@.take(i as int), sep);
        let ghost done = contents(parts@);
        proof {
            assert(chars@.take(i + 1).drop_last() =~= chars@.take(i as int));
            assert(before.drop_last() =~= done);
            assert(before.last() == current@);
        }
        if c == sep {
            parts.push(current);
            current = Vec::new();
            proof {
                assert(contents(parts@) =~= before);
            }
        } else {
            current.push(c);
        }
    }
    let ghost done = contents(parts@);
    let ghost last = current@;
    parts.push(current);
    proof {
        assert(chars@.take(chars@.len() as int) =~= chars@);
        assert(contents(parts@) =~= done.push(last));
    }
    parts
}

/// Compares characters with a string.
pub fn same_text(chars: &Vec<char>, text: &str) -> (b: bool)
    ensures
        b == (chars@ == text@),
{
    let other = chars_of(text);
    if chars.len() != other.len() {
        return false;
    }
    for i in 0..chars.len()
        invariant
            chars@.len() == other@.len(),
            other@ == text@,
            forall|j: int| 0 <= j < i ==> chars@[j] == other@[j],
    {
        if chars[i] != other[i] {
            return false;
        }
    }
    proof {
        assert(chars@ =~= text@);
    }
    true
}

/// `s` begins with `prefix`.
pub open spec fn has_prefix(s: Seq<char>, prefix: Seq<char>) -> bool {
    s.len() >= prefix.len() && s.take(prefix.len() as int) == prefix
}

/// `s` ends with `suffix`.
pub open spec fn has_suffix(s: Seq<char>, suffix: Seq<char>) -> bool {
    s.len() >= suffix.len() && s.skip(s.len() - suffix.len()) == suffix
}

/// What follows the prefix, if it is there.
pub fn strip_prefix(chars: &Vec<char>, prefix: &str) -> (rest: Option<Vec<char>>)
    ensures
        match rest {
            Some(r) => has_prefix(chars@, prefix@) && r@ == chars@.skip(prefix@.len() as int),
            None => !has_prefix(chars@, prefix@),
        },
{
    let p = chars_of(prefix);
    if chars.len() < p.len() {
        return None;
    }
    let head = slice_chars(chars, 0, p.len());
    proof {
        assert(chars@.subrange(0, prefix@.len() as int) =~= chars@.take(prefix@.len() as int));
    }
    if !same_text(&head, prefix) {
        return None;
    }
    let rest = slice_chars(chars, p.len(), chars.len());
    proof {
        assert(rest@ =~= chars@.skip(prefix@.len() as int));
    }
    Some(rest)
}

/// What precedes the suffix, if it is there.
pub fn strip_suffix(chars: &Vec<char>, suffix: &str) -> (rest: Option<Vec<char>>)
    ensures
        match rest {
            Some(r) => has_suffix(chars@, suffix@) && r@ == chars@.take(
                chars@.len() - suffix@.len(),
            ),
            None => !has_suffix(chars@, suffix@),
        },
{
    let p = chars_of(suffix);
    if chars.len() < p.len() {
        return None;
    }
    let at: usize = chars.len() - p.len();
    let tail = slice_chars(chars, at, chars.len());
    proof {
        assert(tail@ =~= chars@.skip(at as int));
    }
    if !same_text(&tail, suffix) {
        return None;
    }
    let rest = slice_chars(chars, 0, at);
    proof {
        assert(rest@ =~= chars@.take(at as int));
    }
    Some(rest)
}

/// The part stands at a place in the text.
pub open spec fn stands_at(s: Seq<char>, part: Seq<char>, at: int) -> bool {
    0 <= at <= s.len() - part.len() && s.subrange(at, at + part.len()) == part
}

/// The part stands somewhere in the text.
pub open spec fn holds(s: Seq<char>, part: Seq<char>) -> bool {
    exists|at: int| #[trigger] stands_at(s, part, at)
}

fn stands(chars: &Vec<char>, part: &str, at: usize) -> (b: bool)
    requires
        at <= chars@.len(),
    ensures
        b == stands_at(chars@, part@, at as int),
{
    let len: usize = chars_of(part).len();
    if len > chars.len() - at {
        return false;
    }
    let piece = slice_chars(chars, at, at + len);
    same_text(&piece, part)
}

/// Tells whether the part stands somewhere in the text.
pub fn contains(chars: &Vec<char>, part: &str) -> (b: bool)
    ensures
        b == holds(chars@, part@),
{
    for at in 0..chars.len()
        invariant
            forall|p: int| 0 <= p < at ==> !#[trigger] stands_at(chars@, part@, p),
    {
        if stands(chars, part, at) {
            return true;
        }
    }
    stands(chars, part, chars.len())
}

/// The text with every place at which `from` stands, found from the front, taken by `to`.
pub open spec fn replaced(s: Seq<char>, from: Seq<char>, to: Seq<char>) -> Seq<char>
    decreases s.len(),
{
    if s.len() == 0 || from.len() == 0 {
        s
    } else if stands_at(s, from, 0) {
        to + replaced(s.skip(from.len() as int), from, to)
    } else {
        seq![s[0]] + replaced(s.skip(1), from, to)
    }
}

/// Replacing goes from place to place: up to the first place at which `from` stands the text
/// stays, there `to` comes in, and so on behind it. A text in which it stands nowhere stays.
pub proof fn law_replaced_at_first_place(s: Seq<char>, from: Seq<char>, to: Seq<char>, at: int)
    requires
        from.len() > 0,
        0 <= at <= s.len(),
        at < s.len() ==> stands_at(s, from, at),
        forall|p: int| 0 <= p < at ==> !#[trigger] stands_at(s, from, p),
    ensures
        replaced(s, from, to) == if at < s.len() {
            s.take(at) + to + replaced(s.skip(at + from.len()), from, to)
        } else {
            s
        },
    decreases at,
{
    if at == 0 {
        if s.len() > 0 {
            assert(s.take(0) + to =~= to);
            assert(s.skip(0 + from.len() as int) == s.skip(from.len() as int));
        }
    } else {
        let rest = s.skip(1);
        assert(!stands_at(s, from, 0));
        assert forall|p: int| 0 <= p < at - 1 implies !#[trigger] stands_at(rest, from, p) by {
            assert(!stands_at(s, from, p + 1));
            if stands_at(rest, from, p) {
                assert(rest.subrange(p, p + from.len()) =~= s.subrange(p + 1, p + 1 + from.len()));
            }
        }
        if at < s.len() {
            assert(rest.subrange(at - 1, at - 1 + from.len()) =~= s.subrange(at, at + from.len()));
        }
        law_replaced_at_first_place(rest, from, to, at - 1);
        if at < s.len() {
            assert(rest.skip(at - 1 + from.len()) =~= s.skip(at + from.len()));
            assert(seq![s[0]] + (rest.take(at - 1) + to + replaced(
                s.skip(at + from.len()),
                from,
                to,
            )) =~= s.take(at) + to + replaced(s.skip(at + from.len()), from, to));
        } else {
            assert(seq![s[0]] + rest =~= s);
        }
    }
}

/// Puts `to` in place of `from`, wherever it stands in the text.
pub fn replace(chars: &Vec<char>, from: &str, to: &str) -> (out: String)
    requires
        from@.len() > 0,
    ensures
        out@ == replaced(chars@, from@, to@),
{
    let len: usize = chars_of(from).len();
    let mut out = String::new();
    let mut at: usize = 0;
    proof {
        assert(chars@.skip(0) =~= chars@);
        assert(out@ + replaced(chars@, from@, to@) =~= replaced(chars@, from@, to@));
    }
    while at < chars.len()
        invariant
            at <= chars@.len(),
            len == from@.len(),
            len > 0,
            out@ + replaced(chars@.skip(at as int), from@, to@) == replaced(chars@, from@, to@),
        decreases chars@.len() - at,
    {
        let ghost rest = chars@.skip(at as int);
        let ghost before = out@;
        if stands(chars, from, at) {
            push_text(&mut out, to);
            proof {
                assert(rest.subrange(0, len as int) =~= chars@.subrange(at as int, at + len));
                assert(rest.skip(len as int) =~= chars@.skip(at + len));
                assert(out@ + replaced(chars@.skip(at + len), from@, to@) =~= before + replaced(
                    rest,
                    from@,
                    to@,
                ));
            }
            at += len;
        } else {
            out.push(chars[at]);
            proof {
                if stands_at(rest, from@, 0) {
                    assert(rest.subrange(0, len as int) =~= chars@.subrange(at as int, at + len));
                }
                assert(rest.skip(1) =~= chars@.skip(at + 1));
                assert(out@ + replaced(chars@.skip(at + 1), from@, to@) =~= before + replaced(
                    rest,
                    from@,
                    to@,
                ));
            }
            at += 1;
        }
    }
    proof {
        assert(chars@.skip(at as int) =~= Seq::empty());
        assert(out@ + Seq::<char>::empty() =~= out@);
    }
    out
}

/// The parts with a separator between them.
pub open spec fn joined(parts: Seq<Seq<char>>, sep: Seq<char>) -> Seq<char>
    decreases parts.len(),
{
    if parts.len() == 0 {
        Seq::empty()
    } else if parts.len() == 1 {
        parts[0]
    } else {
        joined(parts.drop_last(), sep) + sep + parts.last()
    }
}

/// Joined lists with a separator between them are one joined list.
pub proof fn law_joined_adds(a: Seq<Seq<char>>, b: Seq<Seq<char>>, sep: Seq<char>)
    requires
        a.len() > 0,
        b.len() > 0,
    ensures
        joined(a + b, sep) == joined(a, sep) + sep + joined(b, sep),
    decreases b.len(),
{
    assert((a + b).last() == b.last());
    if b.len() == 1 {
        assert((a + b).drop_last() =~= a);
    } else {
        law_joined_adds(a, b.drop_last(), sep);
        assert((a + b).drop_last() =~= a + b.drop_last());
        assert(joined(a, sep) + sep + joined(b.drop_last(), sep) + sep + b.last() =~= joined(a, sep) + sep
            + (joined(b.drop_last(), sep) + sep + b.last()));
    }
}

/// The decimal text of each number.
pub open spec fn decimals(bytes: Seq<u8>) -> Seq<Seq<char>> {
    Seq::new(bytes.len(), |i: int| decimal(bytes[i] as nat))
}

/// A byte list in brackets, as in `[66, 65]`.
pub open spec fn byte_list(bytes: Seq<u8>) -> Seq<char> {
    "["@ + joined(decimals(bytes), ", "@) + "]"@
}

/// Appends a byte list in brackets.
pub fn push_byte_list(out: &mut String, bytes: &[u8])
    ensures
        final(out)@ == old(out)@ + byte_list(bytes@),
{
    push_text(out, "[");
    let ghost start = out@;
    for i in 0..bytes.len()
        invariant
            out@ == start + joined(decimals(bytes@).take(i as int), ", "@),
    {
        let ghost all = decimals(bytes@);
        if i > 0 {
            push_text(out, ", ");
        }
        push_decimal(out, bytes[i] as u64);
        proof {
            assert(all.take(i + 1).drop_last() =~= all.take(i as int));
            assert(out@ =~= start + joined(all.take(i + 1), ", "@));
        }
    }
    push_text(out, "]");
    proof {
        assert(decimals(bytes@).take(bytes@.len() as int) =~= decimals(bytes@));
        assert(out@ =~= old(out)@ + byte_list(bytes@));
    }
}

} // verus!
