//! Building and measuring text.

use vstd::prelude::*;

verus! {

/// `String::push` appends the character and changes nothing else.
pub assume_specification[ String::push ](s: &mut String, c: char)
    ensures
        final(s)@ == old(s)@.push(c),
;

/// `parts` one after the other with `sep` between them.
pub open spec fn joined(parts: Seq<Seq<char>>, sep: Seq<char>) -> Seq<char>
    decreases parts.len(),
{
    if parts.len() == 0 {
        Seq::empty()
    } else if parts.len() == 1 {
        parts[0]
    } else {
        joined(parts.drop_last(), sep) + sep + parts.last()
    }
}

/// The characters of each of several strings.
pub open spec fn texts(s: Seq<String>) -> Seq<Seq<char>> {
    s.map_values(|t: String| t@)
}

/// The strings from `from` on, one after the other with `sep` between them.
pub fn join_from(parts: &Vec<String>, from: usize, sep: &str) -> (r: String)
    requires
        from <= parts@.len(),
    ensures
        r@ == joined(texts(parts@).skip(from as int), sep@),
{
    let ghost all = texts(parts@).skip(from as int);
    let mut r = String::new();
    let mut i = from;
    while i < parts.len()
        invariant
            from <= i <= parts@.len(),
            all == texts(parts@).skip(from as int),
            r@ == joined(all.take(i - from), sep@),
        decreases parts@.len() - i,
    {
        let ghost seen = all.take(i - from + 1);
        assert(seen.drop_last() =~= all.take(i - from));
        assert(seen.last() == parts@[i as int]@);
        if i > from {
            r.append(sep);
        }
        r.append(parts[i].as_str());
        proof {
            if i == from {
                assert(r@ =~= seen[0]);
            } else {
                assert(r@ =~= joined(seen, sep@));
            }
        }
        i += 1;
    }
    assert(all.take(parts@.len() - from) =~= all);
    r
}

/// A copy of a list of strings.
pub fn copy_strings(strings: &Vec<String>) -> (r: Vec<String>)
    ensures
        texts(r@) == texts(strings@),
{
    let mut r: Vec<String> = Vec::new();
    let mut i: usize = 0;
    while i < strings.len()
        invariant
            i <= strings@.len(),
            r@.len() == i,
            forall|j: int| 0 <= j < i ==> (#[trigger] r@[j])@ == strings@[j]@,
        decreases strings@.len() - i,
    {
        r.push(strings[i].clone());
        i += 1;
    }
    assert(texts(r@) =~= texts(strings@));
    r
}

/// `width` times the same character.
pub open spec fn repeated(c: char, width: int) -> Seq<char> {
    Seq::new(
        if width > 0 {
            width as nat
        } else {
            0
        },
        |i: int| c,
    )
}

/// Appends the same character `width` times.
pub fn push_n(s: &mut String, c: char, width: usize)
    ensures
        final(s)@ == old(s)@ + repeated(c, width as int),
{
    let mut i: usize = 0;
    assert(s@ =~= old(s)@ + repeated(c, 0));
    while i < width
        invariant
            i <= width,
            s@ == old(s)@ + repeated(c, i as int),
        decreases width - i,
    {
        s.push(c);
        i += 1;
        assert(s@ =~= old(s)@ + repeated(c, i as int));
    }
}

/// The characters of a string.
pub fn chars_of(s: &str) -> (r: Vec<char>)
    ensures
        r@ == s@,
{
    let mut r: Vec<char> = Vec::new();
    for c in it: s.chars()
        invariant
            it.seq() == s@,
            r@ == s@.take(it.index() as int),
    {
        assert(s@.take(it.index() as int + 1) == s@.take(it.index() as int).push(c));
        r.push(c);
    }
    assert(r@ =~= s@);
    r
}

/// The string of some characters.
pub fn string_of(chars: &Vec<char>, from: usize, to: usize) -> (r: String)
    requires
        from <= to <= chars@.len(),
    ensures
        r@ == chars@.subrange(from as int, to as int),
{
    let mut r = String::new();
    let mut i = from;
    assert(r@ =~= chars@.subrange(from as int, from as int));
    while i < to
        invariant
            from <= i <= to <= chars@.len(),
            r@ == chars@.subrange(from as int, i as int),
        decreases to - i,
    {
        r.push(chars[i]);
        assert(chars@.subrange(from as int, i + 1) =~= chars@.subrange(from as int, i as int).push(
            chars@[i as int],
        ));
        i += 1;
    }
    r
}

/// The number of characters of a string.
pub fn length(s: &str) -> (r: usize)
    ensures
        r == s@.len(),
{
    s.unicode_len()
}

/// Where the control sequence whose parameters start at `i` ends: behind the
/// first character from `@` to `~`, or at the end of the text.
pub open spec fn control_end(s: Seq<char>, i: int) -> int
    decreases s.len() - i,
{
    if i < 0 || i >= s.len() {
        s.len() as int
    } else if '@' <= s[i] <= '~' {
        i + 1
    } else {
        control_end(s, i + 1)
    }
}

/// A control sequence starts at `i`.
pub open spec fn control_at(s: Seq<char>, i: int) -> bool {
    i + 1 < s.len() && s[i] == '\u{1b}' && s[i + 1] == '['
}

/// A control sequence ends within its text.
pub proof fn lemma_control_end(s: Seq<char>, i: int)
    requires
        0 <= i <= s.len(),
    ensures
        i <= control_end(s, i) <= s.len(),
    decreases s.len() - i,
{
    if i < s.len() && !('@' <= s[i] <= '~') {
        lemma_control_end(s, i + 1);
    }
}

/// The columns that a text takes from `i` on: a character each, and none for a
/// control sequence.
pub open spec fn width_from(s: Seq<char>, i: int) -> nat
    decreases s.len() - i,
{
    if i < 0 || i >= s.len() {
        0
    } else if control_at(s, i) && i < control_end(s, i + 2) <= s.len() {
        width_from(s, control_end(s, i + 2))
    } else {
        1 + width_from(s, i + 1)
    }
}

/// The columns that a text takes.
pub open spec fn visible_width_of(s: Seq<char>) -> nat {
    width_from(s, 0)
}

/// The columns that a text takes.
pub fn visible_width(s: &str) -> (r: usize)
    ensures
        r == visible_width_of(s@),
{
    let chars = chars_of(s);
    let total = chars.len();
    let mut i: usize = 0;
    let mut width: usize = 0;
    while i < total
        invariant
            i <= total,
            total == chars@.len(),
            chars@ == s@,
            width <= i,
            visible_width_of(s@) == width + width_from(s@, i as int),
        decreases total - i,
    {
        if total - i > 1 && chars[i] == '\u{1b}' && chars[i + 1] == '[' {
            proof {
                lemma_control_end(s@, i + 2);
            }
            let mut e = i + 2;
            let mut found = false;
            while e < total && !found
                invariant
                    i + 2 <= e <= total,
                    total == chars@.len(),
                    chars@ == s@,
                    control_end(s@, i + 2) == if found {
                        e as int
                    } else {
                        control_end(s@, e as int)
                    },
                decreases total - e,
            {
                if '@' <= chars[e] && chars[e] <= '~' {
                    found = true;
                }
                e += 1;
            }
            i = e;
        } else {
            width += 1;
            i += 1;
        }
    }
    width
}

/// Where the first newline from `i` on stands, or the end of the text.
pub open spec fn line_end(s: Seq<char>, i: int) -> int
    decreases s.len() - i,
{
    if i < 0 || i >= s.len() {
        s.len() as int
    } else if s[i] == '\n' {
        i
    } else {
        line_end(s, i + 1)
    }
}

/// A line without the carriage return before its newline.
pub open spec fn without_return(line: Seq<char>) -> Seq<char> {
    if line.len() > 0 && line.last() == '\r' {
        line.drop_last()
    } else {
        line
    }
}

/// The lines of a text from `i` on. A newline at the very end starts no line.
pub open spec fn lines_from(s: Seq<char>, i: int) -> Seq<Seq<char>>
    decreases s.len() - i,
{
    if i < 0 || i >= s.len() {
        Seq::empty()
    } else {
        let e = line_end(s, i);
        if e >= s.len() || e < i {
            seq![s.skip(i)]
        } else {
            seq![without_return(s.subrange(i, e))] + lines_from(s, e + 1)
        }
    }
}

/// The lines of a text.
pub open spec fn lines_of(s: Seq<char>) -> Seq<Seq<char>> {
    lines_from(s, 0)
}

proof fn lemma_line_end(s: Seq<char>, i: int)
    requires
        0 <= i <= s.len(),
    ensures
        i <= line_end(s, i) <= s.len(),
        line_end(s, i) < s.len() ==> s[line_end(s, i)] == '\n',
    decreases s.len() - i,
{
    if i < s.len() && s[i] != '\n' {
        lemma_line_end(s, i + 1);
    }
}

/// The lines of a text.
pub fn lines(s: &str) -> (r: Vec<String>)
    ensures
        texts(r@) == lines_of(s@),
{
    let chars = chars_of(s);
    let total = chars.len();
    let mut r: Vec<String> = Vec::new();
    let mut i: usize = 0;
    assert(texts(r@) + lines_from(s@, 0) =~= lines_of(s@));
    while i < total
        invariant
            i <= total,
            total == chars@.len(),
            chars@ == s@,
            texts(r@) + lines_from(s@, i as int) == lines_of(s@),
        decreases total - i,
    {
        proof {
            lemma_line_end(s@, i as int);
        }
        let ghost before = texts(r@);
        let mut e = i;
        while e < total && chars[e] != '\n'
            invariant
                i <= e <= total,
                total == chars@.len(),
                chars@ == s@,
                line_end(s@, i as int) == line_end(s@, e as int),
            decreases total - e,
        {
            e += 1;
        }
        if e >= total {
            let line = string_of(&chars, i, total);
            assert(line@ =~= s@.skip(i as int));
            let ghost shown = line@;
            r.push(line);
            proof {
                assert(texts(r@) =~= before.push(shown));
                assert(lines_from(s@, i as int) =~= seq![shown]);
                assert(lines_from(s@, total as int) =~= Seq::empty());
                assert(texts(r@) + lines_from(s@, total as int) =~= before + lines_from(
                    s@,
                    i as int,
                ));
            }
            i = total;
        } else {
            let end = if e > i && chars[e - 1] == '\r' {
                e - 1
            } else {
                e
            };
            let line = string_of(&chars, i, end);
            let ghost shown = line@;
            proof {
                let whole = s@.subrange(i as int, e as int);
                if e > i {
                    assert(whole.last() == s@[e - 1]);
                }
                assert(shown =~= without_return(whole));
            }
            r.push(line);
            proof {
                assert(texts(r@) =~= before.push(shown));
                assert(texts(r@) + lines_from(s@, e + 1) =~= before + (seq![shown] + lines_from(
                    s@,
                    e + 1,
                )));
            }
            i = e + 1;
        }
    }
    assert(texts(r@) + lines_from(s@, i as int) =~= texts(r@));
    r
}

/// A text cut down to a number of characters, the last one then an ellipsis.
/// There is nothing to cut a text down to no characters at all.
pub open spec fn chopped(s: Seq<char>, width: nat) -> Option<Seq<char>> {
    if s.len() <= width {
        Some(s)
    } else if width == 0 {
        None
    } else {
        Some(s.take(width - 1).push('…'))
    }
}

/// A text cut down to a number of characters.
pub fn chop(s: String, width: usize) -> (r: Option<String>)
    ensures
        match r {
            Some(t) => chopped(s@, width as nat) == Some(t@),
            None => chopped(s@, width as nat) is None,
        },
{
    let n = length(s.as_str());
    if n <= width {
        return Some(s);
    }
    if width == 0 {
        return None;
    }
    let mut t = s.as_str().substring_char(0, width - 1).to_owned();
    t.push('…');
    assert(t@ =~= s@.take(width - 1).push('…'));
    Some(t)
}

/// A text filled up with spaces on the right.
pub open spec fn left_aligned(s: Seq<char>, width: nat) -> Seq<char> {
    s + repeated(' ', width - s.len())
}

/// A text filled up with spaces on the left.
pub open spec fn right_aligned(s: Seq<char>, width: nat) -> Seq<char> {
    repeated(' ', width - s.len()) + s
}

/// Texts that are joined stand one after the other with the separator between
/// them, and nowhere else.
pub proof fn law_joined(first: Seq<char>, rest: Seq<Seq<char>>, sep: Seq<char>)
    ensures
        joined(seq![first], sep) == first,
        rest.len() > 0 ==> joined(seq![first] + rest, sep) == first + sep + joined(rest, sep),
    decreases rest.len(),
{
    if rest.len() > 0 {
        let all = seq![first] + rest;
        assert(all.last() == rest.last());
        assert(all.drop_last() =~= seq![first] + rest.drop_last());
        if rest.len() > 1 {
            law_joined(first, rest.drop_last(), sep);
            assert(joined(all, sep) =~= first + sep + joined(rest, sep));
        } else {
            assert(rest.drop_last() =~= Seq::empty());
            assert(all.drop_last() =~= seq![first]);
            assert(joined(all.drop_last(), sep) == first);
            assert(joined(rest, sep) == rest.last());
            assert(joined(all, sep) =~= first + sep + joined(rest, sep));
        }
    }
}

} // verus!
