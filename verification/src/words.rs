//! Splitting text into lines and words.
use vstd::prelude::*;

verus! {

/// A character of the Unicode property `White_Space`.
pub open spec fn is_space(c: char) -> bool {
    let v = c as u32;
    ||| 9 <= v <= 13
    ||| v == 0x20
    ||| v == 0x85
    ||| v == 0xA0
    ||| v == 0x1680
    ||| 0x2000 <= v <= 0x200A
    ||| v == 0x2028
    ||| v == 0x2029
    ||| v == 0x202F
    ||| v == 0x205F
    ||| v == 0x3000
}

/// Whether a character is white space.
pub(crate) fn check_space(c: char) -> (r: bool)
    ensures
        r == is_space(c),
{
    let v: u32 = c as u32;
    (9 <= v && v <= 13) || v == 0x20 || v == 0x85 || v == 0xA0 || v == 0x1680 || (0x2000 <= v && v
        <= 0x200A) || v == 0x2028 || v == 0x2029 || v == 0x202F || v == 0x205F || v == 0x3000
}

/// The words of a text: the longest runs without white space.
pub open spec fn words(s: Seq<char>) -> Seq<Seq<char>>
    decreases s.len(),
{
    if s.len() == 0 {
        Seq::empty()
    } else {
        let before = words(s.drop_last());
        if is_space(s.last()) {
            before
        } else if s.len() >= 2 && !is_space(s[s.len() - 2]) {
            before.drop_last().push(before.last().push(s.last()))
        } else {
            before.push(seq![s.last()])
        }
    }
}

/// The pieces of a text between its line feeds.
pub open spec fn lines(s: Seq<char>) -> Seq<Seq<char>>
    decreases s.len(),
{
    if s.len() == 0 {
        seq![Seq::empty()]
    } else {
        let before = lines(s.drop_last());
        if s.last() == '\n' {
            before.push(Seq::empty())
        } else {
            before.drop_last().push(before.last().push(s.last()))
        }
    }
}

/// The views of a list of character lists.
pub open spec fn views(v: Seq<Vec<char>>) -> Seq<Seq<char>> {
    v.map_values(|w: Vec<char>| w@)
}

/// There is always a last line.
pub proof fn last_line(s: Seq<char>)
    ensures
        lines(s).len() > 0,
    decreases s.len(),
{
    if s.len() > 0 {
        last_line(s.drop_last());
    }
}

/// Splits a text into words.
pub(crate) fn split_words(s: &Vec<char>) -> (r: Vec<Vec<char>>)
    ensures
        views(r@) == words(s@),
{
    let mut done: Vec<Vec<char>> = Vec::new();
    let mut current: Vec<char> = Vec::new();
    let mut i: usize = 0;
    while i < s.len()
        invariant
            i <= s@.len(),
            current@.len() > 0 <==> (i > 0 && !is_space(s@[i - 1])),
            current@.len() == 0 ==> views(done@) =~= words(s@.take(i as int)),
            current@.len() > 0 ==> views(done@).push(current@) =~= words(s@.take(i as int)),
        decreases s.len() - i,
    {
        let c: char = s[i];
        let ghost t = s@.take(i + 1);
        assert(t.drop_last() =~= s@.take(i as int));
        assert(t.last() == c);
        if check_space(c) {
            if current.len() > 0 {
                let ghost before = done@;
                let ghost word = current;
                let mut fresh: Vec<char> = Vec::new();
                std::mem::swap(&mut fresh, &mut current);
                done.push(fresh);
                assert(views(done@) =~= views(before).push(word@));
            }
        } else {
            let ghost word = current@;
            current.push(c);
            proof {
                if word.len() > 0 {
                    assert(t[t.len() - 2] == s@[i - 1]);
                    assert(views(done@).push(word).drop_last() =~= views(done@));
                } else {
                    assert(t.len() >= 2 ==> t[t.len() - 2] == s@[i - 1]);
                    assert(current@ =~= seq![c]);
                }
            }
        }
        i = i + 1;
    }
    assert(s@.take(s@.len() as int) =~= s@);
    if current.len() > 0 {
        let ghost before = done@;
        let ghost word = current@;
        done.push(current);
        assert(views(done@) =~= views(before).push(word));
    }
    done
}

/// Splits a text at its line feeds.
pub(crate) fn split_lines(s: &Vec<char>) -> (r: Vec<Vec<char>>)
    ensures
        views(r@) == lines(s@),
{
    let mut done: Vec<Vec<char>> = Vec::new();
    let mut current: Vec<char> = Vec::new();
    let mut i: usize = 0;
    assert(s@.take(0) =~= Seq::empty());
    assert(views(done@).push(current@) =~= lines(s@.take(0)));
    while i < s.len()
        invariant
            i <= s@.len(),
            views(done@).push(current@) =~= lines(s@.take(i as int)),
        decreases s.len() - i,
    {
        let c: char = s[i];
        let ghost t = s@.take(i + 1);
        assert(t.drop_last() =~= s@.take(i as int));
        assert(t.last() == c);
        if c == '\n' {
            let ghost before = done@;
            let ghost line = current@;
            let mut fresh: Vec<char> = Vec::new();
            std::mem::swap(&mut fresh, &mut current);
            done.push(fresh);
            assert(views(done@) =~= views(before).push(line));
            assert(current@ =~= Seq::empty());
        } else {
            let ghost line = current@;
            current.push(c);
            assert(views(done@).push(line).drop_last() =~= views(done@));
        }
        i = i + 1;
    }
    assert(s@.take(s@.len() as int) =~= s@);
    let ghost before = done@;
    let ghost line = current@;
    done.push(current);
    assert(views(done@) =~= views(before).push(line));
    done
}

/// The standard library's `String::push`: it appends one character.
pub assume_specification[ String::push ](s: &mut String, c: char)
    ensures
        final(s)@ == old(s)@.push(c),
;

/// The string of a list of characters.
pub(crate) fn string_of(chars: &Vec<char>) -> (r: String)
    ensures
        r@ == chars@,
{
    let mut r: String = String::new();
    let mut i: usize = 0;
    while i < chars.len()
        invariant
            i <= chars@.len(),
            r@ =~= chars@.take(i as int),
        decreases chars.len() - i,
    {
        r.push(chars[i]);
        i = i + 1;
    }
    r
}

/// A letter of the Latin alphabet in its capital form; other characters as they are.
pub open spec fn capital(c: char) -> char {
    if 'a' <= c && c <= 'z' {
        (c as u32 - 32) as char
    } else {
        c
    }
}

/// Whether a word is a given name, apart from the case of its letters. The name is in
/// capitals.
pub open spec fn is_named(word: Seq<char>, name: Seq<char>) -> bool {
    word.map_values(|c: char| capital(c)) == name
}

/// Whether two characters are the same, apart from the case of the first.
fn same_letter(c: char, d: char) -> (r: bool)
    ensures
        r == (capital(c) == d),
{
    if 'a' <= c && c <= 'z' {
        c as u32 - 32 == d as u32
    } else {
        c == d
    }
}

/// Whether a word is a given name, apart from the case of its letters.
pub(crate) fn check_named(word: &Vec<char>, name: &str) -> (r: bool)
    ensures
        r == is_named(word@, name@),
{
    let n: usize = name.unicode_len();
    let ghost up = word@.map_values(|c: char| capital(c));
    if word.len() != n {
        assert(up.len() == word@.len());
        return false;
    }
    let mut i: usize = 0;
    while i < n
        invariant
            i <= n,
            n == word@.len(),
            n == name@.len(),
            up == word@.map_values(|c: char| capital(c)),
            forall|k: int| 0 <= k < i ==> up[k] == name@[k],
        decreases n - i,
    {
        if !same_letter(word[i], name.get_char(i)) {
            assert(up[i as int] != name@[i as int]);
            return false;
        }
        i = i + 1;
    }
    assert(up =~= name@);
    true
}

/// What is cut off a text at its ends.
#[derive(Clone, Copy, Debug, PartialEq, Eq, Structural)]
pub enum Cut {
    Spaces,
    Quotes,
    /// Byte order marks.
    Marks,
}

/// A character that is cut off.
#[verifier::allow_in_spec]
pub fn is_cut(c: char, what: Cut) -> bool
    returns
        (match what {
            Cut::Spaces => is_space(c),
            Cut::Quotes => c == '"',
            Cut::Marks => c == '\u{feff}',
        }),
{
    match what {
        Cut::Spaces => check_space(c),
        Cut::Quotes => c == '"',
        Cut::Marks => c == '\u{feff}',
    }
}

/// A text without what is cut off in front.
pub open spec fn cut_front(s: Seq<char>, what: Cut) -> Seq<char>
    decreases s.len(),
{
    if s.len() > 0 && is_cut(s[0], what) {
        cut_front(s.skip(1), what)
    } else {
        s
    }
}

/// A text without what is cut off behind.
pub open spec fn cut_back(s: Seq<char>, what: Cut) -> Seq<char>
    decreases s.len(),
{
    if s.len() > 0 && is_cut(s.last(), what) {
        cut_back(s.drop_last(), what)
    } else {
        s
    }
}

/// How much is cut off a text in front.
pub(crate) fn cut_length(s: &Vec<char>, what: Cut) -> (i: usize)
    ensures
        i <= s@.len(),
        cut_front(s@, what) == s@.skip(i as int),
{
    let mut i: usize = 0;
    assert(s@.skip(0) =~= s@);
    while i < s.len() && is_cut(s[i], what)
        invariant
            i <= s@.len(),
            cut_front(s@.skip(i as int), what) == cut_front(s@, what),
        decreases s.len() - i,
    {
        assert(s@.skip(i as int).skip(1) =~= s@.skip(i + 1));
        i = i + 1;
    }
    i
}

/// Cuts a text in front.
pub(crate) fn cut_start(s: &Vec<char>, what: Cut) -> (r: Vec<char>)
    ensures
        r@ == cut_front(s@, what),
{
    let first: usize = cut_length(s, what);
    let mut r: Vec<char> = Vec::new();
    let mut k: usize = first;
    while k < s.len()
        invariant
            first <= k <= s@.len(),
            r@ == s@.subrange(first as int, k as int),
        decreases s.len() - k,
    {
        r.push(s[k]);
        k = k + 1;
        assert(r@ =~= s@.subrange(first as int, k as int));
    }
    assert(r@ =~= s@.skip(first as int));
    r
}

/// Cuts a text at both ends.
pub(crate) fn cut_ends(s: &Vec<char>, what: Cut) -> (r: Vec<char>)
    ensures
        r@ == cut_back(cut_front(s@, what), what),
{
    let i: usize = cut_length(s, what);
    let ghost front = s@.skip(i as int);
    assert(cut_front(s@, what) == front);
    let mut end: usize = s.len();
    assert(front.take(front.len() as int) =~= front);
    while end > i && is_cut(s[end - 1], what)
        invariant
            i <= end <= s@.len(),
            front == s@.skip(i as int),
            cut_back(front.take(end - i), what) == cut_back(front, what),
        decreases end - i,
    {
        assert(front.take(end - i).last() == s@[end - 1]);
        assert(front.take(end - i).drop_last() =~= front.take(end - 1 - i));
        end = end - 1;
    }
    let mut r: Vec<char> = Vec::new();
    let mut k: usize = i;
    while k < end
        invariant
            i <= k <= end <= s@.len(),
            r@ =~= s@.subrange(i as int, k as int),
        decreases end - k,
    {
        r.push(s[k]);
        k = k + 1;
    }
    assert(r@ =~= front.take(end - i));
    proof {
        if end > i {
            assert(front.take(end - i).last() == s@[end - 1]);
        }
    }
    r
}

} // verus!
