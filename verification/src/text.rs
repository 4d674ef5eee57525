//! String helpers used by the parser and the help formatter.
use vstd::prelude::*;
use vstd::string::*;
use vstd::utf8::encode_utf8;

verus! {

/// Length of a string in bytes, as `str::len` returns it.
pub open spec fn blen(s: Seq<char>) -> usize {
    encode_utf8(s).len() as usize
}

/// The models of a sequence of strings.
pub open spec fn view_strings(v: Seq<String>) -> Seq<Seq<char>> {
    v.map_values(|s: String| s@)
}

/// `String::push`: appends one character at the end of the string.
#[verifier::external_body]
pub fn push_char(s: &mut String, c: char)
    ensures
        final(s)@ == old(s)@.push(c),
{
    s.push(c)
}

/// A fresh `String` holding the characters of `s`.
pub fn owned(s: &str) -> (r: String)
    ensures
        r@ == s@,
{
    s.to_owned()
}

/// The concatenation `a + b` as a new `String`.
pub fn concat(a: &str, b: &str) -> (r: String)
    ensures
        r@ == a@ + b@,
{
    let mut r = a.to_owned();
    r.append(b);
    r
}

/// ASCII upper-casing of one character; every other character is kept.
pub open spec fn upper_char(c: char) -> char {
    if 'a' <= c && c <= 'z' {
        ((c as u32) - 32) as char
    } else {
        c
    }
}

/// ASCII upper-casing of a string, character by character.
pub open spec fn upper(s: Seq<char>) -> Seq<char> {
    s.map_values(|c: char| upper_char(c))
}

fn upper_char_exec(c: char) -> (r: char)
    ensures
        r == upper_char(c),
{
    if 'a' <= c && c <= 'z' {
        ((c as u8) - 32) as char
    } else {
        c
    }
}

/// `to_ascii_uppercase` on a whole string.
pub fn to_ascii_upper(s: &str) -> (r: String)
    ensures
        r@ == upper(s@),
{
    let n = s.unicode_len();
    let mut r = String::new();
    let mut i: usize = 0;
    while i < n
        invariant
            n == s@.len(),
            i <= n,
            r@ == upper(s@.take(i as int)),
        decreases n - i,
    {
        let c = s.get_char(i);
        push_char(&mut r, upper_char_exec(c));
        assert(s@.take(i + 1) == s@.take(i as int).push(c));
        i = i + 1;
    }
    assert(s@.take(n as int) == s@);
    r
}

/// The strings of `list` with `sep` between each two.
pub open spec fn join(list: Seq<Seq<char>>, sep: Seq<char>) -> Seq<char>
    decreases list.len(),
{
    if list.len() == 0 {
        Seq::empty()
    } else if list.len() == 1 {
        list[0]
    } else {
        join(list.drop_last(), sep) + sep + list.last()
    }
}

/// A list of names as a message shows it: `[a, b, c]`.
pub open spec fn show_names(names: Seq<Seq<char>>) -> Seq<char> {
    "["@ + join(names, ", "@) + "]"@
}

/// Writes a list of names as `[a, b, c]`.
pub fn show_names_exec(names: &Vec<String>) -> (r: String)
    ensures
        r@ == show_names(view_strings(names@)),
{
    let mut r = owned("[");
    let ghost list = view_strings(names@);
    let mut i: usize = 0;
    while i < names.len()
        invariant
            i <= names.len(),
            list == view_strings(names@),
            r@ == "["@ + join(list.take(i as int), ", "@),
        decreases names.len() - i,
    {
        assert(list.take(i + 1).drop_last() == list.take(i as int));
        assert(list.take(i + 1).last() == names@[i as int]@);
        if i > 0 {
            r.append(", ");
        } else {
            assert(list.take(1).len() == 1);
        }
        r.append(names[i].as_str());
        proof {
            if i == 0 {
                assert(join(list.take(0), ", "@) =~= Seq::empty());
                assert(join(list.take(1), ", "@) == list.take(1)[0]);
            }
        }
        i = i + 1;
    }
    assert(list.take(i as int) == list);
    r.append("]");
    r
}

/// The characters that separate words in help texts.
pub open spec fn is_space(c: char) -> bool {
    c == ' ' || c == '\t' || c == '\r' || c == '\n'
}

/// The length of the run of non-space characters `s` starts with.
pub open spec fn word_len(s: Seq<char>) -> nat
    decreases s.len(),
{
    if s.len() == 0 || is_space(s[0]) {
        0
    } else {
        1 + word_len(s.drop_first())
    }
}

pub proof fn lemma_word_len(s: Seq<char>)
    ensures
        word_len(s) <= s.len(),
        forall|i: int| 0 <= i < word_len(s) ==> !is_space(#[trigger] s[i]),
        word_len(s) < s.len() ==> is_space(s[word_len(s) as int]),
    decreases s.len(),
{
    if s.len() > 0 && !is_space(s[0]) {
        lemma_word_len(s.drop_first());
        assert forall|i: int| 0 <= i < word_len(s) implies !is_space(#[trigger] s[i]) by {
            if i > 0 {
                assert(s[i] == s.drop_first()[i - 1]);
            }
        }
        if word_len(s) < s.len() {
            assert(s[word_len(s) as int] == s.drop_first()[word_len(s.drop_first()) as int]);
        }
    }
}

/// The words of a text: its maximal runs of non-space characters.
pub open spec fn words(s: Seq<char>) -> Seq<Seq<char>>
    decreases s.len(),
{
    if s.len() == 0 {
        Seq::empty()
    } else if is_space(s[0]) {
        words(s.drop_first())
    } else {
        let n = word_len(s);
        proof {
            lemma_word_len(s);
        }
        seq![s.take(n as int)] + words(s.skip(n as int))
    }
}

/// `n` spaces.
pub open spec fn spaces(n: nat) -> Seq<char> {
    Seq::new(n, |i: int| ' ')
}

/// The words after the first: each goes on the current line, after a space,
/// if the line stays within `width` bytes, else on a new line indented by
/// `indent` spaces.  `off` is the length of the current line.
pub open spec fn wrap_words(ws: Seq<Seq<char>>, width: int, indent: nat, off: int) -> Seq<char>
    decreases ws.len(),
{
    if ws.len() == 0 {
        Seq::empty()
    } else {
        let w = ws[0];
        if off + blen(w) + 1 > width {
            seq!['\n'] + spaces(indent) + w + wrap_words(
                ws.drop_first(),
                width,
                indent,
                indent + blen(w),
            )
        } else {
            seq![' '] + w + wrap_words(ws.drop_first(), width, indent, off + 1 + blen(w))
        }
    }
}

/// A text filled into lines of at most `width` bytes (a longer word stands
/// alone), continuation lines indented by `indent` spaces; the first line
/// is taken to start at column `indent`.
pub open spec fn wrap_text(s: Seq<char>, width: int, indent: nat) -> Seq<char> {
    let ws = words(s);
    if ws.len() == 0 {
        Seq::empty()
    } else {
        ws[0] + wrap_words(ws.drop_first(), width, indent, indent + blen(ws[0]))
    }
}

pub proof fn lemma_words_skip_space(s: Seq<char>, i: int)
    requires
        0 <= i < s.len(),
        is_space(s[i]),
    ensures
        words(s.skip(i)) == words(s.skip(i + 1)),
{
    assert(s.skip(i).drop_first() == s.skip(i + 1));
}

pub proof fn lemma_words_word(s: Seq<char>, i: int, j: int)
    requires
        0 <= i < j <= s.len(),
        forall|k: int| i <= k < j ==> !is_space(#[trigger] s[k]),
        j == s.len() || is_space(s[j]),
    ensures
        words(s.skip(i)) == seq![s.subrange(i, j)] + words(s.skip(j)),
{
    let t = s.skip(i);
    lemma_word_len_exact(t, j - i);
    assert(t.take(j - i) == s.subrange(i, j));
    assert(t.skip(j - i) == s.skip(j));
}

pub proof fn lemma_word_len_exact(t: Seq<char>, n: int)
    requires
        0 < n <= t.len(),
        forall|k: int| 0 <= k < n ==> !is_space(#[trigger] t[k]),
        n == t.len() || is_space(t[n]),
    ensures
        word_len(t) == n,
    decreases n,
{
    assert(!is_space(t[0]));
    assert(word_len(t) == 1 + word_len(t.drop_first()));
    if n > 1 {
        let u = t.drop_first();
        assert forall|k: int| 0 <= k < n - 1 implies !is_space(#[trigger] u[k]) by {
            assert(u[k] == t[k + 1]);
        }
        if n < t.len() {
            assert(u[n - 1] == t[n]);
        }
        lemma_word_len_exact(u, n - 1);
    } else {
        let u = t.drop_first();
        assert(!is_space(t[0]));
        if u.len() > 0 {
            assert(u[0] == t[1]);
        }
    }
}

/// Appends `n` spaces.
pub fn push_spaces(buf: &mut String, n: usize)
    ensures
        final(buf)@ == old(buf)@ + spaces(n as nat),
{
    let mut i: usize = 0;
    while i < n
        invariant
            i <= n,
            buf@ == old(buf)@ + spaces(i as nat),
        decreases n - i,
    {
        push_char(buf, ' ');
        assert(old(buf)@ + spaces((i + 1) as nat) =~= (old(buf)@ + spaces(i as nat)).push(' '));
        i = i + 1;
    }
}

fn is_space_exec(c: char) -> (r: bool)
    ensures
        r == is_space(c),
{
    c == ' ' || c == '\t' || c == '\r' || c == '\n'
}

/// `min(a + b, cap)`, without overflow.
fn add_capped(a: usize, b: usize, cap: usize) -> (r: usize)
    ensures
        r as int == if a + b < cap { a + b } else { cap as int },
{
    if a >= cap || b >= cap - a {
        cap
    } else {
        a + b
    }
}

/// Appends `wrap_text(data, width, indent)`.
pub fn wrap_text_exec(buf: &mut String, data: &str, width: usize, indent: usize)
    ensures
        final(buf)@ == old(buf)@ + wrap_text(data@, width as int, indent as nat),
{
    let n = data.unicode_len();
    let ghost d = data@;
    let ghost target = old(buf)@ + wrap_text(d, width as int, indent as nat);
    let mut i: usize = 0;
    let mut first = true;
    // the length of the current line (`line`), capped at `width`
    let mut off: usize = 0;
    let ghost mut line: int = 0;
    assert(d.skip(0) == d);
    while i < n
        invariant
            n == d.len(),
            d == data@,
            i <= n,
            target == old(buf)@ + wrap_text(d, width as int, indent as nat),
            first ==> buf@ == old(buf)@ && words(d.skip(i as int)) == words(d),
            !first ==> target == buf@ + wrap_words(
                words(d.skip(i as int)),
                width as int,
                indent as nat,
                line,
            ),
            off as int == if line < width { line } else { width as int },
        decreases n - i,
    {
        if is_space_exec(data.get_char(i)) {
            proof {
                lemma_words_skip_space(d, i as int);
            }
            i = i + 1;
        } else {
            let mut j = i + 1;
            while j < n && !is_space_exec(data.get_char(j))
                invariant
                    n == d.len(),
                    d == data@,
                    i < j <= n,
                    forall|k: int| i <= k < j ==> !is_space(#[trigger] d[k]),
                decreases n - j,
            {
                j = j + 1;
            }
            let w = data.substring_char(i, j);
            let wlen = w.len();
            assert(wlen == blen(w@));
            proof {
                lemma_words_word(d, i as int, j as int);
            }
            let ghost rest = words(d.skip(j as int));
            assert((seq![w@] + rest).drop_first() == rest);
            assert((seq![w@] + rest)[0] == w@);
            if first {
                buf.append(w);
                proof {
                    line = indent + wlen;
                }
                off = add_capped(indent, wlen, width);
                first = false;
            } else {
                if wlen >= width || off >= width - wlen {
                    push_char(buf, '\n');
                    push_spaces(buf, indent);
                    buf.append(w);
                    proof {
                        assert(seq!['\n'] + spaces(indent as nat) + w@ =~= Seq::<char>::empty().push('\n') + spaces(indent as nat) + w@);
                        line = indent + wlen;
                    }
                    off = add_capped(indent, wlen, width);
                } else {
                    push_char(buf, ' ');
                    buf.append(w);
                    proof {
                        line = line + 1 + wlen;
                    }
                    off = off + 1 + wlen;
                }
            }
            i = j;
        }
    }
    assert(d.skip(n as int) =~= Seq::<char>::empty());
}

} // verus!
