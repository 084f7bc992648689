//! Text helpers: decimal numbers, character-level views of strings.

use vstd::prelude::*;
use vstd::std_specs::iter::IteratorSpec;

verus! {

/// The ASCII digit for `d` (0..=9).
pub open spec fn digit_char(d: int) -> char {
    (48 + d) as char
}

/// Decimal representation of a natural number, without leading zeros.
pub open spec fn decimal_text(n: nat) -> Seq<char>
    decreases n,
{
    if n < 10 {
        seq![digit_char(n as int)]
    } else {
        decimal_text(n / 10).push(digit_char((n % 10) as int))
    }
}

/// The ASCII digit for `d`.
fn digit(d: u64) -> (r: char)
    requires
        d < 10,
    ensures
        r == digit_char(d as int),
{
    ((48 + d) as u8) as char
}

/// The decimal digits of `n`, most significant first.
fn decimal_chars(n: u64) -> (r: Vec<char>)
    ensures
        r@ == decimal_text(n as nat),
    decreases n,
{
    if n < 10 {
        let mut v: Vec<char> = Vec::new();
        v.push(digit(n));
        assert(v@ =~= seq![digit_char(n as int)]);
        v
    } else {
        let mut v = decimal_chars(n / 10);
        v.push(digit(n % 10));
        v
    }
}

/// The decimal representation of `n`, without leading zeros.
pub(crate) fn u64_decimal(n: u64) -> (r: String)
    ensures
        r@ == decimal_text(n as nat),
{
    string_from_chars(decimal_chars(n))
}

/// The characters of a string slice.
pub fn str_chars(s: &str) -> (r: Vec<char>)
    ensures
        r@ == s@,
{
    let mut it = s.chars();
    let mut out: Vec<char> = Vec::new();
    loop
        invariant
            out@.len() <= s@.len(),
            out@ == s@.take(out@.len() as int),
            it.remaining() == s@.skip(out@.len() as int),
        ensures
            out@ == s@,
        decreases s@.len() - out@.len(),
    {
        let ghost before = out@;
        match it.next() {
            Some(c) => {
                assert(s@.skip(before.len() as int).len() > 0);
                assert(c == s@[before.len() as int]);
                out.push(c);
                assert(out@ =~= s@.take(out@.len() as int));
                assert(s@.skip(before.len() as int).drop_first() =~= s@.skip(out@.len() as int));
            },
            None => {
                assert(s@.skip(before.len() as int).len() == 0);
                assert(s@.take(s@.len() as int) =~= s@);
                break;
            },
        }
    }
    out
}

/// `String::from_iter`: a string made of these characters.
#[verifier::external_body]
pub(crate) fn string_from_chars(chars: Vec<char>) -> (r: String)
    ensures
        r@ == chars@,
{
    String::from_iter(chars)
}

/// An owned copy of a string slice.
pub fn owned(s: &str) -> (r: String)
    ensures
        r@ == s@,
{
    s.to_owned()
}

/// Concatenation of two strings.
pub fn concat2(a: &str, b: &str) -> (r: String)
    ensures
        r@ == a@ + b@,
{
    let mut chars = str_chars(a);
    let tail = str_chars(b);
    let mut i: usize = 0;
    let ghost start = chars@;
    while i < tail.len()
        invariant
            0 <= i <= tail@.len(),
            chars@ == start + tail@.take(i as int),
        decreases tail@.len() - i,
    {
        chars.push(tail[i]);
        assert(start + tail@.take(i + 1) =~= chars@);
        i = i + 1;
    }
    assert(tail@.take(tail@.len() as int) =~= tail@);
    string_from_chars(chars)
}

/// Concatenation of three strings.
pub fn concat3(a: &str, b: &str, c: &str) -> (r: String)
    ensures
        r@ == a@ + b@ + c@,
{
    let ab = concat2(a, b);
    concat2(ab.as_str(), c)
}

/// Whether `needle` occurs in `hay` starting at `at`.
pub open spec fn occurs_at(hay: Seq<char>, needle: Seq<char>, at: int) -> bool {
    0 <= at && at + needle.len() <= hay.len() && hay.subrange(at, at + needle.len()) == needle
}

/// Whether `needle` occurs anywhere in `hay`.
pub open spec fn contains_text(hay: Seq<char>, needle: Seq<char>) -> bool {
    exists|at: int| occurs_at(hay, needle, at)
}

/// Substring search on characters.
pub fn chars_contain(hay: &Vec<char>, needle: &Vec<char>) -> (r: bool)
    ensures
        r == contains_text(hay@, needle@),
{
    if needle.len() > hay.len() {
        assert forall|at: int| !occurs_at(hay@, needle@, at) by {}
        return false;
    }
    if needle.len() == 0 {
        assert(hay@.subrange(0, 0) =~= needle@);
        assert(occurs_at(hay@, needle@, 0));
        return true;
    }
    let n = hay.len();
    let last = n - needle.len();
    let mut at: usize = 0;
    while at <= last
        invariant
            needle@.len() <= hay@.len(),
            needle@.len() > 0,
            n == hay@.len(),
            last == hay@.len() - needle@.len(),
            0 <= at <= last + 1,
            forall|k: int| 0 <= k < at ==> !occurs_at(hay@, needle@, k),
        decreases last + 1 - at,
    {
        let mut j: usize = 0;
        let mut matched = true;
        while j < needle.len()
            invariant
                at <= last,
                n == hay@.len(),
                needle@.len() <= hay@.len(),
                last == hay@.len() - needle@.len(),
                0 <= j <= needle@.len(),
                matched <==> forall|q: int| 0 <= q < j ==> hay@[at + q] == needle@[q],
            decreases needle@.len() - j,
        {
            if hay[at + j] != needle[j] {
                matched = false;
            }
            j = j + 1;
        }
        if matched {
            assert(hay@.subrange(at as int, at + needle@.len()) =~= needle@);
            assert(occurs_at(hay@, needle@, at as int));
            return true;
        }
        proof {
            if occurs_at(hay@, needle@, at as int) {
                assert forall|q: int| 0 <= q < needle@.len() implies hay@[at + q] == needle@[q] by {
                    assert(hay@.subrange(at as int, at + needle@.len())[q] == hay@[at + q]);
                }
            }
        }
        at = at + 1;
    }
    assert forall|k: int| !occurs_at(hay@, needle@, k) by {
        if 0 <= k && k < at {
        }
    }
    false
}

/// `std::str::from_utf8`: the text the bytes encode, `None` when they are not valid UTF-8.
#[verifier::external_body]
pub(crate) fn utf8_str(bytes: &[u8]) -> (r: Option<&str>)
    ensures
        r is Some <==> vstd::utf8::valid_utf8(bytes@),
        r matches Some(t) ==> t@ == vstd::utf8::decode_utf8(bytes@),
{
    std::str::from_utf8(bytes).ok()
}

/// Unicode lowercase mapping of a string (`str::to_lowercase`).
pub uninterp spec fn lowercase_text(s: Seq<char>) -> Seq<char>;

/// `str::to_lowercase`.
#[verifier::external_body]
pub(crate) fn to_lowercase(s: &str) -> (r: String)
    ensures
        r@ == lowercase_text(s@),
{
    s.to_lowercase()
}

/// `name` can be the last component of `path`: non-empty and found as a stretch of it.
pub open spec fn is_path_component(name: Seq<char>, path: Seq<char>) -> bool {
    &&& name.len() > 0
    &&& exists|i: int| 0 <= i && i + name.len() <= path.len() && #[trigger] path.subrange(i, i + name.len()) == name
}

/// Index of the last `/` among the first `n` characters of `s`, or -1.
pub open spec fn last_slash_before(s: Seq<char>, n: int) -> int
    decreases n,
{
    if n <= 0 {
        -1
    } else if s[n - 1] == '/' {
        n - 1
    } else {
        last_slash_before(s, n - 1)
    }
}

/// The text after the last `/` of a path (the whole path when it has none).
pub open spec fn slash_tail(path: Seq<char>) -> Seq<char> {
    path.skip(last_slash_before(path, path.len() as int) + 1)
}

/// Whether `c` separates path components on some platform (`/` everywhere, `\` on Windows).
pub open spec fn is_any_separator(c: char) -> bool {
    c == '/' || c == '\\'
}

/// A path whose file name reads the same on every platform: it starts with neither `\`
/// nor two separators (no Windows network or verbatim prefix), and the text after its last
/// `/` is non-empty, holds no `\` and no `:` (no Windows separator or drive), and is
/// neither `.` nor `..`.
pub open spec fn plain_file_path(path: Seq<char>) -> bool {
    let tail = slash_tail(path);
    &&& path.len() > 0
    &&& path[0] != '\\'
    &&& !(path.len() > 1 && path[0] == '/' && is_any_separator(path[1]))
    &&& tail.len() > 0
    &&& !tail.contains('\\')
    &&& !tail.contains(':')
    &&& tail != "."@
    &&& tail != ".."@
}

/// `std::path::Path::file_name` of a path given as text, as owned text. Which characters
/// separate components depends on the platform (`\` and drive prefixes count on Windows
/// only, and a Windows verbatim path `\\?\...` does not split at `/`), so only what
/// holds on every platform is stated: an empty path has no file name; a file name is a
/// non-empty stretch of the path, without `/` unless the path starts with `\`; and a
/// plain path (`plain_file_path`) has the text after its last `/` as its file name.
#[verifier::external_body]
pub(crate) fn file_name(path: &str) -> (r: Option<String>)
    ensures
        path@.len() == 0 ==> r is None,
        r matches Some(s) ==> is_path_component(s@, path@),
        r matches Some(s) ==> path@[0] != '\\' ==> !s@.contains('/'),
        plain_file_path(path@) ==> r is Some,
        r matches Some(s) ==> plain_file_path(path@) ==> s@ == slash_tail(path@),
{
    match std::path::Path::new(path).file_name() {
        Some(os) => match os.to_str() {
            Some(s) => Some(s.to_string()),
            None => None,
        },
        None => None,
    }
}

/// Unicode general category Cc (`char::is_control`).
pub open spec fn is_control(c: char) -> bool {
    (c as u32) <= 0x1F || (0x7F <= (c as u32) && (c as u32) <= 0x9F)
}

/// Unicode White_Space (`char::is_whitespace`).
pub open spec fn is_white(c: char) -> bool {
    let u = c as u32;
    ||| 0x09 <= u <= 0x0D
    ||| u == 0x20
    ||| u == 0x85
    ||| u == 0xA0
    ||| u == 0x1680
    ||| 0x2000 <= u <= 0x200A
    ||| u == 0x2028
    ||| u == 0x2029
    ||| u == 0x202F
    ||| u == 0x205F
    ||| u == 0x3000
}

pub fn char_is_control(c: char) -> (r: bool)
    ensures
        r == is_control(c),
{
    let u = c as u32;
    u <= 0x1F || (0x7F <= u && u <= 0x9F)
}

pub fn char_is_white(c: char) -> (r: bool)
    ensures
        r == is_white(c),
{
    let u = c as u32;
    (0x09 <= u && u <= 0x0D) || u == 0x20 || u == 0x85 || u == 0xA0 || u == 0x1680 || (0x2000
        <= u && u <= 0x200A) || u == 0x2028 || u == 0x2029 || u == 0x202F || u == 0x205F || u
        == 0x3000
}

/// Control characters shown as spaces.
pub open spec fn blank_controls(s: Seq<char>) -> Seq<char> {
    s.map_values(|c: char| if is_control(c) { ' ' } else { c })
}

/// The whitespace-separated words of a text, in order.
pub open spec fn words(s: Seq<char>) -> Seq<Seq<char>>
    decreases s.len(),
{
    if s.len() == 0 {
        Seq::empty()
    } else {
        let prev = words(s.drop_last());
        let c = s.last();
        if is_white(c) {
            prev
        } else if s.len() >= 2 && !is_white(s[s.len() - 2]) {
            prev.update(prev.len() - 1, prev.last().push(c))
        } else {
            prev.push(seq![c])
        }
    }
}

/// Words joined by single spaces.
pub open spec fn join_words(w: Seq<Seq<char>>) -> Seq<char>
    decreases w.len(),
{
    if w.len() == 0 {
        Seq::empty()
    } else if w.len() == 1 {
        w[0]
    } else {
        join_words(w.drop_last()) + seq![' '] + w.last()
    }
}

/// Text of a MIDI meta string: UTF-8, control characters as spaces, runs of whitespace
/// collapsed to single spaces, trimmed; `None` when invalid or empty.
pub open spec fn spec_decode_midi_text(bytes: Seq<u8>) -> Option<Seq<char>> {
    if !vstd::utf8::valid_utf8(bytes) {
        None
    } else {
        let cleaned = join_words(words(blank_controls(vstd::utf8::decode_utf8(bytes))));
        if cleaned.len() == 0 {
            None
        } else {
            Some(cleaned)
        }
    }
}

proof fn lemma_words_nonempty(s: Seq<char>)
    ensures
        forall|k: int| 0 <= k < words(s).len() ==> (#[trigger] words(s)[k]).len() > 0,
        s.len() > 0 && !is_white(s.last()) ==> words(s).len() > 0,
    decreases s.len(),
{
    if s.len() > 0 {
        lemma_words_nonempty(s.drop_last());
        let prev = words(s.drop_last());
        if s.len() >= 2 && !is_white(s[s.len() - 2]) {
            assert(s.drop_last().last() == s[s.len() - 2]);
        }
    }
}

proof fn lemma_join_extend(w: Seq<Seq<char>>, c: char)
    requires
        w.len() > 0,
    ensures
        join_words(w.update(w.len() - 1, w.last().push(c))) == join_words(w).push(c),
{
    let w2 = w.update(w.len() - 1, w.last().push(c));
    if w.len() == 1 {
        assert(w2[0] == w[0].push(c));
    } else {
        assert(w2.drop_last() =~= w.drop_last());
        assert(w2.last() == w.last().push(c));
        assert(join_words(w2) =~= join_words(w).push(c));
    }
}

proof fn lemma_join_push(w: Seq<Seq<char>>, c: char)
    ensures
        join_words(w.push(seq![c])) == if w.len() == 0 {
            seq![c]
        } else {
            join_words(w).push(' ').push(c)
        },
{
    let w2 = w.push(seq![c]);
    assert(w2.drop_last() =~= w);
    if w.len() > 0 {
        assert(join_words(w2) =~= join_words(w).push(' ').push(c));
    }
}

proof fn lemma_join_len(w: Seq<Seq<char>>)
    requires
        forall|k: int| 0 <= k < w.len() ==> (#[trigger] w[k]).len() > 0,
    ensures
        w.len() > 0 <==> join_words(w).len() > 0,
    decreases w.len(),
{
    if w.len() > 1 {
        lemma_join_len(w.drop_last());
    }
}

/// Clean a MIDI meta string for display.
pub fn decode_midi_text(bytes: &[u8]) -> (r: Option<String>)
    ensures
        match r {
            Some(s) => spec_decode_midi_text(bytes@) == Some(s@),
            None => spec_decode_midi_text(bytes@) is None,
        },
{
    let chars = match utf8_str(bytes) {
        Some(t) => str_chars(t),
        None => return None,
    };
    let ghost src = blank_controls(chars@);
    let mut out: Vec<char> = Vec::new();
    let mut pending_space = false;
    let mut i: usize = 0;
    while i < chars.len()
        invariant
            src == blank_controls(chars@),
            0 <= i <= chars@.len(),
            out@ == join_words(words(src.take(i as int))),
            pending_space <==> (i > 0 && is_white(src[i - 1]) && words(src.take(i as int)).len() > 0),
        decreases chars@.len() - i,
    {
        let c0 = chars[i];
        let c = if char_is_control(c0) {
            ' '
        } else {
            c0
        };
        let ghost t = src.take(i + 1);
        proof {
            assert(src[i as int] == c);
            assert(t.drop_last() =~= src.take(i as int));
            assert(t.last() == c);
            lemma_words_nonempty(src.take(i as int));
        }
        if char_is_white(c) {
            if out.len() > 0 {
                pending_space = true;
            }
            proof {
                lemma_join_len(words(src.take(i as int)));
            }
        } else {
            if out.len() == 0 || pending_space {
                proof {
                    lemma_join_len(words(src.take(i as int)));
                    if i >= 1 {
                        assert(t[t.len() - 2] == src[i - 1]);
                    }
                    lemma_join_push(words(src.take(i as int)), c);
                }
                if out.len() > 0 {
                    out.push(' ');
                }
                out.push(c);
                pending_space = false;
            } else {
                proof {
                    lemma_join_len(words(src.take(i as int)));
                    assert(t[t.len() - 2] == src[i - 1]);
                    lemma_join_extend(words(src.take(i as int)), c);
                }
                out.push(c);
            }
        }
        i = i + 1;
    }
    proof {
        assert(src.take(chars@.len() as int) =~= src);
        lemma_words_nonempty(src);
        lemma_join_len(words(src));
    }
    if out.len() == 0 {
        None
    } else {
        Some(string_from_chars(out))
    }
}

} // verus!
