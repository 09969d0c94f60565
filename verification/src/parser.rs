//! Inlining of `embedLuaFile("path")` calls: a line that calls it with one string literal becomes
//! the source of the named Lua file of the package.
use vstd::prelude::*;
use vstd::string::StringSliceAdditionalSpecFns;
use vstd::utf8::{decode_utf8, encode_utf8, is_char_boundary, valid_utf8};

use crate::archive::utf8_str;
use crate::files::FileTable;
use crate::text::{char_is_whitespace, chars_of, is_whitespace_char, push_chars, string_of};

verus! {

/// The bytes of the word that marks an embedding: `embedLuaFile`.
pub open spec fn embed_word() -> Seq<u8> {
    seq![101u8, 109u8, 98u8, 101u8, 100u8, 76u8, 117u8, 97u8, 70u8, 105u8, 108u8, 101u8]
}

/// The suffix of an embeddable file: `.lua`.
pub open spec fn lua_suffix() -> Seq<char> {
    seq!['.', 'l', 'u', 'a']
}

/// An ASCII letter, digit or underscore.
pub open spec fn ident_byte(b: u8) -> bool {
    (48 <= b <= 57) || (65 <= b <= 90) || (97 <= b <= 122) || b == 95
}

/// The bytes `w` stand in `s` at `i` as a whole word: not preceded nor followed by an
/// identifier byte.
pub open spec fn word_at(s: Seq<u8>, w: Seq<u8>, i: int) -> bool {
    &&& 0 <= i
    &&& i + w.len() <= s.len()
    &&& s.subrange(i, i + w.len()) == w
    &&& (i == 0 || !ident_byte(s[i - 1]))
    &&& (i + w.len() >= s.len() || !ident_byte(s[i + w.len()]))
}

/// `w` stands in `s` at `i` as a whole word, and nowhere before.
pub open spec fn first_word_at(s: Seq<u8>, w: Seq<u8>, i: int) -> bool {
    word_at(s, w, i) && forall|j: int| 0 <= j < i ==> !word_at(s, w, j)
}

/// Where `w` first stands in `s` as a whole word (a byte position).
pub open spec fn first_word(s: Seq<u8>, w: Seq<u8>) -> Option<int> {
    if exists|i: int| first_word_at(s, w, i) {
        Some(choose|i: int| first_word_at(s, w, i))
    } else {
        None
    }
}

/// The first position from `p` on that does not hold white space (or the end of `s`).
pub open spec fn skip_ws_from(s: Seq<char>, p: int) -> int
    decreases s.len() - p,
{
    if 0 <= p < s.len() && is_whitespace_char(s[p]) {
        skip_ws_from(s, p + 1)
    } else {
        p
    }
}

/// The first position from `p` on that holds `c`, if any.
pub open spec fn find_char_from(s: Seq<char>, c: char, p: int) -> Option<int>
    decreases s.len() - p,
{
    if p < 0 || p >= s.len() {
        None
    } else if s[p] == c {
        Some(p)
    } else {
        find_char_from(s, c, p + 1)
    }
}

/// The string literal that starts at `p`: a `"` or `'`, then everything up to the next same
/// quote (no escapes). Its text, and the position after its closing quote.
pub open spec fn string_literal(s: Seq<char>, p: int) -> Option<(Seq<char>, int)> {
    if 0 <= p < s.len() && (s[p] == '"' || s[p] == '\'') {
        match find_char_from(s, s[p], p + 1) {
            Some(q) => Some((s.subrange(p + 1, q), q + 1)),
            None => None,
        }
    } else {
        None
    }
}

/// Whether `name` is a package file that can be embedded into the main script `main`: another
/// file, named `….lua`, whose contents are UTF-8.
pub open spec fn embeddable(name: Seq<char>, main: Seq<char>, files: Map<Seq<char>, Seq<u8>>) -> bool {
    &&& files.contains_key(name)
    &&& name != main
    &&& name.len() >= 4
    &&& name.subrange(name.len() - 4, name.len() as int) == lua_suffix()
    &&& valid_utf8(files[name])
}

/// The Lua sources that may be embedded, by path.
pub open spec fn embed_sources(main: Seq<char>, files: Map<Seq<char>, Seq<u8>>) -> Map<
    Seq<char>,
    Seq<char>,
> {
    Map::new(|k: Seq<char>| embeddable(k, main, files), |k: Seq<char>| decode_utf8(files[k]))
}

/// What replaces `line`: when it calls `embedLuaFile` (a whole word of its UTF-8 bytes), white
/// space, `(`, white space, one string literal, white space and `)`, the source that the literal
/// names.
pub open spec fn embed_line(line: Seq<char>, srcs: Map<Seq<char>, Seq<char>>) -> Option<Seq<char>> {
    let bytes = encode_utf8(line);
    match first_word(bytes, embed_word()) {
        None => None,
        Some(pos) => {
            let rest = decode_utf8(bytes.subrange(pos + embed_word().len(), bytes.len() as int));
            let a = skip_ws_from(rest, 0);
            if a >= rest.len() || rest[a] != '(' {
                None
            } else {
                match string_literal(rest, skip_ws_from(rest, a + 1)) {
                    None => None,
                    Some((name, c)) => {
                        let d = skip_ws_from(rest, c);
                        if d >= rest.len() || rest[d] != ')' {
                            None
                        } else if srcs.contains_key(name) {
                            Some(srcs[name])
                        } else {
                            None
                        }
                    },
                }
            }
        },
    }
}

/// Where the line that starts at `from` ends: the next `\n`, or the end of `s`.
pub open spec fn line_end(s: Seq<char>, from: int) -> int
    decreases s.len() - from,
{
    if from >= s.len() || from < 0 {
        s.len() as int
    } else if s[from] == '\n' {
        from
    } else {
        line_end(s, from + 1)
    }
}

/// Where a line ends: at a `\n` or the end, with no `\n` before.
pub proof fn lemma_line_end(s: Seq<char>, from: int)
    requires
        0 <= from <= s.len(),
    ensures
        from <= line_end(s, from) <= s.len(),
        line_end(s, from) < s.len() ==> s[line_end(s, from)] == '\n',
        forall|k: int| from <= k < line_end(s, from) ==> s[k] != '\n',
    decreases s.len() - from,
{
    if from < s.len() && s[from] != '\n' {
        lemma_line_end(s, from + 1);
    }
}

/// The text of the line that starts at `from`: up to the next `\n` (a `\r` before it dropped),
/// or to the end of `s`.
pub open spec fn line_text(s: Seq<char>, from: int) -> Seq<char> {
    let e = line_end(s, from);
    let l = s.subrange(from, e);
    if e < s.len() && l.len() > 0 && l.last() == '\r' {
        l.drop_last()
    } else {
        l
    }
}

/// The lines of `s` from `from` on, as `str::lines` gives them: split at `\n`, a `\r` before
/// the `\n` dropped, no empty line after a final `\n`.
pub open spec fn lines_from(s: Seq<char>, from: int) -> Seq<Seq<char>>
    decreases s.len() + 1 - from,
    via lines_from_decreases
{
    if from < 0 || from >= s.len() {
        seq![]
    } else {
        seq![line_text(s, from)] + lines_from(s, line_end(s, from) + 1)
    }
}

#[via_fn]
proof fn lines_from_decreases(s: Seq<char>, from: int) {
    if 0 <= from < s.len() {
        lemma_line_end(s, from);
    }
}

/// The lines of `s`.
pub open spec fn lines(s: Seq<char>) -> Seq<Seq<char>> {
    lines_from(s, 0)
}

/// The lines `ls` joined with `\n`.
pub open spec fn join_lines(ls: Seq<Seq<char>>) -> Seq<char>
    decreases ls.len(),
{
    if ls.len() == 0 {
        seq![]
    } else if ls.len() == 1 {
        ls[0]
    } else {
        ls[0] + seq!['\n'] + join_lines(ls.drop_first())
    }
}

/// A line as it comes out: the source it embeds, or the line itself.
pub open spec fn line_output(l: Seq<char>, srcs: Map<Seq<char>, Seq<char>>) -> Seq<char> {
    match embed_line(l, srcs) {
        Some(src) => src,
        None => l,
    }
}

/// The lines `ls` as they come out.
pub open spec fn outputs(ls: Seq<Seq<char>>, srcs: Map<Seq<char>, Seq<char>>) -> Seq<Seq<char>> {
    ls.map_values(|l: Seq<char>| line_output(l, srcs))
}

/// The main script `content` with each line that embeds a file replaced by that file's source.
pub open spec fn embedded(main: Seq<char>, content: Seq<char>, files: Map<Seq<char>, Seq<u8>>) -> Seq<
    char,
> {
    join_lines(outputs(lines(content), embed_sources(main, files)))
}

/// The main script is never embedded into itself, whatever the package holds.
pub proof fn lemma_main_never_embedded(main: Seq<char>, files: Map<Seq<char>, Seq<u8>>)
    ensures
        !embed_sources(main, files).contains_key(main),
{
}

/// Whether `b` is an ASCII letter, digit or underscore.
pub fn is_ident_char(b: u8) -> (r: bool)
    ensures
        r == ident_byte(b),
{
    (b >= 48 && b <= 57) || (b >= 65 && b <= 90) || (b >= 97 && b <= 122) || b == 95
}

/// Where `word` first stands in `s` as a whole word: a byte position.
pub fn find_word(text: &str, word_text: &str) -> (r: Option<usize>)
    ensures
        match r {
            Some(i) => first_word_at(text.spec_bytes(), word_text.spec_bytes(), i as int),
            None => forall|i: int| !word_at(text.spec_bytes(), word_text.spec_bytes(), i),
        },
{
    let s = text.as_bytes();
    let word = word_text.as_bytes();
    let n = s.len();
    let w = word.len();
    if w > n {
        return None;
    }
    let last = n - w;
    let mut i: usize = 0;
    loop
        invariant
            s@ == text.spec_bytes(),
            word@ == word_text.spec_bytes(),
            n == s@.len(),
            w == word@.len(),
            last == n - w,
            i <= last,
            forall|j: int| 0 <= j < i ==> !word_at(s@, word@, j),
        decreases last - i,
    {
        let mut k: usize = 0;
        let mut same = true;
        while k < w
            invariant
                0 <= k <= w,
                i + w <= n,
                n == s@.len(),
                w == word@.len(),
                same == (forall|m: int| 0 <= m < k ==> s@[i + m] == word@[m]),
            decreases w - k,
        {
            if s[i + k] != word[k] {
                same = false;
            }
            k = k + 1;
        }
        if same {
            let prev_ok = i == 0 || !is_ident_char(s[i - 1]);
            let next_ok = i + w >= n || !is_ident_char(s[i + w]);
            if prev_ok && next_ok {
                assert(s@.subrange(i as int, i + w) =~= word@);
                return Some(i);
            }
        } else {
            assert(s@.subrange(i as int, i + w) != word@) by {
                let m = choose|m: int| 0 <= m < w && s@[i + m] != word@[m];
                assert(s@.subrange(i as int, i + w)[m] != word@[m]);
            }
        }
        if i == last {
            return None;
        }
        i = i + 1;
    }
}

/// The first position from `pos` on that does not hold white space.
pub fn skip_ws(chars: &[char], pos: usize) -> (r: usize)
    requires
        pos <= chars@.len(),
    ensures
        r == skip_ws_from(chars@, pos as int),
        pos <= r <= chars@.len(),
{
    let mut p = pos;
    while p < chars.len() && char_is_whitespace(chars[p])
        invariant
            pos <= p <= chars@.len(),
            skip_ws_from(chars@, pos as int) == skip_ws_from(chars@, p as int),
        decreases chars@.len() - p,
    {
        p = p + 1;
    }
    p
}

/// The string literal at `pos` (see `string_literal`): its text and the position after it.
pub fn read_string_literal(chars: &[char], pos: usize) -> (r: Option<(String, usize)>)
    requires
        pos <= chars@.len(),
    ensures
        match string_literal(chars@, pos as int) {
            Some((text, after)) => r matches Some((t, a)) && t@ == text && a == after,
            None => r is None,
        },
{
    let n = chars.len();
    if pos >= n {
        return None;
    }
    let quote = chars[pos];
    if quote != '"' && quote != '\'' {
        return None;
    }
    let mut q = pos + 1;
    while q < n && chars[q] != quote
        invariant
            pos < q <= n,
            n == chars@.len(),
            quote == chars@[pos as int],
            find_char_from(chars@, quote, pos + 1) == find_char_from(chars@, quote, q as int),
        decreases n - q,
    {
        q = q + 1;
    }
    if q >= n {
        return None;
    }
    let inner = &chars[pos + 1..q];
    assert(chars@.subrange(pos + 1, q as int) =~= inner@);
    let text = string_of(inner);
    Some((text, q + 1))
}

/// The source of the package file `name` when it can be embedded into `main_name`.
fn embed_source(main_name: &str, name: &[char], files: &FileTable) -> (r: Option<String>)
    ensures
        match r {
            Some(src) => embed_sources(main_name@, files@).contains_key(name@) && src@
                == embed_sources(main_name@, files@)[name@],
            None => !embed_sources(main_name@, files@).contains_key(name@),
        },
{
    let key = string_of(name);
    if crate::text::str_eq(key.as_str(), main_name) {
        return None;
    }
    let n = name.len();
    if n < 4 || name[n - 4] != '.' || name[n - 3] != 'l' || name[n - 2] != 'u' || name[n - 1]
        != 'a' {
        proof {
            if n >= 4 && name@.subrange(n - 4, n as int) == lua_suffix() {
                assert(name@[n - 4] == name@.subrange(n - 4, n as int)[0]);
                assert(name@[n - 3] == name@.subrange(n - 4, n as int)[1]);
                assert(name@[n - 2] == name@.subrange(n - 4, n as int)[2]);
                assert(name@[n - 1] == name@.subrange(n - 4, n as int)[3]);
            }
        }
        return None;
    }
    assert(name@.subrange(n - 4, n as int) =~= lua_suffix());
    match files.get(key.as_str()) {
        Some(bytes) => match utf8_str(bytes.as_slice()) {
            Some(text) => Some(string_of(chars_of(text).as_slice())),
            None => None,
        },
        None => None,
    }
}

/// The replacement of one line: the source it embeds, if it embeds one (see `embed_line`).
pub fn try_parse_embed_line(line: &str, main_name: &str, files: &FileTable) -> (r: Option<String>)
    ensures
        match embed_line(line@, embed_sources(main_name@, files@)) {
            Some(src) => r matches Some(s) && s@ == src,
            None => r is None,
        },
{
    let word = "embedLuaFile";
    proof {
        reveal_strlit("embedLuaFile");
        lemma_ascii_bytes(word);
        assert(word.spec_bytes() =~= embed_word());
    }
    let ghost bytes = line.spec_bytes();
    let pos = match find_word(line, word) {
        Some(p) => p,
        None => {
            assert(!exists|i: int| first_word_at(bytes, embed_word(), i));
            return None;
        },
    };
    assert(first_word(bytes, embed_word()) == Some(pos as int)) by {
        let c = choose|i: int| first_word_at(bytes, embed_word(), i);
        assert(first_word_at(bytes, embed_word(), c));
        if c < pos {
            assert(!word_at(bytes, embed_word(), c));
        }
        if c > pos {
            assert(!word_at(bytes, embed_word(), pos as int));
        }
    }
    assert(embed_word().len() == 12);
    proof {
        vstd::utf8::encode_utf8_valid_utf8(line@);
        assert(bytes[pos + 11] == embed_word()[11]);
        vstd::utf8::is_char_boundary_iff_is_leading_byte(bytes, pos + 11);
        lemma_ascii_boundary_next(bytes, pos + 11);
    }
    let blen = line.as_bytes().len();
    assert(pos + 12 <= blen);
    let (_, tail) = line.split_at(pos + 12);
    let rest_chars = chars_of(tail);
    let rest = rest_chars.as_slice();
    proof {
        vstd::utf8::encode_utf8_decode_utf8(tail@);
        assert(rest@ == decode_utf8(bytes.subrange(pos + 12, bytes.len() as int)));
    }
    let a = skip_ws(rest, 0);
    if a >= rest.len() || rest[a] != '(' {
        return None;
    }
    let b = skip_ws(rest, a + 1);
    let (name, c) = match read_string_literal(rest, b) {
        Some(lit) => lit,
        None => {
            return None;
        },
    };
    proof {
        lemma_find_char_from(rest@, rest@[b as int], b + 1);
    }
    let d = skip_ws(rest, c);
    if d < rest.len() && rest[d] == ',' {
        return None;
    }
    if d >= rest.len() || rest[d] != ')' {
        return None;
    }
    let name_chars = chars_of(name.as_str());
    embed_source(main_name, name_chars.as_slice(), files)
}

proof fn lemma_ascii_bytes(s: &str)
    requires
        forall|i: int| 0 <= i < s@.len() ==> '\0' <= #[trigger] s@[i] <= '\u{7f}',
    ensures
        s.spec_bytes() == Seq::new(s@.len(), |i: int| s@[i] as u8),
{
    assert(vstd::utf8::is_ascii_chars(s@));
    vstd::string::is_ascii_spec_bytes(s);
}

/// After an ASCII byte that starts a character, the next position starts one too.
proof fn lemma_ascii_boundary_next(bytes: Seq<u8>, i: int)
    requires
        valid_utf8(bytes),
        0 <= i < bytes.len(),
        is_char_boundary(bytes, i),
        bytes[i] < 128,
    ensures
        is_char_boundary(bytes, i + 1),
    decreases bytes.len(),
{
    let n = vstd::utf8::length_of_first_scalar(bytes);
    let rest = vstd::utf8::pop_first_scalar(bytes);
    if i == 0 {
        assert(n == 1);
        assert(is_char_boundary(rest, 0));
    } else {
        assert(is_char_boundary(rest, i - n));
        assert(i - n >= 0);
        assert(rest[i - n] == bytes[i]);
        lemma_ascii_boundary_next(rest, i - n);
    }
}

proof fn lemma_find_char_from(s: Seq<char>, c: char, p: int)
    requires
        0 <= p,
    ensures
        find_char_from(s, c, p) matches Some(q) ==> p <= q < s.len(),
    decreases s.len() - p,
{
    if p < s.len() && s[p] != c {
        lemma_find_char_from(s, c, p + 1);
    }
}

proof fn lemma_join_cons(a: Seq<char>, rest: Seq<Seq<char>>)
    ensures
        join_lines(seq![a] + rest) == a + (if rest.len() > 0 {
            seq!['\n'] + join_lines(rest)
        } else {
            seq![]
        }),
{
    let ls = seq![a] + rest;
    if rest.len() == 0 {
        assert(ls.len() == 1);
        assert(a + Seq::<char>::empty() =~= a);
    } else {
        assert(ls.drop_first() =~= rest);
        assert(a + seq!['\n'] + join_lines(rest) =~= a + (seq!['\n'] + join_lines(rest)));
    }
}

/// What is left to write after the lines before `from`: a `\n` and the rest, joined.
pub open spec fn tail_after(s: Seq<char>, from: int, srcs: Map<Seq<char>, Seq<char>>) -> Seq<char> {
    if lines_from(s, from).len() > 0 {
        seq!['\n'] + join_lines(outputs(lines_from(s, from), srcs))
    } else {
        seq![]
    }
}

proof fn lemma_emit_line(
    s: Seq<char>,
    from: int,
    srcs: Map<Seq<char>, Seq<char>>,
    before: Seq<char>,
    first: bool,
    target: Seq<char>,
)
    requires
        0 <= from < s.len(),
        first ==> before == Seq::<char>::empty() && target == join_lines(
            outputs(lines_from(s, from), srcs),
        ),
        !first ==> target == before + tail_after(s, from, srcs),
    ensures
        target == before + (if first {
            Seq::<char>::empty()
        } else {
            seq!['\n']
        }) + line_output(line_text(s, from), srcs) + tail_after(s, line_end(s, from) + 1, srcs),
{
    let l = line_text(s, from);
    let next = line_end(s, from) + 1;
    let rest = lines_from(s, next);
    assert(lines_from(s, from) == seq![l] + rest);
    assert(outputs(seq![l] + rest, srcs) =~= seq![line_output(l, srcs)] + outputs(rest, srcs));
    lemma_join_cons(line_output(l, srcs), outputs(rest, srcs));
    let o = line_output(l, srcs);
    if first {
        assert(Seq::<char>::empty() + Seq::<char>::empty() + o + tail_after(s, next, srcs) =~= o
            + tail_after(s, next, srcs));
    } else {
        assert(before + seq!['\n'] + o + tail_after(s, next, srcs) =~= before + (seq!['\n'] + (o
            + tail_after(s, next, srcs))));
    }
}

/// The main script `content` with each line that embeds a package file (see `embed_line`)
/// replaced by that file's source; lines split as `str::lines` does and joined with `\n`.
pub fn parse_embed(main_name: &str, content: &str, files: &FileTable) -> (out: String)
    ensures
        out@ == embedded(main_name@, content@, files@),
{
    let ghost srcs = embed_sources(main_name@, files@);
    let ghost target = join_lines(outputs(lines(content@), srcs));
    let cs = chars_of(content);
    let n = cs.len();
    let mut out = String::new();
    let mut start: usize = 0;
    let mut first = true;
    while start < n
        invariant
            n == cs@.len(),
            cs@ == content@,
            srcs == embed_sources(main_name@, files@),
            target == join_lines(outputs(lines(content@), srcs)),
            start <= n,
            first ==> start == 0 && out@ == Seq::<char>::empty(),
            !first ==> target == out@ + tail_after(cs@, start as int, srcs),
        decreases n - start,
    {
        let mut e = start;
        while e < n && cs[e] != '\n'
            invariant
                start <= e <= n,
                n == cs@.len(),
                line_end(cs@, start as int) == line_end(cs@, e as int),
            decreases n - e,
        {
            e = e + 1;
        }
        proof {
            lemma_line_end(cs@, start as int);
            lemma_emit_line(cs@, start as int, srcs, out@, first, target);
        }
        let stop = if e < n && e > start && cs[e - 1] == '\r' {
            e - 1
        } else {
            e
        };
        let line = &cs[start..stop];
        assert(line@ =~= line_text(cs@, start as int));
        let ghost before = out@;
        if !first {
            out.push('\n');
        }
        let line_text_owned = string_of(line);
        match try_parse_embed_line(line_text_owned.as_str(), main_name, files) {
            Some(src) => {
                push_chars(&mut out, chars_of(src.as_str()).as_slice());
            },
            None => {
                push_chars(&mut out, line);
            },
        }
        assert(out@ =~= before + (if first {
            Seq::<char>::empty()
        } else {
            seq!['\n']
        }) + line_output(line_text(cs@, start as int), srcs));
        start = if e < n {
            e + 1
        } else {
            n
        };
        proof {
            if e >= n {
                assert(lines_from(cs@, e + 1) =~= Seq::<Seq<char>>::empty());
                assert(lines_from(cs@, n as int) =~= Seq::<Seq<char>>::empty());
            }
        }
        first = false;
    }
    proof {
        if first {
            assert(lines(content@) =~= Seq::<Seq<char>>::empty());
            assert(outputs(lines(content@), srcs) =~= Seq::<Seq<char>>::empty());
        } else {
            assert(out@ + Seq::<char>::empty() =~= out@);
        }
    }
    out
}

proof fn lemma_lines_join_from(s: Seq<char>, from: int)
    requires
        0 <= from < s.len(),
        forall|i: int| 0 <= i < s.len() ==> s[i] != '\r',
        s.last() != '\n',
    ensures
        join_lines(lines_from(s, from)) == s.subrange(from, s.len() as int),
    decreases s.len() - from,
{
    lemma_line_end(s, from);
    let e = line_end(s, from);
    let l = line_text(s, from);
    assert(l == s.subrange(from, e)) by {
        if e < s.len() && e > from {
            assert(s.subrange(from, e).last() == s[e - 1]);
        }
    }
    let rest = lines_from(s, e + 1);
    assert(lines_from(s, from) == seq![l] + rest);
    lemma_join_cons(l, rest);
    if e < s.len() {
        assert(e + 1 < s.len());
        lemma_lines_join_from(s, e + 1);
        assert(rest.len() > 0);
        assert(s.subrange(from, e) + (seq!['\n'] + s.subrange(e + 1, s.len() as int)) =~= s.subrange(
            from,
            s.len() as int,
        ));
    } else {
        assert(rest =~= Seq::<Seq<char>>::empty());
        assert(l + Seq::<char>::empty() =~= l);
    }
}

/// A script that embeds nothing, holds no carriage return and does not end with a newline
/// comes back unchanged.
pub proof fn lemma_plain_script_unchanged(main: Seq<char>, content: Seq<char>, files: Map<Seq<char>, Seq<u8>>)
    requires
        forall|i: int| 0 <= i < content.len() ==> content[i] != '\r',
        content.len() == 0 || content.last() != '\n',
        forall|i: int|
            0 <= i < lines(content).len() ==> embed_line(
                #[trigger] lines(content)[i],
                embed_sources(main, files),
            ) is None,
    ensures
        embedded(main, content, files) == content,
{
    let srcs = embed_sources(main, files);
    assert(outputs(lines(content), srcs) =~= lines(content)) by {
        assert forall|i: int| 0 <= i < lines(content).len() implies outputs(lines(content), srcs)[i]
            == lines(content)[i] by {
            assert(embed_line(lines(content)[i], srcs) is None);
        }
    }
    if content.len() == 0 {
        assert(lines(content) =~= Seq::<Seq<char>>::empty());
        assert(content =~= Seq::<char>::empty());
    } else {
        lemma_lines_join_from(content, 0);
        assert(content.subrange(0, content.len() as int) =~= content);
    }
}

/// Every package file other than the main script whose path ends with `.lua` and whose contents
/// are UTF-8 can be embedded, under its path as it is (whatever characters the path holds), with
/// its decoded contents as source; no other file can.
pub proof fn lemma_lua_files_embeddable(main: Seq<char>, files: Map<Seq<char>, Seq<u8>>, name: Seq<char>)
    ensures
        embed_sources(main, files).contains_key(name) <==> (files.contains_key(name) && name
            != main && name.len() >= 4 && name[name.len() - 4] == '.' && name[name.len() - 3]
            == 'l' && name[name.len() - 2] == 'u' && name[name.len() - 1] == 'a' && valid_utf8(
            files[name],
        )),
        embed_sources(main, files).contains_key(name) ==> embed_sources(main, files)[name]
            == decode_utf8(files[name]),
{
    if name.len() >= 4 {
        let t = name.subrange(name.len() - 4, name.len() as int);
        assert(t[0] == name[name.len() - 4]);
        assert(t[1] == name[name.len() - 3]);
        assert(t[2] == name[name.len() - 2]);
        assert(t[3] == name[name.len() - 1]);
        if name[name.len() - 4] == '.' && name[name.len() - 3] == 'l' && name[name.len() - 2]
            == 'u' && name[name.len() - 1] == 'a' {
            assert(t =~= lua_suffix());
        }
    }
}

} // verus!
