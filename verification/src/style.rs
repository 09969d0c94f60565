//! CSS text from style tables: camelCase property names become kebab-case.
use vstd::prelude::*;

use crate::text::{chars_of, push_chars};

verus! {

/// Whether the non-ASCII character `c` has the Unicode `Uppercase` property.
pub uninterp spec fn non_ascii_uppercase(c: char) -> bool;

/// Whether `c` has the Unicode `Uppercase` property: among ASCII characters exactly `A` to `Z`.
pub open spec fn is_uppercase_char(c: char) -> bool {
    if (c as u32) < 128 {
        'A' <= c <= 'Z'
    } else {
        non_ascii_uppercase(c)
    }
}

/// Calls `char::is_uppercase`, which documents its result as the `Uppercase` property.
/// Claimed: among ASCII characters it holds exactly of `A` to `Z`; for the others the result is
/// `non_ascii_uppercase(c)`, which is not stated.
#[verifier::external_body]
fn char_is_uppercase(c: char) -> (r: bool)
    ensures
        (c as u32) < 128 ==> (r <==> 'A' <= c <= 'Z'),
        (c as u32) >= 128 ==> r == non_ascii_uppercase(c),
{
    c.is_uppercase()
}

/// `c` with an ASCII capital letter made small; every other character unchanged.
pub open spec fn ascii_lower(c: char) -> char {
    if 'A' <= c <= 'Z' {
        ((c as u32) + 32) as char
    } else {
        c
    }
}

/// What the character `c` at position `i` becomes: an uppercase character is made small
/// (if ASCII) and, unless it comes first, preceded by `-`.
pub open spec fn kebab_piece(c: char, i: int) -> Seq<char> {
    if is_uppercase_char(c) {
        if i != 0 {
            seq!['-', ascii_lower(c)]
        } else {
            seq![ascii_lower(c)]
        }
    } else {
        seq![c]
    }
}

/// `s` from camelCase to kebab-case.
pub open spec fn kebab(s: Seq<char>) -> Seq<char> {
    Seq::new(s.len(), |i: int| kebab_piece(s[i], i)).flatten()
}

/// `c` with an ASCII capital letter made small.
pub fn to_ascii_lowercase(c: char) -> (r: char)
    ensures
        r == ascii_lower(c),
{
    if c >= 'A' && c <= 'Z' {
        let b = (c as u8) + 32;
        assert(b as char == ((c as u32) + 32) as char);
        b as char
    } else {
        c
    }
}

/// `s` from camelCase to kebab-case: `fontSize` becomes `font-size`.
pub fn camel_to_kebab(s: String) -> (r: String)
    ensures
        r@ == kebab(s@),
{
    let cs = chars_of(s.as_str());
    let mut result = String::new();
    let mut i: usize = 0;
    while i < cs.len()
        invariant
            cs@ == s@,
            i <= cs@.len(),
            result@ == Seq::new(i as nat, |j: int| kebab_piece(cs@[j], j)).flatten(),
        decreases cs@.len() - i,
    {
        let ch = cs[i];
        let ghost before = result@;
        if char_is_uppercase(ch) {
            if i != 0 {
                result.push('-');
            }
            result.push(to_ascii_lowercase(ch));
        } else {
            result.push(ch);
        }
        proof {
            let f = |j: int| kebab_piece(cs@[j], j);
            assert(result@ =~= before + f(i as int));
            assert(Seq::new((i + 1) as nat, f) =~= Seq::new(i as nat, f).push(f(i as int)));
            Seq::new(i as nat, f).lemma_flatten_push(f(i as int));
        }
        i = i + 1;
    }
    result
}

/// One declaration: `name:value;`, the name in kebab-case.
pub open spec fn declaration(p: (Seq<char>, Seq<char>)) -> Seq<char> {
    kebab(p.0) + seq![':'] + p.1 + seq![';']
}

/// The declarations of `pairs`, one after another.
pub open spec fn style_text(pairs: Seq<(String, String)>) -> Seq<char> {
    Seq::new(pairs.len(), |i: int| declaration((pairs[i].0@, pairs[i].1@))).flatten()
}

/// CSS text for the properties `style` (names in camelCase, values as text), in order:
/// `name:value;` for each, the name in kebab-case.
pub fn style_to_string(style: &[(String, String)]) -> (r: String)
    ensures
        r@ == style_text(style@),
{
    let mut result = String::new();
    let mut i: usize = 0;
    while i < style.len()
        invariant
            i <= style@.len(),
            result@ == Seq::new(
                i as nat,
                |j: int| declaration((style@[j].0@, style@[j].1@)),
            ).flatten(),
        decreases style@.len() - i,
    {
        let ghost before = result@;
        let name = camel_to_kebab(style[i].0.clone());
        push_chars(&mut result, chars_of(name.as_str()).as_slice());
        result.push(':');
        push_chars(&mut result, chars_of(style[i].1.as_str()).as_slice());
        result.push(';');
        proof {
            let f = |j: int| declaration((style@[j].0@, style@[j].1@));
            assert(result@ =~= before + f(i as int));
            assert(Seq::new((i + 1) as nat, f) =~= Seq::new(i as nat, f).push(f(i as int)));
            Seq::new(i as nat, f).lemma_flatten_push(f(i as int));
        }
        i = i + 1;
    }
    result
}

proof fn lemma_kebab_prefix(s: Seq<char>, k: int)
    requires
        0 <= k <= s.len(),
        forall|i: int| 0 <= i < s.len() ==> !is_uppercase_char(#[trigger] s[i]),
    ensures
        Seq::new(k as nat, |i: int| kebab_piece(s[i], i)).flatten() == s.take(k),
    decreases k,
{
    let f = |i: int| kebab_piece(s[i], i);
    if k == 0 {
        assert(Seq::new(0, f).flatten() =~= s.take(0));
    } else {
        lemma_kebab_prefix(s, k - 1);
        assert(Seq::new(k as nat, f) =~= Seq::new((k - 1) as nat, f).push(f(k - 1)));
        Seq::new((k - 1) as nat, f).lemma_flatten_push(f(k - 1));
        assert(f(k - 1) == seq![s[k - 1]]);
        assert(s.take(k - 1) + seq![s[k - 1]] =~= s.take(k));
    }
}

/// A name with no uppercase character is already kebab-case: it comes back unchanged.
pub proof fn lemma_kebab_keeps_lowercase(s: Seq<char>)
    requires
        forall|i: int| 0 <= i < s.len() ==> !is_uppercase_char(#[trigger] s[i]),
    ensures
        kebab(s) == s,
{
    lemma_kebab_prefix(s, s.len() as int);
    assert(s.take(s.len() as int) =~= s);
}

/// Whether no character of `s` is uppercase.
pub open spec fn no_uppercase(s: Seq<char>) -> bool {
    forall|i: int| 0 <= i < s.len() ==> !is_uppercase_char(#[trigger] s[i])
}

/// Whether every uppercase character of `s` is ASCII.
pub open spec fn capitals_ascii(s: Seq<char>) -> bool {
    forall|i: int| 0 <= i < s.len() && is_uppercase_char(#[trigger] s[i]) ==> (s[i] as u32) < 128
}

proof fn lemma_pieces_lowercase(s: Seq<char>, k: int)
    requires
        0 <= k <= s.len(),
        capitals_ascii(s),
    ensures
        no_uppercase(Seq::new(k as nat, |i: int| kebab_piece(s[i], i)).flatten()),
    decreases k,
{
    let f = |i: int| kebab_piece(s[i], i);
    if k == 0 {
        assert(Seq::new(0, f).flatten() =~= Seq::<char>::empty());
    } else {
        lemma_pieces_lowercase(s, k - 1);
        assert(Seq::new(k as nat, f) =~= Seq::new((k - 1) as nat, f).push(f(k - 1)));
        Seq::new((k - 1) as nat, f).lemma_flatten_push(f(k - 1));
        let a = Seq::new((k - 1) as nat, f).flatten();
        let b = f(k - 1);
        assert(no_uppercase(b)) by {
            let c = s[k - 1];
            if is_uppercase_char(c) {
                let v = ((c as u32) + 32) as u32;
                assert(97 <= v <= 122);
                assert((v as char) as u32 == v);
                assert(!is_uppercase_char(ascii_lower(c)));
                assert(!is_uppercase_char('-'));
            }
        }
        assert forall|i: int| 0 <= i < (a + b).len() implies !is_uppercase_char(#[trigger] (a + b)[i]) by {
            if i < a.len() {
                assert((a + b)[i] == a[i]);
            } else {
                assert((a + b)[i] == b[i - a.len()]);
            }
        }
    }
}

/// A name whose capital letters are all ASCII is kebab-case after one conversion: converting it
/// again changes nothing.
pub proof fn lemma_kebab_idempotent(s: Seq<char>)
    requires
        capitals_ascii(s),
    ensures
        kebab(kebab(s)) == kebab(s),
{
    lemma_pieces_lowercase(s, s.len() as int);
    lemma_kebab_keeps_lowercase(kebab(s));
}

/// The CSS text of one property: its name in kebab-case, `:`, its value exactly as given, `;`.
pub proof fn lemma_style_one(name: String, value: String)
    ensures
        style_text(seq![(name, value)]) == kebab(name@) + seq![':'] + value@ + seq![';'],
{
    let f = |i: int| declaration((seq![(name, value)][i].0@, seq![(name, value)][i].1@));
    let pieces = Seq::new(1, f);
    pieces.lemma_flatten_one_element();
    assert(pieces.first() == kebab(name@) + seq![':'] + value@ + seq![';']);
}

/// The CSS text of properties one after another is the text of each, one after another.
pub proof fn lemma_style_concat(a: Seq<(String, String)>, b: Seq<(String, String)>)
    ensures
        style_text(a + b) == style_text(a) + style_text(b),
{
    let fa = |i: int| declaration((a[i].0@, a[i].1@));
    let fb = |i: int| declaration((b[i].0@, b[i].1@));
    let ab = a + b;
    let fab = |i: int| declaration((ab[i].0@, ab[i].1@));
    assert(Seq::new(ab.len(), fab) =~= Seq::new(a.len(), fa) + Seq::new(b.len(), fb));
    vstd::seq_lib::lemma_flatten_concat(Seq::new(a.len(), fa), Seq::new(b.len(), fb));
}

} // verus!
