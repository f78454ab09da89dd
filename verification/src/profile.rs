//! The sections of a timing report: a timing belongs to a section when its
//! name starts with the section's name, and is listed under it by the rest of
//! its name, leading white space removed.
use vstd::prelude::*;

verus! {

/// The white space characters of Unicode, as `char::is_whitespace` has them.
pub open spec fn is_white_space(c: char) -> bool {
    ||| c == '\t'
    ||| c == '\n'
    ||| c == '\u{0B}'
    ||| c == '\u{0C}'
    ||| c == '\r'
    ||| c == ' '
    ||| c == '\u{85}'
    ||| c == '\u{A0}'
    ||| c == '\u{1680}'
    ||| ('\u{2000}' <= c && c <= '\u{200A}')
    ||| c == '\u{2028}'
    ||| c == '\u{2029}'
    ||| c == '\u{202F}'
    ||| c == '\u{205F}'
    ||| c == '\u{3000}'
}

/// The white space that is stripped from a subsection name is exactly that
/// of `char::is_whitespace`: tab, line feed, vertical tab, form feed,
/// carriage return, space, next line, no-break space, Ogham space mark, the
/// spaces from en quad to hair space, line and paragraph separators, narrow
/// no-break space, medium mathematical space and ideographic space.
pub proof fn law_white_space_is_unicode(c: char)
    ensures
        is_white_space(c) <==> (c == '\u{9}' || c == '\u{A}' || c == '\u{B}' || c == '\u{C}' || c == '\u{D}'
            || c == '\u{20}' || c == '\u{85}' || c == '\u{A0}' || c == '\u{1680}' || c == '\u{2000}' || c
            == '\u{2001}' || c == '\u{2002}' || c == '\u{2003}' || c == '\u{2004}' || c == '\u{2005}' || c
            == '\u{2006}' || c == '\u{2007}' || c == '\u{2008}' || c == '\u{2009}' || c == '\u{200A}' || c
            == '\u{2028}' || c == '\u{2029}' || c == '\u{202F}' || c == '\u{205F}' || c == '\u{3000}'),
{
}

/// Whether a character is white space.
pub fn white_space(c: char) -> (r: bool)
    ensures
        r == is_white_space(c),
{
    c == '\t' || c == '\n' || c == '\u{0B}' || c == '\u{0C}' || c == '\r' || c == ' ' || c == '\u{85}'
        || c == '\u{A0}' || c == '\u{1680}' || ('\u{2000}' <= c && c <= '\u{200A}') || c == '\u{2028}'
        || c == '\u{2029}' || c == '\u{202F}' || c == '\u{205F}' || c == '\u{3000}'
}

/// Whether a name starts with a section's name.
pub fn in_section(name: &str, section: &str) -> (r: bool)
    ensures
        r == (section@.len() <= name@.len() && name@.subrange(0, section@.len() as int) == section@),
{
    let n = name.unicode_len();
    let k = section.unicode_len();
    if k > n {
        return false;
    }
    let mut i: usize = 0;
    while i < k
        invariant
            k == section@.len(),
            n == name@.len(),
            k <= n,
            i <= k,
            forall|j: int| 0 <= j < i ==> name@[j] == section@[j],
        decreases k - i,
    {
        if name.get_char(i) != section.get_char(i) {
            return false;
        }
        i = i + 1;
    }
    assert(name@.subrange(0, k as int) =~= section@);
    true
}

/// The number of white space characters at the start of `s`.
pub open spec fn leading_white_space(s: Seq<char>) -> int
    decreases s.len(),
{
    if s.len() > 0 && is_white_space(s[0]) {
        1 + leading_white_space(s.drop_first())
    } else {
        0
    }
}

proof fn lemma_leading_white_space(s: Seq<char>, i: int)
    requires
        0 <= i <= s.len(),
        forall|j: int| 0 <= j < i ==> is_white_space(#[trigger] s[j]),
    ensures
        leading_white_space(s) == i + leading_white_space(s.subrange(i, s.len() as int)),
    decreases i,
{
    if i > 0 {
        assert forall|j: int| 0 <= j < i - 1 implies is_white_space(#[trigger] s.drop_first()[j]) by {
            assert(s.drop_first()[j] == s[j + 1]);
        }
        lemma_leading_white_space(s.drop_first(), i - 1);
        assert(s.drop_first().subrange(i - 1, s.drop_first().len() as int) =~= s.subrange(i, s.len() as int));
    } else {
        assert(s.subrange(0, s.len() as int) =~= s);
    }
}

/// The name under which a timing is listed in a section: the rest of its
/// name after the section's, without leading white space; `None` where the
/// name is not in the section or nothing is left.
pub fn subsection_name(name: &str, section: &str) -> (r: Option<String>)
    ensures
        match r {
            Some(s) => {
                &&& section@.len() <= name@.len()
                &&& name@.subrange(0, section@.len() as int) == section@
                &&& {
                    let rest = name@.subrange(section@.len() as int, name@.len() as int);
                    &&& s@ == rest.subrange(leading_white_space(rest), rest.len() as int)
                    &&& s@.len() > 0
                }
            },
            None => !(section@.len() <= name@.len() && name@.subrange(0, section@.len() as int) == section@)
                || {
                let rest = name@.subrange(section@.len() as int, name@.len() as int);
                leading_white_space(rest) == rest.len()
            },
        },
{
    if !in_section(name, section) {
        return None;
    }
    let n = name.unicode_len();
    let k = section.unicode_len();
    let rest = name.substring_char(k, n);
    let m = n - k;
    let mut i: usize = 0;
    while i < m && white_space(rest.get_char(i))
        invariant
            m == rest@.len(),
            i <= m,
            forall|j: int| 0 <= j < i ==> is_white_space(#[trigger] rest@[j]),
        decreases m - i,
    {
        i = i + 1;
    }
    proof {
        lemma_leading_white_space(rest@, i as int);
        let tail = rest@.subrange(i as int, m as int);
        if i < m {
            assert(tail[0] == rest@[i as int]);
            assert(leading_white_space(tail) == 0);
        } else {
            assert(tail.len() == 0);
        }
    }
    if i == m {
        return None;
    }
    Some(String::from_str(rest.substring_char(i, m)))
}

/// A timing named after a section, then any run of spaces, tabs, line feeds
/// and carriage returns, then a word that starts with a visible ASCII
/// character, is listed in that section under the word alone.
pub proof fn law_subsection_skips_white_space(section: Seq<char>, ws: Seq<char>, word: Seq<char>)
    requires
        forall|i: int|
            0 <= i < ws.len() ==> (#[trigger] ws[i] == ' ' || ws[i] == '\t' || ws[i] == '\n' || ws[i] == '\r'),
        word.len() > 0,
        '!' <= word[0] && word[0] <= '~',
    ensures
        (section + ws + word).subrange(section.len() as int, (section + ws + word).len() as int) == ws + word,
        leading_white_space(ws + word) == ws.len(),
        (ws + word).subrange(leading_white_space(ws + word), (ws + word).len() as int) == word,
{
    let name = section + ws + word;
    let rest = ws + word;
    assert(name.subrange(section.len() as int, name.len() as int) =~= rest);
    assert forall|j: int| 0 <= j < ws.len() implies is_white_space(#[trigger] rest[j]) by {
        assert(rest[j] == ws[j]);
    }
    lemma_leading_white_space(rest, ws.len() as int);
    let tail = rest.subrange(ws.len() as int, rest.len() as int);
    assert(tail =~= word);
    assert(!is_white_space(word[0]));
    assert(leading_white_space(tail) == 0);
}

} // verus!
