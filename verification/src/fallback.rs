//! Choosing the CJK font family for Han characters from the locale.

use vstd::prelude::*;

verus! {

/// ASCII letters lowered; every other character kept.
pub open spec fn ascii_lower(c: char) -> char {
    if 65 <= c as u32 <= 90 {
        ((c as u32) + 32) as char
    } else {
        c
    }
}

/// The `-`-separated subtags of a locale tag, ASCII-lowercased. There is always at
/// least one subtag, possibly empty.
pub open spec fn subtags(s: Seq<char>) -> Seq<Seq<char>>
    decreases s.len(),
{
    if s.len() == 0 {
        seq![Seq::<char>::empty()]
    } else {
        let parts = subtags(s.drop_last());
        let c = s.last();
        if c == '-' {
            parts.push(Seq::<char>::empty())
        } else {
            parts.update(parts.len() - 1, parts.last().push(ascii_lower(c)))
        }
    }
}

/// The Han fallback a locale selects.
pub enum HanVariant {
    Japanese,
    Korean,
    Simplified,
    TraditionalTaiwan,
    TraditionalHongKong,
}

/// Some subtag after the first is `t`.
pub open spec fn later_subtag(tags: Seq<Seq<char>>, t: Seq<char>) -> bool {
    exists|i: int| 1 <= i < tags.len() && tags[i] == t
}

/// Japanese and Korean by language; otherwise Simplified Chinese when there is no
/// further subtag or a `hans` one, then Hong Kong for `hk`, then Taiwan for `hant`
/// or `tw`, and Simplified Chinese for anything else.
pub open spec fn han_variant(locale: Seq<char>) -> HanVariant {
    let tags = subtags(locale);
    if tags[0] == seq!['j', 'a'] {
        HanVariant::Japanese
    } else if tags[0] == seq!['k', 'o'] {
        HanVariant::Korean
    } else if tags.len() <= 1 || later_subtag(tags, seq!['h', 'a', 'n', 's']) {
        HanVariant::Simplified
    } else if later_subtag(tags, seq!['h', 'k']) {
        HanVariant::TraditionalHongKong
    } else if later_subtag(tags, seq!['h', 'a', 'n', 't']) || later_subtag(tags, seq!['t', 'w']) {
        HanVariant::TraditionalTaiwan
    } else {
        HanVariant::Simplified
    }
}

proof fn lemma_subtags_nonempty(s: Seq<char>)
    ensures
        subtags(s).len() >= 1,
    decreases s.len(),
{
    if s.len() > 0 {
        lemma_subtags_nonempty(s.drop_last());
    }
}

/// Texts equal once ASCII letters are lowered have the same subtags.
proof fn lemma_subtags_ignore_case(a: Seq<char>, b: Seq<char>)
    requires
        a.len() == b.len(),
        forall|i: int| 0 <= i < a.len() ==> ascii_lower(#[trigger] a[i]) == ascii_lower(b[i]),
    ensures
        subtags(a) == subtags(b),
    decreases a.len(),
{
    if a.len() > 0 {
        let n = a.len() - 1;
        assert forall|i: int| 0 <= i < a.drop_last().len() implies ascii_lower(#[trigger] a.drop_last()[i])
            == ascii_lower(b.drop_last()[i]) by {
            assert(ascii_lower(a[i]) == ascii_lower(b[i]));
        }
        lemma_subtags_ignore_case(a.drop_last(), b.drop_last());
        assert(ascii_lower(a[n]) == ascii_lower(b[n]));
        assert((a.last() == '-') == (b.last() == '-'));
    }
}

/// The choice of Han font ignores the ASCII case of the locale: locales that agree
/// once ASCII letters are lowered choose the same family.
pub proof fn lemma_han_variant_ignores_case(a: Seq<char>, b: Seq<char>)
    requires
        a.len() == b.len(),
        forall|i: int| 0 <= i < a.len() ==> ascii_lower(#[trigger] a[i]) == ascii_lower(b[i]),
    ensures
        han_variant(a) == han_variant(b),
{
    lemma_subtags_ignore_case(a, b);
}

fn lower_ascii(c: char) -> (r: char)
    ensures
        r == ascii_lower(c),
{
    if 'A' <= c && c <= 'Z' {
        let v: u32 = (c as u32) + 32;
        assert(v <= 0x7f);
        char_from_ascii(v)
    } else {
        c
    }
}

fn char_from_ascii(v: u32) -> (c: char)
    requires
        v <= 0x7f,
    ensures
        c == v as char,
{
    let b: u8 = v as u8;
    b as char
}

fn split_subtags(locale: &str) -> (tags: Vec<Vec<char>>)
    ensures
        tags@.map_values(|t: Vec<char>| t@) == subtags(locale@),
{
    let mut tags: Vec<Vec<char>> = Vec::new();
    tags.push(Vec::new());
    let ghost s = locale@;
    for c in it: locale.chars()
        invariant
            it.seq() == s,
            tags@.len() >= 1,
            tags@.map_values(|t: Vec<char>| t@) == subtags(s.take(it.index() as int)),
    {
        let ghost before = tags@.map_values(|t: Vec<char>| t@);
        assert(s.take(it.index() + 1).drop_last() =~= s.take(it.index() as int));
        if c == '-' {
            tags.push(Vec::new());
            assert(tags@.map_values(|t: Vec<char>| t@) =~= before.push(Seq::<char>::empty()));
        } else {
            let mut t = tags.pop().unwrap();
            t.push(lower_ascii(c));
            tags.push(t);
            assert(tags@.map_values(|t: Vec<char>| t@) =~= before.update(
                before.len() - 1,
                before.last().push(ascii_lower(c)),
            ));
        }
    }
    assert(s.take(s.len() as int) =~= s);
    tags
}

fn tag_is(t: &Vec<char>, lit: &[char]) -> (r: bool)
    ensures
        r == (t@ == lit@),
{
    if t.len() != lit.len() {
        return false;
    }
    let n = t.len();
    let mut i: usize = 0;
    while i < n
        invariant
            n == t@.len(),
            n == lit@.len(),
            i <= n,
            forall|k: int| 0 <= k < i ==> t@[k] == lit@[k],
        decreases n - i,
    {
        if t[i] != lit[i] {
            return false;
        }
        i = i + 1;
    }
    assert(t@ =~= lit@);
    true
}

fn any_later_tag(tags: &Vec<Vec<char>>, lit: &[char]) -> (r: bool)
    ensures
        r == later_subtag(tags@.map_values(|t: Vec<char>| t@), lit@),
{
    let ghost views = tags@.map_values(|t: Vec<char>| t@);
    let n = tags.len();
    let mut i: usize = 1;
    while i < n
        invariant
            n == tags@.len(),
            views == tags@.map_values(|t: Vec<char>| t@),
            1 <= i,
            forall|k: int| 1 <= k < i && k < n ==> views[k] != lit@,
        decreases n - i,
    {
        if tag_is(&tags[i], lit) {
            assert(views[i as int] == lit@);
            return true;
        }
        i = i + 1;
    }
    false
}

/// Picks the Han font family for `locale` among the given ones.
pub fn platform_han_fallback(
    locale: &str,
    zh_hans: &'static str,
    zh_hant_tw: &'static str,
    zh_hant_hk: &'static str,
    ja: &'static str,
    ko: &'static str,
) -> (r: &'static str)
    ensures
        r == match han_variant(locale@) {
            HanVariant::Japanese => ja,
            HanVariant::Korean => ko,
            HanVariant::Simplified => zh_hans,
            HanVariant::TraditionalTaiwan => zh_hant_tw,
            HanVariant::TraditionalHongKong => zh_hant_hk,
        },
{
    let tags = split_subtags(locale);
    let ghost views = tags@.map_values(|t: Vec<char>| t@);
    proof {
        lemma_subtags_nonempty(locale@);
    }
    assert(views.len() == tags@.len());
    let first = &tags[0];
    assert(views[0] == first@);
    let ja_lit: &[char] = &['j', 'a'];
    let ko_lit: &[char] = &['k', 'o'];
    let hans_lit: &[char] = &['h', 'a', 'n', 's'];
    let hk_lit: &[char] = &['h', 'k'];
    let hant_lit: &[char] = &['h', 'a', 'n', 't'];
    let tw_lit: &[char] = &['t', 'w'];
    assert(ja_lit@ =~= seq!['j', 'a']);
    assert(ko_lit@ =~= seq!['k', 'o']);
    assert(hans_lit@ =~= seq!['h', 'a', 'n', 's']);
    assert(hk_lit@ =~= seq!['h', 'k']);
    assert(hant_lit@ =~= seq!['h', 'a', 'n', 't']);
    assert(tw_lit@ =~= seq!['t', 'w']);
    if tag_is(first, ja_lit) {
        ja
    } else if tag_is(first, ko_lit) {
        ko
    } else if tags.len() <= 1 || any_later_tag(&tags, hans_lit) {
        zh_hans
    } else if any_later_tag(&tags, hk_lit) {
        zh_hant_hk
    } else if any_later_tag(&tags, hant_lit) || any_later_tag(&tags, tw_lit) {
        zh_hant_tw
    } else {
        zh_hans
    }
}

} // verus!
