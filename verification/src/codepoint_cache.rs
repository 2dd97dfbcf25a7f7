//! Per-font cache of which codepoints a font supports, bounded in size.

use vstd::prelude::*;
use vstd::utf8::*;

verus! {

/// Strictly increasing.
pub open spec fn sorted(s: Seq<u32>) -> bool {
    forall|i: int, j: int| 0 <= i < j < s.len() ==> s[i] < s[j]
}

/// `i` is where `x` belongs in `s`: everything before is smaller, everything from it
/// on is larger.
pub open spec fn insertion_point(s: Seq<u32>, x: u32, i: int) -> bool {
    &&& 0 <= i <= s.len()
    &&& forall|j: int| 0 <= j < i ==> s[j] < x
    &&& forall|j: int| i <= j < s.len() ==> s[j] > x
}

/// `s` with `x` inserted at `i`, keeping at most `max` entries.
pub open spec fn insert_bounded(s: Seq<u32>, i: int, x: u32, max: nat) -> Seq<u32> {
    let t = s.insert(i, x);
    if t.len() > max {
        t.subrange(0, max as int)
    } else {
        t
    }
}

/// `<[u32]>::binary_search`. On a sorted slice it finds the element, or reports where
/// it belongs; on an unsorted slice its result is unspecified, and nothing is stated.
#[verifier::external_body]
fn slice_binary_search(s: &[u32], x: u32) -> (r: Result<usize, usize>)
    ensures
        sorted(s@) ==> match r {
            Ok(i) => i < s@.len() && s@[i as int] == x,
            Err(i) => insertion_point(s@, x, i as int),
        },
{
    s.binary_search(&x)
}

/// `<[u32]>::contains`.
#[verifier::external_body]
fn slice_contains(s: &[u32], x: u32) -> (r: bool)
    ensures
        r == s@.contains(x),
{
    s.contains(&x)
}

/// Most supported codepoints remembered.
pub const SUPPORTED_MAX_SZ: usize = 512;

/// Most unsupported codepoints remembered.
pub const NOT_SUPPORTED_MAX_SZ: usize = 1024;

/// The answer of a lookup: what the cache remembers, else whether the font has it.
pub open spec fn spec_cached_answer(
    c: FontCachedCodepointSupportInfo,
    font_codepoints: Seq<u32>,
    codepoint: u32,
) -> bool {
    if c.supported_view().contains(codepoint) {
        true
    } else if c.not_supported_view().contains(codepoint) {
        false
    } else {
        font_codepoints.contains(codepoint)
    }
}

/// How a lookup changes the cache: a remembered codepoint changes nothing; a new one
/// is inserted in order into the list of its answer unless its place is past the
/// list's bound, and a full list drops its last entry.
pub open spec fn spec_cache_update(
    before: FontCachedCodepointSupportInfo,
    after: FontCachedCodepointSupportInfo,
    codepoint: u32,
    ret: bool,
) -> bool {
    if before.supported_view().contains(codepoint) || before.not_supported_view().contains(
        codepoint,
    ) {
        after.supported_view() == before.supported_view() && after.not_supported_view()
            == before.not_supported_view()
    } else {
        exists|i: int, j: int|
            insertion_point(before.supported_view(), codepoint, i) && insertion_point(
                before.not_supported_view(),
                codepoint,
                j,
            ) && after.supported_view() == (if ret && i != SUPPORTED_MAX_SZ {
                insert_bounded(before.supported_view(), i, codepoint, SUPPORTED_MAX_SZ as nat)
            } else {
                before.supported_view()
            }) && after.not_supported_view() == (if !ret && j != NOT_SUPPORTED_MAX_SZ {
                insert_bounded(
                    before.not_supported_view(),
                    j,
                    codepoint,
                    NOT_SUPPORTED_MAX_SZ as nat,
                )
            } else {
                before.not_supported_view()
            })
    }
}

/// Remembers, for one font, codepoints known to be supported and codepoints known not
/// to be, each as a sorted list of bounded length.
pub struct FontCachedCodepointSupportInfo {
    supported: Vec<u32>,
    not_supported: Vec<u32>,
}

impl FontCachedCodepointSupportInfo {
    pub closed spec fn supported_view(&self) -> Seq<u32> {
        self.supported@
    }

    pub closed spec fn not_supported_view(&self) -> Seq<u32> {
        self.not_supported@
    }

    /// Both lists are sorted and within their bounds.
    pub open spec fn wf(&self) -> bool {
        &&& sorted(self.supported_view())
        &&& sorted(self.not_supported_view())
        &&& self.supported_view().len() <= SUPPORTED_MAX_SZ
        &&& self.not_supported_view().len() <= NOT_SUPPORTED_MAX_SZ
    }

    /// What the cache remembers agrees with the font's codepoints.
    pub open spec fn consistent_with(&self, font_codepoints: Seq<u32>) -> bool {
        &&& forall|i: int|
            0 <= i < self.supported_view().len() ==> font_codepoints.contains(
                #[trigger] self.supported_view()[i],
            )
        &&& forall|i: int|
            0 <= i < self.not_supported_view().len() ==> !font_codepoints.contains(
                #[trigger] self.not_supported_view()[i],
            )
    }

    pub fn new() -> (c: Self)
        ensures
            c.wf(),
            c.supported_view() == Seq::<u32>::empty(),
            c.not_supported_view() == Seq::<u32>::empty(),
    {
        Self {
            supported: Vec::with_capacity(SUPPORTED_MAX_SZ),
            not_supported: Vec::with_capacity(NOT_SUPPORTED_MAX_SZ),
        }
    }

    /// Looks `codepoint` up in the font's codepoints and remembers the answer at the
    /// given positions, unless a position is the list's bound.
    pub fn unknown_has_codepoint(
        &mut self,
        font_codepoints: &[u32],
        codepoint: u32,
        supported_insert_pos: usize,
        not_supported_insert_pos: usize,
    ) -> (ret: bool)
        requires
            supported_insert_pos <= old(self).supported_view().len(),
            not_supported_insert_pos <= old(self).not_supported_view().len(),
        ensures
            ret == font_codepoints@.contains(codepoint),
            final(self).supported_view() == if ret && supported_insert_pos != SUPPORTED_MAX_SZ {
                insert_bounded(
                    old(self).supported_view(),
                    supported_insert_pos as int,
                    codepoint,
                    SUPPORTED_MAX_SZ as nat,
                )
            } else {
                old(self).supported_view()
            },
            final(self).not_supported_view() == if !ret && not_supported_insert_pos
                != NOT_SUPPORTED_MAX_SZ {
                insert_bounded(
                    old(self).not_supported_view(),
                    not_supported_insert_pos as int,
                    codepoint,
                    NOT_SUPPORTED_MAX_SZ as nat,
                )
            } else {
                old(self).not_supported_view()
            },
    {
        let ret = slice_contains(font_codepoints, codepoint);
        if ret {
            if supported_insert_pos != SUPPORTED_MAX_SZ {
                self.supported.insert(supported_insert_pos, codepoint);
                self.supported.truncate(SUPPORTED_MAX_SZ);
            }
        } else {
            if not_supported_insert_pos != NOT_SUPPORTED_MAX_SZ {
                self.not_supported.insert(not_supported_insert_pos, codepoint);
                self.not_supported.truncate(NOT_SUPPORTED_MAX_SZ);
            }
        }
        ret
    }

    /// Whether the font supports `codepoint`, answered from the cache when it knows,
    /// else from the font's codepoints, remembering the answer.
    pub fn has_codepoint(&mut self, font_codepoints: &[u32], codepoint: u32) -> (ret: bool)
        requires
            old(self).wf(),
        ensures
            final(self).wf(),
            ret == spec_cached_answer(*old(self), font_codepoints@, codepoint),
            spec_cache_update(*old(self), *final(self), codepoint, ret),
    {
        match slice_binary_search(self.supported.as_slice(), codepoint) {
            Ok(_) => true,
            Err(supported_insert_pos) => match slice_binary_search(
                self.not_supported.as_slice(),
                codepoint,
            ) {
                Ok(_) => {
                    proof {
                        assert(!old(self).supported_view().contains(codepoint)) by {
                            if old(self).supported_view().contains(codepoint) {
                                let k = choose|k: int|
                                    0 <= k < old(self).supported_view().len() && old(
                                        self,
                                    ).supported_view()[k] == codepoint;
                                assert(k < supported_insert_pos || k >= supported_insert_pos);
                            }
                        }
                    }
                    false
                },
                Err(not_supported_insert_pos) => {
                    let ghost s0 = self.supported@;
                    let ghost n0 = self.not_supported@;
                    proof {
                        lemma_absent_at_insertion_point(s0, codepoint, supported_insert_pos as int);
                        lemma_absent_at_insertion_point(
                            n0,
                            codepoint,
                            not_supported_insert_pos as int,
                        );
                        lemma_insert_sorted(s0, codepoint, supported_insert_pos as int, SUPPORTED_MAX_SZ as nat);
                        lemma_insert_sorted(n0, codepoint, not_supported_insert_pos as int, NOT_SUPPORTED_MAX_SZ as nat);
                    }
                    let r = self.unknown_has_codepoint(
                        font_codepoints,
                        codepoint,
                        supported_insert_pos,
                        not_supported_insert_pos,
                    );
                    assert(insertion_point(s0, codepoint, supported_insert_pos as int));
                    assert(insertion_point(n0, codepoint, not_supported_insert_pos as int));
                    r
                },
            },
        }
    }
}

proof fn lemma_absent_at_insertion_point(s: Seq<u32>, x: u32, i: int)
    requires
        insertion_point(s, x, i),
    ensures
        !s.contains(x),
{
    if s.contains(x) {
        let k = choose|k: int| 0 <= k < s.len() && s[k] == x;
        assert(k < i || k >= i);
    }
}

proof fn lemma_insert_sorted(s: Seq<u32>, x: u32, i: int, max: nat)
    requires
        sorted(s),
        insertion_point(s, x, i),
        s.len() <= max,
    ensures
        sorted(insert_bounded(s, i, x, max)),
        insert_bounded(s, i, x, max).len() <= max,
{
    let t = s.insert(i, x);
    assert forall|a: int, b: int| 0 <= a < b < t.len() implies t[a] < t[b] by {
        if b < i {
        } else if b == i {
        } else if a < i {
        } else if a == i {
        } else {
        }
    }
}

proof fn lemma_insert_bounded_members(s: Seq<u32>, i: int, x: u32, max: nat, y: u32)
    requires
        0 <= i <= s.len(),
        insert_bounded(s, i, x, max).contains(y),
    ensures
        s.contains(y) || y == x,
{
    let t = s.insert(i, x);
    let u = insert_bounded(s, i, x, max);
    let k = choose|k: int| 0 <= k < u.len() && u[k] == y;
    assert(t[k] == y);
    if k < i {
        assert(s[k] == y);
    } else if k > i {
        assert(s[k - 1] == y);
    }
}

/// The cache never changes an answer: on a cache that agrees with the font's
/// codepoints, a lookup answers whether the font has the codepoint, and the cache
/// still agrees with the font afterwards.
pub proof fn lemma_has_codepoint_agrees(
    before: FontCachedCodepointSupportInfo,
    after: FontCachedCodepointSupportInfo,
    font_codepoints: Seq<u32>,
    codepoint: u32,
    ret: bool,
)
    requires
        before.wf(),
        before.consistent_with(font_codepoints),
        ret == spec_cached_answer(before, font_codepoints, codepoint),
        spec_cache_update(before, after, codepoint, ret),
    ensures
        ret == font_codepoints.contains(codepoint),
        after.consistent_with(font_codepoints),
{
    let sb = before.supported_view();
    let nb = before.not_supported_view();
    if sb.contains(codepoint) {
        let k = choose|k: int| 0 <= k < sb.len() && sb[k] == codepoint;
        assert(font_codepoints.contains(sb[k]));
    } else if nb.contains(codepoint) {
        let k = choose|k: int| 0 <= k < nb.len() && nb[k] == codepoint;
        assert(!font_codepoints.contains(nb[k]));
    }
    assert forall|i: int|
        0 <= i < after.supported_view().len() implies font_codepoints.contains(
        #[trigger] after.supported_view()[i],
    ) by {
        let x = after.supported_view()[i];
        assert(after.supported_view().contains(x));
        if !(sb.contains(codepoint) || nb.contains(codepoint)) {
            let (a, b) = choose|a: int, b: int|
                insertion_point(sb, codepoint, a) && insertion_point(nb, codepoint, b) && after.supported_view() == (if ret && a != SUPPORTED_MAX_SZ {
                    insert_bounded(sb, a, codepoint, SUPPORTED_MAX_SZ as nat)
                } else {
                    sb
                }) && after.not_supported_view() == (if !ret && b != NOT_SUPPORTED_MAX_SZ {
                    insert_bounded(nb, b, codepoint, NOT_SUPPORTED_MAX_SZ as nat)
                } else {
                    nb
                });
            if ret && a != SUPPORTED_MAX_SZ {
                lemma_insert_bounded_members(sb, a, codepoint, SUPPORTED_MAX_SZ as nat, x);
            }
        }
        if sb.contains(x) {
            let k = choose|k: int| 0 <= k < sb.len() && sb[k] == x;
            assert(font_codepoints.contains(sb[k]));
        }
    }
    assert forall|i: int|
        0 <= i < after.not_supported_view().len() implies !font_codepoints.contains(
        #[trigger] after.not_supported_view()[i],
    ) by {
        let x = after.not_supported_view()[i];
        assert(after.not_supported_view().contains(x));
        if !(sb.contains(codepoint) || nb.contains(codepoint)) {
            let (a, b) = choose|a: int, b: int|
                insertion_point(sb, codepoint, a) && insertion_point(nb, codepoint, b) && after.supported_view() == (if ret && a != SUPPORTED_MAX_SZ {
                    insert_bounded(sb, a, codepoint, SUPPORTED_MAX_SZ as nat)
                } else {
                    sb
                }) && after.not_supported_view() == (if !ret && b != NOT_SUPPORTED_MAX_SZ {
                    insert_bounded(nb, b, codepoint, NOT_SUPPORTED_MAX_SZ as nat)
                } else {
                    nb
                });
            if !ret && b != NOT_SUPPORTED_MAX_SZ {
                lemma_insert_bounded_members(nb, b, codepoint, NOT_SUPPORTED_MAX_SZ as nat, x);
            }
        }
        if nb.contains(x) {
            let k = choose|k: int| 0 <= k < nb.len() && nb[k] == x;
            assert(!font_codepoints.contains(nb[k]));
        }
    }
}

/// Number of characters of `word` whose codepoint is among the font's.
pub open spec fn count_supported(font_codepoints: Seq<u32>, word: Seq<char>) -> nat
    decreases word.len(),
{
    if word.len() == 0 {
        0
    } else {
        count_supported(font_codepoints, word.drop_last()) + if font_codepoints.contains(
            word.last() as u32,
        ) {
            1nat
        } else {
            0nat
        }
    }
}

proof fn lemma_utf8_len_at_least_chars(s: Seq<char>)
    ensures
        encode_utf8(s).len() >= s.len(),
    decreases s.len(),
{
    if s.len() > 0 {
        lemma_utf8_len_at_least_chars(s.drop_first());
    }
}

/// Counts the characters of `word` that the font supports, looking each up through
/// the cache. On a cache that agrees with the font's codepoints, the count is exact
/// and the cache keeps agreeing.
pub fn supported_codepoints_in_word(
    cache: &mut FontCachedCodepointSupportInfo,
    font_codepoints: &[u32],
    word: &str,
) -> (n: usize)
    requires
        old(cache).wf(),
    ensures
        final(cache).wf(),
        old(cache).consistent_with(font_codepoints@) ==> n == count_supported(
            font_codepoints@,
            word@,
        ) && final(cache).consistent_with(font_codepoints@),
{
    let ghost s = word@;
    let ghost consistent0 = cache.consistent_with(font_codepoints@);
    let byte_len = word.as_bytes().len();
    proof {
        lemma_utf8_len_at_least_chars(s);
    }
    let mut count: usize = 0;
    for c in it: word.chars()
        invariant
            it.seq() == s,
            s.len() <= byte_len,
            cache.wf(),
            count <= it.index(),
            consistent0 ==> cache.consistent_with(font_codepoints@) && count == count_supported(
                font_codepoints@,
                s.take(it.index() as int),
            ),
    {
        let ghost before = *cache;
        let ghost k = it.index();
        let has = cache.has_codepoint(font_codepoints, c as u32);
        proof {
            assert(s.take(k + 1).drop_last() =~= s.take(k as int));
            assert(s.take(k + 1).last() == c);
            if consistent0 {
                lemma_has_codepoint_agrees(before, *cache, font_codepoints@, c as u32, has);
            }
        }
        if has {
            count = count + 1;
        }
    }
    assert(s.take(s.len() as int) =~= s);
    count
}

} // verus!
