//! Splitting and trimming of character and byte sequences.
use vstd::prelude::*;

verus! {

/// The pieces of `s` between occurrences of `d`, as `str::split` yields them:
/// always at least one piece, and empty pieces kept.
pub open spec fn split_seq<A>(s: Seq<A>, d: A) -> Seq<Seq<A>>
    decreases s.len(),
{
    if s.len() == 0 {
        seq![Seq::empty()]
    } else {
        let init = split_seq(s.drop_last(), d);
        if s.last() == d {
            init.push(Seq::empty())
        } else {
            init.update(init.len() - 1, init.last().push(s.last()))
        }
    }
}

/// `split_seq` never yields an empty list of pieces.
pub proof fn lemma_split_nonempty<A>(s: Seq<A>, d: A)
    ensures
        split_seq(s, d).len() >= 1,
    decreases s.len(),
{
    if s.len() > 0 {
        lemma_split_nonempty(s.drop_last(), d);
    }
}

/// A sequence that holds no `d` is one piece.
pub proof fn lemma_split_without_delimiter<A>(s: Seq<A>, d: A)
    requires
        !s.contains(d),
    ensures
        split_seq(s, d) == seq![s],
    decreases s.len(),
{
    if s.len() == 0 {
        assert(s =~= Seq::<A>::empty());
    } else {
        let init = s.drop_last();
        assert(!init.contains(d)) by {
            if init.contains(d) {
                let i = choose|i: int| 0 <= i < init.len() && init[i] == d;
                assert(s[i] == d);
            }
        }
        lemma_split_without_delimiter(init, d);
        assert(s[s.len() - 1] != d);
        assert(init.push(s.last()) =~= s);
        assert(split_seq(s, d) =~= seq![s]);
    }
}

/// The first piece of `s` is a prefix of it: all of `s` where there is one
/// piece, else followed in `s` by a `d`.
pub proof fn lemma_first_piece_prefix<A>(s: Seq<A>, d: A)
    ensures
        split_seq(s, d).len() >= 1,
        split_seq(s, d)[0].len() <= s.len(),
        split_seq(s, d)[0] == s.subrange(0, split_seq(s, d)[0].len() as int),
        split_seq(s, d).len() == 1 ==> split_seq(s, d)[0] == s,
        split_seq(s, d).len() > 1 ==> split_seq(s, d)[0].len() < s.len() && s[split_seq(s, d)[0].len() as int] == d,
    decreases s.len(),
{
    if s.len() == 0 {
        assert(s.subrange(0, 0) =~= s);
    } else {
        let init = s.drop_last();
        lemma_first_piece_prefix(init, d);
        let fi = split_seq(init, d)[0];
        assert(forall|i: int| 0 <= i < init.len() ==> init[i] == s[i]);
        if s.last() == d {
            assert(split_seq(s, d)[0] == fi);
            assert(fi =~= s.subrange(0, fi.len() as int));
        } else if split_seq(init, d).len() == 1 {
            assert(split_seq(s, d)[0] == fi.push(s.last()));
            assert(fi.push(s.last()) =~= s);
            assert(s.subrange(0, s.len() as int) =~= s);
        } else {
            assert(split_seq(s, d)[0] == fi);
            assert(fi =~= s.subrange(0, fi.len() as int));
        }
    }
}

/// The first piece of `s`, before any `d`.
pub open spec fn first_piece<A>(s: Seq<A>, d: A) -> Seq<A> {
    split_seq(s, d)[0]
}

/// The second piece of `s`, or the empty sequence if `s` holds no `d`.
pub open spec fn second_piece<A>(s: Seq<A>, d: A) -> Seq<A> {
    if split_seq(s, d).len() > 1 {
        split_seq(s, d)[1]
    } else {
        Seq::empty()
    }
}

/// The views of a list of strings.
pub open spec fn views_of(v: Seq<String>) -> Seq<Seq<char>> {
    v.map_values(|x: String| x@)
}

/// The views of a list of byte vectors.
pub open spec fn byte_views_of(v: Seq<Vec<u8>>) -> Seq<Seq<u8>> {
    v.map_values(|x: Vec<u8>| x@)
}

/// Splits `s` at every `d`, keeping empty pieces.
pub fn split_str(s: &str, d: char) -> (r: Vec<String>)
    ensures
        views_of(r@) == split_seq(s@, d),
{
    let n = s.unicode_len();
    let mut r: Vec<String> = Vec::new();
    let mut start: usize = 0;
    let mut i: usize = 0;
    proof {
        assert(s@.subrange(0, 0) =~= Seq::<char>::empty());
        assert(views_of(r@) =~= Seq::<Seq<char>>::empty());
        assert(seq![Seq::<char>::empty()] =~= Seq::<Seq<char>>::empty().push(Seq::empty()));
    }
    while i < n
        invariant
            n == s@.len(),
            start <= i <= n,
            split_seq(s@.subrange(0, i as int), d) == views_of(r@).push(
                s@.subrange(start as int, i as int),
            ),
        decreases n - i,
    {
        let c = s.get_char(i);
        let ghost pre = s@.subrange(0, i as int + 1);
        assert(pre.drop_last() =~= s@.subrange(0, i as int));
        if c == d {
            let piece = s.substring_char(start, i).to_owned();
            let ghost before = r@;
            r.push(piece);
            start = i + 1;
            assert(views_of(r@) =~= views_of(before).push(piece@));
            assert(s@.subrange(start as int, i as int + 1) =~= Seq::<char>::empty());
        } else {
            assert(s@.subrange(start as int, i as int + 1) =~= s@.subrange(
                start as int,
                i as int,
            ).push(c));
        }
        i = i + 1;
    }
    proof {
        assert(s@.subrange(0, n as int) =~= s@);
    }
    let last = s.substring_char(start, n).to_owned();
    let ghost before = r@;
    r.push(last);
    assert(views_of(r@) =~= views_of(before).push(last@));
    r
}

/// Splits `s` at every `d`, keeping empty pieces.
pub fn split_bytes(s: &[u8], d: u8) -> (r: Vec<Vec<u8>>)
    ensures
        byte_views_of(r@) == split_seq(s@, d),
{
    let n = s.len();
    let mut r: Vec<Vec<u8>> = Vec::new();
    let mut cur: Vec<u8> = Vec::new();
    let mut i: usize = 0;
    proof {
        assert(s@.subrange(0, 0) =~= Seq::<u8>::empty());
        assert(byte_views_of(r@) =~= Seq::<Seq<u8>>::empty());
        assert(seq![Seq::<u8>::empty()] =~= Seq::<Seq<u8>>::empty().push(Seq::empty()));
    }
    while i < n
        invariant
            n == s@.len(),
            i <= n,
            split_seq(s@.subrange(0, i as int), d) == byte_views_of(r@).push(cur@),
        decreases n - i,
    {
        let c = s[i];
        let ghost pre = s@.subrange(0, i as int + 1);
        assert(pre.drop_last() =~= s@.subrange(0, i as int));
        if c == d {
            let ghost before = r@;
            let piece = cur;
            r.push(piece);
            cur = Vec::new();
            assert(byte_views_of(r@) =~= byte_views_of(before).push(piece@));
        } else {
            cur.push(c);
        }
        i = i + 1;
    }
    proof {
        assert(s@.subrange(0, n as int) =~= s@);
    }
    let ghost before = r@;
    let last = cur;
    r.push(last);
    assert(byte_views_of(r@) =~= byte_views_of(before).push(last@));
    r
}

/// The blanks that are trimmed around a token: space and horizontal tab.
pub open spec fn is_blank(b: u8) -> bool {
    b == 32 || b == 9
}

/// `s` without its leading blanks.
pub open spec fn trim_start(s: Seq<u8>) -> Seq<u8>
    decreases s.len(),
{
    if s.len() > 0 && is_blank(s[0]) {
        trim_start(s.drop_first())
    } else {
        s
    }
}

/// `s` without its trailing blanks.
pub open spec fn trim_end(s: Seq<u8>) -> Seq<u8>
    decreases s.len(),
{
    if s.len() > 0 && is_blank(s.last()) {
        trim_end(s.drop_last())
    } else {
        s
    }
}

/// `s` without its leading and trailing blanks.
pub open spec fn trim(s: Seq<u8>) -> Seq<u8> {
    trim_end(trim_start(s))
}

/// Removes the leading and trailing blanks of `s`.
pub fn trim_bytes(s: &[u8]) -> (r: Vec<u8>)
    ensures
        r@ == trim(s@),
{
    let n = s.len();
    let mut lo: usize = 0;
    assert(s@.subrange(0, n as int) =~= s@);
    while lo < n && (s[lo] == 32 || s[lo] == 9)
        invariant
            n == s@.len(),
            lo <= n,
            trim_start(s@) == trim_start(s@.subrange(lo as int, n as int)),
        decreases n - lo,
    {
        assert(s@.subrange(lo as int, n as int).drop_first() =~= s@.subrange(
            lo as int + 1,
            n as int,
        ));
        lo = lo + 1;
    }
    let mut hi: usize = n;
    assert(trim_start(s@) == s@.subrange(lo as int, n as int));
    while hi > lo && (s[hi - 1] == 32 || s[hi - 1] == 9)
        invariant
            n == s@.len(),
            lo <= hi <= n,
            trim(s@) == trim_end(s@.subrange(lo as int, hi as int)),
        decreases hi,
    {
        assert(s@.subrange(lo as int, hi as int).drop_last() =~= s@.subrange(
            lo as int,
            hi as int - 1,
        ));
        hi = hi - 1;
    }
    let mut r: Vec<u8> = Vec::new();
    let mut j: usize = lo;
    while j < hi
        invariant
            lo <= j <= hi <= n,
            n == s@.len(),
            r@ == s@.subrange(lo as int, j as int),
        decreases hi - j,
    {
        r.push(s[j]);
        j = j + 1;
        assert(r@ =~= s@.subrange(lo as int, j as int));
    }
    r
}

/// The ASCII lower case of a byte.
pub open spec fn lower_byte(b: u8) -> u8 {
    if 65 <= b <= 90 {
        (b + 32) as u8
    } else {
        b
    }
}

/// `a` and `b` are equal up to ASCII case.
pub open spec fn eq_ignore_case(a: Seq<u8>, b: Seq<u8>) -> bool {
    a.len() == b.len() && forall|i: int| 0 <= i < a.len() ==> lower_byte(#[trigger] a[i]) == lower_byte(b[i])
}

/// Compares `a` and `b` up to ASCII case.
pub fn bytes_eq_ignore_case(a: &[u8], b: &[u8]) -> (r: bool)
    ensures
        r == eq_ignore_case(a@, b@),
{
    if a.len() != b.len() {
        return false;
    }
    let mut i: usize = 0;
    while i < a.len()
        invariant
            a@.len() == b@.len(),
            i <= a@.len(),
            forall|k: int| 0 <= k < i ==> lower_byte(#[trigger] a@[k]) == lower_byte(b@[k]),
        decreases a@.len() - i,
    {
        let x = a[i];
        let y = b[i];
        let lx = if 65 <= x && x <= 90 { x + 32 } else { x };
        let ly = if 65 <= y && y <= 90 { y + 32 } else { y };
        if lx != ly {
            return false;
        }
        i = i + 1;
    }
    true
}

} // verus!
