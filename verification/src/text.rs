//! Byte-string operations used by the source analysis and the lock graph.
//!
//! All text handled by the library is kept as bytes: the analysed source
//! code is sliced at the byte offsets that the parser reports, so byte
//! strings are the natural representation.

use vstd::prelude::*;
use vstd::string::StringSliceAdditionalSpecFns;

verus! {

/// `pat` occurs in `s` starting at position `i`.
pub open spec fn occurs_at(s: Seq<u8>, pat: Seq<u8>, i: int) -> bool {
    0 <= i && i + pat.len() <= s.len() && s.subrange(i, i + pat.len()) == pat
}

/// `p` is a prefix of `s`.
pub open spec fn is_prefix(p: Seq<u8>, s: Seq<u8>) -> bool {
    occurs_at(s, p, 0)
}

/// `p` is a suffix of `s`.
pub open spec fn is_suffix(p: Seq<u8>, s: Seq<u8>) -> bool {
    occurs_at(s, p, s.len() - p.len())
}

/// `pat` occurs somewhere in `s`.
pub open spec fn contains_spec(s: Seq<u8>, pat: Seq<u8>) -> bool {
    exists|i: int| occurs_at(s, pat, i)
}

/// The first position at or after `from` where `pat` occurs in `s`, or -1.
pub open spec fn index_of(s: Seq<u8>, pat: Seq<u8>, from: int) -> int
    decreases s.len() + 1 - from,
{
    if from < 0 || from + pat.len() > s.len() {
        -1
    } else if occurs_at(s, pat, from) {
        from
    } else {
        index_of(s, pat, from + 1)
    }
}

/// Compares two byte strings.
pub fn bytes_eq(a: &[u8], b: &[u8]) -> (res: bool)
    ensures
        res == (a@ == b@),
{
    if a.len() != b.len() {
        return false;
    }
    let mut i: usize = 0;
    while i < a.len()
        invariant
            a@.len() == b@.len(),
            i <= a@.len(),
            forall|j: int| 0 <= j < i ==> a@[j] == b@[j],
        decreases a@.len() - i,
    {
        if a[i] != b[i] {
            return false;
        }
        i = i + 1;
    }
    assert(a@ =~= b@);
    true
}

} // verus!

verus! {

/// Copies `s[from..to]` into a new vector.
pub fn copy_range(s: &[u8], from: usize, to: usize) -> (res: Vec<u8>)
    requires
        from <= to <= s@.len(),
    ensures
        res@ == s@.subrange(from as int, to as int),
{
    vstd::slice::slice_to_vec(vstd::slice::slice_subrange(s, from, to))
}

/// Whether `pat` occurs in `s` at position `i`.
pub fn occurs_at_exec(s: &[u8], pat: &[u8], i: usize) -> (res: bool)
    ensures
        res == occurs_at(s@, pat@, i as int),
{
    if i > s.len() || pat.len() > s.len() - i {
        return false;
    }
    let mut j: usize = 0;
    while j < pat.len()
        invariant
            i + pat.len() <= s.len(),
            j <= pat@.len(),
            forall|k: int| 0 <= k < j ==> s@[i + k] == pat@[k],
        decreases pat@.len() - j,
    {
        if s[i + j] != pat[j] {
            assert(s@.subrange(i as int, i + pat@.len())[j as int] != pat@[j as int]);
            return false;
        }
        j = j + 1;
    }
    assert(s@.subrange(i as int, i + pat@.len()) =~= pat@);
    true
}

/// The first position at or after `from` where `pat` occurs in `s`.
pub fn find_from(s: &[u8], pat: &[u8], from: usize) -> (res: Option<usize>)
    ensures
        match res {
            Some(i) => i as int == index_of(s@, pat@, from as int),
            None => index_of(s@, pat@, from as int) == -1,
        },
{
    if from > s.len() {
        return None;
    }
    let mut i = from;
    while i <= s.len() && pat.len() <= s.len() - i
        invariant
            from <= i <= s@.len() + 1,
            index_of(s@, pat@, from as int) == index_of(s@, pat@, i as int),
        decreases s@.len() + 1 - i,
    {
        if occurs_at_exec(s, pat, i) {
            return Some(i);
        }
        if i == s.len() {
            assert(pat@.len() > 0) by {
                if pat@.len() == 0 {
                    assert(s@.subrange(i as int, i as int) =~= pat@);
                }
            }
            return None;
        }
        i = i + 1;
    }
    None
}

/// Whether `pat` occurs anywhere in `s` (`str::contains`).
pub fn contains(s: &[u8], pat: &[u8]) -> (res: bool)
    ensures
        res == contains_spec(s@, pat@),
{
    proof {
        lemma_index_of_found(s@, pat@, 0);
    }
    match find_from(s, pat, 0) {
        Some(_) => true,
        None => false,
    }
}

/// Whether `s` starts with `p`.
pub fn starts_with(s: &[u8], p: &[u8]) -> (res: bool)
    ensures
        res == is_prefix(p@, s@),
{
    occurs_at_exec(s, p, 0)
}

/// Whether `s` ends with `p`.
pub fn ends_with(s: &[u8], p: &[u8]) -> (res: bool)
    ensures
        res == is_suffix(p@, s@),
{
    if p.len() > s.len() {
        return false;
    }
    occurs_at_exec(s, p, s.len() - p.len())
}

/// `index_of` finds the first occurrence at or after `from`, and there is
/// one exactly when it does not return -1.
pub proof fn lemma_index_of_found(s: Seq<u8>, pat: Seq<u8>, from: int)
    requires
        from >= 0,
    ensures
        index_of(s, pat, from) == -1 || (from <= index_of(s, pat, from) && occurs_at(
            s,
            pat,
            index_of(s, pat, from),
        )),
        index_of(s, pat, from) == -1 <==> (forall|i: int| from <= i ==> !occurs_at(s, pat, i)),
        forall|i: int| from <= i < index_of(s, pat, from) ==> !occurs_at(s, pat, i),
    decreases s.len() + 1 - from,
{
    if from + pat.len() > s.len() {
    } else if occurs_at(s, pat, from) {
    } else {
        lemma_index_of_found(s, pat, from + 1);
        assert forall|i: int| from <= i && index_of(s, pat, from) == -1 implies !occurs_at(
            s,
            pat,
            i,
        ) by {
            if i == from {
            } else {
            }
        }
    }
}

/// The pieces of `s` between the occurrences of `sep`, scanning from `start`
/// (`str::split` with a non-empty pattern).
pub open spec fn split_from(s: Seq<u8>, sep: Seq<u8>, start: int) -> Seq<Seq<u8>>
    decreases s.len() + 1 - start,
{
    if start < 0 || start > s.len() || sep.len() == 0 {
        seq![]
    } else {
        let i = index_of(s, sep, start);
        proof {
            lemma_index_of_found(s, sep, start);
        }
        if i < start {
            seq![s.subrange(start, s.len() as int)]
        } else {
            seq![s.subrange(start, i)] + split_from(s, sep, i + sep.len())
        }
    }
}

/// `s.split(sep)` for a non-empty separator.
pub open spec fn split_spec(s: Seq<u8>, sep: Seq<u8>) -> Seq<Seq<u8>> {
    split_from(s, sep, 0)
}

/// Splits `s` at every occurrence of the non-empty `sep`.
pub fn split(s: &[u8], sep: &[u8]) -> (res: Vec<Vec<u8>>)
    requires
        sep@.len() > 0,
    ensures
        res.deep_view() == split_spec(s@, sep@),
{
    let mut res: Vec<Vec<u8>> = Vec::new();
    let mut start: usize = 0;
    loop
        invariant
            sep@.len() > 0,
            start <= s.len(),
            res.deep_view() + split_from(s@, sep@, start as int) == split_spec(s@, sep@),
        decreases s@.len() - start,
    {
        proof {
            lemma_index_of_found(s@, sep@, start as int);
        }
        match find_from(s, sep, start) {
            None => {
                let piece = copy_range(s, start, s.len());
                assert(piece.deep_view() =~= piece@);
                let ghost before = res.deep_view();
                res.push(piece);
                assert(res.deep_view() =~= before.push(piece@));
                assert(split_from(s@, sep@, start as int) =~= seq![piece@]);
                assert(res.deep_view() =~= split_spec(s@, sep@));
                return res;
            },
            Some(i) => {
                let piece = copy_range(s, start, i);
                assert(piece.deep_view() =~= piece@);
                let ghost before = res.deep_view();
                res.push(piece);
                assert(res.deep_view() =~= before.push(piece@));
                assert(before + split_from(s@, sep@, start as int) =~= before.push(piece@)
                    + split_from(s@, sep@, (i + sep@.len()) as int));
                start = i + sep.len();
            },
        }
    }
}

} // verus!

verus! {

/// The deep view of a byte vector is its view.
pub broadcast proof fn lemma_bytes_deep_view(b: Vec<u8>)
    ensures
        #[trigger] b.deep_view() == b@,
{
    assert(b.deep_view() =~= b@);
}

/// Copies a byte string.
pub fn copy_bytes(v: &Vec<u8>) -> (res: Vec<u8>)
    ensures
        res@ == v@,
{
    vstd::slice::slice_to_vec(v.as_slice())
}

/// Copies a byte slice into a vector.
pub fn copy_bytes_slice(v: &[u8]) -> (res: Vec<u8>)
    ensures
        res@ == v@,
{
    vstd::slice::slice_to_vec(v)
}

/// Copies a list of byte strings.
pub fn copy_byte_lists(v: &Vec<Vec<u8>>) -> (res: Vec<Vec<u8>>)
    ensures
        res.deep_view() == v.deep_view(),
{
    let mut res: Vec<Vec<u8>> = Vec::new();
    let mut i: usize = 0;
    while i < v.len()
        invariant
            i <= v@.len(),
            res.deep_view() == v.deep_view().take(i as int),
        decreases v@.len() - i,
    {
        let ghost before = res.deep_view();
        res.push(copy_bytes(&v[i]));
        assert(res.deep_view() =~= v.deep_view().take(i + 1)) by {
            broadcast use lemma_bytes_deep_view;
            assert(res.deep_view() =~= before.push(v@[i as int]@));
        }
        i = i + 1;
    }
    assert(v.deep_view().take(i as int) =~= v.deep_view());
    res
}

/// The bytes of `lock`.
pub open spec fn lock_word() -> Seq<u8> {
    seq![108u8, 111u8, 99u8, 107u8]
}

/// The bytes of `write`.
pub open spec fn write_word() -> Seq<u8> {
    seq![119u8, 114u8, 105u8, 116u8, 101u8]
}

/// The bytes of `-`, the separator of block ids.
pub open spec fn dash() -> Seq<u8> {
    seq![45u8]
}

/// `lock` as bytes.
pub fn lock_literal() -> (res: Vec<u8>)
    ensures
        res@ == lock_word(),
{
    let v: Vec<u8> = vec![108u8, 111u8, 99u8, 107u8];
    assert(v@ =~= lock_word());
    v
}

/// `write` as bytes.
pub fn write_literal() -> (res: Vec<u8>)
    ensures
        res@ == write_word(),
{
    let v: Vec<u8> = vec![119u8, 114u8, 105u8, 116u8, 101u8];
    assert(v@ =~= write_word());
    v
}

/// `-` as bytes.
pub fn dash_literal() -> (res: Vec<u8>)
    ensures
        res@ == dash(),
{
    let v: Vec<u8> = vec![45u8];
    assert(v@ =~= dash());
    v
}

} // verus!

verus! {

/// The bytes of a string literal.
pub fn literal(s: &str) -> (res: &[u8])
    ensures
        res@ == s.spec_bytes(),
{
    s.as_bytes()
}

} // verus!

verus! {

/// The pieces of `parts` joined with `sep` between them (`[..].join`).
pub open spec fn join_spec(parts: Seq<Seq<u8>>, sep: Seq<u8>) -> Seq<u8>
    decreases parts.len(),
{
    if parts.len() == 0 {
        seq![]
    } else if parts.len() == 1 {
        parts[0]
    } else {
        join_spec(parts.drop_last(), sep) + sep + parts.last()
    }
}

/// Joins `parts[from..]` with `sep` between them.
pub fn join_from(parts: &Vec<Vec<u8>>, from: usize, sep: &[u8]) -> (res: Vec<u8>)
    requires
        from <= parts@.len(),
    ensures
        res@ == join_spec(parts.deep_view().skip(from as int), sep@),
{
    let ghost pv = parts.deep_view();
    let mut res: Vec<u8> = Vec::new();
    let mut i: usize = from;
    assert(res@ =~= join_spec(pv.subrange(from as int, i as int), sep@));
    while i < parts.len()
        invariant
            pv == parts.deep_view(),
            from <= i <= parts@.len(),
            res@ == join_spec(pv.subrange(from as int, i as int), sep@),
        decreases parts@.len() - i,
    {
        let ghost before = res@;
        if i != from {
            let mut k: usize = 0;
            while k < sep.len()
                invariant
                    k <= sep@.len(),
                    res@ == before + sep@.take(k as int),
                decreases sep@.len() - k,
            {
                res.push(sep[k]);
                assert(res@ =~= before + sep@.take(k + 1));
                k = k + 1;
            }
            assert(sep@.take(k as int) =~= sep@);
        }
        let ghost mid = res@;
        let mut k: usize = 0;
        while k < parts[i].len()
            invariant
                i < parts@.len(),
                k <= parts@[i as int]@.len(),
                res@ == mid + parts@[i as int]@.take(k as int),
            decreases parts@[i as int]@.len() - k,
        {
            res.push(parts[i][k]);
            assert(res@ =~= mid + parts@[i as int]@.take(k + 1));
            k = k + 1;
        }
        assert(parts@[i as int]@.take(k as int) =~= parts@[i as int]@);
        proof {
            let sub = pv.subrange(from as int, i + 1);
            assert(sub.drop_last() =~= pv.subrange(from as int, i as int));
            assert(sub.last() == parts@[i as int]@);
            if i == from {
                assert(sub.len() == 1);
                assert(res@ =~= sub[0]);
            } else {
                assert(res@ =~= join_spec(sub.drop_last(), sep@) + sep@ + sub.last());
            }
        }
        i = i + 1;
    }
    assert(pv.subrange(from as int, i as int) =~= pv.skip(from as int));
    res
}

/// `s` with every occurrence of the non-empty `from` replaced by `to`
/// (`str::replace`): the pieces between occurrences, joined with `to`.
pub open spec fn replace_spec(s: Seq<u8>, from: Seq<u8>, to: Seq<u8>) -> Seq<u8> {
    join_spec(split_spec(s, from), to)
}

/// Replaces every occurrence of the non-empty `from` in `s` by `to`.
pub fn replace(s: &[u8], from: &[u8], to: &[u8]) -> (res: Vec<u8>)
    requires
        from@.len() > 0,
    ensures
        res@ == replace_spec(s@, from@, to@),
{
    let parts = split(s, from);
    assert(parts.deep_view().skip(0) =~= parts.deep_view());
    join_from(&parts, 0, to)
}

/// `a` followed by `b`.
pub fn concat(a: &[u8], b: &[u8]) -> (res: Vec<u8>)
    ensures
        res@ == a@ + b@,
{
    let mut res = vstd::slice::slice_to_vec(a);
    let mut k: usize = 0;
    while k < b.len()
        invariant
            k <= b@.len(),
            res@ == a@ + b@.take(k as int),
        decreases b@.len() - k,
    {
        res.push(b[k]);
        assert(res@ =~= a@ + b@.take(k + 1));
        k = k + 1;
    }
    assert(b@.take(k as int) =~= b@);
    res
}

/// The decimal digits of `n`.
pub open spec fn dec(n: nat) -> Seq<u8>
    decreases n,
{
    if n < 10 {
        seq![(48 + n) as u8]
    } else {
        dec(n / 10).push((48 + n % 10) as u8)
    }
}

/// The decimal digits of the non-negative `n` (`format!("{}", n)`).
pub fn format_dec(n: i32) -> (res: Vec<u8>)
    requires
        n >= 0,
    ensures
        res@ == dec(n as nat),
    decreases n,
{
    if n < 10 {
        let v: Vec<u8> = vec![(48 + n) as u8];
        assert(v@ =~= dec(n as nat));
        v
    } else {
        let mut v = format_dec(n / 10);
        v.push((48 + n % 10) as u8);
        v
    }
}

/// A child block id: `block`, `-` and `n` (`format!("{}-{}", block, n)`).
pub open spec fn block_id(block: Seq<u8>, n: nat) -> Seq<u8> {
    block + dash() + dec(n)
}

/// Builds the child block id of `block` numbered `n`.
pub fn make_block_id(block: &[u8], n: i32) -> (res: Vec<u8>)
    requires
        n >= 0,
    ensures
        res@ == block_id(block@, n as nat),
{
    let d = dash_literal();
    let with_dash = concat(block, d.as_slice());
    let digits = format_dec(n);
    concat(with_dash.as_slice(), digits.as_slice())
}

/// The last position at or below `i` where `pat` occurs in `s`, or -1.
pub open spec fn rindex_of(s: Seq<u8>, pat: Seq<u8>, i: int) -> int
    decreases i + 1,
{
    if i < 0 {
        -1
    } else if occurs_at(s, pat, i) {
        i
    } else {
        rindex_of(s, pat, i - 1)
    }
}

/// What comes before the last occurrence of `pat` in `s`
/// (`str::rsplit_once(pat).map(|(a, _)| a)`).
pub open spec fn before_last_spec(s: Seq<u8>, pat: Seq<u8>) -> Option<Seq<u8>> {
    let i = rindex_of(s, pat, s.len() - pat.len());
    if i < 0 {
        None
    } else {
        Some(s.subrange(0, i))
    }
}

/// The part of `s` before the last occurrence of `pat`, if any.
pub fn before_last(s: &[u8], pat: &[u8]) -> (res: Option<Vec<u8>>)
    ensures
        res.deep_view() == before_last_spec(s@, pat@),
{
    if pat.len() > s.len() {
        return None;
    }
    let mut i: usize = s.len() - pat.len();
    loop
        invariant
            i + pat@.len() <= s@.len(),
            rindex_of(s@, pat@, s@.len() - pat@.len()) == rindex_of(s@, pat@, i as int),
        decreases i,
    {
        if occurs_at_exec(s, pat, i) {
            let r = copy_range(s, 0, i);
            return Some(r);
        }
        if i == 0 {
            assert(rindex_of(s@, pat@, -1) == -1);
            return None;
        }
        i = i - 1;
    }
}

/// Whether position `n` of the UTF-8 text `s` starts a character or ends
/// the text (`str::is_char_boundary`, and `n` within the text).
pub open spec fn char_boundary(s: Seq<u8>, n: int) -> bool {
    n == s.len() || (0 <= n < s.len() && !(0x80 <= s[n] < 0xC0))
}

/// `s[n..]`, or `None` where the slice would panic: `n` past the end or
/// inside a character.
pub fn suffix_from(s: &[u8], n: usize) -> (res: Option<Vec<u8>>)
    ensures
        match res {
            Some(v) => char_boundary(s@, n as int) && v@ == s@.subrange(n as int, s@.len() as int),
            None => !char_boundary(s@, n as int),
        },
{
    if n > s.len() {
        return None;
    }
    if n < s.len() && 0x80 <= s[n] && s[n] < 0xC0 {
        return None;
    }
    Some(copy_range(s, n, s.len()))
}

/// The lines of `s` (`str::lines`): the pieces between `\n`s, without a
/// last empty piece, each stripped of a `\r` that ended it before a `\n`.
pub open spec fn lines_spec(s: Seq<u8>) -> Seq<Seq<u8>> {
    let parts = split_spec(s, seq![10u8]);
    let m = if parts.len() > 0 && parts.last().len() == 0 {
        parts.len() - 1
    } else {
        parts.len() as int
    };
    Seq::new(
        m as nat,
        |i: int|
            if i < parts.len() - 1 && parts[i].len() > 0 && parts[i].last() == 13u8 {
                parts[i].drop_last()
            } else {
                parts[i]
            },
    )
}

/// Splits `s` into lines as `str::lines` does.
pub fn lines(s: &[u8]) -> (res: Vec<Vec<u8>>)
    ensures
        res.deep_view() == lines_spec(s@),
{
    let nl: Vec<u8> = vec![10u8];
    assert(nl@ =~= seq![10u8]);
    let parts = split(s, nl.as_slice());
    let ghost pv = parts.deep_view();
    let m = if parts.len() > 0 && parts[parts.len() - 1].len() == 0 {
        parts.len() - 1
    } else {
        parts.len()
    };
    let mut res: Vec<Vec<u8>> = Vec::new();
    let mut i: usize = 0;
    while i < m
        invariant
            pv == parts.deep_view(),
            pv == split_spec(s@, seq![10u8]),
            m <= parts@.len(),
            m == (if pv.len() > 0 && pv.last().len() == 0 {
                pv.len() - 1
            } else {
                pv.len() as int
            }),
            i <= m,
            res.deep_view() == lines_spec(s@).take(i as int),
        decreases m - i,
    {
        let p = &parts[i];
        let line = if i + 1 < parts.len() && p.len() > 0 && p[p.len() - 1] == 13u8 {
            copy_range(p.as_slice(), 0, p.len() - 1)
        } else {
            copy_bytes(p)
        };
        let ghost before = res.deep_view();
        res.push(line);
        proof {
            broadcast use lemma_bytes_deep_view;
            assert(pv[i as int] == p@);
            if i + 1 < parts@.len() && p@.len() > 0 && p@.last() == 13u8 {
                assert(line@ =~= p@.drop_last());
            }
            assert(res.deep_view() =~= before.push(line@));
            assert(res.deep_view() =~= lines_spec(s@).take(i + 1));
        }
        i = i + 1;
    }
    assert(lines_spec(s@).take(i as int) =~= lines_spec(s@));
    res
}

} // verus!
