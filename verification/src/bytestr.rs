//! Byte-string helpers shared by the parsing and grouping logic: equality,
//! prefix tests, whitespace trimming and splitting on commas.

use vstd::prelude::*;

verus! {

/// The comma byte, the field separator of the record format.
pub const COMMA: u8 = 44;

/// ASCII whitespace as `str::trim` treats it for one-byte characters.
pub open spec fn is_space(b: u8) -> bool {
    b == 32 || b == 9 || b == 10 || b == 13 || b == 11 || b == 12
}

/// `p` is a prefix of `s`.
pub open spec fn is_name_prefix(p: Seq<u8>, s: Seq<u8>) -> bool {
    p.len() <= s.len() && forall|k: int| 0 <= k < p.len() ==> p[k] == s[k]
}

/// What is left of `s` once leading whitespace is dropped.
pub open spec fn trim_left(s: Seq<u8>) -> Seq<u8>
    decreases s.len(),
{
    if s.len() > 0 && is_space(s.first()) {
        trim_left(s.drop_first())
    } else {
        s
    }
}

/// What is left of `s` once trailing whitespace is dropped.
pub open spec fn trim_right(s: Seq<u8>) -> Seq<u8>
    decreases s.len(),
{
    if s.len() > 0 && is_space(s.last()) {
        trim_right(s.drop_last())
    } else {
        s
    }
}

/// `s` with whitespace dropped from both ends.
pub open spec fn trimmed(s: Seq<u8>) -> Seq<u8> {
    trim_right(trim_left(s))
}

/// Position of the last comma in `s`, or -1 if there is none.
pub open spec fn last_comma(s: Seq<u8>) -> int
    decreases s.len(),
{
    if s.len() == 0 {
        -1
    } else if s.last() == COMMA {
        s.len() - 1
    } else {
        last_comma(s.drop_last())
    }
}

/// The fields of `s`, split on every comma.  A string without commas is one
/// field; each comma ends a field, so `n` commas give `n + 1` fields.
pub open spec fn split_commas_spec(s: Seq<u8>) -> Seq<Seq<u8>>
    decreases s.len(),
{
    let j = last_comma(s);
    if 0 <= j < s.len() {
        split_commas_spec(s.subrange(0, j)).push(s.subrange(j + 1, s.len() as int))
    } else {
        seq![s]
    }
}

/// The last comma, if any, lies inside the string.
proof fn lemma_last_comma_bounds(s: Seq<u8>)
    ensures
        -1 <= last_comma(s) < s.len(),
    decreases s.len(),
{
    if s.len() > 0 && s.last() != COMMA {
        lemma_last_comma_bounds(s.drop_last());
    }
}

proof fn lemma_last_comma_push(s: Seq<u8>, c: u8)
    ensures
        c != COMMA ==> last_comma(s.push(c)) == last_comma(s),
        c == COMMA ==> last_comma(s.push(c)) == s.len(),
{
    assert(s.push(c).last() == c);
    assert(s.push(c).drop_last() =~= s);
}

/// Splitting never yields an empty field list.
proof fn lemma_split_len(s: Seq<u8>)
    ensures
        split_commas_spec(s).len() >= 1,
{
}

/// How one more byte changes the split: a comma closes the current field,
/// any other byte extends it.
proof fn lemma_split_push(s: Seq<u8>, c: u8)
    ensures
        c == COMMA ==> split_commas_spec(s.push(c)) =~~= split_commas_spec(s).push(
            Seq::<u8>::empty(),
        ),
        c != COMMA ==> split_commas_spec(s.push(c)) =~~= split_commas_spec(s).update(
            split_commas_spec(s).len() - 1,
            split_commas_spec(s).last().push(c),
        ),
{
    lemma_last_comma_push(s, c);
    lemma_last_comma_bounds(s);
    lemma_split_len(s);
    let s2 = s.push(c);
    if c == COMMA {
        assert(s2.subrange(0, s.len() as int) =~= s);
        assert(s2.subrange(s.len() as int + 1, s2.len() as int) =~= Seq::<u8>::empty());
    } else {
        let j = last_comma(s);
        if 0 <= j < s.len() {
            assert(s2.subrange(0, j) =~= s.subrange(0, j));
            assert(s2.subrange(j + 1, s2.len() as int) =~= s.subrange(j + 1, s.len() as int).push(
                c,
            ));
        } else {
            assert(split_commas_spec(s) =~= seq![s]);
            assert(split_commas_spec(s2) =~= seq![s2]);
        }
    }
}

/// Byte-for-byte equality of two byte strings.
pub fn bytes_eq(a: &Vec<u8>, b: &Vec<u8>) -> (r: bool)
    ensures
        r == (a@ == b@),
{
    if a.len() != b.len() {
        return false;
    }
    let mut i: usize = 0;
    while i < a.len()
        invariant
            i <= a.len(),
            a.len() == b.len(),
            forall|k: int| 0 <= k < i ==> a@[k] == b@[k],
        decreases a.len() - i,
    {
        if a[i] != b[i] {
            return false;
        }
        i = i + 1;
    }
    proof {
        assert(a@ =~= b@);
    }
    true
}

/// Whether `name` starts with `prefix`.
pub fn starts_with_bytes(name: &Vec<u8>, prefix: &Vec<u8>) -> (r: bool)
    ensures
        r == is_name_prefix(prefix@, name@),
{
    if prefix.len() > name.len() {
        return false;
    }
    let mut i: usize = 0;
    while i < prefix.len()
        invariant
            i <= prefix.len(),
            prefix.len() <= name.len(),
            forall|k: int| 0 <= k < i ==> prefix@[k] == name@[k],
        decreases prefix.len() - i,
    {
        if prefix[i] != name[i] {
            return false;
        }
        i = i + 1;
    }
    true
}

/// A fresh copy of a byte string.
pub fn copy_bytes(src: &Vec<u8>) -> (dst: Vec<u8>)
    ensures
        dst@ == src@,
{
    let mut dst: Vec<u8> = Vec::new();
    let mut i: usize = 0;
    while i < src.len()
        invariant
            i <= src.len(),
            dst@ =~= src@.subrange(0, i as int),
        decreases src.len() - i,
    {
        dst.push(src[i]);
        i = i + 1;
    }
    proof {
        assert(src@.subrange(0, src.len() as int) =~= src@);
    }
    dst
}

/// Appends `src` to `dst`.
pub fn append_bytes(dst: &mut Vec<u8>, src: &Vec<u8>)
    ensures
        final(dst)@ == old(dst)@ + src@,
{
    let mut i: usize = 0;
    while i < src.len()
        invariant
            i <= src.len(),
            dst@ =~= old(dst)@ + src@.subrange(0, i as int),
        decreases src.len() - i,
    {
        dst.push(src[i]);
        i = i + 1;
    }
    proof {
        assert(src@.subrange(0, src.len() as int) =~= src@);
    }
}

fn is_space_byte(b: u8) -> (r: bool)
    ensures
        r == is_space(b),
{
    b == 32 || b == 9 || b == 10 || b == 13 || b == 11 || b == 12
}

/// `s` with whitespace dropped from both ends, as a fresh byte string.
pub fn trim_bytes(s: &Vec<u8>) -> (t: Vec<u8>)
    ensures
        t@ == trimmed(s@),
{
    proof {
        assert(s@.subrange(0, s@.len() as int) =~= s@);
    }
    let mut start: usize = 0;
    while start < s.len() && is_space_byte(s[start])
        invariant
            start <= s.len(),
            trim_left(s@) == trim_left(s@.subrange(start as int, s@.len() as int)),
        decreases s.len() - start,
    {
        proof {
            let sub = s@.subrange(start as int, s@.len() as int);
            assert(sub.first() == s@[start as int]);
            assert(sub.drop_first() =~= s@.subrange(start as int + 1, s@.len() as int));
        }
        start = start + 1;
    }
    proof {
        let sub = s@.subrange(start as int, s@.len() as int);
        if start < s.len() {
            assert(sub.first() == s@[start as int]);
            assert(trim_left(sub) == sub);
        } else {
            assert(sub =~= Seq::<u8>::empty());
        }
        assert(trim_left(s@) == s@.subrange(start as int, s@.len() as int));
    }
    let mut end: usize = s.len();
    while end > start && is_space_byte(s[end - 1])
        invariant
            start <= end <= s.len(),
            trim_right(s@.subrange(start as int, s@.len() as int)) == trim_right(
                s@.subrange(start as int, end as int),
            ),
        decreases end,
    {
        proof {
            let sub = s@.subrange(start as int, end as int);
            assert(sub.last() == s@[end - 1]);
            assert(sub.drop_last() =~= s@.subrange(start as int, end as int - 1));
        }
        end = end - 1;
    }
    proof {
        let sub = s@.subrange(start as int, end as int);
        if end > start {
            assert(sub.last() == s@[end - 1]);
            assert(trim_right(sub) == sub);
        } else {
            assert(sub =~= Seq::<u8>::empty());
        }
        assert(trimmed(s@) == s@.subrange(start as int, end as int));
    }
    let mut t: Vec<u8> = Vec::new();
    let mut k: usize = start;
    while k < end
        invariant
            start <= k <= end <= s.len(),
            t@ =~= s@.subrange(start as int, k as int),
        decreases end - k,
    {
        t.push(s[k]);
        k = k + 1;
    }
    t
}

/// The fields of `line`, split on every comma, as fresh byte strings.
pub fn split_commas(line: &Vec<u8>) -> (fields: Vec<Vec<u8>>)
    ensures
        fields.deep_view() == split_commas_spec(line@),
        fields.len() == split_commas_spec(line@).len(),
{
    let mut fields: Vec<Vec<u8>> = Vec::new();
    let mut cur: Vec<u8> = Vec::new();
    let mut i: usize = 0;
    while i < line.len()
        invariant
            i <= line.len(),
            fields.deep_view().push(cur@) =~~= split_commas_spec(line@.subrange(0, i as int)),
        decreases line.len() - i,
    {
        let c = line[i];
        proof {
            assert(line@.subrange(0, i as int + 1) =~= line@.subrange(0, i as int).push(
                line@[i as int],
            ));
            lemma_split_push(line@.subrange(0, i as int), c);
            lemma_split_len(line@.subrange(0, i as int));
        }
        if c == COMMA {
            let ghost prev_fields = fields.deep_view();
            let ghost prev_cur = cur@;
            fields.push(cur);
            cur = Vec::new();
            proof {
                assert(fields.deep_view() =~~= prev_fields.push(prev_cur));
            }
        } else {
            let ghost prev_fields = fields.deep_view();
            let ghost prev_cur = cur@;
            cur.push(c);
            proof {
                let sp = split_commas_spec(line@.subrange(0, i as int));
                assert(sp.last() == prev_cur);
                assert(sp.update(sp.len() - 1, sp.last().push(c)) =~~= prev_fields.push(
                    prev_cur.push(c),
                ));
            }
        }
        i = i + 1;
    }
    proof {
        assert(line@.subrange(0, line@.len() as int) =~= line@);
    }
    let ghost prev_fields = fields.deep_view();
    let ghost prev_cur = cur@;
    fields.push(cur);
    proof {
        assert(fields.deep_view() =~~= prev_fields.push(prev_cur));
    }
    fields
}

} // verus!
