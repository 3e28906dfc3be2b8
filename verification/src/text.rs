//! Byte strings: the tags of the record store are text of one byte per
//! character, and every rule about them is a rule about bytes.

use vstd::prelude::*;

verus! {

/// `b` is one of the characters `0` to `9`.
pub open spec fn is_digit(b: u8) -> bool {
    0x30 <= b <= 0x39
}

/// `s` holds no digit.
pub open spec fn digit_free(s: Seq<u8>) -> bool {
    forall|i: int| 0 <= i < s.len() ==> !is_digit(#[trigger] s[i])
}

/// The views of a list of byte strings.
pub open spec fn texts(list: Seq<Vec<u8>>) -> Seq<Seq<u8>> {
    list.map_values(|v: Vec<u8>| v@)
}

/// Some member of `list` is a prefix of `s`.
pub open spec fn has_prefix_in(list: Seq<Seq<u8>>, s: Seq<u8>) -> bool {
    exists|k: int| 0 <= k < list.len() && (#[trigger] list[k]).is_prefix_of(s)
}

/// The decimal text of `n`, without leading zeros.
pub open spec fn decimal(n: nat) -> Seq<u8>
    decreases n,
{
    if n < 10 {
        seq![(0x30 + n) as u8]
    } else {
        decimal(n / 10).push((0x30 + n % 10) as u8)
    }
}

/// `s` with every occurrence of `from` replaced by `to`, found from left
/// to right without overlap. An empty `from` occurs nowhere.
pub open spec fn replaced(s: Seq<u8>, from: Seq<u8>, to: Seq<u8>) -> Seq<u8>
    decreases s.len(),
{
    if from.len() == 0 || s.len() == 0 {
        s
    } else if from.is_prefix_of(s) {
        to + replaced(s.skip(from.len() as int), from, to)
    } else {
        seq![s[0]] + replaced(s.skip(1), from, to)
    }
}

pub fn is_ascii_digit(b: u8) -> (r: bool)
    ensures
        r == is_digit(b),
{
    0x30 <= b && b <= 0x39
}

/// Whether two byte strings are equal.
pub fn bytes_eq(a: &[u8], b: &[u8]) -> (r: bool)
    ensures
        r == (a@ == b@),
{
    if a.len() != b.len() {
        return false;
    }
    let mut i: usize = 0;
    while i < a.len()
        invariant
            i <= a.len(),
            a.len() == b.len(),
            forall|k: int| 0 <= k < i ==> a@[k] == b@[k],
        decreases a.len() - i,
    {
        if a[i] != b[i] {
            return false;
        }
        i += 1;
    }
    assert(a@ =~= b@);
    true
}

/// Whether `s` begins with `prefix`.
pub fn starts_with(s: &[u8], prefix: &[u8]) -> (r: bool)
    ensures
        r == prefix@.is_prefix_of(s@),
{
    if prefix.len() > s.len() {
        return false;
    }
    let mut i: usize = 0;
    while i < prefix.len()
        invariant
            i <= prefix.len() <= s.len(),
            forall|k: int| 0 <= k < i ==> s@[k] == prefix@[k],
        decreases prefix.len() - i,
    {
        if s[i] != prefix[i] {
            assert(s@.subrange(0, prefix.len() as int)[i as int] != prefix@[i as int]);
            return false;
        }
        i += 1;
    }
    assert(prefix@ =~= s@.subrange(0, prefix.len() as int));
    true
}

/// Whether `s` ends with `suffix`.
pub fn ends_with(s: &[u8], suffix: &[u8]) -> (r: bool)
    ensures
        r == suffix@.is_suffix_of(s@),
{
    if suffix.len() > s.len() {
        return false;
    }
    let off: usize = s.len() - suffix.len();
    let mut i: usize = 0;
    while i < suffix.len()
        invariant
            i <= suffix.len() <= s.len(),
            off == s.len() - suffix.len(),
            forall|k: int| 0 <= k < i ==> s@[off + k] == suffix@[k],
        decreases suffix.len() - i,
    {
        if s[off + i] != suffix[i] {
            assert(s@.subrange(off as int, s.len() as int)[i as int] != suffix@[i as int]);
            return false;
        }
        i += 1;
    }
    assert(suffix@ =~= s@.subrange(off as int, s.len() as int));
    true
}

/// Appends the bytes of `s` to `out`.
pub fn append_bytes(out: &mut Vec<u8>, s: &[u8])
    ensures
        final(out)@ == old(out)@ + s@,
{
    let mut i: usize = 0;
    while i < s.len()
        invariant
            i <= s.len(),
            out@ == old(out)@ + s@.subrange(0, i as int),
        decreases s.len() - i,
    {
        out.push(s[i]);
        i += 1;
        assert(out@ =~= old(out)@ + s@.subrange(0, i as int));
    }
    assert(s@.subrange(0, s.len() as int) =~= s@);
}

/// A copy of the bytes of `s` from `from` up to `to`.
pub fn copy_range(s: &[u8], from: usize, to: usize) -> (res: Vec<u8>)
    requires
        from <= to <= s.len(),
    ensures
        res@ == s@.subrange(from as int, to as int),
{
    let mut res: Vec<u8> = Vec::new();
    let mut i: usize = from;
    while i < to
        invariant
            from <= i <= to <= s.len(),
            res@ == s@.subrange(from as int, i as int),
        decreases to - i,
    {
        res.push(s[i]);
        i += 1;
        assert(res@ =~= s@.subrange(from as int, i as int));
    }
    res
}

/// Whether `item` is a member of `list`.
pub fn list_contains(list: &Vec<Vec<u8>>, item: &[u8]) -> (r: bool)
    ensures
        r == texts(list@).contains(item@),
{
    let mut k: usize = 0;
    while k < list.len()
        invariant
            k <= list.len(),
            forall|j: int| 0 <= j < k ==> texts(list@)[j] != item@,
        decreases list.len() - k,
    {
        if bytes_eq(list[k].as_slice(), item) {
            assert(texts(list@)[k as int] == item@);
            return true;
        }
        k += 1;
    }
    false
}

/// Whether some member of `list` is a prefix of `s`.
pub fn any_prefix_of(list: &Vec<Vec<u8>>, s: &[u8]) -> (r: bool)
    ensures
        r == has_prefix_in(texts(list@), s@),
{
    let mut k: usize = 0;
    while k < list.len()
        invariant
            k <= list.len(),
            forall|j: int| 0 <= j < k ==> !(#[trigger] texts(list@)[j]).is_prefix_of(s@),
        decreases list.len() - k,
    {
        if starts_with(s, list[k].as_slice()) {
            assert(texts(list@)[k as int].is_prefix_of(s@));
            return true;
        }
        k += 1;
    }
    false
}

/// The decimal text of `n`.
pub fn decimal_text(n: usize) -> (res: Vec<u8>)
    ensures
        res@ == decimal(n as nat),
    decreases n,
{
    if n < 10 {
        let mut res: Vec<u8> = Vec::new();
        res.push(0x30u8 + n as u8);
        assert(res@ =~= decimal(n as nat));
        res
    } else {
        let mut res = decimal_text(n / 10);
        res.push(0x30u8 + (n % 10) as u8);
        res
    }
}

/// `s` with every occurrence of `from` replaced by `to`.
pub fn replace_all(s: &[u8], from: &[u8], to: &[u8]) -> (res: Vec<u8>)
    ensures
        res@ == replaced(s@, from@, to@),
{
    if from.len() == 0 {
        return copy_range(s, 0, s.len());
    }
    let mut res: Vec<u8> = Vec::new();
    let mut i: usize = 0;
    assert(s@.skip(0) =~= s@);
    assert(res@ + replaced(s@, from@, to@) =~= replaced(s@, from@, to@));
    while i < s.len()
        invariant
            i <= s.len(),
            from.len() > 0,
            replaced(s@, from@, to@) == res@ + replaced(s@.skip(i as int), from@, to@),
        decreases s.len() - i,
    {
        let rest = vstd::slice::slice_subrange(s, i, s.len());
        let ghost before = res@;
        if starts_with(rest, from) {
            append_bytes(&mut res, to);
            i += from.len();
            proof {
                assert(rest@.skip(from.len() as int) =~= s@.skip(i as int));
                assert(res@ + replaced(s@.skip(i as int), from@, to@) =~= before + (to@ + replaced(
                    s@.skip(i as int),
                    from@,
                    to@,
                )));
            }
        } else {
            res.push(s[i]);
            i += 1;
            proof {
                assert(rest@.skip(1) =~= s@.skip(i as int));
                assert(res@ + replaced(s@.skip(i as int), from@, to@) =~= before + (seq![rest@[0]]
                    + replaced(s@.skip(i as int), from@, to@)));
            }
        }
    }
    assert(res@ + replaced(s@.skip(s.len() as int), from@, to@) =~= res@);
    res
}

/// The decimal text of a number is one or more digits.
pub proof fn lemma_decimal_digits(n: nat)
    ensures
        decimal(n).len() >= 1,
        forall|i: int| 0 <= i < decimal(n).len() ==> is_digit(#[trigger] decimal(n)[i]),
    decreases n,
{
    if n >= 10 {
        lemma_decimal_digits(n / 10);
    }
}

/// What replacing leaves of a text that begins with no digit begins with no
/// digit, where the old text and the new begin alike or the old begins with
/// a digit.
pub proof fn lemma_replaced_first(rest: Seq<u8>, from: Seq<u8>, to: Seq<u8>)
    requires
        rest.len() > 0,
        !is_digit(rest[0]),
        from.len() > 0,
        to.len() > 0,
        is_digit(from[0]) || to[0] == from[0],
    ensures
        replaced(rest, from, to).len() > 0,
        !is_digit(replaced(rest, from, to)[0]),
{
    if from.is_prefix_of(rest) {
        assert(from[0] == rest.subrange(0, from.len() as int)[0]);
    }
}

/// A text ends with an ending that holds no digit where what follows one of
/// its digits does.
pub proof fn lemma_ending_after_digit(text: Seq<u8>, cut: int, ending: Seq<u8>)
    requires
        0 < cut <= text.len(),
        is_digit(text[cut - 1]),
        digit_free(ending),
    ensures
        ending.is_suffix_of(text) == ending.is_suffix_of(text.subrange(cut, text.len() as int)),
{
    let rest = text.subrange(cut, text.len() as int);
    if ending.is_suffix_of(text) {
        if ending.len() > rest.len() {
            let at = cut - 1 - (text.len() - ending.len());
            assert(ending[at] == text.subrange(text.len() - ending.len(), text.len() as int)[at]);
        }
        assert(ending =~= rest.subrange(rest.len() - ending.len(), rest.len() as int)) by {
            assert forall|k: int| 0 <= k < ending.len() implies ending[k] == rest[rest.len()
                - ending.len() + k] by {
                assert(ending[k] == text.subrange(
                    text.len() - ending.len(),
                    text.len() as int,
                )[k]);
            }
        }
    }
    if ending.is_suffix_of(rest) {
        assert(ending =~= text.subrange(text.len() - ending.len(), text.len() as int)) by {
            assert forall|k: int| 0 <= k < ending.len() implies ending[k] == text[text.len()
                - ending.len() + k] by {
                assert(ending[k] == rest.subrange(rest.len() - ending.len(), rest.len() as int)[k]);
            }
        }
    }
}

/// Replacing a text that holds a digit changes nothing in a text that holds
/// none.
pub proof fn lemma_replaced_without_digits(s: Seq<u8>, from: Seq<u8>, to: Seq<u8>)
    requires
        digit_free(s),
        from.len() > 0,
        is_digit(from.last()),
    ensures
        replaced(s, from, to) == s,
    decreases s.len(),
{
    if s.len() > 0 {
        if from.is_prefix_of(s) {
            assert(from.last() == s.subrange(0, from.len() as int)[from.len() - 1]);
            assert(is_digit(s[from.len() - 1]));
        } else {
            let rest = s.skip(1);
            assert(digit_free(rest)) by {
                assert forall|k: int| 0 <= k < rest.len() implies !is_digit(#[trigger] rest[k]) by {
                    assert(rest[k] == s[k + 1]);
                }
            }
            lemma_replaced_without_digits(rest, from, to);
            assert(seq![s[0]] + rest =~= s);
        }
    }
}

/// Where replacing by a text that holds a digit gives a text that holds
/// none, it has replaced nothing.
pub proof fn lemma_replaced_to_no_digits(s: Seq<u8>, from: Seq<u8>, to: Seq<u8>)
    requires
        digit_free(replaced(s, from, to)),
        from.len() > 0,
        to.len() > 0,
        is_digit(to.last()),
    ensures
        replaced(s, from, to) == s,
    decreases s.len(),
{
    if s.len() > 0 {
        let whole = replaced(s, from, to);
        if from.is_prefix_of(s) {
            assert(whole[to.len() - 1] == to.last());
        } else {
            let rest = s.skip(1);
            let tail = replaced(rest, from, to);
            assert(digit_free(tail)) by {
                assert forall|k: int| 0 <= k < tail.len() implies !is_digit(#[trigger] tail[k]) by {
                    assert(tail[k] == whole[k + 1]);
                }
            }
            lemma_replaced_to_no_digits(rest, from, to);
            assert(seq![s[0]] + rest =~= s);
        }
    }
}

/// Replacing a text that ends with a digit by another that does leaves the
/// ending of a text as it is, where the ending holds no digit.
pub proof fn lemma_replaced_ending(s: Seq<u8>, from: Seq<u8>, to: Seq<u8>, ending: Seq<u8>)
    requires
        from.len() > 0,
        to.len() > 0,
        is_digit(from.last()),
        is_digit(to.last()),
        digit_free(ending),
    ensures
        ending.is_suffix_of(replaced(s, from, to)) == ending.is_suffix_of(s),
    decreases s.len(),
{
    let whole = replaced(s, from, to);
    if s.len() > 0 {
        if from.is_prefix_of(s) {
            let rest = s.skip(from.len() as int);
            let tail = replaced(rest, from, to);
            lemma_replaced_ending(rest, from, to, ending);
            assert(whole == to + tail);
            assert(s =~= from + rest);
            assert(is_digit(s[from.len() - 1])) by {
                assert(from.last() == s.subrange(0, from.len() as int)[from.len() - 1]);
            }
            lemma_ending_after_digit(s, from.len() as int, ending);
            assert(s.subrange(from.len() as int, s.len() as int) =~= rest);
            assert(whole[to.len() - 1] == to.last());
            lemma_ending_after_digit(whole, to.len() as int, ending);
            assert(whole.subrange(to.len() as int, whole.len() as int) =~= tail);
        } else {
            let rest = s.skip(1);
            let tail = replaced(rest, from, to);
            lemma_replaced_ending(rest, from, to, ending);
            assert(whole == seq![s[0]] + tail);
            assert(s =~= seq![s[0]] + rest);
            if ending.is_suffix_of(whole) {
                if ending.len() <= tail.len() {
                    assert(ending.is_suffix_of(tail)) by {
                        assert(ending =~= tail.subrange(
                            tail.len() - ending.len(),
                            tail.len() as int,
                        )) by {
                            assert forall|k: int| 0 <= k < ending.len() implies ending[k]
                                == tail[tail.len() - ending.len() + k] by {
                                assert(ending[k] == whole.subrange(
                                    whole.len() - ending.len(),
                                    whole.len() as int,
                                )[k]);
                            }
                        }
                    }
                    assert(ending.is_suffix_of(rest));
                    assert(ending.is_suffix_of(s)) by {
                        assert(ending =~= s.subrange(s.len() - ending.len(), s.len() as int)) by {
                            assert forall|k: int| 0 <= k < ending.len() implies ending[k]
                                == s[s.len() - ending.len() + k] by {
                                assert(ending[k] == rest.subrange(
                                    rest.len() - ending.len(),
                                    rest.len() as int,
                                )[k]);
                            }
                        }
                    }
                } else {
                    assert(ending =~= whole);
                    lemma_replaced_to_no_digits(s, from, to);
                }
            }
            if ending.is_suffix_of(s) {
                if ending.len() <= rest.len() {
                    assert(ending.is_suffix_of(rest)) by {
                        assert(ending =~= rest.subrange(
                            rest.len() - ending.len(),
                            rest.len() as int,
                        )) by {
                            assert forall|k: int| 0 <= k < ending.len() implies ending[k]
                                == rest[rest.len() - ending.len() + k] by {
                                assert(ending[k] == s.subrange(
                                    s.len() - ending.len(),
                                    s.len() as int,
                                )[k]);
                            }
                        }
                    }
                    assert(ending.is_suffix_of(tail));
                    assert(ending.is_suffix_of(whole)) by {
                        assert(ending =~= whole.subrange(
                            whole.len() - ending.len(),
                            whole.len() as int,
                        )) by {
                            assert forall|k: int| 0 <= k < ending.len() implies ending[k]
                                == whole[whole.len() - ending.len() + k] by {
                                assert(ending[k] == tail.subrange(
                                    tail.len() - ending.len(),
                                    tail.len() as int,
                                )[k]);
                            }
                        }
                    }
                } else {
                    assert(ending =~= s);
                    lemma_replaced_without_digits(s, from, to);
                }
            }
        }
    }
}

} // verus!
